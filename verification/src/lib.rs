//! Advice injectors of a virtual machine with an operand stack.
//!
//! Programs of the machine can ask for advice: values that are cheap to check and dear to compute.
//! The injectors compute such values, or look them up, and push them onto the advice stack:
//!
//! - nodes of Merkle trees and entries of the advice map ([`injectors`]),
//! - quotients and remainders of 64-bit integers ([`injectors`]),
//! - inverses in the quadratic extension of the field ([`injectors`]),
//! - coefficients of polynomials that interpolate values in memory ([`intt`]),
//! - what reading from and writing to a tiered sparse Merkle tree takes ([`smt_injectors`]).
//!
//! They are methods of [`process::Process`], and work with any [`advice::AdviceProvider`].

pub mod advice;
pub mod advice_laws;
pub mod errors;
pub mod field;
pub mod injectors;
pub mod interpolation;
pub mod intt;
pub mod intt_laws;
pub mod laws;
pub mod mem_advice;
pub mod memory;
pub mod ntt;
pub mod process;
pub mod smt;
pub mod smt_injectors;
pub mod smt_laws;
pub mod stack;
