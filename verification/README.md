# advice_injectors

Injectors that compute or look up values and push them onto the advice stack of a virtual machine,
verified with Verus.

- `src/injectors.rs`, `src/intt.rs`, `src/smt_injectors.rs`: the injectors, as methods of `Process`.
- `src/process.rs`, `src/stack.rs`, `src/memory.rs`: the state of the machine that they read.
- `src/advice.rs`: what they ask of an advice provider; `src/mem_advice.rs`: a provider in memory.
- `src/field.rs`, `src/ntt.rs`, `src/smt.rs`: the field and its quadratic extension, interpolation,
  and the tiers of sparse Merkle trees.
- `src/laws.rs`, `src/interpolation.rs`: what holds of the injectors as a whole.

Four functions are trusted rather than proved: the inversion in the extension field and the two
steps of interpolation come from `winter-math`, the roots of empty subtrees from `miden-crypto`.
Each has a contract and a comment on what it claims: `field::quad_inverse`,
`ntt::get_inv_twiddles`, `ntt::interpolate_poly` and `smt::empty_hashes`.
