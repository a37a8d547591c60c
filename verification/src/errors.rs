//! Errors that the injectors and the advice provider report.

use crate::field::{Felt, Word};
use vstd::prelude::*;

verus! {

/// Why an interpolation request was turned down.
#[derive(Clone, Copy, Debug, PartialEq, Eq)]
pub enum Ext2InttError {
    /// The domain holds fewer than two evaluations.
    DomainSizeTooSmall(u64),
    /// The number of evaluations is not a power of two.
    DomainSizeNotPowerOf2(u64),
    /// The address of the first evaluation is greater than 2^32.
    InputStartAddressTooBig(u64),
    /// There are more evaluations than a 32-bit counter can hold.
    InputSizeTooBig(u64),
    /// The address after the last evaluation is greater than 2^32.
    InputEndAddressTooBig(u64),
    /// No coefficient was asked for.
    OutputSizeIsZero,
    /// More coefficients were asked for than there are evaluations.
    OutputSizeTooBig(usize, usize),
    /// A word that should hold two evaluations was never written.
    UninitializedMemoryAddress(u32),
}

/// Why an injector failed.
#[derive(Clone, Copy, Debug, PartialEq, Eq)]
pub enum ExecutionError {
    /// The advice map has no entry for the key.
    AdviceMapKeyNotFound(Word),
    /// The advice stack does not hold a whole word.
    AdviceStackReadFailed,
    /// Division by zero at the given clock cycle.
    DivideByZero(u32),
    /// An interpolation request was turned down.
    Ext2InttError(Ext2InttError),
    /// A word cannot be read at this offset from the top of the operand stack.
    InvalidStackWordOffset(usize),
    /// The depth of the leaf on the path to `index` is not known for the tree with this root.
    LeafDepthNotFound { root: Word, tree_depth: Felt, index: Felt },
    /// The node at this place is not known for the tree with this root.
    TreeNodeNotFound { root: Word, depth: Felt, index: Felt },
}

impl From<Ext2InttError> for ExecutionError {
    fn from(value: Ext2InttError) -> (error: Self) {
        ExecutionError::Ext2InttError(value)
    }
}

impl vstd::std_specs::convert::FromSpecImpl<Ext2InttError> for ExecutionError {
    open spec fn obeys_from_spec() -> bool {
        true
    }

    open spec fn from_spec(value: Ext2InttError) -> Self {
        ExecutionError::Ext2InttError(value)
    }
}

} // verus!
