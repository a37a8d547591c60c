//! Tiers of a sparse Merkle tree.
//!
//! Leaves of the tree are found at four depths only: 16, 32, 48 and 64.

use crate::field::{Felt, Word};
use miden_crypto::merkle::EmptySubtreeRoots;
use miden_crypto::StarkField;
use vstd::prelude::*;

verus! {

/// Greatest depth of a sparse Merkle tree.
pub const SMT_MAX_TREE_DEPTH: u64 = 64;

/// The tier of each depth.
const SMT_NORMALIZED_DEPTHS: [u8; 65] = [
    16, 16, 16, 16, 16, 16, 16, 16, 16, 16, 16, 16, 16, 16, 16, 16, 16, 32, 32, 32, 32, 32, 32, 32,
    32, 32, 32, 32, 32, 32, 32, 32, 32, 48, 48, 48, 48, 48, 48, 48, 48, 48, 48, 48, 48, 48, 48, 48,
    48, 64, 64, 64, 64, 64, 64, 64, 64, 64, 64, 64, 64, 64, 64, 64, 64,
];

/// The least of the depths 16, 32, 48 and 64 that `depth` does not exceed.
pub open spec fn tier(depth: u8) -> u8 {
    if depth <= 16 {
        16
    } else if depth <= 32 {
        32
    } else if depth <= 48 {
        48
    } else {
        64
    }
}

/// Rounds a depth up to its tier.
pub fn normalize_depth(depth: u8) -> (normalized: u8)
    requires
        depth <= 64,
    ensures
        normalized == tier(depth),
{
    SMT_NORMALIZED_DEPTHS[depth as usize]
}

/// The first `n` of the 64 bits of `value`.
pub open spec fn top_bits(value: u64, n: u8) -> u64 {
    value >> ((64 - n) as u64)
}

/// The number of leading bits in which the last elements of two keys agree.
pub fn get_common_prefix(key1: &Word, key2: &Word) -> (prefix: u8)
    ensures
        prefix <= 64,
        forall|n: u8|
            n <= 64 ==> (#[trigger] top_bits(key1[3].value, n) == top_bits(key2[3].value, n) <==> n
                <= prefix),
{
    let k1: u64 = key1[3].as_int();
    let k2: u64 = key2[3].as_int();
    let prefix: u8 = (k1 ^ k2).leading_zeros() as u8;
    proof {
        vstd::std_specs::bits::axiom_u64_leading_zeros(k1 ^ k2);
        let z = prefix as u64;
        let (t, u) = ((64 - z) as u64, (63 - z) as u64);
        assert forall|n: u8| n <= 64 implies (#[trigger] top_bits(k1, n) == top_bits(k2, n) <==> n
            <= prefix) by {
            let m = n as u64;
            let s = (64 - n) as u64;
            assert((k1 >> s == k2 >> s) <==> m <= z) by (bit_vector)
                requires
                    m <= 64,
                    s == 64 - m,
                    z <= 64,
                    t == 64 - z,
                    (k1 ^ k2) >> t == 0,
                    z < 64 ==> u == 63 - z && ((k1 ^ k2) >> u) & 1 != 0,
            ;
        }
    }
    prefix
}

/// The roots that `EmptySubtreeRoots::empty_hashes` returns for a tree of this depth.
pub uninterp spec fn empty_subtree_roots(tree_depth: u8) -> Seq<Word>;

/// Calls `EmptySubtreeRoots::empty_hashes` of the `miden-crypto` crate.
///
/// Trusted: the result is a function of the depth of the tree, and holds one root for each depth
/// from zero to that of the tree.
#[verifier::external_body]
pub(crate) fn empty_hashes(tree_depth: u8) -> (roots: Vec<Word>)
    ensures
        roots@ == empty_subtree_roots(tree_depth),
        roots@.len() == tree_depth + 1,
{
    EmptySubtreeRoots::empty_hashes(tree_depth).iter().map(|root| root.as_elements()).map(
        |e| {
            [
                Felt { value: e[0].as_int() },
                Felt { value: e[1].as_int() },
                Felt { value: e[2].as_int() },
                Felt { value: e[3].as_int() },
            ]
        },
    ).collect()
}

} // verus!
