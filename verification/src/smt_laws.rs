//! What reads from and writes to a sparse Merkle tree look up and push, element by element.

use crate::advice::{
    push_run, value_sources, word_sources, AdviceProvider, AdviceSource, AdviceView,
};
use crate::errors::ExecutionError;
use crate::field::{Felt, Word};
use crate::mem_advice::MemAdviceProvider;
use crate::smt::top_bits;
use crate::smt_injectors::{
    above_bottom_tier, leaf_key, leaf_stack, lemma_smtget_stack, lemma_smtinsert_stack, node_at,
    smtget_sources, smtinsert_flags, smtinsert_inputs_known, smtinsert_inputs_outcome,
    smtinsert_inputs_supported, smtinsert_outcome, smtinsert_supported, tier_node,
};
use vstd::arithmetic::power2::pow2;
use vstd::prelude::*;

verus! {

/// The first `n` bits of a 64-bit integer are the integer without its last 64 - `n` bits.
pub proof fn law_leading_bits(value: u64, n: u8)
    requires
        n <= 64,
    ensures
        top_bits(value, n) == value as nat / pow2((64 - n) as nat),
{
    if n == 0 {
        vstd::arithmetic::power2::lemma2_to64_rest();
        assert(value >> 64 == 0) by (bit_vector);
        assert(value as nat / 0x1_0000_0000_0000_0000 == 0);
    } else {
        vstd::bits::lemma_u64_shr_is_div(value, (64 - n) as u64);
    }
}

/// A path that is known to end above depth 49 is followed to the tier of its end: depth 16, 32 or
/// 48. The node on it there has as its index the leading bits of the last element of the key. What
/// cannot be looked up is an error, and the error of the look-up is passed on.
pub proof fn law_end_of_path(advice: AdviceView, key: Word, root: Word)
    ensures
        ({
            let v = key[3].value;
            match (advice.leaf_depths)(root, Felt { value: 64 }, key[3]) {
                Err(error) => tier_node(advice, key, root) == Err::<(u8, Word), ExecutionError>(
                    error,
                ),
                Ok(end) => end <= 48 ==> {
                    let (depth, index): (u8, u64) = if end <= 16 {
                        (16, v / 0x1_0000_0000_0000)
                    } else if end <= 32 {
                        (32, v / 0x1_0000_0000)
                    } else {
                        (48, v / 0x1_0000)
                    };
                    let node = (advice.nodes)(
                        root,
                        Felt { value: depth as u64 },
                        Felt { value: index },
                    );
                    tier_node(advice, key, root) == match node {
                        Ok(node) => Ok::<(u8, Word), ExecutionError>((depth, node)),
                        Err(error) => Err(error),
                    }
                },
            }
        }),
        above_bottom_tier(advice, key, root) <==> match (advice.leaf_depths)(
            root,
            Felt { value: 64 },
            key[3],
        ) {
            Ok(end) => end <= 48,
            Err(_) => true,
        },
{
    lemma_leading_bits(key[3].value);
}

/// The leading bits that serve as indexes at the three upper tiers.
proof fn lemma_leading_bits(value: u64)
    ensures
        top_bits(value, 16) == value / 0x1_0000_0000_0000,
        top_bits(value, 32) == value / 0x1_0000_0000,
        top_bits(value, 48) == value / 0x1_0000,
{
    assert(value >> 48 == value / 0x1_0000_0000_0000) by (bit_vector);
    assert(value >> 32 == value / 0x1_0000_0000) by (bit_vector);
    assert(value >> 16 == value / 0x1_0000) by (bit_vector);
}

/// What a read pushes, in this order. For a key that is not stored: nine zeros and two flags for the
/// tier. For a key that is stored: a flag that tells whether the key is not zero, the leaf's list,
/// and two flags for the tier. For a leaf that the advice map does not hold, the first flag is one.
pub proof fn law_pushes_of_a_read(
    advice: AdviceView,
    key: Word,
    depth: u8,
    node: Word,
    empty_root: Word,
)
    ensures
        ({
            let sources = smtget_sources(advice, key, depth, node, empty_root);
            let list = advice.map[node];
            let held = advice.map.dom().contains(node);
            let starts = list.len() >= 4 && list[0] == key[0] && list[1] == key[1] && list[2]
                == key[2] && list[3] == key[3];
            let zero = key[0].value == 0 && key[1].value == 0 && key[2].value == 0 && key[3].value
                == 0;
            let one_if = |c: bool|
                AdviceSource::Value(
                    Felt {
                        value: if c {
                            1
                        } else {
                            0
                        },
                    },
                );
            let (f0, f1) = (one_if(depth == 16 || depth == 48), one_if(depth == 16 || depth == 32));
            if node == empty_root || (held && !starts) {
                &&& sources.len() == 11
                &&& forall|i: int| 0 <= i < 9 ==> #[trigger] sources[i] == one_if(false)
                &&& sources[9] == f1 && sources[10] == f0
            } else {
                sources == seq![
                    one_if(!(held && zero)),
                    AdviceSource::MapEntry { key: node, include_len: false },
                    f1,
                    f0,
                ]
            }
        }),
{
    let sources = smtget_sources(advice, key, depth, node, empty_root);
    let list = advice.map[node];
    if list.len() >= 4 {
        assert(list.subrange(0, 4)[0] == list[0]);
        assert(list.subrange(0, 4)[1] == list[1]);
        assert(list.subrange(0, 4)[2] == list[2]);
        assert(list.subrange(0, 4)[3] == list[3]);
        assert(key@[0] == key[0] && key@[1] == key[1] && key@[2] == key[2] && key@[3] == key[3]);
        if list[0] == key[0] && list[1] == key[1] && list[2] == key[2] && list[3] == key[3] {
            assert(key@ =~= list.subrange(0, 4));
        }
    }
    let zeros = [Felt { value: 0 }, Felt { value: 0 }, Felt { value: 0 }, Felt { value: 0 }];
    if key[0].value == 0 && key[1].value == 0 && key[2].value == 0 && key[3].value == 0 {
        assert(key =~= zeros);
    } else {
        assert(key != zeros);
    }
}

/// What a write pushes, in this order, and onto what. In an empty subtree: the node one tier up from
/// its last element to its first, unless the tier is at depth 16, then a zero, a one and two flags
/// for the tier. In a leaf, once its list has been pushed and a word popped: if this word is the
/// key, a one, two flags for the tier and a zero; if not, the word again from its last element to
/// its first, two zeros and two flags for the tier.
pub proof fn law_pushes_of_a_write<A: AdviceProvider>(
    advice: AdviceView,
    key: Word,
    root: Word,
    depth: u8,
    node: Word,
    empty_root: Word,
)
    requires
        depth == 16 || depth == 32 || depth == 48,
    ensures
        ({
            let outcome = smtinsert_outcome::<A>(advice, key, root, depth, node, empty_root);
            let element = |f: Felt| AdviceSource::Value(f);
            let one_if = |c: bool|
                AdviceSource::Value(
                    Felt {
                        value: if c {
                            1
                        } else {
                            0
                        },
                    },
                );
            let (f0, f1) = (one_if(depth != 32), one_if(depth != 48));
            let v = key[3].value;
            let parent = if depth == 32 {
                (advice.nodes)(root, Felt { value: 16 }, Felt { value: v / 0x1_0000_0000_0000 })
            } else {
                (advice.nodes)(root, Felt { value: 32 }, Felt { value: v / 0x1_0000_0000 })
            };
            let list = advice.map[node] + advice.stack;
            let entry = AdviceSource::MapEntry { key: node, include_len: false };
            let readable = A::push_refusal(advice, entry) is None && A::pop_refusal(
                AdviceView { stack: list, ..advice },
            ) is None;
            let popped = AdviceView { stack: list.skip(4), ..advice };
            let same = list[0] == key[0] && list[1] == key[1] && list[2] == key[2] && list[3]
                == key[3];
            &&& node == empty_root && depth == 16 ==> outcome == push_run::<A>(
                advice,
                seq![one_if(false), one_if(true), f1, f0],
            )
            &&& node == empty_root && depth != 16 && parent is Ok ==> {
                let p = parent->Ok_0;
                outcome == push_run::<A>(
                    advice,
                    seq![
                        element(p[3]),
                        element(p[2]),
                        element(p[1]),
                        element(p[0]),
                        one_if(false),
                        one_if(true),
                        f1,
                        f0,
                    ],
                )
            }
            &&& node == empty_root && depth != 16 && parent is Err ==> outcome == (
                advice,
                Err::<(), ExecutionError>(parent->Err_0),
            )
            &&& node != empty_root && readable && same ==> outcome == push_run::<A>(
                popped,
                seq![one_if(true), f1, f0, one_if(false)],
            )
            &&& node != empty_root && readable && !same ==> outcome == push_run::<A>(
                popped,
                seq![
                    element(list[3]),
                    element(list[2]),
                    element(list[1]),
                    element(list[0]),
                    one_if(false),
                    one_if(false),
                    f1,
                    f0,
                ],
            )
        }),
{
    let one_if = |c: bool|
        AdviceSource::Value(
            Felt {
                value: if c {
                    1
                } else {
                    0
                },
            },
        );
    let (f0, f1) = (one_if(depth != 32), one_if(depth != 48));
    let list = advice.map[node] + advice.stack;
    lemma_leading_bits(key[3].value);
    lemma_same_key(list, key);
    let simple = value_sources(smtinsert_flags(false, true, depth));
    let moved = value_sources(smtinsert_flags(false, false, depth));
    assert(simple =~= seq![one_if(false), one_if(true), f1, f0]);
    assert(moved =~= seq![one_if(false), one_if(false), f1, f0]);
    assert(value_sources(smtinsert_flags(true, false, depth)) =~= seq![
        one_if(true),
        f1,
        f0,
        one_if(false),
    ]);
    let other = [list[0], list[1], list[2], list[3]];
    assert(word_sources(other) + moved =~= seq![
        AdviceSource::Value(list[3]),
        AdviceSource::Value(list[2]),
        AdviceSource::Value(list[1]),
        AdviceSource::Value(list[0]),
        one_if(false),
        one_if(false),
        f1,
        f0,
    ]);
    match node_at(advice, key, root, (depth - 16) as u8) {
        Ok(p) => {
            assert(word_sources(p) + simple =~= seq![
                AdviceSource::Value(p[3]),
                AdviceSource::Value(p[2]),
                AdviceSource::Value(p[1]),
                AdviceSource::Value(p[0]),
                one_if(false),
                one_if(true),
                f1,
                f0,
            ]);
        },
        Err(_) => {},
    }
}

/// A key that is stored is found. If the path to it ends in a node that is not the root of an empty
/// subtree, and the advice map holds a list under this node that starts with the key, then a read
/// pushes two flags for the tier, the whole list, and one flag that tells whether the key is not
/// zero. It succeeds with any provider that refuses neither single elements nor this list.
pub proof fn law_stored_key_is_read<A: AdviceProvider>(
    advice: AdviceView,
    key: Word,
    depth: u8,
    node: Word,
    empty_root: Word,
)
    requires
        node != empty_root,
        advice.map.dom().contains(node),
        advice.map[node].len() >= 4,
        forall|j: int| 0 <= j < 4 ==> #[trigger] advice.map[node][j] == key[j],
    ensures
        ({
            let list = advice.map[node];
            let n = list.len() as int;
            let (after, result) = push_run::<A>(
                advice,
                smtget_sources(advice, key, depth, node, empty_root),
            );
            let zero = key[0].value == 0 && key[1].value == 0 && key[2].value == 0 && key[3].value
                == 0;
            &&& {
                &&& forall|a: AdviceView, v: Felt|
                    (#[trigger] A::push_refusal(a, AdviceSource::Value(v))) is None
                &&& forall|a: AdviceView|
                    a.map == advice.map ==> (#[trigger] A::push_refusal(
                        a,
                        AdviceSource::MapEntry { key: node, include_len: false },
                    )) is None
            } ==> result is Ok
            &&& result is Ok ==> {
                &&& after.stack.len() == 3 + n + advice.stack.len()
                &&& after.stack[0].value == if depth == 16 || depth == 48 {
                    1u64
                } else {
                    0u64
                }
                &&& after.stack[1].value == if depth == 16 || depth == 32 {
                    1u64
                } else {
                    0u64
                }
                &&& forall|i: int| 0 <= i < n ==> #[trigger] after.stack[2 + i] == list[i]
                &&& after.stack[2 + n].value == if zero {
                    0u64
                } else {
                    1u64
                }
                &&& forall|i: int|
                    0 <= i < advice.stack.len() ==> #[trigger] after.stack[3 + n + i]
                        == advice.stack[i]
                &&& after.map == advice.map && after.trees == advice.trees
                &&& after.nodes == advice.nodes && after.leaf_depths == advice.leaf_depths
            }
        }),
{
    assert(key@ =~= advice.map[node].subrange(0, 4));
    let zeros = [Felt { value: 0 }, Felt { value: 0 }, Felt { value: 0 }, Felt { value: 0 }];
    if key[0].value == 0 && key[1].value == 0 && key[2].value == 0 && key[3].value == 0 {
        assert(key =~= zeros);
    } else {
        assert(key != zeros);
    }
    lemma_smtget_stack::<A>(advice, key, depth, node, empty_root);
}

/// A key that is not stored is not found. If the path to it ends in the root of an empty subtree, or
/// in a node under which the advice map holds a list that does not start with the key, then a read
/// pushes two flags for the tier and nine zeros. It succeeds with any provider that refuses no
/// single element.
pub proof fn law_absent_key_is_read_as_zeros<A: AdviceProvider>(
    advice: AdviceView,
    key: Word,
    depth: u8,
    node: Word,
    empty_root: Word,
)
    requires
        node == empty_root || (advice.map.dom().contains(node) && (advice.map[node].len() < 4
            || advice.map[node][0] != key[0] || advice.map[node][1] != key[1]
            || advice.map[node][2] != key[2] || advice.map[node][3] != key[3])),
    ensures
        ({
            let (after, result) = push_run::<A>(
                advice,
                smtget_sources(advice, key, depth, node, empty_root),
            );
            &&& (forall|a: AdviceView, v: Felt|
                (#[trigger] A::push_refusal(a, AdviceSource::Value(v))) is None) ==> result is Ok
            &&& result is Ok ==> {
                &&& after.stack.len() == 11 + advice.stack.len()
                &&& after.stack[0].value == if depth == 16 || depth == 48 {
                    1u64
                } else {
                    0u64
                }
                &&& after.stack[1].value == if depth == 16 || depth == 32 {
                    1u64
                } else {
                    0u64
                }
                &&& forall|i: int| 2 <= i < 11 ==> (#[trigger] after.stack[i]).value == 0
                &&& forall|i: int|
                    0 <= i < advice.stack.len() ==> #[trigger] after.stack[11 + i]
                        == advice.stack[i]
                &&& after.map == advice.map && after.trees == advice.trees
                &&& after.nodes == advice.nodes && after.leaf_depths == advice.leaf_depths
            }
        }),
{
    let list = advice.map[node];
    if list.len() >= 4 {
        assert(list.subrange(0, 4)[0] == list[0]);
        assert(list.subrange(0, 4)[1] == list[1]);
        assert(list.subrange(0, 4)[2] == list[2]);
        assert(list.subrange(0, 4)[3] == list[3]);
        assert(key@[0] == key[0] && key@[1] == key[1] && key@[2] == key[2] && key@[3] == key[3]);
    }
    lemma_smtget_stack::<A>(advice, key, depth, node, empty_root);
}

/// A read that ends in a leaf that the advice map does not hold fails. With the provider in memory,
/// the error names the leaf, and a flag of one stays behind.
pub proof fn law_missing_leaf_is_an_error<A: AdviceProvider>(
    advice: AdviceView,
    key: Word,
    depth: u8,
    node: Word,
    empty_root: Word,
)
    requires
        node != empty_root,
        !advice.map.dom().contains(node),
    ensures
        push_run::<A>(advice, smtget_sources(advice, key, depth, node, empty_root)).1 is Err,
        push_run::<MemAdviceProvider>(
            advice,
            smtget_sources(advice, key, depth, node, empty_root),
        ) == (
            (AdviceView { stack: seq![Felt { value: 1 }] + advice.stack, ..advice }),
            Err::<(), ExecutionError>(ExecutionError::AdviceMapKeyNotFound(node)),
        ),
{
    lemma_smtget_stack::<A>(advice, key, depth, node, empty_root);
    let sources = smtget_sources(advice, key, depth, node, empty_root);
    let first = advice.with_stack(seq![Felt { value: 1 }] + advice.stack);
    assert(sources[0] == AdviceSource::Value(Felt { value: 1 }));
    assert(sources.drop_first()[0] == AdviceSource::MapEntry { key: node, include_len: false });
    assert(push_run::<MemAdviceProvider>(advice, sources) == push_run::<MemAdviceProvider>(
        first,
        sources.drop_first(),
    ));
}

/// A write that ends in an empty subtree pushes two flags for the tier, a one for a simple insertion
/// and a zero for no update. Below them lies, unless the tier is at depth 16, the node on the path
/// one tier up, its first element on top; if it cannot be looked up, that is the error.
pub proof fn law_simple_insertion<A: AdviceProvider>(
    advice: AdviceView,
    key: Word,
    root: Word,
    depth: u8,
    node: Word,
)
    requires
        depth == 16 || depth == 32 || depth == 48,
    ensures
        ({
            let (after, result) = smtinsert_outcome::<A>(advice, key, root, depth, node, node);
            let v = key[3].value;
            let parent = if depth == 32 {
                (advice.nodes)(root, Felt { value: 16 }, Felt { value: v / 0x1_0000_0000_0000 })
            } else {
                (advice.nodes)(root, Felt { value: 32 }, Felt { value: v / 0x1_0000_0000 })
            };
            let n: int = if depth == 16 {
                0
            } else {
                4
            };
            if depth != 16 && parent is Err {
                after == advice && result == Err::<(), ExecutionError>(parent->Err_0)
            } else {
                &&& (forall|a: AdviceView, v: Felt|
                    (#[trigger] A::push_refusal(a, AdviceSource::Value(v))) is None)
                    ==> result is Ok
                &&& result is Ok ==> {
                    &&& after.stack.len() == 4 + n + advice.stack.len()
                    &&& after.stack[0].value == if depth == 32 {
                        0u64
                    } else {
                        1u64
                    }
                    &&& after.stack[1].value == if depth == 48 {
                        0u64
                    } else {
                        1u64
                    }
                    &&& after.stack[2].value == 1
                    &&& after.stack[3].value == 0
                    &&& depth != 16 ==> forall|j: int|
                        0 <= j < 4 ==> #[trigger] after.stack[4 + j] == parent->Ok_0[j]
                    &&& forall|i: int|
                        0 <= i < advice.stack.len() ==> #[trigger] after.stack[4 + n + i]
                            == advice.stack[i]
                    &&& after.map == advice.map && after.trees == advice.trees
                    &&& after.nodes == advice.nodes && after.leaf_depths == advice.leaf_depths
                }
            }
        }),
{
    lemma_leading_bits(key[3].value);
    lemma_smtinsert_stack::<A>(advice, key, root, depth, node, node);
}

/// A write that ends in a leaf with the same key pushes a zero, two flags for the tier and a one for
/// an update. Below them lies what the leaf's list holds after the key: the old value.
pub proof fn law_update<A: AdviceProvider>(
    advice: AdviceView,
    key: Word,
    root: Word,
    depth: u8,
    node: Word,
    empty_root: Word,
)
    requires
        node != empty_root,
        advice.map.dom().contains(node),
        advice.map[node].len() >= 4,
        forall|j: int| 0 <= j < 4 ==> #[trigger] advice.map[node][j] == key[j],
    ensures
        ({
            let list = advice.map[node];
            let n = list.len() as int;
            let (after, result) = smtinsert_outcome::<A>(
                advice,
                key,
                root,
                depth,
                node,
                empty_root,
            );
            &&& {
                &&& A::push_refusal(
                    advice,
                    AdviceSource::MapEntry { key: node, include_len: false },
                ) is None
                &&& A::pop_refusal(AdviceView { stack: list + advice.stack, ..advice }) is None
                &&& forall|a: AdviceView, v: Felt|
                    (#[trigger] A::push_refusal(a, AdviceSource::Value(v))) is None
            } ==> result is Ok
            &&& result is Ok ==> {
                &&& after.stack.len() == n + advice.stack.len()
                &&& after.stack[0].value == 0
                &&& after.stack[1].value == if depth == 16 || depth == 48 {
                    1u64
                } else {
                    0u64
                }
                &&& after.stack[2].value == if depth == 16 || depth == 32 {
                    1u64
                } else {
                    0u64
                }
                &&& after.stack[3].value == 1
                &&& forall|i: int| 4 <= i < n ==> #[trigger] after.stack[i] == list[i]
                &&& forall|i: int|
                    0 <= i < advice.stack.len() ==> #[trigger] after.stack[n + i]
                        == advice.stack[i]
                &&& after.map == advice.map && after.trees == advice.trees
                &&& after.nodes == advice.nodes && after.leaf_depths == advice.leaf_depths
            }
        }),
{
    let list = advice.map[node];
    assert forall|j: int| 0 <= j < 4 implies leaf_stack(advice, node)[j] == key[j] by {
        assert(list[j] == key[j]);
    }
    assert(leaf_key(advice, node) =~= key);
    lemma_smtinsert_stack::<A>(advice, key, root, depth, node, empty_root);
}

/// A write that ends at depth 16 in a leaf with another key pushes two ones for the tier and two
/// zeros, for neither an update nor a simple insertion. Below them lies the leaf's whole list: its
/// key and its value.
pub proof fn law_moved_leaf_is_kept_whole<A: AdviceProvider>(
    advice: AdviceView,
    key: Word,
    root: Word,
    node: Word,
    empty_root: Word,
)
    requires
        node != empty_root,
        advice.map.dom().contains(node),
        advice.map[node].len() >= 4,
        advice.map[node][0] != key[0] || advice.map[node][1] != key[1] || advice.map[node][2]
            != key[2] || advice.map[node][3] != key[3],
    ensures
        ({
            let list = advice.map[node];
            let n = list.len() as int;
            let (after, result) = smtinsert_outcome::<A>(advice, key, root, 16, node, empty_root);
            &&& {
                &&& A::push_refusal(
                    advice,
                    AdviceSource::MapEntry { key: node, include_len: false },
                ) is None
                &&& A::pop_refusal(AdviceView { stack: list + advice.stack, ..advice }) is None
                &&& forall|a: AdviceView, v: Felt|
                    (#[trigger] A::push_refusal(a, AdviceSource::Value(v))) is None
            } ==> result is Ok
            &&& result is Ok ==> {
                &&& after.stack.len() == 4 + n + advice.stack.len()
                &&& after.stack[0].value == 1 && after.stack[1].value == 1
                &&& after.stack[2].value == 0 && after.stack[3].value == 0
                &&& forall|i: int| 0 <= i < n ==> #[trigger] after.stack[4 + i] == list[i]
                &&& forall|i: int|
                    0 <= i < advice.stack.len() ==> #[trigger] after.stack[4 + n + i]
                        == advice.stack[i]
                &&& after.map == advice.map && after.trees == advice.trees
                &&& after.nodes == advice.nodes && after.leaf_depths == advice.leaf_depths
            }
        }),
{
    let other = leaf_key(advice, node);
    assert(other[0] == advice.map[node][0] && other[1] == advice.map[node][1]);
    assert(other[2] == advice.map[node][2] && other[3] == advice.map[node][3]);
    lemma_smtinsert_stack::<A>(advice, key, root, 16, node, empty_root);
}

/// If the list in a leaf cannot be pushed, a write that ends there changes nothing; if no word can
/// be popped from it, the list stays on the stack. Either way the reason is the error.
pub proof fn law_write_to_an_unreadable_leaf<A: AdviceProvider>(
    advice: AdviceView,
    key: Word,
    root: Word,
    depth: u8,
    node: Word,
    empty_root: Word,
)
    requires
        node != empty_root,
    ensures
        ({
            let outcome = smtinsert_outcome::<A>(advice, key, root, depth, node, empty_root);
            let pushed = AdviceView { stack: advice.map[node] + advice.stack, ..advice };
            let entry = AdviceSource::MapEntry { key: node, include_len: false };
            match (A::push_refusal(advice, entry), A::pop_refusal(pushed)) {
                (Some(error), _) => outcome == (advice, Err::<(), ExecutionError>(error)),
                (None, Some(error)) => outcome == (pushed, Err::<(), ExecutionError>(error)),
                (None, None) => true,
            }
        }),
{
}

/// A write follows the path to its key to the end, and is made there against the root of an empty
/// subtree of the same depth. A path that cannot be followed changes nothing, and the error is
/// passed on.
pub proof fn law_write_at_the_end_of_the_path<A: AdviceProvider>(
    advice: AdviceView,
    key: Word,
    root: Word,
    roots: Seq<Word>,
)
    ensures
        smtinsert_inputs_outcome::<A>(advice, key, root, roots) == match tier_node(
            advice,
            key,
            root,
        ) {
            Err(error) => (advice, Err::<(), ExecutionError>(error)),
            Ok((depth, node)) => smtinsert_outcome::<A>(
                advice,
                key,
                root,
                depth,
                node,
                roots[depth as int],
            ),
        },
{
}

/// A write is supported that ends above depth 49 in an empty subtree, in a leaf that cannot be read,
/// in a leaf with the same key, or at depth 16 in a leaf whose key parts from the key within the
/// first 32 bits; no other is. The key of the leaf is what lies on top once its list is pushed.
pub proof fn law_supported_writes<A: AdviceProvider>(
    advice: AdviceView,
    key: Word,
    root: Word,
    depth: u8,
    node: Word,
    empty_root: Word,
    roots: Seq<Word>,
)
    ensures
        ({
            let pushed = advice.map[node] + advice.stack;
            let entry = AdviceSource::MapEntry { key: node, include_len: false };
            smtinsert_supported::<A>(advice, key, depth, node, empty_root) <==> {
                ||| node == empty_root
                ||| A::push_refusal(advice, entry) is Some
                ||| A::pop_refusal(AdviceView { stack: pushed, ..advice }) is Some
                ||| pushed[0] == key[0] && pushed[1] == key[1] && pushed[2] == key[2] && pushed[3]
                    == key[3]
                ||| depth == 16 && pushed[3].value / 0x1_0000_0000 != key[3].value / 0x1_0000_0000
            }
        }),
        smtinsert_inputs_supported::<A>(advice, key, root, roots) <==> above_bottom_tier(
            advice,
            key,
            root,
        ) && match tier_node(advice, key, root) {
            Ok((depth, node)) => smtinsert_supported::<A>(
                advice,
                key,
                depth,
                node,
                roots[depth as int],
            ),
            Err(_) => true,
        },
{
    let pushed = advice.map[node] + advice.stack;
    lemma_leading_bits(key[3].value);
    lemma_leading_bits(pushed[3].value);
    lemma_same_key(pushed, key);
}

/// The advice map shows that a write is supported if the path to its key ends above depth 49 in an
/// empty subtree, in a leaf that the map does not hold, in a leaf with the same key, or at depth 16
/// in a leaf whose key parts from the key within the first 32 bits, and only then; or if the path
/// cannot be followed.
pub proof fn law_writes_known_to_be_supported(
    advice: AdviceView,
    key: Word,
    root: Word,
    roots: Seq<Word>,
)
    ensures
        smtinsert_inputs_known(advice, key, root, roots) <==> above_bottom_tier(advice, key, root)
            && match tier_node(advice, key, root) {
            Err(_) => true,
            Ok((depth, node)) => {
                let list = advice.map[node];
                ||| node == roots[depth as int]
                ||| !advice.map.dom().contains(node)
                ||| list.len() >= 4 && list[0] == key[0] && list[1] == key[1] && list[2] == key[2]
                    && list[3] == key[3]
                ||| list.len() >= 4 && depth == 16 && list[3].value / 0x1_0000_0000 != key[3].value
                    / 0x1_0000_0000
            },
        },
{
    match tier_node(advice, key, root) {
        Ok((depth, node)) => {
            let pushed = advice.map[node] + advice.stack;
            lemma_leading_bits(key[3].value);
            lemma_leading_bits(pushed[3].value);
            lemma_same_key(pushed, key);
        },
        Err(_) => {},
    }
}

/// A word equals a key if its elements do.
proof fn lemma_same_key(pushed: Seq<Felt>, key: Word)
    ensures
        [pushed[0], pushed[1], pushed[2], pushed[3]] == key <==> pushed[0] == key[0] && pushed[1]
            == key[1] && pushed[2] == key[2] && pushed[3] == key[3],
{
    let word = [pushed[0], pushed[1], pushed[2], pushed[3]];
    assert(word[0] == pushed[0] && word[1] == pushed[1]);
    assert(word[2] == pushed[2] && word[3] == pushed[3]);
    if pushed[0] == key[0] && pushed[1] == key[1] && pushed[2] == key[2] && pushed[3] == key[3] {
        assert(word =~= key);
    }
}

} // verus!
