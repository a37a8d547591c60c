//! Injectors that prepare reading from and writing to a tiered sparse Merkle tree.

use crate::advice::{
    accepts_values, lemma_push_one, lemma_push_run_append, lemma_push_values, push_run,
    value_sources, word_sources, AdviceProvider, AdviceSource, AdviceView,
};
use crate::errors::ExecutionError;
use crate::field::{same_word, Felt, Word};
use crate::process::Process;
use crate::smt::{
    empty_hashes, empty_subtree_roots, get_common_prefix, normalize_depth, tier, top_bits,
    SMT_MAX_TREE_DEPTH,
};
use vstd::prelude::*;

verus! {

/// One if the condition holds, zero if not.
pub open spec fn flag(condition: bool) -> Felt {
    Felt { value: if condition { 1 } else { 0 } }
}

fn to_flag(condition: bool) -> (element: Felt)
    ensures
        element == flag(condition),
{
    if condition {
        Felt::new(1)
    } else {
        Felt::new(0)
    }
}

/// Whether a tier is at depth 16 or 48.
pub open spec fn is_16_or_48(depth: u8) -> Felt {
    flag(depth == 16 || depth == 48)
}

/// Whether a tier is at depth 16 or 32.
pub open spec fn is_16_or_32(depth: u8) -> Felt {
    flag(depth == 16 || depth == 32)
}

/// The index at `depth` of the node on the path to `key`.
pub open spec fn node_index(key: Word, depth: u8) -> Felt {
    Felt { value: top_bits(key[3].value, depth) }
}

fn get_node_index(key: &Word, depth: u8) -> (index: Felt)
    requires
        16 <= depth <= 48,
    ensures
        index == node_index(*key, depth),
{
    let value: u64 = key[3].as_int();
    let shift: u64 = (64 - depth) as u64;
    assert(value >> shift <= 0xFFFF_FFFF_FFFF) by (bit_vector)
        requires
            16 <= shift <= 48,
    ;
    Felt::new(value >> shift)
}

/// The answer to a request for the depth at which the path to `key` ends.
pub open spec fn leaf_depth(advice: AdviceView, key: Word, root: Word) -> Result<
    u8,
    ExecutionError,
> {
    (advice.leaf_depths)(root, Felt { value: SMT_MAX_TREE_DEPTH }, key[3])
}

/// The answer to a request for the node on the path to `key` at `depth`.
pub open spec fn node_at(advice: AdviceView, key: Word, root: Word, depth: u8) -> Result<
    Word,
    ExecutionError,
> {
    (advice.nodes)(root, Felt { value: depth as u64 }, node_index(key, depth))
}

/// The tier at which the path to `key` ends, and the node on the path at this tier.
pub open spec fn tier_node(advice: AdviceView, key: Word, root: Word) -> Result<
    (u8, Word),
    ExecutionError,
> {
    match leaf_depth(advice, key, root) {
        Err(error) => Err(error),
        Ok(depth) => {
            let tier = tier(depth);
            match node_at(advice, key, root, tier) {
                Err(error) => Err(error),
                Ok(node) => Ok((tier, node)),
            }
        },
    }
}

/// The path to `key` does not end at the bottom tier, as far as its end is known.
pub open spec fn above_bottom_tier(advice: AdviceView, key: Word, root: Word) -> bool {
    leaf_depth(advice, key, root) matches Ok(depth) ==> depth <= 48
}

/// The word of four zeros.
pub open spec fn zero_word() -> Word {
    [flag(false), flag(false), flag(false), flag(false)]
}

/// The tree holds no value for `key`, when the path to it ends in `node`: the node is the root of
/// an empty subtree, or a leaf that the advice map holds under another key.
pub open spec fn is_unmapped(advice: AdviceView, key: Word, node: Word, empty_root: Word) -> bool {
    node == empty_root || (advice.map.dom().contains(node) && !key@.is_prefix_of(advice.map[node]))
}

/// The flag that is pushed before the list in the leaf `node`: zero if the map holds the leaf and
/// its key is zero.
pub open spec fn leaf_flag(advice: AdviceView, key: Word, node: Word) -> Felt {
    flag(!(advice.map.dom().contains(node) && key == zero_word()))
}

/// What is pushed for a read of `key` that ends at the tier `depth` in `node`: a flag, the key and
/// the value in the leaf, and two flags for the tier. Key, value and the first flag are zeros if
/// the tree holds no value for the key.
pub open spec fn smtget_sources(
    advice: AdviceView,
    key: Word,
    depth: u8,
    node: Word,
    empty_root: Word,
) -> Seq<AdviceSource> {
    let leaf = if is_unmapped(advice, key, node, empty_root) {
        value_sources(Seq::new(9, |i: int| flag(false)))
    } else {
        seq![
            AdviceSource::Value(leaf_flag(advice, key, node)),
            AdviceSource::MapEntry { key: node, include_len: false },
        ]
    };
    leaf + value_sources(seq![is_16_or_32(depth), is_16_or_48(depth)])
}

/// The advice stack after a read, when nothing was refused.
pub open spec fn smtget_stack(
    advice: AdviceView,
    key: Word,
    depth: u8,
    node: Word,
    empty_root: Word,
) -> Seq<Felt> {
    let leaf = if is_unmapped(advice, key, node, empty_root) {
        Seq::new(9, |i: int| flag(false))
    } else {
        advice.map[node] + seq![flag(key != zero_word())]
    };
    seq![is_16_or_48(depth), is_16_or_32(depth)] + leaf + advice.stack
}

/// Nothing but a single element can be refused in a read that ends in `node`: what the read needs
/// is there.
pub open spec fn smtget_answerable<A: AdviceProvider>(
    advice: AdviceView,
    key: Word,
    node: Word,
    empty_root: Word,
) -> bool {
    is_unmapped(advice, key, node, empty_root) || A::push_refusal(
        advice.with_stack(seq![leaf_flag(advice, key, node)] + advice.stack),
        AdviceSource::MapEntry { key: node, include_len: false },
    ) is None
}

pub(crate) proof fn lemma_smtget_stack<A: AdviceProvider>(
    advice: AdviceView,
    key: Word,
    depth: u8,
    node: Word,
    empty_root: Word,
)
    ensures
        ({
            let (after, result) = push_run::<A>(
                advice,
                smtget_sources(advice, key, depth, node, empty_root),
            );
            &&& result is Ok ==> after == advice.with_stack(
                smtget_stack(advice, key, depth, node, empty_root),
            )
            &&& result is Ok && node != empty_root ==> advice.map.dom().contains(node)
            &&& result is Ok ==> smtget_answerable::<A>(advice, key, node, empty_root)
            &&& accepts_values::<A>() && smtget_answerable::<A>(advice, key, node, empty_root)
                ==> result is Ok
        }),
{
    let flags = seq![is_16_or_32(depth), is_16_or_48(depth)];
    let flag_sources = value_sources(flags);
    assert(flags.reverse() =~= seq![is_16_or_48(depth), is_16_or_32(depth)]);
    let zeros = Seq::new(9, |i: int| flag(false));
    let f = leaf_flag(advice, key, node);
    let value = AdviceSource::Value(f);
    let entry = AdviceSource::MapEntry { key: node, include_len: false };
    let wanted = smtget_stack(advice, key, depth, node, empty_root);
    if is_unmapped(advice, key, node, empty_root) {
        lemma_push_run_append::<A>(advice, value_sources(zeros), flag_sources);
        lemma_push_values::<A>(advice, zeros);
        let next = advice.with_stack(zeros.reverse() + advice.stack);
        lemma_push_values::<A>(next, flags);
        assert(flags.reverse() + next.stack =~= wanted);
    } else {
        assert(seq![value, entry] =~= seq![value] + seq![entry]);
        lemma_push_run_append::<A>(advice, seq![value, entry], flag_sources);
        lemma_push_run_append::<A>(advice, seq![value], seq![entry]);
        lemma_push_one::<A>(advice, value);
        let first = advice.with_stack(seq![f] + advice.stack);
        lemma_push_one::<A>(first, entry);
        let second = first.with_stack(advice.map[node] + first.stack);
        lemma_push_values::<A>(second, flags);
        if advice.map.dom().contains(node) {
            assert(flags.reverse() + second.stack =~= wanted);
        } else {
            A::missing_key_is_refused(first, node, false);
        }
    }
}

/// The flags that are pushed for a write at the tier `depth`, in this order.
pub open spec fn smtinsert_flags(is_update: bool, is_simple_insert: bool, depth: u8) -> Seq<Felt> {
    if is_update {
        seq![flag(true), is_16_or_32(depth), is_16_or_48(depth), flag(false)]
    } else {
        seq![flag(false), flag(is_simple_insert), is_16_or_32(depth), is_16_or_48(depth)]
    }
}

/// The list in the leaf `node`, on top of the advice stack.
pub open spec fn leaf_stack(advice: AdviceView, node: Word) -> Seq<Felt> {
    advice.map[node] + advice.stack
}

/// The key in the leaf `node`.
pub open spec fn leaf_key(advice: AdviceView, node: Word) -> Word {
    let stack = leaf_stack(advice, node);
    [stack[0], stack[1], stack[2], stack[3]]
}

/// Why the list in the leaf `node` cannot be pushed, if it cannot.
pub open spec fn leaf_push_refusal<A: AdviceProvider>(advice: AdviceView, node: Word) -> Option<
    ExecutionError,
> {
    A::push_refusal(advice, AdviceSource::MapEntry { key: node, include_len: false })
}

/// Why the key cannot be popped from the list in the leaf `node`, if it cannot.
pub open spec fn leaf_pop_refusal<A: AdviceProvider>(advice: AdviceView, node: Word) -> Option<
    ExecutionError,
> {
    A::pop_refusal(advice.with_stack(leaf_stack(advice, node)))
}

/// A leaf with the key `other` at the tier `depth` either is the one that is written, or can be
/// moved one tier down.
pub open spec fn leaf_supported(depth: u8, key: Word, other: Word) -> bool {
    other == key || (depth == 16 && top_bits(key[3].value, 32) != top_bits(other[3].value, 32))
}

/// A write of `key` that ends at the tier `depth` in `node` is supported: the node is the root of
/// an empty subtree, or its leaf cannot be read, or the leaf is supported.
pub open spec fn smtinsert_supported<A: AdviceProvider>(
    advice: AdviceView,
    key: Word,
    depth: u8,
    node: Word,
    empty_root: Word,
) -> bool {
    ||| node == empty_root
    ||| leaf_push_refusal::<A>(advice, node) is Some
    ||| leaf_pop_refusal::<A>(advice, node) is Some
    ||| leaf_supported(depth, key, leaf_key(advice, node))
}

/// What a write of `key` that ends at the tier `depth` in `node` leaves behind and returns.
///
/// - In an empty subtree, the leaf is simply inserted. Below the top tier the node one tier up is
///   needed as well.
/// - In a leaf with the same key, the value is updated: the old value stays on the stack.
/// - In a leaf with another key, that leaf is moved one tier down: its key and value stay on the
///   stack.
pub open spec fn smtinsert_outcome<A: AdviceProvider>(
    advice: AdviceView,
    key: Word,
    root: Word,
    depth: u8,
    node: Word,
    empty_root: Word,
) -> (AdviceView, Result<(), ExecutionError>) {
    if node == empty_root {
        let flags = value_sources(smtinsert_flags(false, true, depth));
        if depth == 16 {
            push_run::<A>(advice, flags)
        } else {
            match node_at(advice, key, root, (depth - 16) as u8) {
                Err(error) => (advice, Err(error)),
                Ok(parent) => push_run::<A>(advice, word_sources(parent) + flags),
            }
        }
    } else {
        let pushed = advice.with_stack(leaf_stack(advice, node));
        let popped = advice.with_stack(leaf_stack(advice, node).skip(4));
        let other = leaf_key(advice, node);
        match (leaf_push_refusal::<A>(advice, node), leaf_pop_refusal::<A>(advice, node)) {
            (Some(error), _) => (advice, Err(error)),
            (None, Some(error)) => (pushed, Err(error)),
            (None, None) => if other == key {
                push_run::<A>(popped, value_sources(smtinsert_flags(true, false, depth)))
            } else {
                push_run::<A>(
                    popped,
                    word_sources(other) + value_sources(smtinsert_flags(false, false, depth)),
                )
            },
        }
    }
}

/// The advice stack after a write, when nothing was refused.
pub open spec fn smtinsert_stack(
    advice: AdviceView,
    key: Word,
    root: Word,
    depth: u8,
    node: Word,
    empty_root: Word,
) -> Seq<Felt> {
    let (d0, d1) = (is_16_or_48(depth), is_16_or_32(depth));
    let (zero, one) = (flag(false), flag(true));
    if node == empty_root {
        if depth == 16 {
            seq![d0, d1, one, zero] + advice.stack
        } else {
            let parent = node_at(advice, key, root, (depth - 16) as u8)->Ok_0;
            seq![d0, d1, one, zero] + parent@ + advice.stack
        }
    } else if leaf_key(advice, node) == key {
        seq![zero, d0, d1, one] + leaf_stack(advice, node).skip(4)
    } else {
        seq![d0, d1, zero, zero] + leaf_stack(advice, node)
    }
}

/// Nothing but a single element can be refused in a write that ends at the tier `depth` in `node`:
/// what it needs is there.
pub open spec fn smtinsert_answerable<A: AdviceProvider>(
    advice: AdviceView,
    key: Word,
    root: Word,
    depth: u8,
    node: Word,
    empty_root: Word,
) -> bool {
    if node == empty_root {
        depth == 16 || node_at(advice, key, root, (depth - 16) as u8) is Ok
    } else {
        leaf_push_refusal::<A>(advice, node) is None && leaf_pop_refusal::<A>(advice, node) is None
    }
}

/// A write of `key` is supported. `roots` holds the root of an empty subtree for each depth.
pub open spec fn smtinsert_inputs_supported<A: AdviceProvider>(
    advice: AdviceView,
    key: Word,
    root: Word,
    roots: Seq<Word>,
) -> bool {
    &&& above_bottom_tier(advice, key, root)
    &&& tier_node(advice, key, root) matches Ok((depth, node)) ==> smtinsert_supported::<A>(
        advice,
        key,
        depth,
        node,
        roots[depth as int],
    )
}

/// What the advice map holds shows that a write of `key` is supported: the path to the key ends
/// above the bottom tier, and it ends in an empty subtree, in a leaf that the map does not hold, or
/// in a leaf whose key the map holds whole and which is supported.
pub open spec fn smtinsert_inputs_known(
    advice: AdviceView,
    key: Word,
    root: Word,
    roots: Seq<Word>,
) -> bool {
    &&& above_bottom_tier(advice, key, root)
    &&& tier_node(advice, key, root) matches Ok((depth, node)) ==> {
        ||| node == roots[depth as int]
        ||| !advice.map.dom().contains(node)
        ||| advice.map[node].len() >= 4 && leaf_supported(depth, key, leaf_key(advice, node))
    }
}

/// What a write of `key` leaves behind and returns.
pub open spec fn smtinsert_inputs_outcome<A: AdviceProvider>(
    advice: AdviceView,
    key: Word,
    root: Word,
    roots: Seq<Word>,
) -> (AdviceView, Result<(), ExecutionError>) {
    match tier_node(advice, key, root) {
        Err(error) => (advice, Err(error)),
        Ok((depth, node)) => smtinsert_outcome::<A>(
            advice,
            key,
            root,
            depth,
            node,
            roots[depth as int],
        ),
    }
}

/// Elements of a word and then further single elements, when nothing is refused.
proof fn lemma_push_word_and_values<A: AdviceProvider>(
    advice: AdviceView,
    word: Word,
    values: Seq<Felt>,
)
    ensures
        ({
            let (after, result) = push_run::<A>(advice, word_sources(word) + value_sources(values));
            &&& result is Ok ==> after == advice.with_stack(values.reverse() + word@ + advice.stack)
            &&& accepts_values::<A>() ==> result is Ok
        }),
{
    let elements = seq![word[3], word[2], word[1], word[0]];
    lemma_push_run_append::<A>(advice, word_sources(word), value_sources(values));
    lemma_push_values::<A>(advice, elements);
    assert(elements.reverse() =~= word@);
    let next = advice.with_stack(word@ + advice.stack);
    lemma_push_values::<A>(next, values);
    assert(values.reverse() + next.stack =~= values.reverse() + word@ + advice.stack);
}

pub(crate) proof fn lemma_smtinsert_stack<A: AdviceProvider>(
    advice: AdviceView,
    key: Word,
    root: Word,
    depth: u8,
    node: Word,
    empty_root: Word,
)
    ensures
        ({
            let (after, result) = smtinsert_outcome::<A>(
                advice,
                key,
                root,
                depth,
                node,
                empty_root,
            );
            &&& result is Ok ==> after == advice.with_stack(
                smtinsert_stack(advice, key, root, depth, node, empty_root),
            )
            &&& result is Ok ==> smtinsert_answerable::<A>(
                advice,
                key,
                root,
                depth,
                node,
                empty_root,
            )
            &&& accepts_values::<A>() && smtinsert_answerable::<A>(
                advice,
                key,
                root,
                depth,
                node,
                empty_root,
            ) ==> result is Ok
        }),
{
    let (d0, d1) = (is_16_or_48(depth), is_16_or_32(depth));
    let (zero, one) = (flag(false), flag(true));
    assert(smtinsert_flags(false, true, depth).reverse() =~= seq![d0, d1, one, zero]);
    assert(smtinsert_flags(false, false, depth).reverse() =~= seq![d0, d1, zero, zero]);
    assert(smtinsert_flags(true, false, depth).reverse() =~= seq![zero, d0, d1, one]);
    if node == empty_root {
        let flags = smtinsert_flags(false, true, depth);
        if depth == 16 {
            lemma_push_values::<A>(advice, flags);
        } else {
            match node_at(advice, key, root, (depth - 16) as u8) {
                Ok(parent) => {
                    lemma_push_word_and_values::<A>(advice, parent, flags);
                },
                Err(_) => {},
            }
        }
    } else {
        let pushed = advice.with_stack(leaf_stack(advice, node));
        let popped = advice.with_stack(leaf_stack(advice, node).skip(4));
        let other = leaf_key(advice, node);
        lemma_push_values::<A>(popped, smtinsert_flags(true, false, depth));
        lemma_push_word_and_values::<A>(popped, other, smtinsert_flags(false, false, depth));
        if leaf_pop_refusal::<A>(advice, node) is None {
            if pushed.stack.len() < 4 {
                A::short_stack_is_refused(pushed);
            }
            assert(other@ + popped.stack =~= pushed.stack);
            assert(seq![d0, d1, zero, zero] + other@ + popped.stack =~= seq![d0, d1, zero, zero]
                + pushed.stack);
        }
    }
}

impl<A: AdviceProvider> Process<A> {
    /// In a tree that is not known, no path can be looked up.
    proof fn lemma_unknown_tree(&self, key: Word, root: Word)
        ensures
            !self.advice().trees.dom().contains(root) ==> leaf_depth(self.advice(), key, root) is Err,
    {
        if !self.advice().trees.dom().contains(root) {
            let max_depth = Felt { value: SMT_MAX_TREE_DEPTH };
            self.advice_provider.missing_tree_is_refused(root, max_depth, key[3]);
        }
    }

    /// Looks up the tier at which the path to `key` ends, and the node on the path at this tier.
    fn get_tier_node(&self, key: Word, root: Word) -> (result: Result<(u8, Word), ExecutionError>)
        requires
            above_bottom_tier(self.advice(), key, root),
        ensures
            result == tier_node(self.advice(), key, root),
            result matches Ok((depth, _)) ==> depth == 16 || depth == 32 || depth == 48,
    {
        let max_depth = Felt::new(SMT_MAX_TREE_DEPTH);
        let depth: u8 = match self.advice_provider.get_leaf_depth(root, &max_depth, &key[3]) {
            Ok(depth) => normalize_depth(depth),
            Err(error) => return Err(error),
        };
        let index = get_node_index(&key, depth);
        match self.advice_provider.get_tree_node(root, &Felt::new(depth as u64), &index) {
            Ok(node) => Ok((depth, node)),
            Err(error) => Err(error),
        }
    }

    /// Pushes what a read of `key` from the tree needs, once the path to the key is known to end at
    /// the tier `depth` in `node`. `empty_root` is the root of an empty subtree at this tier.
    pub fn push_smtget_values(
        &mut self,
        key: Word,
        depth: u8,
        node: Word,
        empty_root: Word,
    ) -> (result: Result<(), ExecutionError>)
        ensures
            final(self).same_machine(old(self)),
            ({
                let (before, after) = (old(self).advice(), final(self).advice());
                &&& (after, result) == push_run::<A>(
                    before,
                    smtget_sources(before, key, depth, node, empty_root),
                )
                &&& result is Ok ==> after == before.with_stack(
                    smtget_stack(before, key, depth, node, empty_root),
                )
                &&& result is Ok && node != empty_root ==> before.map.dom().contains(node)
                &&& result is Ok ==> smtget_answerable::<A>(before, key, node, empty_root)
                &&& accepts_values::<A>() && smtget_answerable::<A>(before, key, node, empty_root)
                    ==> result is Ok
            }),
    {
        let mut unmapped: bool = same_word(&node, &empty_root);
        let mut f2: bool = true;
        if !unmapped {
            match self.advice_provider.get_mapped_values(&node) {
                Some(values) => {
                    unmapped = !starts_with(&values, &key);
                    f2 = !is_zero_word(&key);
                },
                None => {},
            }
        }
        let mut sources: Vec<AdviceSource> = Vec::new();
        if unmapped {
            let mut i: usize = 0;
            while i < 9
                invariant
                    i <= 9,
                    sources@ == value_sources(Seq::new(i as nat, |i: int| flag(false))),
                decreases 9 - i,
            {
                sources.push(AdviceSource::Value(to_flag(false)));
                i = i + 1;
                assert(sources@ =~= value_sources(Seq::new(i as nat, |i: int| flag(false))));
            }
        } else {
            sources.push(AdviceSource::Value(to_flag(f2)));
            // the list in the leaf is [KEY, VALUE], the key on top
            sources.push(AdviceSource::MapEntry { key: node, include_len: false });
        }
        sources.push(AdviceSource::Value(to_flag(depth == 16 || depth == 32)));
        sources.push(AdviceSource::Value(to_flag(depth == 16 || depth == 48)));
        proof {
            let advice = self.advice();
            assert(sources@ =~= smtget_sources(advice, key, depth, node, empty_root));
            lemma_smtget_stack::<A>(advice, key, depth, node, empty_root);
        }
        self.push_sources(sources)
    }

    /// Pushes what a read from a sparse Merkle tree needs onto the advice stack.
    ///
    /// The operand stack holds [KEY, ROOT, ...]. The advice stack becomes [f0, f1, K, V, f2, ...]:
    /// - f0 is one if the path to the key ends at depth 16 or 48,
    /// - f1 is one if the path to the key ends at depth 16 or 32,
    /// - K and V are the key and its value, as the advice map holds them for the leaf at the end of
    ///   the path; they are zeros if the tree holds no value for the key, that is, if the path ends
    ///   in an empty subtree or in a leaf with another key,
    /// - f2 is one if K is not zero.
    ///
    /// Fails if the tree is not known, or if the path or the leaf cannot be looked up. Paths that
    /// end at depth 64 are not supported.
    pub fn push_smtget_inputs(&mut self) -> (result: Result<(), ExecutionError>)
        requires
            above_bottom_tier(old(self).advice(), old(self).stack.word(0), old(self).stack.word(1)),
        ensures
            final(self).same_machine(old(self)),
            ({
                let (before, after) = (old(self).advice(), final(self).advice());
                let (key, root) = (old(self).stack.word(0), old(self).stack.word(1));
                &&& !before.trees.dom().contains(root) ==> result is Err && after == before
                &&& match tier_node(before, key, root) {
                    Err(error) => result == Err::<(), _>(error) && after == before,
                    Ok((depth, node)) => {
                        let empty_root = empty_subtree_roots(64)[depth as int];
                        &&& (after, result) == push_run::<A>(
                            before,
                            smtget_sources(before, key, depth, node, empty_root),
                        )
                        &&& result is Ok ==> after == before.with_stack(
                            smtget_stack(before, key, depth, node, empty_root),
                        )
                        &&& result is Ok && node != empty_root ==> before.map.dom().contains(node)
                        &&& result is Ok ==> smtget_answerable::<A>(before, key, node, empty_root)
                        &&& accepts_values::<A>() && smtget_answerable::<A>(
                            before,
                            key,
                            node,
                            empty_root,
                        ) ==> result is Ok
                    },
                }
            }),
    {
        let key = self.stack.get_word(0);
        let root = self.stack.get_word(1);
        proof {
            self.lemma_unknown_tree(key, root);
        }
        let (depth, node) = match self.get_tier_node(key, root) {
            Ok(found) => found,
            Err(error) => return Err(error),
        };
        let empty_root = empty_hashes(64)[depth as usize];
        self.push_smtget_values(key, depth, node, empty_root)
    }

    /// Pushes what a write to the tree needs, once the path to the key is known to end at the tier
    /// `depth` in `node`. `empty_root` is the root of an empty subtree at this tier.
    pub fn push_smtinsert_values(
        &mut self,
        key: Word,
        root: Word,
        depth: u8,
        node: Word,
        empty_root: Word,
    ) -> (result: Result<(), ExecutionError>)
        requires
            depth == 16 || depth == 32 || depth == 48,
            smtinsert_supported::<A>(old(self).advice(), key, depth, node, empty_root),
        ensures
            final(self).same_machine(old(self)),
            (final(self).advice(), result) == smtinsert_outcome::<A>(
                old(self).advice(),
                key,
                root,
                depth,
                node,
                empty_root,
            ),
            result is Ok ==> final(self).advice() == old(self).advice().with_stack(
                smtinsert_stack(old(self).advice(), key, root, depth, node, empty_root),
            ),
            result is Ok ==> smtinsert_answerable::<A>(
                old(self).advice(),
                key,
                root,
                depth,
                node,
                empty_root,
            ),
            accepts_values::<A>() && smtinsert_answerable::<A>(
                old(self).advice(),
                key,
                root,
                depth,
                node,
                empty_root,
            ) ==> result is Ok,
    {
        proof {
            lemma_smtinsert_stack::<A>(self.advice(), key, root, depth, node, empty_root);
        }
        let mut values: Vec<Felt> = Vec::new();
        let is_update: bool;
        let is_simple_insert: bool;
        if same_word(&node, &empty_root) {
            if depth == 32 || depth == 48 {
                // the node one tier above the one at which the leaf is inserted
                let p_depth: u8 = depth - 16;
                let p_index = get_node_index(&key, p_depth);
                let p_node = match self.advice_provider.get_tree_node(
                    root,
                    &Felt::new(p_depth as u64),
                    &p_index,
                ) {
                    Ok(p_node) => p_node,
                    Err(error) => return Err(error),
                };
                push_word_elements(&mut values, &p_node);
            }
            is_update = false;
            is_simple_insert = true;
        } else {
            // the list in the leaf is [KEY, VALUE], the key on top
            match self.advice_provider.push_stack(
                AdviceSource::MapEntry { key: node, include_len: false },
            ) {
                Ok(()) => {},
                Err(error) => return Err(error),
            }
            let other = match self.advice_provider.pop_stack_word() {
                Ok(other) => other,
                Err(error) => return Err(error),
            };
            is_simple_insert = false;
            if same_word(&other, &key) {
                is_update = true;
            } else {
                // the leaf is moved one tier down, so its key is needed again
                push_word_elements(&mut values, &other);
                is_update = false;
            }
        }
        let ghost word = values@;
        values.push(to_flag(is_update));
        if is_update {
            values.push(to_flag(depth == 16 || depth == 32));
            values.push(to_flag(depth == 16 || depth == 48));
            values.push(to_flag(false));
        } else {
            values.push(to_flag(is_simple_insert));
            values.push(to_flag(depth == 16 || depth == 32));
            values.push(to_flag(depth == 16 || depth == 48));
        }
        assert(values@ =~= word + smtinsert_flags(is_update, is_simple_insert, depth));
        assert(value_sources(values@) =~= value_sources(word)
            + value_sources(smtinsert_flags(is_update, is_simple_insert, depth)));
        assert(word.len() == 0 ==> value_sources(values@)
            =~= value_sources(
            smtinsert_flags(is_update, is_simple_insert, depth),
        ));
        self.push_values(values)
    }

    /// Pushes what a write to a sparse Merkle tree needs onto the advice stack.
    ///
    /// The operand stack holds [VALUE, KEY, ROOT, ...]. The advice stack becomes
    /// - [d0, d1, 1, 0, ...] if the path to the key ends in an empty subtree at depth 16,
    /// - [d0, d1, 1, 0, P_NODE, ...] if it ends in an empty subtree at depth 32 or 48,
    /// - [0, d0, d1, 1, OLD_VALUE, ...] if it ends in a leaf with the same key,
    /// - [1, 1, 0, 0, P_KEY, P_VALUE, ...] if it ends at depth 16 in a leaf with another key, and
    ///   the two keys part before depth 32.
    ///
    /// Here d0 is one if the path ends at depth 16 or 48, d1 is one if it ends at depth 16 or 32,
    /// P_NODE is the node on the path one tier up, and P_KEY and P_VALUE are what the leaf holds.
    ///
    /// Fails if the tree is not known, or if the path or the leaf cannot be looked up. Other cases
    /// are not supported.
    pub fn push_smtinsert_inputs(&mut self) -> (result: Result<(), ExecutionError>)
        requires
            smtinsert_inputs_supported::<A>(
                old(self).advice(),
                old(self).stack.word(1),
                old(self).stack.word(2),
                empty_subtree_roots(64),
            ),
        ensures
            final(self).same_machine(old(self)),
            ({
                let (before, after) = (old(self).advice(), final(self).advice());
                let (key, root) = (old(self).stack.word(1), old(self).stack.word(2));
                let roots = empty_subtree_roots(64);
                &&& !before.trees.dom().contains(root) ==> result is Err && after == before
                &&& (after, result) == smtinsert_inputs_outcome::<A>(before, key, root, roots)
                &&& tier_node(before, key, root) matches Ok((depth, node)) ==> {
                    let empty_root = roots[depth as int];
                    &&& result is Ok ==> after == before.with_stack(
                        smtinsert_stack(before, key, root, depth, node, empty_root),
                    )
                    &&& result is Ok ==> smtinsert_answerable::<A>(
                        before,
                        key,
                        root,
                        depth,
                        node,
                        empty_root,
                    )
                    &&& accepts_values::<A>() && smtinsert_answerable::<A>(
                        before,
                        key,
                        root,
                        depth,
                        node,
                        empty_root,
                    ) ==> result is Ok
                }
            }),
    {
        let key = self.stack.get_word(1);
        let root = self.stack.get_word(2);
        proof {
            self.lemma_unknown_tree(key, root);
        }
        let (depth, node) = match self.get_tier_node(key, root) {
            Ok(found) => found,
            Err(error) => return Err(error),
        };
        let empty_root = empty_hashes(64)[depth as usize];
        self.push_smtinsert_values(key, root, depth, node, empty_root)
    }

    /// Whether what the advice map holds shows that a write of `key` is supported.
    fn is_smtinsert_known(&self, key: &Word, root: Word) -> (known: bool)
        ensures
            known == smtinsert_inputs_known(self.advice(), *key, root, empty_subtree_roots(64)),
    {
        let max_depth = Felt::new(SMT_MAX_TREE_DEPTH);
        match self.advice_provider.get_leaf_depth(root, &max_depth, &key[3]) {
            Ok(depth) => {
                if depth > 48 {
                    return false;
                }
            },
            Err(_) => return true,
        }
        let (depth, node) = match self.get_tier_node(*key, root) {
            Ok(found) => found,
            Err(_) => return true,
        };
        if same_word(&node, &empty_hashes(64)[depth as usize]) {
            return true;
        }
        let values = match self.advice_provider.get_mapped_values(&node) {
            Some(values) => values,
            None => return true,
        };
        if values.len() < 4 {
            return false;
        }
        let other = [values[0], values[1], values[2], values[3]];
        assert(other =~= leaf_key(self.advice(), node));
        same_word(&other, key) || (depth == 16 && get_common_prefix(key, &other) < 32)
    }

    /// Pushes what a write to a sparse Merkle tree needs onto the advice stack, as
    /// `push_smtinsert_inputs` does, if what the advice map holds shows that the write is
    /// supported. Otherwise returns `None` and changes nothing.
    pub fn try_push_smtinsert_inputs(&mut self) -> (result: Option<Result<(), ExecutionError>>)
        ensures
            final(self).same_machine(old(self)),
            ({
                let (before, after) = (old(self).advice(), final(self).advice());
                let (key, root) = (old(self).stack.word(1), old(self).stack.word(2));
                let roots = empty_subtree_roots(64);
                &&& !before.trees.dom().contains(root) ==> {
                    result is Some && result->0 is Err && after == before
                }
                &&& match result {
                    None => {
                        &&& !smtinsert_inputs_known(before, key, root, roots)
                        &&& after == before
                    },
                    Some(result) => {
                        &&& smtinsert_inputs_known(before, key, root, roots)
                        &&& (after, result) == smtinsert_inputs_outcome::<A>(
                            before,
                            key,
                            root,
                            roots,
                        )
                    },
                }
            }),
    {
        let key = self.stack.get_word(1);
        let root = self.stack.get_word(2);
        proof {
            self.lemma_unknown_tree(key, root);
        }
        if self.is_smtinsert_known(&key, root) {
            proof {
                let advice = self.advice();
                match tier_node(advice, key, root) {
                    Ok((_, node)) => {
                        if !advice.map.dom().contains(node) {
                            A::missing_key_is_refused(advice, node, false);
                        }
                    },
                    Err(_) => {},
                }
            }
            Some(self.push_smtinsert_inputs())
        } else {
            None
        }
    }
}

/// Whether the list starts with the elements of `key`.
fn starts_with(values: &Vec<Felt>, key: &Word) -> (result: bool)
    ensures
        result == key@.is_prefix_of(values@),
{
    if values.len() < 4 {
        return false;
    }
    let start = [values[0], values[1], values[2], values[3]];
    assert(start@ =~= values@.subrange(0, 4));
    let result = same_word(&start, key);
    assert(result ==> key@ == start@);
    assert(key@ == start@ ==> *key =~= start);
    result
}

/// Whether all elements of a word are zero.
fn is_zero_word(word: &Word) -> (result: bool)
    ensures
        result == (*word == zero_word()),
{
    same_word(word, &[to_flag(false), to_flag(false), to_flag(false), to_flag(false)])
}

/// Appends the elements of a word in the order in which they are pushed.
fn push_word_elements(values: &mut Vec<Felt>, word: &Word)
    ensures
        final(values)@ == old(values)@ + seq![word[3], word[2], word[1], word[0]],
{
    values.push(word[3]);
    values.push(word[2]);
    values.push(word[1]);
    values.push(word[0]);
    assert(values@ =~= old(values)@ + seq![word[3], word[2], word[1], word[0]]);
}

} // verus!
