//! What holds of the injectors as a whole.

use crate::advice::{
    accepts_values, lemma_push_values, pop_outcome, push_outcome, push_run, value_sources,
    word_sources, AdviceProvider, AdviceSource, AdviceView,
};
use crate::errors::ExecutionError;
use crate::field::{Felt, Word};
use crate::injectors::{from_limbs, lower_limb, upper_limb};
use crate::intt::{all_written, first_unwritten};
use crate::mem_advice::MemAdviceProvider;
use crate::smt::tier;
use crate::smt_injectors::{
    flag, is_16_or_32, is_16_or_48, is_unmapped, leaf_key, leaf_stack, leaf_supported, node_at,
    node_index, smtget_stack, smtinsert_flags, smtinsert_inputs_outcome, smtinsert_stack, tier_node,
    zero_word,
};
use vstd::prelude::*;

verus! {

/// The limbs that a division pushes fit in 32 bits, and make up the one quotient and remainder.
pub proof fn law_division(dividend: int, divisor: int)
    requires
        0 <= dividend <= u64::MAX,
        0 < divisor <= u64::MAX,
    ensures
        ({
            let (q, r) = (dividend / divisor, dividend % divisor);
            let (q0, q1) = (lower_limb(q), upper_limb(q));
            let (r0, r1) = (lower_limb(r), upper_limb(r));
            &&& q0.value < 0x1_0000_0000 && q1.value < 0x1_0000_0000
            &&& r0.value < 0x1_0000_0000 && r1.value < 0x1_0000_0000
            &&& from_limbs(q1, q0) * divisor + from_limbs(r1, r0) == dividend
            &&& 0 <= from_limbs(r1, r0) < divisor
            &&& (q1.value * 0x1_0000_0000 + q0.value) * divisor + (r1.value * 0x1_0000_0000
                + r0.value) == dividend
            &&& r1.value * 0x1_0000_0000 + r0.value < divisor
        }),
{
    let (q, r) = (dividend / divisor, dividend % divisor);
    vstd::arithmetic::div_mod::lemma_fundamental_div_mod(dividend, divisor);
    vstd::arithmetic::div_mod::lemma_mod_bound(dividend, divisor);
    vstd::arithmetic::div_mod::lemma_div_pos_is_pos(dividend, divisor);
    assert(q <= dividend) by (nonlinear_arith)
        requires
            dividend == divisor * q + r,
            r >= 0,
            q >= 0,
            divisor >= 1,
    ;
    assert(q * divisor == divisor * q) by (nonlinear_arith);
    assert(from_limbs(upper_limb(q), lower_limb(q)) == q);
    assert(from_limbs(upper_limb(r), lower_limb(r)) == r);
}

/// Two limbs of 32 bits make up one integer, the upper limb weighing 2^32; of an upper limb with
/// more bits, the lower 32 count. An integer of 64 bits has one pair of such limbs.
pub proof fn law_limbs(hi: Felt, lo: Felt, value: int)
    requires
        0 <= value <= u64::MAX,
    ensures
        from_limbs(hi, lo) == (hi.value % 0x1_0000_0000) * 0x1_0000_0000 + lo.value,
        hi.value < 0x1_0000_0000 ==> from_limbs(hi, lo) == hi.value * 0x1_0000_0000 + lo.value,
        upper_limb(value).value < 0x1_0000_0000 && lower_limb(value).value < 0x1_0000_0000,
        upper_limb(value).value * 0x1_0000_0000 + lower_limb(value).value == value,
{
}

/// Pushes change nothing but the advice stack, and leave what was on it where it was, below what
/// they push. This holds of pushes that are cut short, too.
pub proof fn law_pushes_only_grow_the_stack<A: AdviceProvider>(
    advice: AdviceView,
    sources: Seq<AdviceSource>,
)
    ensures
        ({
            let after = push_run::<A>(advice, sources).0;
            &&& after == advice.with_stack(after.stack)
            &&& after.stack.len() >= advice.stack.len()
            &&& after.stack.skip(after.stack.len() - advice.stack.len()) == advice.stack
        }),
    decreases sources.len(),
{
    let after = push_run::<A>(advice, sources).0;
    if sources.len() > 0 {
        let refusal = A::push_refusal(advice, sources[0]);
        let (next, result) = push_outcome(advice, sources[0], refusal);
        if result is Ok {
            law_pushes_only_grow_the_stack::<A>(next, sources.drop_first());
            let deeper = after.stack.len() - advice.stack.len();
            let pushed = next.stack.len() - advice.stack.len();
            assert(next.stack.skip(pushed) =~= advice.stack);
            assert(after.stack.skip(deeper) =~= after.stack.skip(deeper - pushed).skip(pushed));
        } else {
            assert(after.stack.skip(0) =~= advice.stack);
        }
    } else {
        assert(after.stack.skip(0) =~= advice.stack);
    }
    assert(advice.with_stack(after.stack) =~= after);
}

/// A word that has been pushed is popped unchanged, and leaves the stack as it was.
pub proof fn law_pushed_word_is_popped<A: AdviceProvider>(advice: AdviceView, word: Word)
    requires
        push_run::<A>(advice, word_sources(word)).1 is Ok,
    ensures
        ({
            let pushed = push_run::<A>(advice, word_sources(word)).0;
            A::pop_refusal(pushed) is None ==> pop_outcome(
                pushed,
                A::pop_refusal(pushed),
            ) == (advice, Ok::<Word, ExecutionError>(word))
        }),
{
    let elements = seq![word[3], word[2], word[1], word[0]];
    lemma_push_values::<A>(advice, elements);
    assert(elements.reverse() =~= word@);
    let pushed = advice.with_stack(word@ + advice.stack);
    assert(pushed.stack.skip(4) =~= advice.stack);
    assert([pushed.stack[0], pushed.stack[1], pushed.stack[2], pushed.stack[3]] =~= word);
    assert(pushed.with_stack(advice.stack) =~= advice);
}

/// A word that has been popped can be put back.
pub proof fn law_popped_word_is_put_back<A: AdviceProvider>(advice: AdviceView)
    requires
        A::pop_refusal(advice) is None,
    ensures
        ({
            let (popped, word) = pop_outcome(advice, A::pop_refusal(advice));
            let (after, result) = push_run::<A>(popped, word_sources(word->Ok_0));
            result is Ok ==> after == advice
        }),
{
    if advice.stack.len() < 4 {
        A::short_stack_is_refused(advice);
    }
    let (popped, result) = pop_outcome(advice, A::pop_refusal(advice));
    let word = result->Ok_0;
    let elements = seq![word[3], word[2], word[1], word[0]];
    lemma_push_values::<A>(popped, elements);
    assert(elements.reverse() =~= word@);
    assert(word@ + popped.stack =~= advice.stack);
    assert(popped.with_stack(advice.stack) =~= advice);
}

/// The tier of a depth is the least of the four depths of leaves that the depth does not exceed.
pub proof fn law_tier_is_least(depth: u8, other: u8)
    requires
        depth <= 64,
        other == 16 || other == 32 || other == 48 || other == 64,
        depth <= other,
    ensures
        ({
            let tier = tier(depth);
            &&& tier == 16 || tier == 32 || tier == 48 || tier == 64
            &&& depth <= tier <= other
        }),
{
}

/// The two flags for the tier tell the tiers apart.
pub proof fn law_flags_tell_tiers_apart(a: u8, b: u8)
    requires
        a == 16 || a == 32 || a == 48 || a == 64,
        b == 16 || b == 32 || b == 48 || b == 64,
        is_16_or_48(a) == is_16_or_48(b),
        is_16_or_32(a) == is_16_or_32(b),
    ensures
        a == b,
{
}

/// The node one tier up on the path to a key has the index of the node, without its last sixteen
/// bits.
pub proof fn law_index_one_tier_up(key: Word, depth: u8)
    requires
        depth == 32 || depth == 48,
    ensures
        node_index(key, (depth - 16) as u8).value
            == node_index(key, depth).value >> 16,
{
    let value = key[3].value;
    let (s, t) = ((64 - depth) as u64, (64 - (depth - 16) as u8) as u64);
    assert(value >> t == (value >> s) >> 16) by (bit_vector)
        requires
            t == s + 16,
            s == 32 || s == 16,
    ;
}

/// When a leaf makes room for a leaf with another key, the two have different places one tier
/// down.
pub proof fn law_moved_leaf_makes_room(key: Word, other: Word)
    requires
        other != key,
        leaf_supported(16, key, other),
    ensures
        node_index(key, 32) != node_index(other, 32),
{
}

/// After a read the advice stack holds the two flags for the tier, a key, a value and one flag that
/// tells whether this key is not zero, on top of what it held before. Key and value are those that
/// are read, or zeros if the tree holds no value for the key.
pub proof fn law_smtget_layout(
    advice: AdviceView,
    key: Word,
    depth: u8,
    node: Word,
    empty_root: Word,
)
    requires
        !is_unmapped(advice, key, node, empty_root) ==> advice.map.dom().contains(node)
            && advice.map[node].len() == 8,
    ensures
        ({
            let stack = smtget_stack(advice, key, depth, node, empty_root);
            let (k, v) = (stack.subrange(2, 6), stack.subrange(6, 10));
            let unmapped = is_unmapped(advice, key, node, empty_root);
            &&& stack.len() == advice.stack.len() + 11
            &&& stack[0] == is_16_or_48(depth)
            &&& stack[1] == is_16_or_32(depth)
            &&& unmapped ==> k == zero_word()@ && v == zero_word()@
            &&& !unmapped ==> k == key@ && k + v == advice.map[node]
            &&& stack[10] == flag(k != zero_word()@)
            &&& stack.skip(11) == advice.stack
        }),
{
    let stack = smtget_stack(advice, key, depth, node, empty_root);
    let (k, v) = (stack.subrange(2, 6), stack.subrange(6, 10));
    assert(stack.skip(11) =~= advice.stack);
    if is_unmapped(advice, key, node, empty_root) {
        assert(k =~= zero_word()@);
        assert(v =~= zero_word()@);
    } else {
        assert(k + v =~= advice.map[node]);
        assert(k =~= advice.map[node].subrange(0, 4));
        assert(k =~= key@);
        assert(key@ == zero_word()@ ==> key =~= zero_word());
    }
}

/// Whichever way a write goes, four flags can be read from the advice stack first. The last of
/// them tells an update from an insertion, and then the others tell the tier and, of an insertion,
/// whether it is a simple one.
pub proof fn law_smtinsert_layout(
    advice: AdviceView,
    key: Word,
    root: Word,
    depth: u8,
    node: Word,
    empty_root: Word,
)
    ensures
        ({
            let stack = smtinsert_stack(advice, key, root, depth, node, empty_root);
            let is_update = node != empty_root && leaf_key(advice, node)
                == key;
            let (d0, d1) = (is_16_or_48(depth), is_16_or_32(depth));
            &&& stack.len() >= 4
            &&& stack[3] == flag(is_update)
            &&& is_update ==> stack[1] == d0 && stack[2] == d1
            &&& !is_update ==> stack[0] == d0 && stack[1] == d1
            &&& !is_update ==> stack[2] == flag(node == empty_root)
        }),
{
}

/// A write changes nothing but the advice stack.
pub proof fn law_smtinsert_changes_only_the_stack<A: AdviceProvider>(
    advice: AdviceView,
    key: Word,
    root: Word,
    roots: Seq<Word>,
)
    ensures
        ({
            let after = smtinsert_inputs_outcome::<A>(advice, key, root, roots).0;
            after == advice.with_stack(after.stack)
        }),
{
    assert(advice.with_stack(advice.stack) =~= advice);
    match tier_node(advice, key, root) {
        Ok((depth, node)) => {
            let popped = advice.with_stack(leaf_stack(advice, node).skip(4));
            let other = leaf_key(advice, node);
            let simple = value_sources(smtinsert_flags(false, true, depth));
            let moved = word_sources(other) + value_sources(smtinsert_flags(false, false, depth));
            let update = value_sources(smtinsert_flags(true, false, depth));
            law_pushes_only_grow_the_stack::<A>(advice, simple);
            law_pushes_only_grow_the_stack::<A>(popped, moved);
            law_pushes_only_grow_the_stack::<A>(popped, update);
            match node_at(advice, key, root, (depth - 16) as u8) {
                Ok(parent) => {
                    law_pushes_only_grow_the_stack::<A>(advice, word_sources(parent) + simple);
                },
                Err(_) => {},
            }
        },
        Err(_) => {},
    }
}

/// Either every address has been written, or there is a first one that has not.
pub proof fn law_written_or_gap(
    memory: Map<(u32, u32), Word>,
    ctx: u32,
    start: int,
    end: int,
)
    requires
        0 <= start <= end <= 0x1_0000_0000,
    ensures
        all_written(memory, ctx, start, end) || exists|addr: u32| #[trigger]
            first_unwritten(memory, ctx, start, end, addr),
    decreases end - start,
{
    if start < end {
        law_written_or_gap(memory, ctx, start, end - 1);
        if all_written(memory, ctx, start, end - 1) {
            let last = (end - 1) as u32;
            if !memory.dom().contains((ctx, last)) {
                assert(first_unwritten(memory, ctx, start, end, last));
            }
        } else {
            let addr = choose|addr: u32| #[trigger]
                first_unwritten(memory, ctx, start, end - 1, addr);
            assert(first_unwritten(memory, ctx, start, end, addr));
        }
    }
}

/// The provider that keeps everything in memory refuses no single element.
pub proof fn law_mem_provider_accepts_values()
    ensures
        accepts_values::<MemAdviceProvider>(),
{
}

} // verus!
