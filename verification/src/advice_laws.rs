//! What reading the operand stack, and pushing onto and popping from the advice stack, come to,
//! element by element.

use crate::advice::{
    accepts_values, pop_outcome, push_outcome, push_run, value_sources, word_sources,
    AdviceProvider, AdviceSource, AdviceView,
};
use crate::errors::ExecutionError;
use crate::field::{Felt, Word};
use crate::mem_advice::{leaf_depth_answer, node_answer, KnownTree, MemAdviceProvider};
use crate::process::Process;
use crate::stack::OperandStack;
use vstd::prelude::*;

verus! {

/// Words lie upside down on the operand stack, whatever their values: the last element of a word is
/// nearest to the top. Words are counted from the top.
pub proof fn law_words_lie_upside_down(stack: OperandStack, offset: int, word_idx: int, j: int)
    requires
        0 <= offset <= 12,
        0 <= word_idx < 4,
        0 <= j < 4,
    ensures
        stack.word_at(offset)[j] == stack@[offset + 3 - j],
        stack.word(word_idx)[j] == stack@[4 * word_idx + 3 - j],
{
}

/// A machine is well formed if its operand stack holds sixteen integers below 2^64 - 2^32 + 1, and
/// only then.
pub proof fn law_well_formed_machine<A: AdviceProvider>(process: Process<A>)
    ensures
        process.wf() <==> process.stack@.len() == 16 && forall|i: int|
            0 <= i < 16 ==> (#[trigger] process.stack@[i]).value < 0xFFFF_FFFF_0000_0001,
{
    assert forall|i: int| process.wf() && 0 <= i < 16 implies (#[trigger] process.stack@[i]).value
        < 0xFFFF_FFFF_0000_0001 by {
        assert(process.stack@[i].wf());
    }
}

/// Two machines are the same but for the advice provider if clock, context, operand stack and
/// memory are the same, and only then. The advice is that of the provider.
pub proof fn law_same_machine<A: AdviceProvider>(a: Process<A>, b: Process<A>)
    ensures
        a.same_machine(&b) <==> a.system.clk == b.system.clk && a.system.ctx == b.system.ctx
            && a.stack == b.stack && a.memory == b.memory,
        a.advice() == a.advice_provider.advice(),
{
}

/// Putting another stack under an advice leaves everything else as it is.
pub proof fn law_with_stack(advice: AdviceView, stack: Seq<Felt>)
    ensures
        advice.with_stack(stack).stack == stack,
        advice.with_stack(stack).map == advice.map,
        advice.with_stack(stack).trees == advice.trees,
        advice.with_stack(stack).nodes == advice.nodes,
        advice.with_stack(stack).leaf_depths == advice.leaf_depths,
{
}

/// A tree has nodes at the depths from one to its own depth.
pub proof fn law_depths_of_a_tree(advice: AdviceView, root: Word, depth: Felt)
    ensures
        advice.has_depth(root, depth) <==> advice.trees.dom().contains(root) && 1 <= depth.value
            && depth.value <= advice.trees[root],
{
}

/// An element that is pushed lies on top of what was there. Nothing else changes.
pub proof fn law_pushed_element_lies_on_top(advice: AdviceView, value: Felt)
    ensures
        ({
            let (after, result) = push_outcome(advice, AdviceSource::Value(value), None);
            &&& result is Ok
            &&& after.stack.len() == advice.stack.len() + 1
            &&& after.stack[0] == value
            &&& forall|i: int|
                0 <= i < advice.stack.len() ==> #[trigger] after.stack[i + 1] == advice.stack[i]
            &&& after.map == advice.map && after.trees == advice.trees
            &&& after.nodes == advice.nodes && after.leaf_depths == advice.leaf_depths
        }),
{
}

/// A list that is pushed lies on top of what was there, its first element on top. With its length,
/// one more element lies above it: the number of elements of the list, reduced modulo the order of
/// the field. Nothing else changes.
pub proof fn law_pushed_list_lies_on_top(advice: AdviceView, key: Word, include_len: bool)
    requires
        advice.map.dom().contains(key),
        advice.map[key].len() <= u64::MAX,
    ensures
        ({
            let source = AdviceSource::MapEntry { key, include_len };
            let (after, result) = push_outcome(advice, source, None);
            let list = advice.map[key];
            let n: int = if include_len {
                1
            } else {
                0
            };
            &&& result is Ok
            &&& after.stack.len() == n + list.len() + advice.stack.len()
            &&& include_len ==> after.stack[0].value == list.len() % 0xFFFF_FFFF_0000_0001
            &&& include_len && list.len() < 0xFFFF_FFFF_0000_0001 ==> after.stack[0].value
                == list.len()
            &&& forall|i: int| 0 <= i < list.len() ==> #[trigger] after.stack[n + i] == list[i]
            &&& forall|i: int|
                0 <= i < advice.stack.len() ==> #[trigger] after.stack[n + list.len() + i]
                    == advice.stack[i]
            &&& after.map == advice.map && after.trees == advice.trees
            &&& after.nodes == advice.nodes && after.leaf_depths == advice.leaf_depths
        }),
{
}

/// A push or a pop that is refused changes nothing, and returns the reason.
pub proof fn law_refusal_changes_nothing(
    advice: AdviceView,
    source: AdviceSource,
    error: ExecutionError,
)
    ensures
        push_outcome(advice, source, Some(error)) == (advice, Err::<(), ExecutionError>(error)),
        pop_outcome(advice, Some(error)) == (advice, Err::<Word, ExecutionError>(error)),
{
}

/// A word that is popped consists of the top four elements, the top one first, and leaves the
/// others. Nothing else changes.
pub proof fn law_popped_word_was_on_top(advice: AdviceView)
    requires
        advice.stack.len() >= 4,
    ensures
        ({
            let (after, result) = pop_outcome(advice, None);
            &&& result is Ok
            &&& forall|j: int| 0 <= j < 4 ==> #[trigger] result->Ok_0[j] == advice.stack[j]
            &&& after.stack.len() == advice.stack.len() - 4
            &&& forall|i: int|
                0 <= i < after.stack.len() ==> #[trigger] after.stack[i] == advice.stack[i + 4]
            &&& after.map == advice.map && after.trees == advice.trees
            &&& after.nodes == advice.nodes && after.leaf_depths == advice.leaf_depths
        }),
{
}

/// Pushes are made one after another. A refused one ends them, with its reason as the result.
pub proof fn law_pushes_in_order<A: AdviceProvider>(
    advice: AdviceView,
    source: AdviceSource,
    rest: Seq<AdviceSource>,
)
    ensures
        push_run::<A>(advice, Seq::empty()) == (advice, Ok::<(), ExecutionError>(())),
        push_run::<A>(advice, seq![source] + rest) == match A::push_refusal(advice, source) {
            Some(error) => (advice, Err::<(), ExecutionError>(error)),
            None => push_run::<A>(push_outcome(advice, source, None).0, rest),
        },
{
    assert((seq![source] + rest)[0] == source);
    assert((seq![source] + rest).drop_first() =~= rest);
}

/// Elements are pushed in the order in which they are given; those of a word from its last to its
/// first.
pub proof fn law_order_of_elements(values: Seq<Felt>, word: Word)
    ensures
        value_sources(values).len() == values.len(),
        forall|i: int|
            0 <= i < values.len() ==> #[trigger] value_sources(values)[i] == AdviceSource::Value(
                values[i],
            ),
        word_sources(word).len() == 4,
        forall|i: int|
            0 <= i < 4 ==> #[trigger] word_sources(word)[i] == AdviceSource::Value(word[3 - i]),
{
}

/// Pushes of single elements, when all are accepted, put the elements on the stack, the last one on
/// top. They are all accepted by a provider that refuses no single element.
pub proof fn law_pushed_elements_are_reversed<A: AdviceProvider>(
    advice: AdviceView,
    values: Seq<Felt>,
    sources: Seq<AdviceSource>,
)
    requires
        sources.len() == values.len(),
        forall|i: int|
            0 <= i < values.len() ==> #[trigger] sources[i] == AdviceSource::Value(values[i]),
    ensures
        ({
            let (after, result) = push_run::<A>(advice, sources);
            let n = values.len();
            &&& (forall|a: AdviceView, v: Felt|
                (#[trigger] A::push_refusal(a, AdviceSource::Value(v))) is None) ==> result is Ok
            &&& result is Ok ==> {
                &&& after.stack.len() == n + advice.stack.len()
                &&& forall|i: int|
                    0 <= i < n ==> #[trigger] after.stack[i] == values[n - 1 - i]
                &&& forall|i: int|
                    0 <= i < advice.stack.len() ==> #[trigger] after.stack[n + i]
                        == advice.stack[i]
                &&& after.map == advice.map && after.trees == advice.trees
                &&& after.nodes == advice.nodes && after.leaf_depths == advice.leaf_depths
            }
        }),
{
    assert(sources =~= value_sources(values));
    crate::advice::lemma_push_values::<A>(advice, values);
}

/// A provider accepts single elements if it refuses none, whatever it holds, and only then.
pub proof fn law_accepting_provider<A: AdviceProvider>()
    ensures
        accepts_values::<A>() <==> forall|advice: AdviceView, value: Felt|
            (#[trigger] A::push_refusal(advice, AdviceSource::Value(value))) is None,
{
}

/// The provider in memory refuses no single element; it refuses a list if its map does not hold the
/// key, and popping a word if its stack holds fewer than four elements, and only then.
pub proof fn law_mem_provider_refusals(
    advice: AdviceView,
    value: Felt,
    key: Word,
    include_len: bool,
)
    ensures
        MemAdviceProvider::push_refusal(advice, AdviceSource::Value(value)) is None,
        MemAdviceProvider::push_refusal(advice, AdviceSource::MapEntry { key, include_len })
            == if advice.map.dom().contains(key) {
            None
        } else {
            Some(ExecutionError::AdviceMapKeyNotFound(key))
        },
        MemAdviceProvider::pop_refusal(advice) == if advice.stack.len() >= 4 {
            None
        } else {
            Some(ExecutionError::AdviceStackReadFailed)
        },
{
}

/// What is known of a tree is answered; what is not is reported missing, with the place asked for.
pub proof fn law_answers_of_a_tree(tree: KnownTree, root: Word, depth: Felt, index: Felt)
    ensures
        tree.node(depth, index) is None ==> node_answer(tree, root, depth, index) == Err::<Word, _>(
            ExecutionError::TreeNodeNotFound { root, depth, index },
        ),
        tree.node(depth, index) is Some ==> node_answer(tree, root, depth, index) == Ok::<
            _,
            ExecutionError,
        >(tree.node(depth, index)->0),
        tree.leaf_depth(depth, index) is None ==> leaf_depth_answer(tree, root, depth, index)
            == Err::<u8, _>(
            ExecutionError::LeafDepthNotFound { root, tree_depth: depth, index },
        ),
        tree.leaf_depth(depth, index) is Some ==> leaf_depth_answer(tree, root, depth, index)
            == Ok::<_, ExecutionError>(tree.leaf_depth(depth, index)->0),
{
}

} // verus!
