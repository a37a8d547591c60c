//! What the injectors ask of an advice provider.

use crate::errors::ExecutionError;
use crate::field::{Felt, Word, MODULUS};
use vstd::prelude::*;

verus! {

/// Where the values that are pushed onto the advice stack come from.
#[derive(Clone, Copy, Debug, PartialEq, Eq)]
pub enum AdviceSource {
    /// A single element.
    Value(Felt),
    /// The list that the advice map holds under `key`; with `include_len`, its length as well.
    MapEntry { key: Word, include_len: bool },
}

/// The contents of an advice provider.
#[verifier::ext_equal]
pub struct AdviceView {
    /// The advice stack, its top first.
    pub stack: Seq<Felt>,
    /// The advice map.
    pub map: Map<Word, Seq<Felt>>,
    /// The depths of the Merkle trees that are known, by their roots.
    pub trees: Map<Word, nat>,
    /// The answer to a request for the node of the tree with this root at this depth and index.
    pub nodes: spec_fn(Word, Felt, Felt) -> Result<Word, ExecutionError>,
    /// The answer to a request for the depth at which the path to this index ends, in the tree
    /// with this root, of at most this depth.
    pub leaf_depths: spec_fn(Word, Felt, Felt) -> Result<u8, ExecutionError>,
}

impl AdviceView {
    /// The same contents under another stack.
    pub open spec fn with_stack(self, stack: Seq<Felt>) -> AdviceView {
        AdviceView { stack, ..self }
    }

    /// The tree with this root is known, and has nodes at this depth, which is not that of the
    /// root.
    pub open spec fn has_depth(self, root: Word, depth: Felt) -> bool {
        self.trees.dom().contains(root) && 0 < depth.value <= self.trees[root]
    }
}

/// The values that `source` stands for, the one that ends up on top first.
pub open spec fn source_values(advice: AdviceView, source: AdviceSource) -> Seq<Felt> {
    match source {
        AdviceSource::Value(value) => seq![value],
        AdviceSource::MapEntry { key, include_len } => {
            let values = advice.map[key];
            if include_len {
                seq![Felt { value: (values.len() as u64) % MODULUS }] + values
            } else {
                values
            }
        },
    }
}

/// What a push leaves behind and returns, given the reason for which it is refused, if any.
pub open spec fn push_outcome(
    advice: AdviceView,
    source: AdviceSource,
    refusal: Option<ExecutionError>,
) -> (AdviceView, Result<(), ExecutionError>) {
    match refusal {
        Some(error) => (advice, Err(error)),
        None => (advice.with_stack(source_values(advice, source) + advice.stack), Ok(())),
    }
}

/// What popping a word leaves behind and returns, given the reason for which it is refused, if
/// any. The top of the stack becomes the first element of the word.
pub open spec fn pop_outcome(advice: AdviceView, refusal: Option<ExecutionError>) -> (
    AdviceView,
    Result<Word, ExecutionError>,
) {
    match refusal {
        Some(error) => (advice, Err(error)),
        None => (
            advice.with_stack(advice.stack.skip(4)),
            Ok([advice.stack[0], advice.stack[1], advice.stack[2], advice.stack[3]]),
        ),
    }
}

/// A source of nondeterministic inputs: a stack, a map of lists, and Merkle trees.
///
/// A provider may refuse a request; a refused request changes nothing. Which requests it refuses,
/// and with which error, it says in `push_refusal` and `pop_refusal`.
pub trait AdviceProvider: Sized {
    /// The contents of the provider.
    spec fn advice(&self) -> AdviceView;

    /// The error with which a push is refused, if it is.
    spec fn push_refusal(advice: AdviceView, source: AdviceSource) -> Option<ExecutionError>;

    /// The error with which popping a word is refused, if it is.
    spec fn pop_refusal(advice: AdviceView) -> Option<ExecutionError>;

    /// A list that the map does not hold cannot be pushed.
    proof fn missing_key_is_refused(advice: AdviceView, key: Word, include_len: bool)
        requires
            !advice.map.dom().contains(key),
        ensures
            Self::push_refusal(advice, AdviceSource::MapEntry { key, include_len }) is Some,
    ;

    /// A word cannot be popped from a stack of fewer than four elements.
    proof fn short_stack_is_refused(advice: AdviceView)
        requires
            advice.stack.len() < 4,
        ensures
            Self::pop_refusal(advice) is Some,
    ;

    /// A node of a tree that is not known, a node at depth zero, and a node at a depth greater than
    /// that of the tree cannot be looked up.
    proof fn missing_depth_is_refused(&self, root: Word, depth: Felt, index: Felt)
        requires
            !self.advice().has_depth(root, depth),
        ensures
            (self.advice().nodes)(root, depth, index) is Err,
    ;

    /// The end of a path cannot be looked up in a tree that is not known.
    proof fn missing_tree_is_refused(&self, root: Word, tree_depth: Felt, index: Felt)
        requires
            !self.advice().trees.dom().contains(root),
        ensures
            (self.advice().leaf_depths)(root, tree_depth, index) is Err,
    ;

    /// Pushes the values that `source` stands for onto the advice stack.
    fn push_stack(&mut self, source: AdviceSource) -> (result: Result<(), ExecutionError>)
        ensures
            (final(self).advice(), result) == push_outcome(
                old(self).advice(),
                source,
                Self::push_refusal(old(self).advice(), source),
            ),
    ;

    /// Pops four elements from the advice stack.
    fn pop_stack_word(&mut self) -> (result: Result<Word, ExecutionError>)
        ensures
            (final(self).advice(), result) == pop_outcome(
                old(self).advice(),
                Self::pop_refusal(old(self).advice()),
            ),
    ;

    /// Looks up the list that the advice map holds under `key`.
    fn get_mapped_values(&self, key: &Word) -> (result: Option<Vec<Felt>>)
        ensures
            result is Some <==> self.advice().map.dom().contains(*key),
            result matches Some(values) ==> values@ == self.advice().map[*key],
    ;

    /// Looks up a node of the Merkle tree with this root.
    fn get_tree_node(&self, root: Word, depth: &Felt, index: &Felt) -> (result: Result<
        Word,
        ExecutionError,
    >)
        ensures
            result == (self.advice().nodes)(root, *depth, *index),
    ;

    /// Finds the depth at which the path to `index` meets a leaf or an empty subtree.
    fn get_leaf_depth(&self, root: Word, tree_depth: &Felt, index: &Felt) -> (result: Result<
        u8,
        ExecutionError,
    >)
        ensures
            result == (self.advice().leaf_depths)(root, *tree_depth, *index),
    ;
}

/// What pushing `sources` one after another, up to the first that is refused, leaves behind and
/// returns.
pub open spec fn push_run<A: AdviceProvider>(advice: AdviceView, sources: Seq<AdviceSource>) -> (
    AdviceView,
    Result<(), ExecutionError>,
)
    decreases sources.len(),
{
    if sources.len() == 0 {
        (advice, Ok(()))
    } else {
        let refusal = A::push_refusal(advice, sources[0]);
        let (next, result) = push_outcome(advice, sources[0], refusal);
        if result is Ok {
            push_run::<A>(next, sources.drop_first())
        } else {
            (next, result)
        }
    }
}

/// The provider refuses no single element.
pub open spec fn accepts_values<A: AdviceProvider>() -> bool {
    forall|advice: AdviceView, value: Felt|
        (#[trigger] A::push_refusal(advice, AdviceSource::Value(value))) is None
}

/// Single elements, to be pushed in this order.
pub open spec fn value_sources(values: Seq<Felt>) -> Seq<AdviceSource> {
    values.map_values(|value: Felt| AdviceSource::Value(value))
}

/// The elements of a word, to be pushed in this order so that the first ends up on top.
pub open spec fn word_sources(word: Word) -> Seq<AdviceSource> {
    value_sources(seq![word[3], word[2], word[1], word[0]])
}

/// Pushes `sources` one after another, up to the first that is refused.
pub(crate) fn push_all<A: AdviceProvider>(provider: &mut A, sources: &Vec<AdviceSource>) -> (result:
    Result<(), ExecutionError>)
    ensures
        (final(provider).advice(), result) == push_run::<A>(old(provider).advice(), sources@),
{
    let mut i: usize = 0;
    assert(sources@.skip(0) =~= sources@);
    while i < sources.len()
        invariant
            i <= sources.len(),
            push_run::<A>(old(provider).advice(), sources@) == push_run::<A>(
                provider.advice(),
                sources@.skip(i as int),
            ),
        decreases sources.len() - i,
    {
        assert(sources@.skip(i as int)[0] == sources@[i as int]);
        assert(sources@.skip(i as int).drop_first() =~= sources@.skip(i + 1));
        let result = provider.push_stack(sources[i]);
        if result.is_err() {
            return result;
        }
        i = i + 1;
    }
    assert(sources@.skip(i as int) =~= Seq::empty());
    Ok(())
}

/// Single elements that are all accepted end up on the stack, the last one on top.
pub proof fn lemma_push_values<A: AdviceProvider>(advice: AdviceView, values: Seq<Felt>)
    ensures
        push_run::<A>(advice, value_sources(values)).1 is Ok ==> push_run::<A>(
            advice,
            value_sources(values),
        ).0 == advice.with_stack(values.reverse() + advice.stack),
        accepts_values::<A>() ==> push_run::<A>(advice, value_sources(values)).1 is Ok,
    decreases values.len(),
{
    let sources = value_sources(values);
    if values.len() == 0 {
        assert(values.reverse() + advice.stack =~= advice.stack);
        assert(advice.with_stack(advice.stack) =~= advice);
    } else {
        let next = advice.with_stack(seq![values[0]] + advice.stack);
        let rest = values.drop_first();
        lemma_push_values::<A>(next, rest);
        assert(sources[0] == AdviceSource::Value(values[0]));
        assert(sources.drop_first() =~= value_sources(rest));
        assert(rest.reverse() + next.stack =~= values.reverse() + advice.stack);
    }
}

/// A run of one push.
pub proof fn lemma_push_one<A: AdviceProvider>(advice: AdviceView, source: AdviceSource)
    ensures
        push_run::<A>(advice, seq![source]) == push_outcome(
            advice,
            source,
            A::push_refusal(advice, source),
        ),
{
    let next = push_outcome(advice, source, A::push_refusal(advice, source)).0;
    assert(seq![source].drop_first() =~= Seq::empty());
    assert(push_run::<A>(next, Seq::empty()) == (next, Ok::<(), ExecutionError>(())));
}

/// A run of pushes can be cut in two.
pub proof fn lemma_push_run_append<A: AdviceProvider>(
    advice: AdviceView,
    first: Seq<AdviceSource>,
    second: Seq<AdviceSource>,
)
    ensures
        push_run::<A>(advice, first + second) == ({
            let (next, result) = push_run::<A>(advice, first);
            if result is Ok {
                push_run::<A>(next, second)
            } else {
                (next, result)
            }
        }),
    decreases first.len(),
{
    if first.len() == 0 {
        assert(first + second =~= second);
    } else {
        let refusal = A::push_refusal(advice, first[0]);
        let next = push_outcome(advice, first[0], refusal).0;
        assert((first + second)[0] == first[0]);
        assert((first + second).drop_first() =~= first.drop_first() + second);
        lemma_push_run_append::<A>(next, first.drop_first(), second);
    }
}

} // verus!
