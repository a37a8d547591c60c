//! The state that the injectors work on.

use crate::advice::{
    accepts_values, lemma_push_values, push_all, push_run, value_sources, AdviceProvider,
    AdviceSource, AdviceView,
};
use crate::errors::ExecutionError;
use crate::field::{Felt, Word};
use crate::memory::Memory;
use crate::stack::OperandStack;
use vstd::prelude::*;

verus! {

/// The clock and the context in which the machine executes.
#[derive(Clone, Copy, Debug, PartialEq, Eq)]
pub struct System {
    pub clk: u32,
    pub ctx: u32,
}

/// A machine in the middle of a program.
pub struct Process<A: AdviceProvider> {
    pub system: System,
    pub stack: OperandStack,
    pub memory: Memory,
    pub advice_provider: A,
}

impl<A: AdviceProvider> Process<A> {
    /// The operand stack is well formed.
    pub open spec fn wf(&self) -> bool {
        self.stack.wf()
    }

    /// The contents of the advice provider.
    pub open spec fn advice(&self) -> AdviceView {
        self.advice_provider.advice()
    }

    /// The two differ in the advice provider at most.
    pub open spec fn same_machine(&self, other: &Self) -> bool {
        &&& self.system == other.system
        &&& self.stack == other.stack
        &&& self.memory == other.memory
    }

    /// A machine with these parts.
    pub fn new(system: System, stack: OperandStack, memory: Memory, advice_provider: A) -> (process:
        Self)
        ensures
            process.system == system,
            process.stack == stack,
            process.memory == memory,
            process.advice_provider == advice_provider,
    {
        Process { system, stack, memory, advice_provider }
    }

    /// Reads a word of memory, if it has been written.
    pub fn get_memory_value(&self, ctx: u32, addr: u32) -> (word: Option<Word>)
        ensures
            word == self.memory@.get((ctx, addr)),
    {
        self.memory.read(ctx, addr)
    }

    /// Pushes `sources` onto the advice stack one after another, up to the first that is refused.
    pub(crate) fn push_sources(&mut self, sources: Vec<AdviceSource>) -> (result: Result<
        (),
        ExecutionError,
    >)
        ensures
            final(self).same_machine(old(self)),
            (final(self).advice(), result) == push_run::<A>(old(self).advice(), sources@),
    {
        push_all(&mut self.advice_provider, &sources)
    }

    /// Pushes single elements onto the advice stack, up to the first that is refused.
    pub(crate) fn push_values(&mut self, values: Vec<Felt>) -> (result: Result<(), ExecutionError>)
        ensures
            final(self).same_machine(old(self)),
            (final(self).advice(), result) == push_run::<A>(
                old(self).advice(),
                value_sources(values@),
            ),
            result is Ok ==> final(self).advice() == old(self).advice().with_stack(
                values@.reverse() + old(self).advice().stack,
            ),
            accepts_values::<A>() ==> result is Ok,
    {
        let mut sources: Vec<AdviceSource> = Vec::new();
        let mut i: usize = 0;
        while i < values.len()
            invariant
                i <= values.len(),
                sources@ == value_sources(values@.take(i as int)),
            decreases values.len() - i,
        {
            sources.push(AdviceSource::Value(values[i]));
            i = i + 1;
            assert(sources@ =~= value_sources(values@.take(i as int)));
        }
        assert(values@.take(i as int) =~= values@);
        proof {
            lemma_push_values::<A>(old(self).advice(), values@);
        }
        self.push_sources(sources)
    }
}

} // verus!
