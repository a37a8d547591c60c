//! The part of the operand stack that instructions can reach.

use crate::field::{Felt, Word};
use vstd::prelude::*;

verus! {

/// The top sixteen elements of the operand stack.
#[derive(Clone, Copy, Debug, PartialEq, Eq)]
pub struct OperandStack {
    top: [Felt; 16],
}

impl View for OperandStack {
    type V = Seq<Felt>;

    /// The elements, the top of the stack first.
    closed spec fn view(&self) -> Seq<Felt> {
        self.top@
    }
}

impl OperandStack {
    /// There are sixteen elements, all of them canonical.
    pub open spec fn wf(&self) -> bool {
        &&& self@.len() == 16
        &&& forall|i: int| 0 <= i < 16 ==> (#[trigger] self@[i]).wf()
    }

    /// The word at this index: its last element is nearest to the top.
    pub open spec fn word(&self, word_idx: int) -> Word {
        self.word_at(4 * word_idx)
    }

    /// The word whose last element is `offset` elements below the top.
    pub open spec fn word_at(&self, offset: int) -> Word {
        [self@[offset + 3], self@[offset + 2], self@[offset + 1], self@[offset]]
    }

    /// A stack with these elements, the first of them on top.
    pub fn new(top: [Felt; 16]) -> (stack: OperandStack)
        requires
            forall|i: int| 0 <= i < 16 ==> (#[trigger] top@[i]).wf(),
        ensures
            stack@ == top@,
            stack.wf(),
    {
        OperandStack { top }
    }

    /// The element at this distance from the top.
    pub fn get(&self, pos: usize) -> (element: Felt)
        requires
            pos < 16,
        ensures
            element == self@[pos as int],
    {
        self.top[pos]
    }

    /// The word at this index.
    pub fn get_word(&self, word_idx: usize) -> (word: Word)
        requires
            word_idx < 4,
        ensures
            word == self.word(word_idx as int),
            forall|j: int| 0 <= j < 4 ==> #[trigger] word[j] == self@[4 * word_idx + 3 - j],
    {
        self.get_word_at(4 * word_idx)
    }

    /// The word whose last element is `offset` elements below the top.
    pub fn get_word_at(&self, offset: usize) -> (word: Word)
        requires
            offset <= 12,
        ensures
            word == self.word_at(offset as int),
            forall|j: int| 0 <= j < 4 ==> #[trigger] word[j] == self@[offset + 3 - j],
    {
        [self.get(offset + 3), self.get(offset + 2), self.get(offset + 1), self.get(offset)]
    }
}

} // verus!
