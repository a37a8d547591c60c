//! Word-addressed memory, divided into contexts.

use crate::field::Word;
use std::collections::HashMap;
use vstd::prelude::*;

verus! {

/// The words that have been written, by context and address.
pub struct Memory {
    words: HashMap<u64, Word>,
}

/// The place of a word among the words of all contexts.
spec fn cell(place: (u32, u32)) -> u64 {
    (place.0 * 0x1_0000_0000 + place.1) as u64
}

fn cell_of(ctx: u32, addr: u32) -> (at: u64)
    ensures
        at == cell((ctx, addr)),
{
    ctx as u64 * 0x1_0000_0000 + addr as u64
}

impl View for Memory {
    type V = Map<(u32, u32), Word>;

    /// The words that have been written, by context and address.
    closed spec fn view(&self) -> Map<(u32, u32), Word> {
        Map::new(
            |place: (u32, u32)| self.words@.dom().contains(cell(place)),
            |place: (u32, u32)| self.words@[cell(place)],
        )
    }
}

impl Memory {
    /// Memory in which nothing has been written.
    pub fn new() -> (memory: Memory)
        ensures
            memory@ == Map::<(u32, u32), Word>::empty(),
    {
        let memory = Memory { words: HashMap::new() };
        assert(memory@ =~= Map::<(u32, u32), Word>::empty());
        memory
    }

    /// Writes a word.
    pub fn write(&mut self, ctx: u32, addr: u32, word: Word)
        ensures
            final(self)@ == old(self)@.insert((ctx, addr), word),
    {
        broadcast use vstd::std_specs::hash::group_hash_axioms;

        let at = cell_of(ctx, addr);
        self.words.insert(at, word);
        assert(self@ =~= old(self)@.insert((ctx, addr), word));
    }

    /// Reads a word, if it has been written.
    pub fn read(&self, ctx: u32, addr: u32) -> (word: Option<Word>)
        ensures
            word == self@.get((ctx, addr)),
    {
        broadcast use vstd::std_specs::hash::group_hash_axioms;

        let at = cell_of(ctx, addr);
        match self.words.get(&at) {
            Some(word) => Some(*word),
            None => None,
        }
    }
}

} // verus!
