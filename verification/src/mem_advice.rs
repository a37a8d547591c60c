//! An advice provider that keeps everything in memory.

use crate::advice::{AdviceProvider, AdviceSource, AdviceView};
use crate::errors::ExecutionError;
use crate::field::{same_word, Felt, Word};
use vstd::prelude::*;

verus! {

/// A place in a Merkle tree.
#[derive(Clone, Copy, Debug, PartialEq, Eq, Structural)]
struct TreePlace {
    depth: Felt,
    index: Felt,
}

/// What is known of a Merkle tree. Of several entries for a place, the last counts.
pub struct KnownTree {
    /// The depth of the tree.
    depth: u8,
    /// The known nodes.
    nodes: Vec<(TreePlace, Word)>,
    /// The known depths at which paths end. The depth of a place is that of the whole tree.
    leaf_depths: Vec<(TreePlace, u8)>,
}

/// An advice provider that holds its stack, its map and what it knows of Merkle trees in memory.
///
/// It refuses a push only if the map does not hold the key, and popping a word only if the stack
/// does not hold four elements.
pub struct MemAdviceProvider {
    /// The advice stack, its top last.
    stack: Vec<Felt>,
    /// The advice map. Of several entries for a key, the last counts; so below.
    map: Vec<(Word, Vec<Felt>)>,
    /// The known trees, by their roots.
    trees: Vec<(Word, KnownTree)>,
}

/// The entries as a map, in which later entries replace earlier ones.
spec fn table<K, V>(entries: Seq<(K, V)>) -> Map<K, V>
    decreases entries.len(),
{
    if entries.len() == 0 {
        Map::empty()
    } else {
        table(entries.drop_last()).insert(entries.last().0, entries.last().1)
    }
}

/// An entry for another key does not matter.
proof fn lemma_table_skip<K, V>(entries: Seq<(K, V)>, i: int, key: K)
    requires
        0 <= i < entries.len(),
        entries[i].0 != key,
    ensures
        table(entries.take(i + 1)).dom().contains(key) == table(entries.take(i)).dom().contains(
            key,
        ),
        table(entries.take(i + 1))[key] == table(entries.take(i))[key],
{
    assert(entries.take(i + 1).drop_last() =~= entries.take(i));
}

/// The last entry for a key counts.
proof fn lemma_table_hit<K, V>(entries: Seq<(K, V)>, i: int)
    requires
        0 <= i < entries.len(),
    ensures
        table(entries.take(i + 1)).dom().contains(entries[i].0),
        table(entries.take(i + 1))[entries[i].0] == entries[i].1,
{
    assert(entries.take(i + 1).drop_last() =~= entries.take(i));
}

/// Finds the entry that counts for a word.
fn find_word<V>(entries: &Vec<(Word, V)>, key: &Word) -> (found: Option<usize>)
    ensures
        match found {
            Some(i) => {
                &&& i < entries@.len()
                &&& table(entries@).dom().contains(*key)
                &&& table(entries@)[*key] == entries@[i as int].1
            },
            None => !table(entries@).dom().contains(*key),
        },
{
    let mut i: usize = entries.len();
    assert(entries@.take(i as int) =~= entries@);
    while i > 0
        invariant
            i <= entries@.len(),
            table(entries@).dom().contains(*key) == table(entries@.take(i as int)).dom().contains(
                *key,
            ),
            table(entries@)[*key] == table(entries@.take(i as int))[*key],
        decreases i,
    {
        i = i - 1;
        if same_word(&entries[i].0, key) {
            proof {
                lemma_table_hit(entries@, i as int);
            }
            return Some(i);
        }
        proof {
            lemma_table_skip(entries@, i as int, *key);
        }
    }
    None
}

/// Finds the entry that counts for a place.
fn find_place<V>(entries: &Vec<(TreePlace, V)>, place: &TreePlace) -> (found: Option<usize>)
    ensures
        match found {
            Some(i) => {
                &&& i < entries@.len()
                &&& table(entries@).dom().contains(*place)
                &&& table(entries@)[*place] == entries@[i as int].1
            },
            None => !table(entries@).dom().contains(*place),
        },
{
    let mut i: usize = entries.len();
    assert(entries@.take(i as int) =~= entries@);
    while i > 0
        invariant
            i <= entries@.len(),
            table(entries@).dom().contains(*place) == table(
                entries@.take(i as int),
            ).dom().contains(*place),
            table(entries@)[*place] == table(entries@.take(i as int))[*place],
        decreases i,
    {
        i = i - 1;
        if entries[i].0 == *place {
            proof {
                lemma_table_hit(entries@, i as int);
            }
            return Some(i);
        }
        proof {
            lemma_table_skip(entries@, i as int, *place);
        }
    }
    None
}

impl KnownTree {
    /// The depth of the tree.
    pub closed spec fn depth(&self) -> nat {
        self.depth as nat
    }

    /// The node at a place, if it is known. None is at depth zero or below the depth of the tree.
    pub closed spec fn node(&self, depth: Felt, index: Felt) -> Option<Word> {
        let place = TreePlace { depth, index };
        if 0 < depth.value <= self.depth && table(self.nodes@).dom().contains(place) {
            Some(table(self.nodes@)[place])
        } else {
            None
        }
    }

    /// The depth at which the path to `index` ends, if it is known, in a tree of at most the given
    /// depth.
    pub closed spec fn leaf_depth(&self, tree_depth: Felt, index: Felt) -> Option<u8> {
        let place = TreePlace { depth: tree_depth, index };
        if table(self.leaf_depths@).dom().contains(place) {
            Some(table(self.leaf_depths@)[place])
        } else {
            None
        }
    }

    /// A tree of which nothing is known but its depth.
    pub fn new(depth: u8) -> (tree: KnownTree)
        ensures
            tree.depth() == depth,
            forall|d: Felt, i: Felt| (#[trigger] tree.node(d, i)) is None,
            forall|d: Felt, i: Felt| (#[trigger] tree.leaf_depth(d, i)) is None,
    {
        KnownTree { depth, nodes: Vec::new(), leaf_depths: Vec::new() }
    }

    /// Makes a node known, unless its depth is zero or greater than that of the tree.
    pub fn insert_node(&mut self, depth: Felt, index: Felt, node: Word)
        ensures
            final(self).depth() == old(self).depth(),
            forall|d: Felt, i: Felt| #[trigger]
                final(self).node(d, i) == if d == depth && i == index && 0 < depth.value <= old(
                    self,
                ).depth() {
                    Some(node)
                } else {
                    old(self).node(d, i)
                },
            forall|d: Felt, i: Felt| #[trigger]
                final(self).leaf_depth(d, i) == old(self).leaf_depth(d, i),
    {
        self.nodes.push((TreePlace { depth, index }, node));
        assert(self.nodes@.drop_last() =~= old(self).nodes@);
    }

    /// Makes the depth known at which the path to `index` ends in a tree of at most `tree_depth`.
    pub fn insert_leaf_depth(&mut self, tree_depth: Felt, index: Felt, depth: u8)
        ensures
            final(self).depth() == old(self).depth(),
            forall|d: Felt, i: Felt| #[trigger] final(self).node(d, i) == old(self).node(d, i),
            forall|d: Felt, i: Felt| #[trigger]
                final(self).leaf_depth(d, i) == if d == tree_depth && i == index {
                    Some(depth)
                } else {
                    old(self).leaf_depth(d, i)
                },
    {
        self.leaf_depths.push((TreePlace { depth: tree_depth, index }, depth));
        assert(self.leaf_depths@.drop_last() =~= old(self).leaf_depths@);
    }

    /// Looks up a node.
    fn get_node(&self, depth: Felt, index: Felt) -> (node: Option<Word>)
        ensures
            node == self.node(depth, index),
    {
        let value: u64 = depth.as_int();
        if value == 0 || value > self.depth as u64 {
            return None;
        }
        match find_place(&self.nodes, &TreePlace { depth, index }) {
            Some(at) => Some(self.nodes[at].1),
            None => None,
        }
    }

    /// Looks up the depth at which a path ends.
    fn get_leaf_depth(&self, tree_depth: Felt, index: Felt) -> (depth: Option<u8>)
        ensures
            depth == self.leaf_depth(tree_depth, index),
    {
        match find_place(&self.leaf_depths, &TreePlace { depth: tree_depth, index }) {
            Some(at) => Some(self.leaf_depths[at].1),
            None => None,
        }
    }
}

/// The answer to a request for a node of the tree with this root.
pub open spec fn node_answer(tree: KnownTree, root: Word, depth: Felt, index: Felt) -> Result<
    Word,
    ExecutionError,
> {
    match tree.node(depth, index) {
        Some(node) => Ok(node),
        None => Err(ExecutionError::TreeNodeNotFound { root, depth, index }),
    }
}

/// The answer to a request for the end of a path in the tree with this root.
pub open spec fn leaf_depth_answer(
    tree: KnownTree,
    root: Word,
    tree_depth: Felt,
    index: Felt,
) -> Result<u8, ExecutionError> {
    match tree.leaf_depth(tree_depth, index) {
        Some(depth) => Ok(depth),
        None => Err(ExecutionError::LeafDepthNotFound { root, tree_depth, index }),
    }
}

impl AdviceProvider for MemAdviceProvider {
    closed spec fn advice(&self) -> AdviceView {
        let (map, trees) = (table(self.map@), table(self.trees@));
        AdviceView {
            stack: self.stack@.reverse(),
            map: map.map_values(|values: Vec<Felt>| values@),
            trees: trees.map_values(|tree: KnownTree| tree.depth()),
            nodes: |root: Word, depth: Felt, index: Felt|
                if trees.dom().contains(root) {
                    node_answer(trees[root], root, depth, index)
                } else {
                    Err(ExecutionError::TreeNodeNotFound { root, depth, index })
                },
            leaf_depths: |root: Word, tree_depth: Felt, index: Felt|
                if trees.dom().contains(root) {
                    leaf_depth_answer(trees[root], root, tree_depth, index)
                } else {
                    Err(ExecutionError::LeafDepthNotFound { root, tree_depth, index })
                },
        }
    }

    open spec fn push_refusal(advice: AdviceView, source: AdviceSource) -> Option<ExecutionError> {
        match source {
            AdviceSource::Value(_) => None,
            AdviceSource::MapEntry { key, .. } => if advice.map.dom().contains(key) {
                None
            } else {
                Some(ExecutionError::AdviceMapKeyNotFound(key))
            },
        }
    }

    open spec fn pop_refusal(advice: AdviceView) -> Option<ExecutionError> {
        if advice.stack.len() < 4 {
            Some(ExecutionError::AdviceStackReadFailed)
        } else {
            None
        }
    }

    proof fn missing_key_is_refused(advice: AdviceView, key: Word, include_len: bool) {
    }

    proof fn short_stack_is_refused(advice: AdviceView) {
    }

    proof fn missing_depth_is_refused(&self, root: Word, depth: Felt, index: Felt) {
    }

    proof fn missing_tree_is_refused(&self, root: Word, tree_depth: Felt, index: Felt) {
    }

    fn push_stack(&mut self, source: AdviceSource) -> (result: Result<(), ExecutionError>) {
        match source {
            AdviceSource::Value(value) => {
                self.stack.push(value);
                assert(self.stack@.reverse() =~= seq![value] + old(self).stack@.reverse());
            },
            AdviceSource::MapEntry { key, include_len } => {
                let at: usize = match find_word(&self.map, &key) {
                    Some(at) => at,
                    None => return Err(ExecutionError::AdviceMapKeyNotFound(key)),
                };
                let len: usize = self.map[at].1.len();
                let mut i: usize = len;
                while i > 0
                    invariant
                        i <= len == self.map@[at as int].1@.len(),
                        at < self.map@.len(),
                        self.map == old(self).map,
                        self.trees == old(self).trees,
                        self.stack@.reverse() == self.map@[at as int].1@.skip(i as int)
                            + old(self).stack@.reverse(),
                    decreases i,
                {
                    i = i - 1;
                    let ghost before = self.stack@;
                    let value = self.map[at].1[i];
                    self.stack.push(value);
                    assert(self.stack@.reverse() =~= seq![value] + before.reverse());
                    assert(self.stack@.reverse() =~= self.map@[at as int].1@.skip(i as int)
                        + old(self).stack@.reverse());
                }
                let ghost values = self.map@[at as int].1@;
                assert(values.skip(0) =~= values);
                if include_len {
                    let ghost before = self.stack@;
                    let value = Felt::new(len as u64);
                    self.stack.push(value);
                    assert(self.stack@.reverse() =~= seq![value] + before.reverse());
                    assert(self.stack@.reverse() =~= (seq![value] + values)
                        + old(self).stack@.reverse());
                }
            },
        }
        Ok(())
    }

    fn pop_stack_word(&mut self) -> (result: Result<Word, ExecutionError>) {
        let len: usize = self.stack.len();
        if len < 4 {
            return Err(ExecutionError::AdviceStackReadFailed);
        }
        let word = [
            self.stack[len - 1],
            self.stack[len - 2],
            self.stack[len - 3],
            self.stack[len - 4],
        ];
        self.stack.truncate(len - 4);
        assert(self.stack@.reverse() =~= old(self).stack@.reverse().skip(4));
        Ok(word)
    }

    fn get_mapped_values(&self, key: &Word) -> (result: Option<Vec<Felt>>) {
        match find_word(&self.map, key) {
            Some(at) => {
                let mut values: Vec<Felt> = Vec::new();
                let mut i: usize = 0;
                while i < self.map[at].1.len()
                    invariant
                        at < self.map@.len(),
                        i <= self.map@[at as int].1@.len(),
                        values@ == self.map@[at as int].1@.take(i as int),
                    decreases self.map@[at as int].1@.len() - i,
                {
                    values.push(self.map[at].1[i]);
                    i = i + 1;
                    assert(values@ =~= self.map@[at as int].1@.take(i as int));
                }
                assert(values@ =~= self.map@[at as int].1@);
                Some(values)
            },
            None => None,
        }
    }

    fn get_tree_node(&self, root: Word, depth: &Felt, index: &Felt) -> (result: Result<
        Word,
        ExecutionError,
    >) {
        let found = match find_word(&self.trees, &root) {
            Some(at) => self.trees[at].1.get_node(*depth, *index),
            None => None,
        };
        match found {
            Some(node) => Ok(node),
            None => Err(
                ExecutionError::TreeNodeNotFound { root, depth: *depth, index: *index },
            ),
        }
    }

    fn get_leaf_depth(&self, root: Word, tree_depth: &Felt, index: &Felt) -> (result: Result<
        u8,
        ExecutionError,
    >) {
        let found: Option<u8> = match find_word(&self.trees, &root) {
            Some(at) => self.trees[at].1.get_leaf_depth(*tree_depth, *index),
            None => None,
        };
        match found {
            Some(depth) => Ok(depth),
            None => Err(
                ExecutionError::LeafDepthNotFound { root, tree_depth: *tree_depth, index: *index },
            ),
        }
    }
}

impl MemAdviceProvider {
    /// A provider that holds nothing: every node and every depth asked of it is reported missing.
    pub fn new() -> (provider: MemAdviceProvider)
        ensures
            provider.advice().stack == Seq::<Felt>::empty(),
            provider.advice().map == Map::<Word, Seq<Felt>>::empty(),
            provider.advice().trees == Map::<Word, nat>::empty(),
            forall|root: Word, depth: Felt, index: Felt| #[trigger]
                (provider.advice().nodes)(root, depth, index) == Err::<Word, ExecutionError>(
                    ExecutionError::TreeNodeNotFound { root, depth, index },
                ),
            forall|root: Word, tree_depth: Felt, index: Felt| #[trigger]
                (provider.advice().leaf_depths)(root, tree_depth, index) == Err::<
                    u8,
                    ExecutionError,
                >(ExecutionError::LeafDepthNotFound { root, tree_depth, index }),
    {
        let provider = MemAdviceProvider {
            stack: Vec::new(),
            map: Vec::new(),
            trees: Vec::new(),
        };
        assert(provider.advice().stack =~= Seq::<Felt>::empty());
        assert(provider.advice().map =~= Map::<Word, Seq<Felt>>::empty());
        assert(provider.advice().trees =~= Map::<Word, nat>::empty());
        provider
    }

    /// Puts a list into the advice map.
    pub fn insert_into_map(&mut self, key: Word, values: Vec<Felt>)
        ensures
            final(self).advice() == (AdviceView {
                map: old(self).advice().map.insert(key, values@),
                ..old(self).advice()
            }),
    {
        self.map.push((key, values));
        assert(self.map@.drop_last() =~= old(self).map@);
        assert(self.advice().map =~= old(self).advice().map.insert(key, values@));
    }

    /// Makes a Merkle tree known, in place of what was known of the tree with this root.
    pub fn insert_tree(&mut self, root: Word, tree: KnownTree)
        ensures
            final(self).advice() == (AdviceView {
                trees: old(self).advice().trees.insert(root, tree.depth()),
                nodes: final(self).advice().nodes,
                leaf_depths: final(self).advice().leaf_depths,
                ..old(self).advice()
            }),
            forall|r: Word, d: Felt, i: Felt| #[trigger]
                (final(self).advice().nodes)(r, d, i) == if r == root {
                    node_answer(tree, r, d, i)
                } else {
                    (old(self).advice().nodes)(r, d, i)
                },
            forall|r: Word, d: Felt, i: Felt| #[trigger]
                (final(self).advice().leaf_depths)(r, d, i) == if r == root {
                    leaf_depth_answer(tree, r, d, i)
                } else {
                    (old(self).advice().leaf_depths)(r, d, i)
                },
    {
        self.trees.push((root, tree));
        assert(self.trees@.drop_last() =~= old(self).trees@);
        assert(self.advice().trees =~= old(self).advice().trees.insert(root, tree.depth()));
    }

    /// The advice stack, its top first.
    pub fn stack(&self) -> (stack: Vec<Felt>)
        ensures
            stack@ == self.advice().stack,
    {
        let mut stack: Vec<Felt> = Vec::new();
        let mut i: usize = self.stack.len();
        while i > 0
            invariant
                i <= self.stack@.len(),
                stack@ == self.stack@.skip(i as int).reverse(),
            decreases i,
        {
            i = i - 1;
            stack.push(self.stack[i]);
            assert(stack@ =~= self.stack@.skip(i as int).reverse());
        }
        assert(self.stack@.skip(0) =~= self.stack@);
        stack
    }
}

} // verus!
