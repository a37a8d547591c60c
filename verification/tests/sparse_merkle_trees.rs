use advice_injectors::errors::ExecutionError;
use advice_injectors::field::{Felt, Word};
use advice_injectors::mem_advice::{KnownTree, MemAdviceProvider};
use advice_injectors::memory::Memory;
use advice_injectors::process::{Process, System};
use advice_injectors::smt::{get_common_prefix, normalize_depth};
use advice_injectors::stack::OperandStack;
use miden_crypto::hash::rpo::RpoDigest;
use miden_crypto::merkle::{EmptySubtreeRoots, NodeIndex, TieredSmt};
use miden_crypto::Felt as BaseElement;
use miden_crypto::StarkField;

fn felt(value: u64) -> Felt {
    Felt::new(value)
}

fn word(values: [u64; 4]) -> Word {
    values.map(felt)
}

fn values_of(word: [BaseElement; 4]) -> [u64; 4] {
    word.map(|element| element.as_int())
}

fn elements_of(values: [u64; 4]) -> [BaseElement; 4] {
    values.map(BaseElement::new)
}

/// The words, each with its last element nearest to the top.
fn stack_of(words: &[[u64; 4]]) -> OperandStack {
    let mut top = [felt(0); 16];
    for (i, word) in words.iter().enumerate() {
        for j in 0..4 {
            top[4 * i + j] = felt(word[3 - j]);
        }
    }
    OperandStack::new(top)
}

fn advice_stack(process: &Process<MemAdviceProvider>) -> Vec<u64> {
    process.advice_provider.stack().iter().map(|element| element.as_int()).collect()
}

/// The node of the tree at `depth` on the path to the key with these leading bits.
fn node_on_path(smt: &TieredSmt, bits: u64, depth: u8) -> Option<[u64; 4]> {
    let index = NodeIndex::new(depth, bits >> (64 - depth)).unwrap();
    smt.get_node(index).ok().map(|node| node.into())
}

/// The depth at which the path to the key with these leading bits meets a leaf or an empty
/// subtree.
fn end_of_path(smt: &TieredSmt, bits: u64) -> u8 {
    let leaves: Vec<[u64; 4]> = smt.upper_leaves().map(|leaf| leaf.0.into()).collect();
    let ends_at = |depth: &u8| {
        let node = node_on_path(smt, bits, *depth).unwrap();
        let empty: [u64; 4] = EmptySubtreeRoots::empty_hashes(64)[*depth as usize].into();
        node == empty || leaves.contains(&node)
    };
    (1..=64).find(ends_at).unwrap_or(64)
}

/// The root of a tree with these leaves, and a provider that knows what there is on the path to
/// `key`.
fn tree(leaves: &[([u64; 4], [u64; 4])], key: [u64; 4]) -> ([u64; 4], MemAdviceProvider) {
    let mut smt = TieredSmt::default();
    for (key, value) in leaves {
        smt.insert(RpoDigest::new(elements_of(*key)), elements_of(*value));
    }
    let root: [u64; 4] = smt.root().into();
    let mut provider = MemAdviceProvider::new();
    let mut known = KnownTree::new(64);
    known.insert_leaf_depth(felt(64), felt(key[3]), end_of_path(&smt, key[3]));
    for depth in [16u8, 32, 48] {
        if let Some(node) = node_on_path(&smt, key[3], depth) {
            let index = felt(key[3] >> (64 - depth));
            known.insert_node(felt(depth as u64), index, word(node));
        }
    }
    provider.insert_tree(word(root), known);
    for (node, key, value) in smt.upper_leaves() {
        let key: [u64; 4] = key.into();
        let entry = key.iter().chain(&values_of(value)).map(|v| felt(*v)).collect();
        let node: [u64; 4] = node.into();
        provider.insert_into_map(word(node), entry);
    }
    (root, provider)
}

fn read(leaves: &[([u64; 4], [u64; 4])], key: [u64; 4]) -> Process<MemAdviceProvider> {
    let (root, provider) = tree(leaves, key);
    let stack = stack_of(&[key, root]);
    Process::new(System { clk: 1, ctx: 0 }, stack, Memory::new(), provider)
}

fn write(leaves: &[([u64; 4], [u64; 4])], key: [u64; 4]) -> Process<MemAdviceProvider> {
    let (root, provider) = tree(leaves, key);
    let stack = stack_of(&[[1, 2, 3, 4], key, root]);
    Process::new(System { clk: 1, ctx: 0 }, stack, Memory::new(), provider)
}

/// A tree in which the path to the key with these leading bits is known to end at `end`, and the
/// nodes on this path at the given depths are known.
fn path(bits: u64, end: u8, nodes: &[(u8, Word)]) -> KnownTree {
    let mut tree = KnownTree::new(64);
    tree.insert_leaf_depth(felt(64), felt(bits), end);
    for (depth, node) in nodes {
        tree.insert_node(felt(*depth as u64), felt(bits >> (64 - depth)), *node);
    }
    tree
}

/// A key whose 64 leading bits are given.
fn key(bits: u64) -> [u64; 4] {
    [101, 102, 103, bits]
}

const A: u64 = 0xAAAA_BBBB_CCCC_DDDD;
const VALUE: [u64; 4] = [11, 12, 13, 14];
const OTHER: [u64; 4] = [21, 22, 23, 24];

/// A leaf as the advice stack holds it.
fn leaf(key: [u64; 4], value: [u64; 4]) -> Vec<u64> {
    key.iter().chain(&value).copied().collect()
}

// TIERS
// ------------------------------------------------------------------------------------------------

#[test]
fn depths_are_rounded_up_to_tiers() {
    for depth in 0..=64u8 {
        let tier = [16, 32, 48, 64].into_iter().find(|tier| depth <= *tier).unwrap();
        assert_eq!(normalize_depth(depth), tier);
    }
}

#[test]
fn common_prefix_is_counted_in_bits() {
    let prefix = |a: u64, b: u64| get_common_prefix(&word(key(a)), &word(key(b)));
    assert_eq!(prefix(A, A), 64);
    assert_eq!(prefix(0, 1 << 63), 0);
    assert_eq!(prefix(A, A ^ 1), 63);
    assert_eq!(prefix(A, A ^ (1 << 32)), 31);
    assert_eq!(prefix(A, A ^ (1 << 31)), 32);
    assert_eq!(prefix(A, A ^ (1 << 47) ^ 5), 16);
}

// READS
// ------------------------------------------------------------------------------------------------

#[test]
fn read_of_a_leaf_at_depth_16() {
    let mut process = read(&[(key(A), VALUE)], key(A));
    let stack = process.stack;
    assert_eq!(process.push_smtget_inputs(), Ok(()));
    let expected = [vec![1, 1], leaf(key(A), VALUE), vec![1]].concat();
    assert_eq!(advice_stack(&process), expected);
    assert_eq!(process.stack, stack);
}

#[test]
fn read_of_a_leaf_at_depth_32() {
    let other = key(A ^ (1 << 40));
    let mut process = read(&[(key(A), VALUE), (other, OTHER)], key(A));
    assert_eq!(process.push_smtget_inputs(), Ok(()));
    let expected = [vec![0, 1], leaf(key(A), VALUE), vec![1]].concat();
    assert_eq!(advice_stack(&process), expected);
}

#[test]
fn read_of_a_leaf_at_depth_48() {
    let other = key(A ^ (1 << 20));
    let mut process = read(&[(key(A), VALUE), (other, OTHER)], other);
    assert_eq!(process.push_smtget_inputs(), Ok(()));
    let expected = [vec![1, 0], leaf(other, OTHER), vec![1]].concat();
    assert_eq!(advice_stack(&process), expected);
}

#[test]
fn read_of_a_leaf_with_another_key() {
    let mut process = read(&[(key(A), VALUE)], key(A ^ 1));
    assert_eq!(process.push_smtget_inputs(), Ok(()));
    assert_eq!(advice_stack(&process), [1, 1, 0, 0, 0, 0, 0, 0, 0, 0, 0]);

    // the keys differ in the first element only
    let mut process = read(&[(key(A), VALUE)], [100, 102, 103, A]);
    assert_eq!(process.push_smtget_inputs(), Ok(()));
    assert_eq!(advice_stack(&process), [1, 1, 0, 0, 0, 0, 0, 0, 0, 0, 0]);

    // the leaf lies at depth 32
    let leaves = [(key(A), VALUE), (key(A ^ (1 << 40)), OTHER)];
    let mut process = read(&leaves, key(A ^ 1));
    assert_eq!(process.push_smtget_inputs(), Ok(()));
    assert_eq!(advice_stack(&process), [0, 1, 0, 0, 0, 0, 0, 0, 0, 0, 0]);
}

#[test]
fn read_of_the_zero_key() {
    let mut process = read(&[([0; 4], VALUE)], [0; 4]);
    assert_eq!(process.push_smtget_inputs(), Ok(()));
    assert_eq!(advice_stack(&process), [1, 1, 0, 0, 0, 0, 11, 12, 13, 14, 0]);
}

#[test]
fn read_of_an_empty_subtree() {
    // the path to the key ends close to the root
    let mut process = read(&[(key(A), VALUE)], key(!A));
    assert_eq!(process.push_smtget_inputs(), Ok(()));
    assert_eq!(advice_stack(&process), [1, 1, 0, 0, 0, 0, 0, 0, 0, 0, 0]);

    // the path to the key ends between depth 16 and depth 32
    let leaves = [(key(A), VALUE), (key(A ^ (1 << 33)), OTHER)];
    let mut process = read(&leaves, key(A ^ (1 << 45)));
    assert_eq!(process.push_smtget_inputs(), Ok(()));
    assert_eq!(advice_stack(&process), [0, 1, 0, 0, 0, 0, 0, 0, 0, 0, 0]);
}

#[test]
fn read_from_an_unknown_tree_is_an_error() {
    let stack = stack_of(&[key(A), [1, 2, 3, 4]]);
    let system = System { clk: 1, ctx: 0 };
    let mut process = Process::new(system, stack, Memory::new(), MemAdviceProvider::new());
    let error = ExecutionError::LeafDepthNotFound {
        root: word([1, 2, 3, 4]),
        tree_depth: felt(64),
        index: felt(A),
    };
    assert_eq!(process.push_smtget_inputs(), Err(error));

    process.advice_provider.insert_tree(word([1, 2, 3, 4]), path(A, 20, &[]));
    let error = ExecutionError::TreeNodeNotFound {
        root: word([1, 2, 3, 4]),
        depth: felt(32),
        index: felt(A >> 32),
    };
    assert_eq!(process.push_smtget_inputs(), Err(error));
    assert!(advice_stack(&process).is_empty());
}

#[test]
fn read_of_a_leaf_that_the_map_does_not_hold_is_an_error() {
    let (known, node) = (word([1, 2, 3, 4]), word([5, 6, 7, 8]));
    let stack = stack_of(&[key(A), [1, 2, 3, 4]]);
    let system = System { clk: 1, ctx: 0 };
    let mut process = Process::new(system, stack, Memory::new(), MemAdviceProvider::new());
    process.advice_provider.insert_tree(known, path(A, 16, &[(16, node)]));
    assert_eq!(
        process.push_smtget_inputs(),
        Err(ExecutionError::AdviceMapKeyNotFound(node))
    );
    // the flag had been pushed before
    assert_eq!(advice_stack(&process), [1]);
}

#[test]
fn read_values_follow_the_node() {
    let (node, empty_root) = (word([5, 6, 7, 8]), word([1, 1, 1, 1]));
    let system = System { clk: 1, ctx: 0 };
    let mut process =
        Process::new(system, stack_of(&[]), Memory::new(), MemAdviceProvider::new());
    let key = word([31, 32, 33, 34]);
    process.advice_provider.insert_into_map(node, [31, 32, 33, 34, 35].map(felt).to_vec());
    assert_eq!(process.push_smtget_values(key, 48, node, empty_root), Ok(()));
    assert_eq!(advice_stack(&process), [1, 0, 31, 32, 33, 34, 35, 1]);
    assert_eq!(process.push_smtget_values(key, 16, empty_root, empty_root), Ok(()));
    assert_eq!(
        advice_stack(&process),
        [1, 1, 0, 0, 0, 0, 0, 0, 0, 0, 0, 1, 0, 31, 32, 33, 34, 35, 1]
    );
}

#[test]
fn read_of_a_list_that_does_not_hold_a_whole_key() {
    let (node, empty_root) = (word([5, 6, 7, 8]), word([1, 1, 1, 1]));
    let system = System { clk: 1, ctx: 0 };
    let mut process =
        Process::new(system, stack_of(&[]), Memory::new(), MemAdviceProvider::new());
    process.advice_provider.insert_into_map(node, [31, 32, 33].map(felt).to_vec());
    let key = word([31, 32, 33, 34]);
    assert_eq!(process.push_smtget_values(key, 32, node, empty_root), Ok(()));
    assert_eq!(advice_stack(&process), [0, 1, 0, 0, 0, 0, 0, 0, 0, 0, 0]);
}

// WRITES
// ------------------------------------------------------------------------------------------------

#[test]
fn simple_insert_at_depth_16() {
    let mut process = write(&[(key(A), VALUE)], key(!A));
    let stack = process.stack;
    assert_eq!(process.push_smtinsert_inputs(), Ok(()));
    assert_eq!(advice_stack(&process), [1, 1, 1, 0]);
    assert_eq!(process.stack, stack);
}

#[test]
fn simple_insert_at_depth_32() {
    let leaves = [(key(A), VALUE), (key(A ^ (1 << 33)), OTHER)];
    let new = key(A ^ (1 << 45));
    let mut process = write(&leaves, new);
    assert_eq!(process.push_smtinsert_inputs(), Ok(()));

    let smt = TieredSmt::with_leaves(
        leaves.map(|(k, v)| (RpoDigest::new(elements_of(k)), elements_of(v))),
    )
    .unwrap();
    let parent: [u64; 4] = smt.get_node(NodeIndex::new(16, A >> 48).unwrap()).unwrap().into();
    assert_eq!(advice_stack(&process), [vec![0, 1, 1, 0], parent.to_vec()].concat());
}

#[test]
fn simple_insert_at_depth_48() {
    let leaves = [(key(A), VALUE), (key(A ^ (1 << 17)), OTHER)];
    let new = key(A ^ (1 << 25));
    let mut process = write(&leaves, new);
    assert_eq!(process.push_smtinsert_inputs(), Ok(()));

    let smt = TieredSmt::with_leaves(
        leaves.map(|(k, v)| (RpoDigest::new(elements_of(k)), elements_of(v))),
    )
    .unwrap();
    let parent: [u64; 4] = smt.get_node(NodeIndex::new(32, A >> 32).unwrap()).unwrap().into();
    assert_eq!(advice_stack(&process), [vec![1, 0, 1, 0], parent.to_vec()].concat());
}

#[test]
fn update_of_a_leaf() {
    let mut process = write(&[(key(A), VALUE)], key(A));
    assert_eq!(process.push_smtinsert_inputs(), Ok(()));
    assert_eq!(advice_stack(&process), [0, 1, 1, 1, 11, 12, 13, 14]);

    let leaves = [(key(A), VALUE), (key(A ^ (1 << 40)), OTHER)];
    let mut process = write(&leaves, key(A ^ (1 << 40)));
    assert_eq!(process.push_smtinsert_inputs(), Ok(()));
    assert_eq!(advice_stack(&process), [0, 0, 1, 1, 21, 22, 23, 24]);

    let leaves = [(key(A), VALUE), (key(A ^ (1 << 20)), OTHER)];
    let mut process = write(&leaves, key(A));
    assert_eq!(process.push_smtinsert_inputs(), Ok(()));
    assert_eq!(advice_stack(&process), [0, 1, 0, 1, 11, 12, 13, 14]);
}

#[test]
fn leaf_is_moved_from_depth_16_to_depth_32() {
    let mut process = write(&[(key(A), VALUE)], key(A ^ (1 << 32)));
    assert_eq!(process.push_smtinsert_inputs(), Ok(()));
    let expected = [vec![1, 1, 0, 0], leaf(key(A), VALUE)].concat();
    assert_eq!(advice_stack(&process), expected);
}

#[test]
fn write_to_an_unknown_tree_is_an_error() {
    let stack = stack_of(&[[0; 4], key(A), [1, 2, 3, 4]]);
    let system = System { clk: 1, ctx: 0 };
    let mut process = Process::new(system, stack, Memory::new(), MemAdviceProvider::new());
    let error = ExecutionError::LeafDepthNotFound {
        root: word([1, 2, 3, 4]),
        tree_depth: felt(64),
        index: felt(A),
    };
    assert_eq!(process.push_smtinsert_inputs(), Err(error));
    assert_eq!(process.try_push_smtinsert_inputs(), Some(Err(error)));
    assert!(advice_stack(&process).is_empty());
}

#[test]
fn write_to_a_leaf_that_cannot_be_read_is_an_error() {
    let (known, node) = (word([1, 2, 3, 4]), word([5, 6, 7, 8]));
    let stack = stack_of(&[[0; 4], key(A), [1, 2, 3, 4]]);
    let system = System { clk: 1, ctx: 0 };
    let mut process = Process::new(system, stack, Memory::new(), MemAdviceProvider::new());
    process.advice_provider.insert_tree(known, path(A, 16, &[(16, node)]));
    assert_eq!(
        process.push_smtinsert_inputs(),
        Err(ExecutionError::AdviceMapKeyNotFound(node))
    );
    assert_eq!(
        process.try_push_smtinsert_inputs(),
        Some(Err(ExecutionError::AdviceMapKeyNotFound(node)))
    );
    process.advice_provider.insert_into_map(node, vec![felt(1), felt(2), felt(3)]);
    assert_eq!(
        process.push_smtinsert_inputs(),
        Err(ExecutionError::AdviceStackReadFailed)
    );
    assert_eq!(advice_stack(&process), [1, 2, 3]);
}

#[test]
fn node_one_tier_up_must_be_known() {
    let known = word([1, 2, 3, 4]);
    let empty: [u64; 4] = EmptySubtreeRoots::empty_hashes(64)[32].into();
    let stack = stack_of(&[[0; 4], key(A), [1, 2, 3, 4]]);
    let system = System { clk: 1, ctx: 0 };
    let mut process = Process::new(system, stack, Memory::new(), MemAdviceProvider::new());
    process.advice_provider.insert_tree(known, path(A, 17, &[(32, word(empty))]));
    let error =
        ExecutionError::TreeNodeNotFound { root: known, depth: felt(16), index: felt(A >> 48) };
    assert_eq!(process.push_smtinsert_inputs(), Err(error));
    assert!(advice_stack(&process).is_empty());
}

#[test]
fn supported_writes_are_tried() {
    let mut simple = write(&[(key(A), VALUE)], key(!A));
    assert_eq!(simple.try_push_smtinsert_inputs(), Some(Ok(())));
    assert_eq!(advice_stack(&simple), [1, 1, 1, 0]);

    let mut update = write(&[(key(A), VALUE)], key(A));
    assert_eq!(update.try_push_smtinsert_inputs(), Some(Ok(())));
    assert_eq!(advice_stack(&update), [0, 1, 1, 1, 11, 12, 13, 14]);

    let mut moved = write(&[(key(A), VALUE)], key(A ^ (1 << 32)));
    assert_eq!(moved.try_push_smtinsert_inputs(), Some(Ok(())));
    assert_eq!(advice_stack(&moved)[..4], [1, 1, 0, 0]);
}

#[test]
fn unsupported_writes_are_not_tried() {
    // the leaf would have to move below depth 32
    let mut deep = write(&[(key(A), VALUE)], key(A ^ (1 << 31)));
    assert_eq!(deep.try_push_smtinsert_inputs(), None);
    assert!(advice_stack(&deep).is_empty());

    // a leaf at depth 32 would have to move
    let leaves = [(key(A), VALUE), (key(A ^ (1 << 40)), OTHER)];
    let mut lower = write(&leaves, key(A ^ 1));
    assert_eq!(lower.try_push_smtinsert_inputs(), None);

    // the path to the key ends at depth 64
    let leaves = [(key(A), VALUE), (key(A ^ 1), OTHER)];
    let mut bottom = write(&leaves, key(A));
    assert_eq!(bottom.try_push_smtinsert_inputs(), None);
    assert!(advice_stack(&bottom).is_empty());
}

#[test]
fn written_values_follow_the_node() {
    let (node, empty_root) = (word([5, 6, 7, 8]), word([1, 1, 1, 1]));
    let (root, parent) = (word([2, 2, 2, 2]), word([41, 42, 43, 44]));
    let system = System { clk: 1, ctx: 0 };
    let mut process =
        Process::new(system, stack_of(&[]), Memory::new(), MemAdviceProvider::new());
    let key = word(key(A));
    process.advice_provider.insert_tree(root, path(A, 48, &[(32, parent)]));
    assert_eq!(process.push_smtinsert_values(key, root, 48, empty_root, empty_root), Ok(()));
    assert_eq!(advice_stack(&process), [1, 0, 1, 0, 41, 42, 43, 44]);

    let mut entry = key.to_vec();
    entry.push(felt(51));
    process.advice_provider.insert_into_map(node, entry);
    assert_eq!(process.push_smtinsert_values(key, root, 32, node, empty_root), Ok(()));
    assert_eq!(advice_stack(&process)[..6], [0, 0, 1, 1, 51, 1]);
}
