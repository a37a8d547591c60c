use advice_injectors::advice::{AdviceProvider, AdviceSource};
use advice_injectors::errors::{ExecutionError, Ext2InttError};
use advice_injectors::field::{invert as field_invert, Felt, QuadFelt, Word, MODULUS};
use advice_injectors::injectors::u64_to_u32_elements;
use advice_injectors::mem_advice::{KnownTree, MemAdviceProvider};
use advice_injectors::memory::Memory;
use advice_injectors::process::{Process, System};
use advice_injectors::stack::OperandStack;
use miden_crypto::Felt as BaseElement;
use miden_crypto::StarkField;
use winter_prover::math::fields::QuadExtension;
use winter_prover::math::{get_power_series, polynom, FieldElement};

const CLK: u32 = 7;
const CTX: u32 = 3;

fn felt(value: u64) -> Felt {
    Felt::new(value)
}

fn word(a: u64, b: u64, c: u64, d: u64) -> Word {
    [felt(a), felt(b), felt(c), felt(d)]
}

fn stack_of(values: &[u64]) -> OperandStack {
    let mut top = [felt(0); 16];
    for (place, value) in top.iter_mut().zip(values) {
        *place = felt(*value);
    }
    OperandStack::new(top)
}

fn process(values: &[u64]) -> Process<MemAdviceProvider> {
    let system = System { clk: CLK, ctx: CTX };
    Process::new(system, stack_of(values), Memory::new(), MemAdviceProvider::new())
}

fn advice_stack(process: &Process<MemAdviceProvider>) -> Vec<u64> {
    process.advice_provider.stack().iter().map(|element| element.as_int()).collect()
}

/// A tree of which one node is known.
fn tree_with_node(tree_depth: u8, depth: u64, index: u64, node: Word) -> KnownTree {
    let mut tree = KnownTree::new(tree_depth);
    tree.insert_node(felt(depth), felt(index), node);
    tree
}

// FIELD
// ------------------------------------------------------------------------------------------------

#[test]
fn field_elements_are_reduced() {
    assert_eq!(felt(5).as_int(), 5);
    assert_eq!(felt(MODULUS - 1).as_int(), MODULUS - 1);
    assert_eq!(felt(MODULUS).as_int(), 0);
    assert_eq!(felt(u64::MAX).as_int(), 0xFFFF_FFFE);
    for value in [0, 1, MODULUS - 1, MODULUS, MODULUS + 1, u64::MAX] {
        assert_eq!(felt(value).as_int(), BaseElement::new(value).as_int());
    }
}

#[test]
fn integers_split_into_limbs() {
    assert_eq!(u64_to_u32_elements(0), (felt(0), felt(0)));
    assert_eq!(u64_to_u32_elements(0x1234_5678_9abc_def0), (felt(0x1234_5678), felt(0x9abc_def0)));
    assert_eq!(u64_to_u32_elements(u64::MAX), (felt(0xffff_ffff), felt(0xffff_ffff)));
}

// MERKLE NODES AND MAP ENTRIES
// ------------------------------------------------------------------------------------------------

#[test]
fn merkle_node_is_copied_with_its_first_element_on_top() {
    // depth, index, and the root from its last element to its first
    let mut process = process(&[3, 5, 14, 13, 12, 11]);
    let node = word(21, 22, 23, 24);
    process.advice_provider.insert_tree(word(11, 12, 13, 14), tree_with_node(3, 3, 5, node));
    let stack = process.stack;
    assert_eq!(process.copy_merkle_node_to_adv_stack(), Ok(()));
    assert_eq!(advice_stack(&process), [21, 22, 23, 24]);
    assert_eq!(process.stack, stack);
    // what was pushed as a word is popped as the same word
    assert_eq!(process.advice_provider.pop_stack_word(), Ok(node));
    assert_eq!(
        process.advice_provider.pop_stack_word(),
        Err(ExecutionError::AdviceStackReadFailed)
    );
}

#[test]
fn unknown_merkle_node_is_an_error() {
    let mut process = process(&[3, 6, 14, 13, 12, 11]);
    let root = word(11, 12, 13, 14);
    process.advice_provider.insert_tree(root, tree_with_node(3, 3, 5, word(1, 2, 3, 4)));
    assert_eq!(
        process.copy_merkle_node_to_adv_stack(),
        Err(ExecutionError::TreeNodeNotFound { root, depth: felt(3), index: felt(6) })
    );
    assert!(advice_stack(&process).is_empty());
}

#[test]
fn merkle_node_at_depth_zero_is_an_error() {
    let mut process = process(&[0, 0, 14, 13, 12, 11]);
    let root = word(11, 12, 13, 14);
    let error = ExecutionError::TreeNodeNotFound { root, depth: felt(0), index: felt(0) };
    assert_eq!(process.copy_merkle_node_to_adv_stack(), Err(error));
    process.advice_provider.insert_tree(root, tree_with_node(3, 0, 0, root));
    assert_eq!(process.copy_merkle_node_to_adv_stack(), Err(error));
    assert!(advice_stack(&process).is_empty());
}

#[test]
fn merkle_node_below_the_depth_of_the_tree_is_an_error() {
    let mut process = process(&[4, 5, 14, 13, 12, 11]);
    let root = word(11, 12, 13, 14);
    let node = word(21, 22, 23, 24);
    let error = ExecutionError::TreeNodeNotFound { root, depth: felt(4), index: felt(5) };
    process.advice_provider.insert_tree(root, tree_with_node(3, 4, 5, node));
    assert_eq!(process.copy_merkle_node_to_adv_stack(), Err(error));
    assert!(advice_stack(&process).is_empty());
    // at the depth of the tree there is such a node
    process.advice_provider.insert_tree(root, tree_with_node(4, 4, 5, node));
    assert_eq!(process.copy_merkle_node_to_adv_stack(), Ok(()));
    assert_eq!(advice_stack(&process), [21, 22, 23, 24]);
}

#[test]
fn merkle_node_of_an_unknown_tree_is_an_error() {
    let mut process = process(&[3, 5, 14, 13, 12, 11]);
    let root = word(11, 12, 13, 14);
    process
        .advice_provider
        .insert_tree(word(11, 12, 13, 15), tree_with_node(3, 3, 5, word(1, 2, 3, 4)));
    assert_eq!(
        process.copy_merkle_node_to_adv_stack(),
        Err(ExecutionError::TreeNodeNotFound { root, depth: felt(3), index: felt(5) })
    );
    assert!(advice_stack(&process).is_empty());
}

#[test]
fn later_trees_replace_earlier_ones() {
    let root = word(11, 12, 13, 14);
    let (first, second) = (word(1, 1, 1, 1), word(2, 2, 2, 2));
    let mut tree = tree_with_node(8, 2, 0, first);
    tree.insert_leaf_depth(felt(64), felt(9), 5);
    let mut provider = MemAdviceProvider::new();
    provider.insert_tree(root, tree);
    assert_eq!(provider.get_tree_node(root, &felt(2), &felt(0)), Ok(first));
    assert_eq!(provider.get_leaf_depth(root, &felt(64), &felt(9)), Ok(5));

    let mut tree = tree_with_node(8, 3, 1, first);
    tree.insert_node(felt(3), felt(1), second);
    provider.insert_tree(root, tree);
    assert_eq!(provider.get_tree_node(root, &felt(3), &felt(1)), Ok(second));
    assert!(provider.get_tree_node(root, &felt(2), &felt(0)).is_err());
    assert!(provider.get_leaf_depth(root, &felt(64), &felt(9)).is_err());
}

#[test]
fn map_values_are_copied() {
    let values: Vec<u64> = (1..=16).collect();
    for offset in 0..=12usize {
        let mut process = process(&values);
        let o = offset as u64;
        let key = word(o + 4, o + 3, o + 2, o + 1);
        process.advice_provider.insert_into_map(key, vec![felt(7), felt(8), felt(9)]);
        assert_eq!(process.copy_map_value_to_adv_stack(false, offset), Ok(()));
        assert_eq!(advice_stack(&process), [7, 8, 9]);
        assert_eq!(process.copy_map_value_to_adv_stack(true, offset), Ok(()));
        assert_eq!(advice_stack(&process), [3, 7, 8, 9, 7, 8, 9]);
    }
}

#[test]
fn map_value_offset_is_bounded() {
    let mut process = process(&[1, 2, 3, 4]);
    assert_eq!(
        process.copy_map_value_to_adv_stack(true, 13),
        Err(ExecutionError::InvalidStackWordOffset(13))
    );
    assert_eq!(
        process.copy_map_value_to_adv_stack(true, 0),
        Err(ExecutionError::AdviceMapKeyNotFound(word(4, 3, 2, 1)))
    );
    assert!(advice_stack(&process).is_empty());
}

#[test]
fn later_map_entries_replace_earlier_ones() {
    let mut provider = MemAdviceProvider::new();
    let key = word(1, 2, 3, 4);
    assert_eq!(provider.get_mapped_values(&key), None);
    provider.insert_into_map(key, vec![felt(5)]);
    provider.insert_into_map(key, vec![felt(6), felt(7)]);
    provider.insert_into_map(word(0, 0, 0, 0), vec![]);
    assert_eq!(provider.get_mapped_values(&key), Some(vec![felt(6), felt(7)]));
    let source = AdviceSource::MapEntry { key, include_len: true };
    assert_eq!(provider.push_stack(source), Ok(()));
    assert_eq!(provider.stack(), [felt(2), felt(6), felt(7)]);
}

// DIVISION
// ------------------------------------------------------------------------------------------------

fn divide(dividend: u64, divisor: u64) -> Vec<u64> {
    let limbs = [divisor >> 32, divisor & 0xffff_ffff, dividend >> 32, dividend & 0xffff_ffff];
    let mut process = process(&limbs);
    assert_eq!(process.push_u64_div_result(), Ok(()));
    assert_eq!(process.stack, stack_of(&limbs));
    advice_stack(&process)
}

#[test]
fn quotient_and_remainder_are_pushed() {
    assert_eq!(divide(10, 3), [3, 0, 1, 0]);
    assert_eq!(divide(3, 10), [0, 0, 3, 0]);
    assert_eq!(divide(u64::MAX, 1), [0xffff_ffff, 0xffff_ffff, 0, 0]);
    assert_eq!(divide(u64::MAX, u64::MAX), [1, 0, 0, 0]);
    assert_eq!(divide(u64::MAX - 1, u64::MAX), [0, 0, 0xffff_fffe, 0xffff_ffff]);
    for (a, b) in [(0x1234_5678_9abc_def0u64, 0x1_0000_0001u64), (1 << 63, 7), (0, 5)] {
        let stack = divide(a, b);
        let quotient = (stack[1] << 32) + stack[0];
        let remainder = (stack[3] << 32) + stack[2];
        assert_eq!(quotient * b + remainder, a);
        assert!(remainder < b);
    }
}

#[test]
fn division_by_zero_is_an_error() {
    let mut process = process(&[0, 0, 1, 1]);
    assert_eq!(process.push_u64_div_result(), Err(ExecutionError::DivideByZero(CLK)));
    assert!(advice_stack(&process).is_empty());
}

#[test]
fn upper_bits_of_an_upper_limb_do_not_count() {
    // the upper limb of the divisor is 2^32, of which the lower 32 bits are zero
    let mut zero = process(&[1 << 32, 0, 0, 1]);
    assert_eq!(zero.push_u64_div_result(), Err(ExecutionError::DivideByZero(CLK)));
    let mut three = process(&[1 << 32, 3, 0, 10]);
    assert_eq!(three.push_u64_div_result(), Ok(()));
    assert_eq!(advice_stack(&three), [3, 0, 1, 0]);
}

// INVERSION
// ------------------------------------------------------------------------------------------------

fn quad_mul(a: (u64, u64), b: (u64, u64)) -> (u64, u64) {
    let m = MODULUS as u128;
    let mul = |x: u64, y: u64| (x as u128 * y as u128) % m;
    let c0 = mul(a.0, b.0) + 2 * (m - mul(a.1, b.1));
    let c1 = mul(a.0, b.1) + mul(a.1, b.0) + mul(a.1, b.1);
    ((c0 % m) as u64, (c1 % m) as u64)
}

fn invert(a0: u64, a1: u64) -> (u64, u64) {
    let mut process = process(&[a1, a0]);
    assert_eq!(process.push_ext2_inv_result(), Ok(()));
    let stack = advice_stack(&process);
    assert_eq!(stack.len(), 2);
    (stack[0], stack[1])
}

#[test]
fn inverse_is_pushed() {
    assert_eq!(invert(1, 0), (1, 0));
    // x^2 = x - 2, so x * (1 - x) = 2 and the inverse of x is (1 - x) / 2
    let half = (MODULUS + 1) / 2;
    assert_eq!(invert(0, 1), (half, MODULUS - half));
    for a in [(2, 0), (0, 2), (1, 1), (5, 9), (MODULUS - 1, MODULUS - 1), (12345, 1 << 60)] {
        let b = invert(a.0, a.1);
        assert_eq!(quad_mul(a, b), (1, 0));
        // the inverse of the inverse is the element again
        assert_eq!(invert(b.0, b.1), a);
    }
}

#[test]
fn inverse_of_zero_is_an_error() {
    let mut process = process(&[0, 0]);
    assert_eq!(process.push_ext2_inv_result(), Err(ExecutionError::DivideByZero(CLK)));
    assert!(advice_stack(&process).is_empty());
}

#[test]
fn inverse_is_pushed_where_the_norm_is_off() {
    let a = (0, 36028247254761472);
    let element =
        QuadExtension::<BaseElement>::new(BaseElement::new(a.0), BaseElement::new(a.1));
    let direct = element.inv().to_base_elements();
    assert_ne!(quad_mul(a, (direct[0].as_int(), direct[1].as_int())), (1, 0));
    let b = invert(a.0, a.1);
    assert_eq!(quad_mul(a, b), (1, 0));
    assert_eq!(invert(b.0, b.1), a);
    // the inverse of a product is the product of the inverses
    for c in [(3, 0), (7, 11), (MODULUS - 5, 1 << 40), a] {
        let product = quad_mul(a, c);
        assert_eq!(invert(product.0, product.1), quad_mul(b, invert(c.0, c.1)));
    }
}

#[test]
fn inverse_of_an_element_is_computed() {
    let quad = |a: u64, b: u64| QuadFelt::new(felt(a), felt(b));
    let half = (MODULUS + 1) / 2;
    assert_eq!(field_invert(quad(2, 0)), quad(half, 0));
    assert_eq!(field_invert(quad(0, 1)), quad(half, MODULUS - half));
}

#[test]
fn extension_elements_are_pushed_with_the_first_coordinate_on_top() {
    let mut process = process(&[]);
    assert_eq!(process.push_ext2_element(QuadFelt::new(felt(4), felt(5))), Ok(()));
    assert_eq!(advice_stack(&process), [4, 5]);
}

// INTERPOLATION
// ------------------------------------------------------------------------------------------------

fn interpolation(
    evaluations: &[(u64, u64)],
    start: u32,
    output_size: u64,
) -> Process<MemAdviceProvider> {
    let mut process = process(&[output_size, evaluations.len() as u64, start as u64]);
    for (i, pair) in evaluations.chunks(2).enumerate() {
        let word = word(pair[0].0, pair[0].1, pair[1].0, pair[1].1);
        process.memory.write(CTX, start + i as u32, word);
    }
    process
}

fn evaluate(poly: &[(u64, u64)]) -> Vec<(u64, u64)> {
    let g = BaseElement::get_root_of_unity(poly.len().ilog2());
    let domain: Vec<BaseElement> = get_power_series(g, poly.len());
    let first: Vec<BaseElement> = poly.iter().map(|c| BaseElement::new(c.0)).collect();
    let second: Vec<BaseElement> = poly.iter().map(|c| BaseElement::new(c.1)).collect();
    domain
        .iter()
        .map(|x| (polynom::eval(&first, *x).as_int(), polynom::eval(&second, *x).as_int()))
        .collect()
}

#[test]
fn two_evaluations_are_interpolated() {
    // the domain is {1, -1}, so the coefficients are half the sum and half the difference
    let mut process = interpolation(&[(10, 7), (4, 1)], 100, 2);
    assert_eq!(process.push_ext2_intt_result(), Ok(()));
    assert_eq!(advice_stack(&process), [7, 4, 3, 3]);
}

#[test]
fn interpolation_undoes_evaluation() {
    for log in 1..=6u32 {
        let poly: Vec<(u64, u64)> =
            (0..1u64 << log).map(|i| (i * i + 3, MODULUS - 1 - 1000 * i)).collect();
        let flat: Vec<u64> = poly.iter().flat_map(|c| [c.0, c.1]).collect();
        for output_size in 1..=poly.len() {
            let mut process = interpolation(&evaluate(&poly), 40, output_size as u64);
            assert_eq!(process.push_ext2_intt_result(), Ok(()));
            assert_eq!(advice_stack(&process), flat[..2 * output_size]);
        }
    }
}

#[test]
fn large_interpolation_undoes_evaluation() {
    let poly: Vec<(u64, u64)> = (0..1024u64).map(|i| (7 * i + 1, i ^ 0x5555)).collect();
    let flat: Vec<u64> = poly.iter().flat_map(|c| [c.0, c.1]).collect();
    let mut process = interpolation(&evaluate(&poly), 0, 1024);
    assert_eq!(process.push_ext2_intt_result(), Ok(()));
    assert_eq!(advice_stack(&process), flat);
}

#[test]
fn coefficients_are_pushed_lowest_degree_on_top() {
    let quad = |a, b| QuadFelt::new(felt(a), felt(b));
    let mut process = process(&[]);
    let poly = vec![quad(1, 2), quad(3, 4), quad(5, 6)];
    assert_eq!(process.push_coefficients(&poly, 2), Ok(()));
    assert_eq!(advice_stack(&process), [1, 2, 3, 4]);
}

#[test]
fn interpolation_requests_are_checked() {
    let fail = |output_size: u64, input_size: u64, start: u64, error: Ext2InttError| {
        let mut process = process(&[output_size, input_size, start]);
        assert_eq!(
            process.push_ext2_intt_result(),
            Err(ExecutionError::Ext2InttError(error))
        );
        assert!(advice_stack(&process).is_empty());
    };
    let last = u32::MAX as u64;
    fail(1, 0, 0, Ext2InttError::DomainSizeTooSmall(0));
    fail(1, 1, 0, Ext2InttError::DomainSizeTooSmall(1));
    fail(1, 3, 0, Ext2InttError::DomainSizeNotPowerOf2(3));
    fail(1, 12, 0, Ext2InttError::DomainSizeNotPowerOf2(12));
    fail(1, 2, last + 2, Ext2InttError::InputStartAddressTooBig(last + 2));
    fail(1, 2, MODULUS - 1, Ext2InttError::InputStartAddressTooBig(MODULUS - 1));
    fail(1, 2, last + 1, Ext2InttError::InputEndAddressTooBig(last + 2));
    fail(1, 1 << 32, 0, Ext2InttError::InputSizeTooBig(1 << 32));
    fail(1, 4, last, Ext2InttError::InputEndAddressTooBig(last + 2));
    fail(0, 2, 0, Ext2InttError::OutputSizeIsZero);
    fail(3, 2, 0, Ext2InttError::OutputSizeTooBig(3, 2));
    fail(1, 2, 5, Ext2InttError::UninitializedMemoryAddress(5));
    fail(1, 2, last, Ext2InttError::UninitializedMemoryAddress(u32::MAX));
    fail(1, 4, last - 1, Ext2InttError::UninitializedMemoryAddress(u32::MAX - 1));
}

#[test]
fn first_unwritten_address_is_reported() {
    let mut process = process(&[1, 8, 10]);
    process.memory.write(CTX, 10, word(1, 2, 3, 4));
    process.memory.write(CTX, 12, word(1, 2, 3, 4));
    // written in another context
    process.memory.write(CTX + 1, 11, word(1, 2, 3, 4));
    assert_eq!(
        process.push_ext2_intt_result(),
        Err(ExecutionError::Ext2InttError(Ext2InttError::UninitializedMemoryAddress(11)))
    );
}

#[test]
fn evaluations_may_end_at_the_last_address() {
    let mut two = interpolation(&[(4, 6), (2, 2)], u32::MAX, 1);
    assert_eq!(two.push_ext2_intt_result(), Ok(()));
    assert_eq!(advice_stack(&two), [3, 4]);

    let mut four = interpolation(&[(5, 0); 4], u32::MAX - 1, 1);
    assert_eq!(four.push_ext2_intt_result(), Ok(()));
    assert_eq!(advice_stack(&four), [5, 0]);

    let mut all = interpolation(&[(1, 2), (3, 4)], u32::MAX, 2);
    assert_eq!(all.push_ext2_intt_result(), Ok(()));
    assert_eq!(advice_stack(&all), [2, 3, MODULUS - 1, MODULUS - 1]);
}

#[test]
fn errors_convert() {
    let error = Ext2InttError::OutputSizeIsZero;
    assert_eq!(ExecutionError::from(error), ExecutionError::Ext2InttError(error));
}

// MACHINE
// ------------------------------------------------------------------------------------------------

#[test]
fn memory_is_divided_into_contexts() {
    let mut memory = Memory::new();
    assert_eq!(memory.read(0, 0), None);
    memory.write(0, u32::MAX, word(1, 2, 3, 4));
    memory.write(1, 0, word(5, 6, 7, 8));
    memory.write(1, 0, word(9, 9, 9, 9));
    assert_eq!(memory.read(0, u32::MAX), Some(word(1, 2, 3, 4)));
    assert_eq!(memory.read(1, 0), Some(word(9, 9, 9, 9)));
    assert_eq!(memory.read(1, u32::MAX), None);
    assert_eq!(memory.read(u32::MAX, 0), None);
}

#[test]
fn words_of_the_operand_stack_are_read_from_the_bottom_up() {
    let values: Vec<u64> = (0..16).collect();
    let stack = stack_of(&values);
    assert_eq!(stack.get(15), felt(15));
    assert_eq!(stack.get_word(0), word(3, 2, 1, 0));
    assert_eq!(stack.get_word(3), word(15, 14, 13, 12));
    assert_eq!(stack.get_word_at(2), word(5, 4, 3, 2));
}
