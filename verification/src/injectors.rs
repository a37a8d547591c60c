//! Injectors that push results onto the advice stack.
//!
//! An injector reads the operand stack, the memory and the advice provider, and changes nothing
//! but the advice stack.

use crate::advice::{
    accepts_values, push_outcome, push_run, value_sources, word_sources, AdviceProvider,
    AdviceSource,
};
use crate::errors::ExecutionError;
use crate::field::{invert, quad_mul, quad_one, Felt, QuadFelt};
use crate::process::Process;
use vstd::prelude::*;

verus! {

/// The integer with the 32-bit limbs `hi` and `lo`. Of a `hi` of more than 32 bits, the lower 32
/// count.
pub open spec fn from_limbs(hi: Felt, lo: Felt) -> int {
    (hi.value % 0x1_0000_0000) * 0x1_0000_0000 + lo.value
}

/// The upper 32 bits of an integer.
pub open spec fn upper_limb(value: int) -> Felt {
    Felt { value: (value / 0x1_0000_0000) as u64 }
}

/// The lower 32 bits of an integer.
pub open spec fn lower_limb(value: int) -> Felt {
    Felt { value: (value % 0x1_0000_0000) as u64 }
}

/// Splits an integer into its upper and its lower 32 bits.
pub fn u64_to_u32_elements(value: u64) -> (elements: (Felt, Felt))
    ensures
        elements.0 == upper_limb(value as int),
        elements.1 == lower_limb(value as int),
        elements.0.value == value / 0x1_0000_0000,
        elements.1.value == value % 0x1_0000_0000,
{
    let low: u64 = (value as u32) as u64;
    assert(value >> 32 == value / 0x1_0000_0000) by (bit_vector);
    assert((value as u32) == value % 0x1_0000_0000) by (bit_vector);
    let hi = Felt::new(value >> 32);
    let lo = Felt::new(low);
    (hi, lo)
}

/// Joins two limbs.
fn join_limbs(hi: Felt, lo: Felt) -> (value: u64)
    requires
        from_limbs(hi, lo) <= u64::MAX,
    ensures
        value == from_limbs(hi, lo),
{
    let h: u64 = hi.as_int();
    assert(h << 32 == (h % 0x1_0000_0000) * 0x1_0000_0000) by (bit_vector);
    (h << 32) + lo.as_int()
}

impl<A: AdviceProvider> Process<A> {
    /// Pushes a node of a Merkle tree onto the advice stack.
    ///
    /// The operand stack holds [depth, index, ROOT, ...]. The first element of the node ends up on
    /// top of the advice stack.
    ///
    /// Fails if the tree is not known, if the depth is zero or greater than that of the tree, or if
    /// the node is not known.
    pub fn copy_merkle_node_to_adv_stack(&mut self) -> (result: Result<(), ExecutionError>)
        ensures
            final(self).same_machine(old(self)),
            ({
                let (before, after) = (old(self).advice(), final(self).advice());
                let stack = old(self).stack;
                let root = [stack@[5], stack@[4], stack@[3], stack@[2]];
                match (before.nodes)(root, stack@[0], stack@[1]) {
                    Err(error) => result == Err::<(), _>(error) && after == before,
                    Ok(node) => {
                        &&& (after, result) == push_run::<A>(before, word_sources(node))
                        &&& result is Ok ==> after == before.with_stack(node@ + before.stack)
                        &&& result is Ok ==> forall|j: int|
                            0 <= j < 4 ==> #[trigger] after.stack[j] == node[j]
                        &&& accepts_values::<A>() ==> result is Ok
                    },
                }
            }),
            !old(self).advice().has_depth(old(self).stack.word_at(2), old(self).stack@[0]) ==> {
                &&& result is Err
                &&& final(self).advice() == old(self).advice()
            },
    {
        let depth = self.stack.get(0);
        let index = self.stack.get(1);
        let root = self.stack.get_word_at(2);
        proof {
            if !self.advice().has_depth(root, depth) {
                self.advice_provider.missing_depth_is_refused(root, depth, index);
            }
        }
        let node = match self.advice_provider.get_tree_node(root, &depth, &index) {
            Ok(node) => node,
            Err(error) => return Err(error),
        };
        let values = vec![node[3], node[2], node[1], node[0]];
        assert(values@.reverse() =~= node@);
        self.push_values(values)
    }

    /// Pushes the list that the advice map holds under a word of the operand stack onto the advice
    /// stack; with `include_len`, also its length, which ends up on top.
    ///
    /// The key is the word that lies `key_offset` elements below the top of the operand stack.
    ///
    /// Fails if the offset is greater than 12 or the map does not hold the key.
    pub fn copy_map_value_to_adv_stack(&mut self, include_len: bool, key_offset: usize) -> (result:
        Result<(), ExecutionError>)
        ensures
            final(self).same_machine(old(self)),
            key_offset > 12 ==> {
                &&& result == Err::<(), _>(ExecutionError::InvalidStackWordOffset(key_offset))
                &&& final(self).advice() == old(self).advice()
            },
            key_offset <= 12 ==> {
                let stack = old(self).stack@;
                let key = [
                    stack[key_offset + 3],
                    stack[key_offset + 2],
                    stack[key_offset + 1],
                    stack[key_offset as int],
                ];
                let before = old(self).advice();
                let source = AdviceSource::MapEntry { key, include_len };
                &&& (final(self).advice(), result) == push_outcome(
                    before,
                    source,
                    A::push_refusal(before, source),
                )
                &&& !before.map.dom().contains(key) ==> result is Err
                &&& result is Ok && include_len && before.map[key].len() < 0xFFFF_FFFF_0000_0001
                    ==> final(self).advice().stack[0].value == before.map[key].len()
            },
    {
        if key_offset > 12 {
            return Err(ExecutionError::InvalidStackWordOffset(key_offset));
        }
        let key = self.stack.get_word_at(key_offset);
        proof {
            if !self.advice().map.dom().contains(key) {
                A::missing_key_is_refused(self.advice(), key, include_len);
            }
        }
        self.advice_provider.push_stack(AdviceSource::MapEntry { key, include_len })
    }

    /// Pushes the quotient and the remainder of a division of 64-bit integers onto the advice
    /// stack.
    ///
    /// The operand stack holds [b1, b0, a1, a0, ...], the 32-bit limbs of the divisor b and of the
    /// dividend a, upper limb first. The advice stack becomes [q0, q1, r0, r1, ...], the limbs of
    /// the quotient and of the remainder, lower limb first.
    ///
    /// Fails if the divisor is zero.
    pub fn push_u64_div_result(&mut self) -> (result: Result<(), ExecutionError>)
        requires
            ({
                let stack = old(self).stack;
                let divisor = from_limbs(stack@[0], stack@[1]);
                let dividend = from_limbs(stack@[2], stack@[3]);
                divisor <= u64::MAX && (divisor != 0 ==> dividend <= u64::MAX)
            }),
        ensures
            final(self).same_machine(old(self)),
            ({
                let (before, after) = (old(self).advice(), final(self).advice());
                let stack = old(self).stack;
                let divisor = from_limbs(stack@[0], stack@[1]);
                let dividend = from_limbs(stack@[2], stack@[3]);
                let (q, r) = (dividend / divisor, dividend % divisor);
                if divisor == 0 {
                    &&& result == Err::<(), _>(ExecutionError::DivideByZero(old(self).system.clk))
                    &&& after == before
                } else {
                    let values = seq![upper_limb(r), lower_limb(r), upper_limb(q), lower_limb(q)];
                    &&& (after, result) == push_run::<A>(before, value_sources(values))
                    &&& result is Ok ==> after == before.with_stack(
                        seq![lower_limb(q), upper_limb(q), lower_limb(r), upper_limb(r)]
                            + before.stack,
                    )
                    &&& accepts_values::<A>() ==> result is Ok
                }
            }),
            ({
                let stack = old(self).stack@;
                let divisor = (stack[0].value % 0x1_0000_0000) * 0x1_0000_0000 + stack[1].value;
                let dividend = (stack[2].value % 0x1_0000_0000) * 0x1_0000_0000 + stack[3].value;
                let after = final(self).advice().stack;
                &&& divisor == 0 ==> result is Err
                &&& result is Ok ==> {
                    let quotient = after[1].value * 0x1_0000_0000 + after[0].value;
                    let remainder = after[3].value * 0x1_0000_0000 + after[2].value;
                    &&& quotient * divisor + remainder == dividend
                    &&& remainder < divisor
                    &&& after[0].value < 0x1_0000_0000 && after[1].value < 0x1_0000_0000
                    &&& after[2].value < 0x1_0000_0000 && after[3].value < 0x1_0000_0000
                    &&& after.skip(4) == old(self).advice().stack
                }
            }),
    {
        let divisor: u64 = join_limbs(self.stack.get(0), self.stack.get(1));
        if divisor == 0 {
            return Err(ExecutionError::DivideByZero(self.system.clk));
        }
        let dividend: u64 = join_limbs(self.stack.get(2), self.stack.get(3));
        let quotient: u64 = dividend / divisor;
        proof {
            vstd::arithmetic::div_mod::lemma_fundamental_div_mod(dividend as int, divisor as int);
            assert(divisor * quotient == quotient * divisor) by (nonlinear_arith);
        }
        let remainder: u64 = dividend - quotient * divisor;
        let (q_hi, q_lo) = u64_to_u32_elements(quotient);
        let (r_hi, r_lo) = u64_to_u32_elements(remainder);
        let values = vec![r_hi, r_lo, q_hi, q_lo];
        assert(values@.reverse() =~= seq![q_lo, q_hi, r_lo, r_hi]);
        let result = self.push_values(values);
        assert(result is Ok ==> self.advice().stack.skip(4) =~= old(self).advice().stack);
        result
    }

    /// Pushes an element of the extension field onto the advice stack, its first coordinate on
    /// top.
    pub fn push_ext2_element(&mut self, element: QuadFelt) -> (result: Result<(), ExecutionError>)
        ensures
            final(self).same_machine(old(self)),
            (final(self).advice(), result) == push_run::<A>(
                old(self).advice(),
                value_sources(seq![element.a1, element.a0]),
            ),
            result is Ok ==> final(self).advice() == old(self).advice().with_stack(
                seq![element.a0, element.a1] + old(self).advice().stack,
            ),
            accepts_values::<A>() ==> result is Ok,
    {
        let values = vec![element.a1, element.a0];
        assert(values@.reverse() =~= seq![element.a0, element.a1]);
        self.push_values(values)
    }

    /// Pushes the multiplicative inverse of an element of the extension field onto the advice
    /// stack.
    ///
    /// The operand stack holds [a1, a0, ...], the coordinates of the element. The advice stack
    /// becomes [b0, b1, ...], the coordinates of the inverse.
    ///
    /// Fails if the element is zero.
    pub fn push_ext2_inv_result(&mut self) -> (result: Result<(), ExecutionError>)
        requires
            old(self).wf(),
        ensures
            final(self).same_machine(old(self)),
            ({
                let (before, after) = (old(self).advice(), final(self).advice());
                let element = QuadFelt { a0: old(self).stack@[1], a1: old(self).stack@[0] };
                if element.is_zero() {
                    &&& result == Err::<(), _>(ExecutionError::DivideByZero(old(self).system.clk))
                    &&& after == before
                } else {
                    exists|inverse: QuadFelt|
                        {
                            &&& inverse.wf()
                            &&& #[trigger] quad_mul(element, inverse) == quad_one()
                            &&& (after, result) == push_run::<A>(
                                before,
                                value_sources(seq![inverse.a1, inverse.a0]),
                            )
                            &&& result is Ok ==> after == before.with_stack(
                                seq![inverse.a0, inverse.a1] + before.stack,
                            )
                            &&& accepts_values::<A>() ==> result is Ok
                        }
                }
            }),
            ({
                let (a0, a1) = (old(self).stack@[1].value as int, old(self).stack@[0].value as int);
                let (after, p) = (final(self).advice().stack, 0xFFFF_FFFF_0000_0001int);
                &&& a0 == 0 && a1 == 0 ==> result is Err
                &&& result is Ok ==> {
                    let (b0, b1) = (after[0].value as int, after[1].value as int);
                    &&& b0 < p && b1 < p
                    &&& (a0 * b0 - 2 * (a1 * b1)) % p == 1
                    &&& (a0 * b1 + a1 * b0 + a1 * b1) % p == 0
                    &&& after.skip(2) == old(self).advice().stack
                }
            }),
    {
        let element = QuadFelt::new(self.stack.get(1), self.stack.get(0));
        if element.a0.as_int() == 0 && element.a1.as_int() == 0 {
            return Err(ExecutionError::DivideByZero(self.system.clk));
        }
        let inverse = invert(element);
        let result = self.push_ext2_element(inverse);
        assert(result is Ok ==> self.advice().stack.skip(2) =~= old(self).advice().stack);
        result
    }
}

} // verus!
