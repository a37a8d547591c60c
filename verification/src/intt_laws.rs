//! What interpolation of values in memory comes to, element by element.

use crate::errors::Ext2InttError;
use crate::field::{Felt, QuadFelt, Word};
use crate::interpolation::lemma_root_squares;
use crate::intt::{
    all_written, base_elements, evaluations_at, first_unwritten, request_error,
};
use crate::ntt::{
    domain_log, first_coordinates, interpolates, is_domain_size, poly_eval, root_of_unity,
    second_coordinates,
};
use vstd::arithmetic::power::pow;
use vstd::arithmetic::power2::{is_pow2, pow2};
use vstd::prelude::*;

verus! {

/// The value of a polynomial is its constant coefficient, plus the argument times the value of the
/// polynomial that is left when that coefficient is dropped.
pub proof fn law_polynomial_evaluation(constant: int, rest: Seq<int>, x: int)
    ensures
        poly_eval(Seq::empty(), x) == 0,
        poly_eval(seq![constant] + rest, x) == constant + x * poly_eval(rest, x),
{
    assert((seq![constant] + rest).drop_first() =~= rest);
}

/// The generator of the subgroup of order 2^32 is 7277203076849721926, and those of the smaller
/// subgroups are the squares of each other. The one of order two is minus one.
pub proof fn law_generators(k: nat)
    requires
        1 <= k < 32,
    ensures
        root_of_unity(32) == 7277203076849721926,
        root_of_unity(k) == (root_of_unity(k + 1) * root_of_unity(k + 1)) % 0xFFFF_FFFF_0000_0001,
        root_of_unity(1) == 0xFFFF_FFFF_0000_0000,
{
    lemma_root_squares(k);
}

/// The subgroups that serve as domains are those of order 2^k, for k from 1 to 31.
pub proof fn law_domains(size: nat, k: nat)
    ensures
        1 <= k <= 31 && size == pow2(k) ==> is_domain_size(size) && domain_log(size) == k,
        is_domain_size(size) ==> 1 <= domain_log(size) <= 31 && size == pow2(domain_log(size)),
{
    if 1 <= k <= 31 && size == pow2(k) {
        vstd::arithmetic::power2::lemma_pow2(k);
        vstd::arithmetic::logarithm::lemma_log_pow(2, k);
    }
}

/// A request is granted for a power of two, from 2 to 2^31, of evaluations that lie below address
/// 2^32, and for at least one and at most as many coefficients, and for no other. Otherwise the
/// first of these things that is wrong is the error: the number of evaluations, where they start,
/// where they end, or the number of coefficients.
pub proof fn law_granted_requests(output_size: usize, input_size: usize, start: u64)
    ensures
        ({
            let end = start + input_size / 2;
            let error = request_error(output_size, input_size, start);
            let power = is_pow2(input_size as int);
            &&& error is None <==> {
                &&& 2 <= input_size <= 0xFFFF_FFFF && power
                &&& end <= 0x1_0000_0000
                &&& 1 <= output_size <= input_size
            }
            &&& input_size < 2 <==> error == Some(
                Ext2InttError::DomainSizeTooSmall(input_size as u64),
            )
            &&& input_size >= 2 && !power <==> error == Some(
                Ext2InttError::DomainSizeNotPowerOf2(input_size as u64),
            )
            &&& input_size >= 2 && power && start > 0x1_0000_0000 <==> error == Some(
                Ext2InttError::InputStartAddressTooBig(start),
            )
            &&& input_size > 0xFFFF_FFFF && power && start <= 0x1_0000_0000 <==> error == Some(
                Ext2InttError::InputSizeTooBig(input_size as u64),
            )
            &&& 2 <= input_size <= 0xFFFF_FFFF && power && start <= 0x1_0000_0000 && end
                > 0x1_0000_0000 <==> error == Some(Ext2InttError::InputEndAddressTooBig(end as u64))
            &&& 2 <= input_size <= 0xFFFF_FFFF && power && end <= 0x1_0000_0000 && output_size == 0
                <==> error == Some(Ext2InttError::OutputSizeIsZero)
            &&& 2 <= input_size <= 0xFFFF_FFFF && power && end <= 0x1_0000_0000 && output_size
                > input_size <==> error == Some(
                Ext2InttError::OutputSizeTooBig(output_size, input_size),
            )
        }),
{
}

/// Which addresses have been written, and which is the first that has not.
pub proof fn law_first_gap(
    memory: Map<(u32, u32), Word>,
    ctx: u32,
    start: int,
    end: int,
    addr: u32,
)
    ensures
        all_written(memory, ctx, start, end) <==> forall|a: u32|
            start <= a && a < end ==> #[trigger] memory.dom().contains((ctx, a)),
        first_unwritten(memory, ctx, start, end, addr) <==> start <= addr && addr < end
            && !memory.dom().contains((ctx, addr)) && forall|a: u32|
            start <= a && a < addr ==> #[trigger] memory.dom().contains((ctx, a)),
{
}

/// In every context, a word of memory holds two evaluations: the first has the first two elements
/// as its coordinates, the second has the last two.
pub proof fn law_two_evaluations_to_a_word(
    memory: Map<(u32, u32), Word>,
    ctx: u32,
    start: int,
    size: nat,
    k: int,
)
    requires
        0 <= start,
        0 <= k,
        2 * k + 1 < size,
    ensures
        ({
            let evaluations = evaluations_at(memory, ctx, start, size);
            let word = memory[(ctx, (start + k) as u32)];
            &&& evaluations.len() == size
            &&& evaluations[2 * k].a0 == word[0] && evaluations[2 * k].a1 == word[1]
            &&& evaluations[2 * k + 1].a0 == word[2] && evaluations[2 * k + 1].a1 == word[3]
        }),
{
    assert((2 * k) / 2 == k && (2 * k + 1) / 2 == k);
}

/// The coordinates of elements follow each other, the first coordinate of each element first.
pub proof fn law_coordinates_in_order(elements: Seq<QuadFelt>, j: int)
    requires
        0 <= j < elements.len(),
    ensures
        base_elements(elements).len() == 2 * elements.len(),
        base_elements(elements)[2 * j] == elements[j].a0,
        base_elements(elements)[2 * j + 1] == elements[j].a1,
{
    assert((2 * j) / 2 == j && (2 * j + 1) / 2 == j);
}

/// The coefficients that are pushed are those of a polynomial that takes the values in memory. It
/// has as many coefficients as there are evaluations, all with canonical coordinates; those that
/// are wanted lie on the stack, the constant one on top, each with its first coordinate on top.
/// Where `g` generates the subgroup with as many elements, the polynomial takes at the power 2k of
/// `g` the value in the first half, and at the power 2k + 1 the value in the second half, of the
/// word at address `start` + k.
pub proof fn law_interpolated_memory(
    poly: Seq<QuadFelt>,
    memory: Map<(u32, u32), Word>,
    ctx: u32,
    start: int,
    log: nat,
    output_size: nat,
    stack: Seq<Felt>,
)
    requires
        0 <= start,
        1 <= log <= 31,
        output_size <= pow2(log),
        interpolates(poly, evaluations_at(memory, ctx, start, pow2(log))),
    ensures
        ({
            let size = pow2(log);
            let after = base_elements(poly.take(output_size as int)) + stack;
            let (c0, c1) = (
                Seq::new(size, |j: int| poly[j].a0.value as int),
                Seq::new(size, |j: int| poly[j].a1.value as int),
            );
            let (g, p) = (root_of_unity(log), 0xFFFF_FFFF_0000_0001int);
            &&& poly.len() == size
            &&& forall|j: int|
                0 <= j < size ==> (#[trigger] poly[j]).a0.value < p && poly[j].a1.value < p
            &&& after.len() == 2 * output_size + stack.len()
            &&& forall|j: int|
                #![trigger poly[j]]
                0 <= j < output_size ==> after[2 * j] == poly[j].a0 && after[2 * j + 1]
                    == poly[j].a1
            &&& forall|i: int|
                0 <= i < stack.len() ==> #[trigger] after[2 * output_size + i] == stack[i]
            &&& forall|k: int|
                #![trigger memory[(ctx, (start + k) as u32)]]
                0 <= k && 2 * k < size ==> {
                    let word = memory[(ctx, (start + k) as u32)];
                    let (x, y) = (pow(g, (2 * k) as nat), pow(g, (2 * k + 1) as nat));
                    &&& poly_eval(c0, x) % p == word[0].value as int % p
                    &&& poly_eval(c1, x) % p == word[1].value as int % p
                    &&& poly_eval(c0, y) % p == word[2].value as int % p
                    &&& poly_eval(c1, y) % p == word[3].value as int % p
                }
        }),
{
    let size = pow2(log);
    let evaluations = evaluations_at(memory, ctx, start, size);
    let wanted = poly.take(output_size as int);
    law_domains(size, log);
    vstd::arithmetic::power2::lemma_pow2_unfold(log);
    assert(Seq::new(size, |j: int| poly[j].a0.value as int) =~= first_coordinates(poly));
    assert(Seq::new(size, |j: int| poly[j].a1.value as int) =~= second_coordinates(poly));
    assert forall|j: int| 0 <= j < size implies (#[trigger] poly[j]).a0.value
        < 0xFFFF_FFFF_0000_0001 && poly[j].a1.value < 0xFFFF_FFFF_0000_0001 by {
        assert(poly[j].wf());
    }
    assert forall|j: int|
        #![trigger poly[j]]
        0 <= j < output_size implies (base_elements(wanted) + stack)[2 * j] == poly[j].a0 && (
    base_elements(wanted) + stack)[2 * j + 1] == poly[j].a1 by {
        law_coordinates_in_order(wanted, j);
    }
    assert forall|k: int|
        #![trigger memory[(ctx, (start + k) as u32)]]
        0 <= k && 2 * k < size implies {
        let word = memory[(ctx, (start + k) as u32)];
        let (g, p) = (root_of_unity(log), 0xFFFF_FFFF_0000_0001int);
        let (x, y) = (pow(g, (2 * k) as nat), pow(g, (2 * k + 1) as nat));
        &&& poly_eval(first_coordinates(poly), x) % p == word[0].value as int % p
        &&& poly_eval(second_coordinates(poly), x) % p == word[1].value as int % p
        &&& poly_eval(first_coordinates(poly), y) % p == word[2].value as int % p
        &&& poly_eval(second_coordinates(poly), y) % p == word[3].value as int % p
    } by {
        law_two_evaluations_to_a_word(memory, ctx, start, size, k);
        let (even, odd) = (evaluations[2 * k], evaluations[2 * k + 1]);
    }
}

} // verus!
