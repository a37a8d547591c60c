//! Interpolation over the multiplicative subgroups of the field whose order is a power of two.

use crate::field::{Felt, QuadFelt, MODULUS};
use miden_crypto::Felt as BaseElement;
use vstd::arithmetic::logarithm::log;
use vstd::arithmetic::power::pow;
use vstd::arithmetic::power2::pow2;
use vstd::prelude::*;
use winter_prover::math::fft;
use winter_prover::math::fields::QuadExtension;
use winter_prover::math::StarkField;

verus! {

/// An element of order 2^32, of which the generators of the smaller subgroups are powers.
pub const TWO_ADIC_ROOT_OF_UNITY: u64 = 7277203076849721926;

/// The generator of the subgroup of order 2^`log`.
pub open spec fn root_of_unity(log: nat) -> int {
    pow(TWO_ADIC_ROOT_OF_UNITY as int, pow2((32 - log) as nat)) % (MODULUS as int)
}

/// The value at `x` of the polynomial with these coefficients, the constant one first.
pub open spec fn poly_eval(coefficients: Seq<int>, x: int) -> int
    decreases coefficients.len(),
{
    if coefficients.len() == 0 {
        0
    } else {
        coefficients[0] + x * poly_eval(coefficients.drop_first(), x)
    }
}

/// The first coordinates.
pub open spec fn first_coordinates(elements: Seq<QuadFelt>) -> Seq<int> {
    elements.map_values(|element: QuadFelt| element.a0.value as int)
}

/// The second coordinates.
pub open spec fn second_coordinates(elements: Seq<QuadFelt>) -> Seq<int> {
    elements.map_values(|element: QuadFelt| element.a1.value as int)
}

/// The base-two logarithm of the order of a subgroup.
pub open spec fn domain_log(size: nat) -> nat {
    log(2, size as int) as nat
}

/// There is a subgroup of this order, and its order fits in 32 bits.
pub open spec fn is_domain_size(size: nat) -> bool {
    1 <= domain_log(size) <= 31 && size == pow2(domain_log(size))
}

/// `poly` takes the values `evaluations` on the successive powers of the generator of the subgroup
/// with as many elements. As that generator lies in the base field, each coordinate can be
/// evaluated by itself.
pub open spec fn interpolates(poly: Seq<QuadFelt>, evaluations: Seq<QuadFelt>) -> bool {
    &&& poly.len() == evaluations.len()
    &&& forall|j: int| 0 <= j < poly.len() ==> (#[trigger] poly[j]).wf()
    &&& forall|i: int|
        #![trigger evaluations[i]]
        0 <= i < evaluations.len() ==> {
            let x = pow(root_of_unity(domain_log(evaluations.len())), i as nat);
            &&& poly_eval(first_coordinates(poly), x) % (MODULUS as int)
                == evaluations[i].a0.value % MODULUS
            &&& poly_eval(second_coordinates(poly), x) % (MODULUS as int)
                == evaluations[i].a1.value % MODULUS
        }
}

/// The number whose `bits` binary digits are those of `i` in reverse order.
pub open spec fn bit_reverse(i: nat, bits: nat) -> nat
    decreases bits,
{
    if bits == 0 {
        0
    } else {
        (i % 2) * pow2((bits - 1) as nat) + bit_reverse(i / 2, (bits - 1) as nat)
    }
}

/// `twiddles` holds the first half of the powers of the inverse of the generator of the subgroup
/// of order `size`, in bit-reversed order.
pub open spec fn is_inv_twiddles(twiddles: Seq<Felt>, size: nat) -> bool {
    let bits = domain_log(size);
    let inverse = pow(root_of_unity(bits), (size - 1) as nat);
    &&& twiddles.len() == size / 2
    &&& forall|i: int|
        0 <= i < twiddles.len() ==> (#[trigger] twiddles[i]).value == pow(
            inverse,
            bit_reverse(i as nat, (bits - 1) as nat),
        ) % (MODULUS as int)
}

/// Calls `fft::get_inv_twiddles` of the `winter-math` crate.
///
/// Trusted: the result is the bit-reversed list of the first half of the powers of the inverse of
/// the generator of the domain.
#[verifier::external_body]
pub(crate) fn get_inv_twiddles(domain_size: usize) -> (twiddles: Vec<Felt>)
    requires
        is_domain_size(domain_size as nat),
    ensures
        is_inv_twiddles(twiddles@, domain_size as nat),
{
    let twiddles: Vec<BaseElement> = fft::get_inv_twiddles::<BaseElement>(domain_size);
    twiddles.iter().map(|twiddle| Felt { value: twiddle.as_int() }).collect()
}

/// Calls `fft::interpolate_poly` of the `winter-math` crate.
///
/// Trusted: given the inverse twiddles of a domain with as many elements, the evaluations are
/// replaced with the coefficients of the polynomial that takes these values on the domain.
#[verifier::external_body]
pub(crate) fn interpolate_poly(evaluations: &mut Vec<QuadFelt>, inv_twiddles: &Vec<Felt>)
    requires
        is_domain_size(old(evaluations)@.len()),
        is_inv_twiddles(inv_twiddles@, old(evaluations)@.len()),
    ensures
        interpolates(final(evaluations)@, old(evaluations)@),
{
    let twiddles: Vec<BaseElement> =
        inv_twiddles.iter().map(|twiddle| BaseElement::new(twiddle.value)).collect();
    let mut poly: Vec<QuadExtension<BaseElement>> = evaluations.iter().map(
        |e| QuadExtension::new(BaseElement::new(e.a0.value), BaseElement::new(e.a1.value))
    ).collect();
    fft::interpolate_poly::<BaseElement, QuadExtension<BaseElement>>(&mut poly, &twiddles);
    *evaluations = poly.iter().map(|c| c.to_base_elements()).map(
        |c| QuadFelt { a0: Felt { value: c[0].as_int() }, a1: Felt { value: c[1].as_int() } }
    ).collect();
}

} // verus!
