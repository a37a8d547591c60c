//! The 64-bit prime field of the machine and its quadratic extension.

use miden_crypto::Felt as BaseElement;
use vstd::arithmetic::div_mod::{
    lemma_fundamental_div_mod, lemma_fundamental_div_mod_converse, lemma_mod_multiples_vanish,
};
use vstd::prelude::*;
use winter_prover::math::fields::QuadExtension;
use winter_prover::math::{FieldElement, StarkField};

verus! {

/// Order of the field: 2^64 - 2^32 + 1.
pub const MODULUS: u64 = 0xFFFF_FFFF_0000_0001;

/// An element of the field, held as its canonical integer.
#[derive(Clone, Copy, Debug, PartialEq, Eq, Structural)]
pub struct Felt {
    pub value: u64,
}

/// Four field elements.
pub type Word = [Felt; 4];

impl Felt {
    /// The integer is the canonical one, below the order of the field.
    pub open spec fn wf(self) -> bool {
        self.value < MODULUS
    }

    /// The element that `value` is congruent to.
    pub fn new(value: u64) -> (element: Felt)
        ensures
            element.wf(),
            element.value == value % MODULUS,
    {
        Felt { value: value % MODULUS }
    }

    /// The canonical integer of the element.
    pub fn as_int(&self) -> (value: u64)
        ensures
            value == self.value,
    {
        self.value
    }
}

/// Whether two words hold the same elements.
pub fn same_word(a: &Word, b: &Word) -> (same: bool)
    ensures
        same == (*a == *b),
{
    let same: bool = a[0] == b[0] && a[1] == b[1] && a[2] == b[2] && a[3] == b[3];
    assert(same ==> *a =~= *b);
    same
}

/// The element a0 + a1 * x of the extension field, in which x^2 = x - 2.
#[derive(Clone, Copy, Debug, PartialEq, Eq, Structural)]
pub struct QuadFelt {
    pub a0: Felt,
    pub a1: Felt,
}

impl QuadFelt {
    /// Both coordinates are canonical.
    pub open spec fn wf(self) -> bool {
        self.a0.wf() && self.a1.wf()
    }

    /// The element with these coordinates.
    pub fn new(a0: Felt, a1: Felt) -> (element: QuadFelt)
        ensures
            element == (QuadFelt { a0, a1 }),
    {
        QuadFelt { a0, a1 }
    }

    /// Both coordinates are zero.
    pub open spec fn is_zero(self) -> bool {
        self.a0.value == 0 && self.a1.value == 0
    }
}

/// The element of the extension field with coordinates congruent to `c0` and `c1`.
pub open spec fn quad_residue(c0: int, c1: int) -> QuadFelt {
    QuadFelt {
        a0: Felt { value: (c0 % (MODULUS as int)) as u64 },
        a1: Felt { value: (c1 % (MODULUS as int)) as u64 },
    }
}

/// The product of two elements of the extension field.
pub open spec fn quad_mul(a: QuadFelt, b: QuadFelt) -> QuadFelt {
    let (a0, a1) = (a.a0.value as int, a.a1.value as int);
    let (b0, b1) = (b.a0.value as int, b.a1.value as int);
    quad_residue(a0 * b0 - 2 * (a1 * b1), a0 * b1 + a1 * b0 + a1 * b1)
}

/// The multiplicative identity of the extension field.
pub open spec fn quad_one() -> QuadFelt {
    QuadFelt { a0: Felt { value: 1 }, a1: Felt { value: 0 } }
}

/// `value` multiplied by 2^64 and reduced: the form in which the field arithmetic of the
/// `winter-math` crate keeps its elements.
pub open spec fn montgomery_form(value: int) -> int {
    (value * 0x1_0000_0000_0000_0000) % (MODULUS as int)
}

/// The elements on which inversion in the `winter-math` crate is exact.
///
/// The crate divides the conjugate of an element by its norm a0 * (a0 + a1) + 2 * a1^2, and
/// computes the norm by taking the doubled form of -a1^2 away from the form of a0 * (a0 + a1).
/// The doubled form is brought below 2^64, yet not always below the order of the field, and one
/// addition of the order does not make up for it where the other operand is too small.
pub open spec fn inverts_exactly(element: QuadFelt) -> bool {
    let (a0, a1) = (element.a0.value as int, element.a1.value as int);
    let minuend = montgomery_form(a0 * (a0 + a1));
    let doubled = 2 * montgomery_form(-(a1 * a1));
    doubled >= 0x1_0000_0000_0000_0000 || doubled <= minuend + MODULUS
}

/// Calls `QuadExtension::inv` of the `winter-math` crate.
///
/// Trusted: the coordinates of the result are canonical, and where `inverts_exactly` holds of the
/// element the result is its multiplicative inverse. Nothing more is said of the other elements,
/// for which the crate's norm is off and the product is not one. `invert` covers them.
#[verifier::external_body]
fn quad_inverse(element: QuadFelt) -> (inverse: QuadFelt)
    requires
        element.wf(),
        !element.is_zero(),
    ensures
        inverse.wf(),
        inverts_exactly(element) ==> quad_mul(element, inverse) == quad_one(),
{
    let a0: BaseElement = BaseElement::new(element.a0.value);
    let a1: BaseElement = BaseElement::new(element.a1.value);
    let inverse = QuadExtension::<BaseElement>::new(a0, a1).inv().to_base_elements();
    QuadFelt {
        a0: Felt { value: inverse[0].as_int() },
        a1: Felt { value: inverse[1].as_int() },
    }
}

/// The sum of an element of the extension field with itself.
pub open spec fn quad_double(a: QuadFelt) -> QuadFelt {
    quad_residue(2 * a.a0.value, 2 * a.a1.value)
}

/// Doubles an element of the field.
fn double(a: Felt) -> (element: Felt)
    ensures
        element.value == (2 * a.value) % (MODULUS as int),
{
    Felt { value: ((2 * a.value as u128) % MODULUS as u128) as u64 }
}

/// Doubles an element of the extension field.
fn double_quad(a: QuadFelt) -> (element: QuadFelt)
    ensures
        element == quad_double(a),
        element.wf(),
{
    QuadFelt { a0: double(a.a0), a1: double(a.a1) }
}

/// The product of two elements of the field, as an integer below the order.
fn product(a: Felt, b: Felt) -> (value: u128)
    ensures
        value == (a.value * b.value) % (MODULUS as int),
        value < MODULUS,
{
    assert(0 <= a.value * b.value <= u64::MAX * u64::MAX) by (nonlinear_arith);
    (a.value as u128 * b.value as u128) % MODULUS as u128
}

/// Multiplies two elements of the extension field.
fn multiply(a: QuadFelt, b: QuadFelt) -> (element: QuadFelt)
    ensures
        element == quad_mul(a, b),
{
    let m: u128 = MODULUS as u128;
    let t: u128 = product(a.a1, b.a1);
    let u: u128 = product(a.a0, b.a0);
    let v: u128 = product(a.a0, b.a1);
    let w: u128 = product(a.a1, b.a0);
    let c0: u128 = (u + 2 * (m - t)) % m;
    let c1: u128 = (v + w + t) % m;
    proof {
        let n = MODULUS as int;
        let (a0, a1) = (a.a0.value as int, a.a1.value as int);
        let (b0, b1) = (b.a0.value as int, b.a1.value as int);
        lemma_fundamental_div_mod(a1 * b1, n);
        lemma_fundamental_div_mod(a0 * b0, n);
        lemma_fundamental_div_mod(a0 * b1, n);
        lemma_fundamental_div_mod(a1 * b0, n);
        let (i, j) = ((a1 * b1) / n, (a0 * b0) / n);
        let (k, l) = ((a0 * b1) / n, (a1 * b0) / n);
        lemma_mod_multiples_vanish(j - 2 * i - 2, u + 2 * (n - t), n);
        lemma_mod_multiples_vanish(k + l + i, v + w + t, n);
    }
    QuadFelt { a0: Felt { value: c0 as u64 }, a1: Felt { value: c1 as u64 } }
}

/// The multiplicative inverse of an element of the extension field.
///
/// Where the inversion of the `winter-math` crate is off for the element, it is exact for twice the
/// element, and the inverse is twice the result.
pub fn invert(element: QuadFelt) -> (inverse: QuadFelt)
    requires
        element.wf(),
        !element.is_zero(),
    ensures
        inverse.wf(),
        quad_mul(element, inverse) == quad_one(),
{
    let inverse = quad_inverse(element);
    let check = multiply(element, inverse);
    if check.a0.as_int() == 1 && check.a1.as_int() == 0 {
        return inverse;
    }
    let half = quad_inverse(double_quad(element));
    proof {
        lemma_double_inverts_exactly(element);
        lemma_double_moves(element, half);
    }
    double_quad(half)
}

/// Where inversion is not exact on an element, it is on twice the element.
proof fn lemma_double_inverts_exactly(element: QuadFelt)
    requires
        element.wf(),
        !inverts_exactly(element),
    ensures
        inverts_exactly(quad_double(element)),
{
    let n = MODULUS as int;
    let (a0, a1) = (element.a0.value as int, element.a1.value as int);
    let (b0, b1) = ((2 * a0) % n, (2 * a1) % n);
    lemma_fundamental_div_mod(2 * a0, n);
    lemma_fundamental_div_mod(2 * a1, n);
    let (i, j) = ((2 * a0) / n, (2 * a1) / n);
    let (x, y) = (a0 * (a0 + a1), -(a1 * a1));
    assert(n * (i + j) == n * i + n * j) by (nonlinear_arith);
    let k = lemma_quadruple_product(a0, a0 + a1, i, i + j, n);
    let l = lemma_quadruple_product(a1, a1, j, j, n);
    assert(b0 * (b0 + b1) == 4 * x + n * k);
    assert(-(b1 * b1) == 4 * y + n * (-l)) by (nonlinear_arith)
        requires
            b1 * b1 == 4 * (a1 * a1) + n * l,
            y == -(a1 * a1),
    ;
    // the first form is small, and the second lies just above half of the order
    lemma_quadruple_form(x, k, 0);
    lemma_quadruple_form(y, -l, 2);
}

/// The product of two doubled factors, each off by a multiple of `n`, is four times the product of
/// the factors, up to a multiple of `n`.
proof fn lemma_quadruple_product(a: int, b: int, i: int, j: int, n: int) -> (k: int)
    ensures
        (2 * a - n * i) * (2 * b - n * j) == 4 * (a * b) + n * k,
{
    let (c, d) = (n * i, n * j);
    let k = i * d - 2 * (a * j) - 2 * (i * b);
    assert((2 * a - c) * (2 * b - d) == 4 * (a * b) - 2 * (a * d) - 2 * (c * b) + c * d) by (
    nonlinear_arith);
    assert(a * d == n * (a * j)) by (nonlinear_arith)
        requires
            d == n * j,
    ;
    assert(c * b == n * (i * b) && c * d == n * (i * d)) by (nonlinear_arith)
        requires
            c == n * i,
    ;
    assert(n * k == n * (i * d) - 2 * (n * (a * j)) - 2 * (n * (i * b))) by (nonlinear_arith)
        requires
            k == i * d - 2 * (a * j) - 2 * (i * b),
    ;
    k
}

/// The form of an integer congruent to 4 * `x`, when four times the form of `x` lies between
/// `c` and `c` + 1 times the order.
proof fn lemma_quadruple_form(x: int, k: int, c: int)
    requires
        c * MODULUS <= 4 * montgomery_form(x) < (c + 1) * MODULUS,
    ensures
        montgomery_form(4 * x + MODULUS * k) == 4 * montgomery_form(x) - c * MODULUS,
{
    let n = MODULUS as int;
    let r = 0x1_0000_0000_0000_0000int;
    lemma_fundamental_div_mod(x * r, n);
    let (t, m) = ((x * r) / n, montgomery_form(x));
    let q = 4 * t + k * r + c;
    assert((4 * x + n * k) * r == q * n + (4 * m - c * n)) by (nonlinear_arith)
        requires
            x * r == n * t + m,
            q == 4 * t + k * r + c,
    ;
    lemma_fundamental_div_mod_converse((4 * x + n * k) * r, n, q, 4 * m - c * n);
}

/// Either factor of a product can be doubled.
proof fn lemma_double_moves(a: QuadFelt, b: QuadFelt)
    ensures
        quad_mul(quad_double(a), b) == quad_mul(a, quad_double(b)),
{
    let (a0, a1) = (a.a0.value as int, a.a1.value as int);
    let (b0, b1) = (b.a0.value as int, b.a1.value as int);
    lemma_reduced_factor(2 * a0, 2 * a1, b);
    lemma_reduced_factor(2 * b0, 2 * b1, a);
    lemma_mul_commutes(a, quad_double(b));
    assert((2 * a0) * b0 == (2 * b0) * a0) by (nonlinear_arith);
    assert((2 * a1) * b1 == (2 * b1) * a1) by (nonlinear_arith);
    assert((2 * a0) * b1 == (2 * b1) * a0) by (nonlinear_arith);
    assert((2 * a1) * b0 == (2 * b0) * a1) by (nonlinear_arith);
}

/// Whether a factor is reduced does not matter to the product.
proof fn lemma_reduced_factor(p0: int, p1: int, c: QuadFelt)
    ensures
        quad_mul(quad_residue(p0, p1), c) == ({
            let (c0, c1) = (c.a0.value as int, c.a1.value as int);
            quad_residue(p0 * c0 - 2 * (p1 * c1), p0 * c1 + p1 * c0 + p1 * c1)
        }),
{
    let n = MODULUS as int;
    let (c0, c1) = (c.a0.value as int, c.a1.value as int);
    lemma_fundamental_div_mod(p0, n);
    lemma_fundamental_div_mod(p1, n);
    let (k0, k1) = (p0 / n, p1 / n);
    lemma_without_multiple(p0, k0, p0 % n, c0, n);
    lemma_without_multiple(p0, k0, p0 % n, c1, n);
    lemma_without_multiple(p1, k1, p1 % n, c0, n);
    lemma_without_multiple(p1, k1, p1 % n, c1, n);
    lemma_mod_multiples_vanish(2 * (k1 * c1) - k0 * c0, p0 * c0 - 2 * (p1 * c1), n);
    lemma_mod_multiples_vanish(
        -(k0 * c1 + k1 * c0 + k1 * c1),
        p0 * c1 + p1 * c0 + p1 * c1,
        n,
    );
}

proof fn lemma_without_multiple(p: int, k: int, r: int, c: int, n: int)
    requires
        p == n * k + r,
    ensures
        r * c == p * c - n * (k * c),
{
    assert(r * c == p * c - n * (k * c)) by (nonlinear_arith)
        requires
            p == n * k + r,
    ;
}

proof fn lemma_mul_commutes(a: QuadFelt, b: QuadFelt)
    ensures
        quad_mul(a, b) == quad_mul(b, a),
{
    let (a0, a1) = (a.a0.value as int, a.a1.value as int);
    let (b0, b1) = (b.a0.value as int, b.a1.value as int);
    assert(a0 * b0 == b0 * a0) by (nonlinear_arith);
    assert(a1 * b1 == b1 * a1) by (nonlinear_arith);
    assert(a0 * b1 == b1 * a0) by (nonlinear_arith);
    assert(a1 * b0 == b0 * a1) by (nonlinear_arith);
}

proof fn lemma_one_times(a: QuadFelt)
    requires
        a.wf(),
    ensures
        quad_mul(quad_one(), a) == a,
{
}

/// Zero has no inverse.
proof fn lemma_zero_times(a: QuadFelt, b: QuadFelt)
    requires
        quad_mul(a, b) == quad_one(),
    ensures
        !a.is_zero(),
{
    if a.is_zero() {
        assert(a == QuadFelt { a0: Felt { value: 0 }, a1: Felt { value: 0 } });
    }
}

/// (a * b) * c == (a * c) * b.
proof fn lemma_mul_exchanges(a: QuadFelt, b: QuadFelt, c: QuadFelt)
    ensures
        quad_mul(quad_mul(a, b), c) == quad_mul(quad_mul(a, c), b),
{
    let (a0, a1) = (a.a0.value as int, a.a1.value as int);
    let (b0, b1) = (b.a0.value as int, b.a1.value as int);
    let (c0, c1) = (c.a0.value as int, c.a1.value as int);
    lemma_reduced_factor(a0 * b0 - 2 * (a1 * b1), a0 * b1 + a1 * b0 + a1 * b1, c);
    lemma_reduced_factor(a0 * c0 - 2 * (a1 * c1), a0 * c1 + a1 * c0 + a1 * c1, b);
    lemma_expand(a0, a1, b0, b1, c0);
    lemma_expand(a0, a1, b0, b1, c1);
    lemma_expand(a0, a1, c0, c1, b0);
    lemma_expand(a0, a1, c0, c1, b1);
    lemma_swap_factors(a0, b0, c0);
    lemma_swap_factors(a0, b0, c1);
    lemma_swap_factors(a0, b1, c0);
    lemma_swap_factors(a0, b1, c1);
    lemma_swap_factors(a1, b0, c0);
    lemma_swap_factors(a1, b0, c1);
    lemma_swap_factors(a1, b1, c0);
    lemma_swap_factors(a1, b1, c1);
}

/// Both coordinates of a product, multiplied by `c` term by term.
proof fn lemma_expand(a0: int, a1: int, b0: int, b1: int, c: int)
    ensures
        (a0 * b0 - 2 * (a1 * b1)) * c == a0 * b0 * c - 2 * (a1 * b1 * c),
        (a0 * b1 + a1 * b0 + a1 * b1) * c == a0 * b1 * c + a1 * b0 * c + a1 * b1 * c,
{
    let (p, q, r, s) = (a0 * b0, a1 * b1, a0 * b1, a1 * b0);
    assert((p - 2 * q) * c == p * c - 2 * (q * c)) by (nonlinear_arith);
    assert((r + s + q) * c == r * c + s * c + q * c) by (nonlinear_arith);
}

proof fn lemma_swap_factors(a: int, b: int, c: int)
    ensures
        a * b * c == a * c * b,
{
    assert(a * b * c == a * c * b) by (nonlinear_arith);
}

/// A product has canonical coordinates, congruent to those of (a0 + a1 * x) * (b0 + b1 * x) where
/// x^2 = x - 2. One has the coordinates 1 and 0, and only zero has none but zeros.
pub proof fn law_product(a: QuadFelt, b: QuadFelt)
    ensures
        ({
            let p = 0xFFFF_FFFF_0000_0001int;
            let (a0, a1) = (a.a0.value as int, a.a1.value as int);
            let (b0, b1) = (b.a0.value as int, b.a1.value as int);
            let c = quad_mul(a, b);
            &&& c.a0.value == (a0 * b0 - 2 * (a1 * b1)) % p
            &&& c.a1.value == (a0 * b1 + a1 * b0 + a1 * b1) % p
        }),
        quad_one().a0.value == 1 && quad_one().a1.value == 0,
        a.is_zero() <==> a.a0.value == 0 && a.a1.value == 0,
        a.wf() <==> a.a0.value < 0xFFFF_FFFF_0000_0001 && a.a1.value < 0xFFFF_FFFF_0000_0001,
{
}

/// Inversion is exact where, with `m` and `d` the forms in which a0 * (a0 + a1) and -a1^2 are kept,
/// doubling `d` either leaves 64 bits or does not exceed `m` by more than the order; and only there.
/// A number is kept as the integer below the order that is congruent to its product with 2^64.
pub proof fn law_exact_inversion(element: QuadFelt, m: int, d: int)
    requires
        ({
            let (p, r) = (0xFFFF_FFFF_0000_0001int, 0x1_0000_0000_0000_0000int);
            let (a0, a1) = (element.a0.value as int, element.a1.value as int);
            &&& m == ((a0 * (a0 + a1)) * r) % p
            &&& d == (-(a1 * a1) * r) % p
        }),
    ensures
        inverts_exactly(element) <==> 2 * d >= 0x1_0000_0000_0000_0000 || 2 * d - m
            <= 0xFFFF_FFFF_0000_0001,
{
}

/// An element of the extension field has at most one multiplicative inverse.
pub proof fn law_inverse_is_unique(element: QuadFelt, b: QuadFelt, c: QuadFelt)
    requires
        b.wf(),
        c.wf(),
        quad_mul(element, b) == quad_one(),
        quad_mul(element, c) == quad_one(),
    ensures
        b == c,
{
    lemma_mul_exchanges(element, b, c);
    lemma_one_times(b);
    lemma_one_times(c);
}

/// The inverse of the inverse is the element: the inverse is not zero, the element is an inverse of
/// it, and there is no other.
pub proof fn law_inverse_of_inverse(element: QuadFelt, inverse: QuadFelt)
    requires
        element.wf(),
        inverse.wf(),
        quad_mul(element, inverse) == quad_one(),
    ensures
        !inverse.is_zero(),
        quad_mul(inverse, element) == quad_one(),
        forall|again: QuadFelt|
            again.wf() && #[trigger] quad_mul(inverse, again) == quad_one() ==> again == element,
{
    lemma_mul_commutes(element, inverse);
    lemma_zero_times(inverse, element);
    assert forall|again: QuadFelt|
        again.wf() && #[trigger] quad_mul(inverse, again) == quad_one() implies again == element by {
        law_inverse_is_unique(inverse, again, element);
    }
}

/// The inverse of a product is the product of the inverses: the product is not zero, the product of
/// the inverses is an inverse of it, and there is no other.
pub proof fn law_inverse_of_product(x: QuadFelt, y: QuadFelt, ix: QuadFelt, iy: QuadFelt)
    requires
        x.wf(),
        y.wf(),
        ix.wf(),
        iy.wf(),
        quad_mul(x, ix) == quad_one(),
        quad_mul(y, iy) == quad_one(),
    ensures
        !quad_mul(x, y).is_zero(),
        quad_mul(quad_mul(x, y), quad_mul(ix, iy)) == quad_one(),
        forall|inverse: QuadFelt|
            inverse.wf() && #[trigger] quad_mul(quad_mul(x, y), inverse) == quad_one() ==> inverse
                == quad_mul(ix, iy),
{
    let w = quad_mul(ix, iy);
    // (x * y) * w == (x * w) * y, and x * w == (ix * x) * iy == iy
    lemma_mul_exchanges(x, y, w);
    lemma_mul_commutes(x, w);
    lemma_mul_exchanges(ix, iy, x);
    lemma_mul_commutes(ix, x);
    lemma_one_times(iy);
    lemma_mul_commutes(iy, y);
    lemma_zero_times(quad_mul(x, y), w);
    assert forall|inverse: QuadFelt|
        inverse.wf() && #[trigger] quad_mul(quad_mul(x, y), inverse) == quad_one() implies inverse
        == w by {
        law_inverse_is_unique(quad_mul(x, y), inverse, w);
    }
}

} // verus!
