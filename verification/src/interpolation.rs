//! Interpolation has one answer.

use crate::field::{QuadFelt, MODULUS};
use crate::ntt::{
    domain_log, first_coordinates, interpolates, is_domain_size, poly_eval, root_of_unity,
    second_coordinates, TWO_ADIC_ROOT_OF_UNITY,
};
use vstd::arithmetic::div_mod::{lemma_fundamental_div_mod, lemma_mod_multiples_basic};
use vstd::arithmetic::power2::{lemma_pow2_adds, lemma_pow2_pos, lemma_pow2_unfold, pow2};
use vstd::arithmetic::power::{
    lemma_pow0,
    lemma_pow1,
    lemma_pow_adds,
    lemma_pow_mod_noop,
    lemma_pow_multiplies,
    pow,
};
use vstd::prelude::*;

verus! {

/// `x` is a multiple of the order of the field.
spec fn vanishes(x: int) -> bool {
    x % (MODULUS as int) == 0
}

proof fn lemma_multiple_vanishes(k: int)
    ensures
        vanishes(MODULUS * k),
{
    lemma_mod_multiples_basic(k, MODULUS as int);
    assert(MODULUS * k == k * MODULUS) by (nonlinear_arith);
}

/// Sums, differences and multiples of what vanishes vanish.
proof fn lemma_vanishing_combination(x: int, y: int, c: int)
    requires
        vanishes(x),
        vanishes(y),
    ensures
        vanishes(x + y),
        vanishes(x - y),
        vanishes(c * x),
{
    let m = MODULUS as int;
    lemma_fundamental_div_mod(x, m);
    lemma_fundamental_div_mod(y, m);
    let (k, l) = (x / m, y / m);
    lemma_multiple_vanishes(k + l);
    lemma_multiple_vanishes(k - l);
    lemma_multiple_vanishes(c * k);
    assert(x + y == m * (k + l)) by (nonlinear_arith)
        requires
            x == m * k,
            y == m * l,
    ;
    assert(x - y == m * (k - l)) by (nonlinear_arith)
        requires
            x == m * k,
            y == m * l,
    ;
    assert(c * x == m * (c * k)) by (nonlinear_arith)
        requires
            x == m * k,
    ;
}

/// Twice an integer vanishes only if the integer does.
proof fn lemma_halve(x: int)
    requires
        vanishes(2 * x),
    ensures
        vanishes(x),
{
    // 0x7FFF_FFFF_8000_0001 is half of MODULUS + 1
    lemma_vanishing_combination(2 * x, 2 * x, 0x7FFF_FFFF_8000_0001);
    lemma_multiple_vanishes(x);
    lemma_vanishing_combination(0x7FFF_FFFF_8000_0001 * (2 * x), MODULUS * x, 1);
}

/// Equal residues differ by something that vanishes, and the other way round.
proof fn lemma_residues(x: int, y: int)
    ensures
        x % (MODULUS as int) == y % (MODULUS as int) <==> vanishes(x - y),
{
    let m = MODULUS as int;
    lemma_fundamental_div_mod(x, m);
    lemma_fundamental_div_mod(y, m);
    lemma_fundamental_div_mod(x - y, m);
}

/// Powers of minus one.
proof fn lemma_minus_one_powers(q: int, t: nat)
    requires
        vanishes(q + 1),
    ensures
        vanishes(pow(q, 2 * t) - 1),
        vanishes(pow(q, 2 * t + 1) + 1),
    decreases t,
{
    if t == 0 {
        lemma_pow0(q);
        lemma_pow1(q);
    } else {
        let s = (t - 1) as nat;
        lemma_minus_one_powers(q, s);
        let odd = pow(q, 2 * s + 1);
        lemma_pow_adds(q, 1, 2 * s + 1);
        lemma_pow_adds(q, 1, 2 * t);
        lemma_pow1(q);
        let even = pow(q, 2 * t);
        // q * odd - 1 == q * (odd + 1) - (q + 1)
        lemma_vanishing_combination(odd + 1, odd + 1, q);
        lemma_vanishing_combination(q * (odd + 1), q + 1, 1);
        assert(q * odd - 1 == q * (odd + 1) - (q + 1)) by (nonlinear_arith);
        assert(1 + (2 * s + 1) == 2 * t);
        assert(even == q * odd);
        // q * even + 1 == q * (even - 1) + (q + 1)
        lemma_vanishing_combination(even - 1, even - 1, q);
        lemma_vanishing_combination(q * (even - 1), q + 1, 1);
        assert(q * even + 1 == q * (even - 1) + (q + 1)) by (nonlinear_arith);
        assert(1 + 2 * t == 2 * t + 1);
    }
}

/// A polynomial split at its coefficient number `low.len()`.
proof fn lemma_eval_append(low: Seq<int>, high: Seq<int>, x: int)
    ensures
        poly_eval(low + high, x) == poly_eval(low, x) + pow(x, low.len())
            * poly_eval(high, x),
    decreases low.len(),
{
    let h = poly_eval(high, x);
    if low.len() == 0 {
        assert(low + high =~= high);
        lemma_pow0(x);
    } else {
        let rest = low.drop_first();
        assert((low + high).drop_first() =~= rest + high);
        lemma_eval_append(rest, high, x);
        lemma_pow_adds(x, 1, rest.len());
        lemma_pow1(x);
        let (r, p) = (poly_eval(rest, x), pow(x, rest.len()));
        assert(x * (r + p * h) == x * r + (x * p) * h) by (nonlinear_arith);
    }
}

/// The coefficients `a[j] + sign * b[j]`.
spec fn combined(a: Seq<int>, b: Seq<int>, sign: int) -> Seq<int> {
    Seq::new(a.len(), |j: int| a[j] + sign * b[j])
}

proof fn lemma_eval_combined(a: Seq<int>, b: Seq<int>, sign: int, x: int)
    requires
        a.len() == b.len(),
    ensures
        poly_eval(combined(a, b, sign), x) == poly_eval(a, x) + sign
            * poly_eval(b, x),
    decreases a.len(),
{
    if a.len() == 0 {
        assert(sign * 0 == 0) by (nonlinear_arith);
    } else {
        let (s, t) = (a.drop_first(), b.drop_first());
        assert(combined(a, b, sign).drop_first() =~= combined(s, t, sign));
        lemma_eval_combined(s, t, sign, x);
        let (p, q) = (poly_eval(s, x), poly_eval(t, x));
        let (a0, b0) = (a[0], b[0]);
        assert((a0 + sign * b0) + x * (p + sign * q) == (a0 + x * p) + sign * (b0 + x * q))
            by (nonlinear_arith);
    }
}

/// The coefficients `a[j] * c * g^j`.
spec fn scaled(a: Seq<int>, g: int, c: int) -> Seq<int> {
    Seq::new(a.len(), |j: int| a[j] * (c * pow(g, j as nat)))
}

proof fn lemma_eval_scaled(a: Seq<int>, g: int, c: int, x: int)
    ensures
        poly_eval(scaled(a, g, c), x) == c * poly_eval(a, g * x),
    decreases a.len(),
{
    if a.len() == 0 {
        assert(c * 0 == 0) by (nonlinear_arith);
    } else {
        let rest = a.drop_first();
        assert forall|j: int| 0 <= j < rest.len() implies scaled(
            a,
            g,
            c,
        ).drop_first()[j] == #[trigger] scaled(rest, g, c * g)[j] by {
            lemma_pow_adds(g, 1, j as nat);
            lemma_pow1(g);
            let p = pow(g, j as nat);
            assert(c * (g * p) == (c * g) * p) by (nonlinear_arith);
        }
        assert(scaled(a, g, c).drop_first() =~= scaled(rest, g, c * g));
        lemma_eval_scaled(rest, g, c * g, x);
        lemma_pow0(g);
        let (a0, r) = (a[0], poly_eval(rest, g * x));
        assert(a0 * (c * 1) + x * ((c * g) * r) == c * (a0 + (g * x) * r)) by (nonlinear_arith);
    }
}

/// `g` raised to half of 2^`k` is minus one, as for a generator of a subgroup of order 2^`k`.
spec fn generates(g: int, k: nat) -> bool {
    k > 0 ==> vanishes(pow(g, pow2((k - 1) as nat)) + 1)
}

/// The polynomial vanishes on the first 2^`k` powers of `g`.
spec fn vanishes_on_powers(c: Seq<int>, g: int, k: nat) -> bool {
    forall|i: nat|
        i < pow2(k) ==> vanishes(#[trigger] poly_eval(c, pow(g, i)))
}

/// A polynomial that vanishes on a whole subgroup, and has no more coefficients than the subgroup
/// has elements, has no coefficient that does not vanish.
proof fn lemma_no_roots_left(c: Seq<int>, g: int, k: nat)
    requires
        c.len() == pow2(k),
        generates(g, k),
        vanishes_on_powers(c, g, k),
    ensures
        forall|j: int| 0 <= j < c.len() ==> vanishes(#[trigger] c[j]),
    decreases k,
{
    if k == 0 {
        lemma_pow0(2);
        lemma_pow0(g);
        assert(vanishes(poly_eval(c, pow(g, 0))));
        let rest = c.drop_first();
        assert(poly_eval(rest, 1) == 0);
        assert(poly_eval(c, 1) == c[0]);
    } else {
        let h = pow2((k - 1) as nat);
        lemma_pow2_unfold(k);
        lemma_pow2_pos((k - 1) as nat);
        let (low, high) = (c.take(h as int), c.skip(h as int));
        assert(low + high =~= c);
        let sums = combined(low, high, 1);
        let differences = combined(low, high, -1);
        let twisted = scaled(differences, g, 1);
        let g2 = g * g;
        assert(generates(g2, (k - 1) as nat)) by {
            if k > 1 {
                let e = pow2((k - 2) as nat);
                lemma_square_power(g, e);
                lemma_pow2_unfold((k - 1) as nat);
            }
        }
        assert forall|t: nat| t < pow2((k - 1) as nat) implies vanishes(
            #[trigger] poly_eval(sums, pow(g2, t)),
        ) && vanishes(poly_eval(twisted, pow(g2, t))) by {
            lemma_halves(c, g, h, t);
            assert(vanishes(poly_eval(c, pow(g, 2 * t))));
            assert(vanishes(poly_eval(c, pow(g, 2 * t + 1))));
            lemma_vanishing_combination(
                poly_eval(c, pow(g, 2 * t)),
                poly_eval(c, pow(g, 2 * t)) - poly_eval(sums, pow(g2, t)),
                1,
            );
            lemma_vanishing_combination(
                poly_eval(c, pow(g, 2 * t + 1)),
                poly_eval(c, pow(g, 2 * t + 1)) - poly_eval(twisted, pow(g2, t)),
                1,
            );
        }
        assert(vanishes_on_powers(twisted, g2, (k - 1) as nat)) by {
            assert forall|t: nat| t < pow2((k - 1) as nat) implies vanishes(
                #[trigger] poly_eval(twisted, pow(g2, t)),
            ) by {
                assert(vanishes(poly_eval(sums, pow(g2, t))));
            }
        }
        lemma_no_roots_left(sums, g2, (k - 1) as nat);
        lemma_no_roots_left(twisted, g2, (k - 1) as nat);
        assert forall|j: int| 0 <= j < h implies vanishes(#[trigger] low[j]) && vanishes(
            high[j],
        ) by {
            assert(vanishes(sums[j]));
            assert(vanishes(twisted[j]));
            let d = low[j] - high[j];
            assert(d * (1 * pow(g, j as nat)) == twisted[j]);
            lemma_untwist(d, g, h, j as nat);
            lemma_vanishing_combination(low[j] + high[j], d, 1);
            lemma_halve(low[j]);
            lemma_halve(high[j]);
        }
        assert forall|j: int| 0 <= j < c.len() implies vanishes(#[trigger] c[j]) by {
            if j < h {
                assert(c[j] == low[j]);
            } else {
                assert(c[j] == high[j - h]);
                assert(vanishes(low[j - h]));
            }
        }
    }
}

/// (g * g)^e == g^(2 * e).
proof fn lemma_square_power(g: int, e: nat)
    ensures
        pow(g * g, e) == pow(g, 2 * e),
{
    lemma_pow_adds(g, 1, 1);
    lemma_pow1(g);
    lemma_pow_multiplies(g, 2, e);
}

/// On the even powers of `g` the polynomial agrees with the sum of its halves; on the odd ones,
/// with their difference.
proof fn lemma_halves(c: Seq<int>, g: int, h: nat, t: nat)
    requires
        c.len() == 2 * h,
        vanishes(pow(g, h) + 1),
    ensures
        ({
            let (low, high) = (c.take(h as int), c.skip(h as int));
            let y = pow(g * g, t);
            &&& vanishes(poly_eval(c, pow(g, 2 * t)) - poly_eval( combined(low, high, 1), y, ))
            &&& vanishes(
                poly_eval(c, pow(g, 2 * t + 1)) - poly_eval(
                    scaled(combined(low, high, -1), g, 1),
                    y,
                ),
            )
        }),
{
    let (low, high) = (c.take(h as int), c.skip(h as int));
    assert(low + high =~= c);
    let q = pow(g, h);
    let y = pow(g * g, t);
    let z = g * y;
    lemma_square_power(g, t);
    lemma_pow_adds(g, 1, 2 * t);
    lemma_pow1(g);
    assert(1 + 2 * t == 2 * t + 1);
    assert(z == pow(g, 2 * t + 1));
    lemma_minus_one_powers(q, t);
    lemma_pow_multiplies(g, h, 2 * t);
    lemma_pow_multiplies(g, 2 * t, h);
    lemma_pow_multiplies(g, h, 2 * t + 1);
    lemma_pow_multiplies(g, 2 * t + 1, h);
    assert(h * (2 * t) == (2 * t) * h) by (nonlinear_arith);
    assert(h * (2 * t + 1) == (2 * t + 1) * h) by (nonlinear_arith);
    assert(pow(y, h) == pow(q, 2 * t));
    assert(pow(z, h) == pow(q, 2 * t + 1));

    lemma_eval_append(low, high, y);
    lemma_eval_combined(low, high, 1, y);
    let (hy, py) = (poly_eval(high, y), pow(y, h));
    lemma_vanishing_combination(py - 1, py - 1, hy);
    assert(py * hy - hy == hy * (py - 1)) by (nonlinear_arith);

    lemma_eval_append(low, high, z);
    lemma_eval_scaled(combined(low, high, -1), g, 1, y);
    lemma_eval_combined(low, high, -1, z);
    let (hz, pz) = (poly_eval(high, z), pow(z, h));
    lemma_vanishing_combination(pz + 1, pz + 1, hz);
    assert(pz * hz + hz == hz * (pz + 1)) by (nonlinear_arith);
}

/// A power of a generator can be cancelled.
proof fn lemma_untwist(d: int, g: int, h: nat, j: nat)
    requires
        vanishes(pow(g, h) + 1),
        j <= h,
        vanishes(d * (1 * pow(g, j))),
    ensures
        vanishes(d),
{
    let q = pow(g, h);
    let (p, r) = (pow(g, j), pow(g, (h - j) as nat));
    lemma_pow_adds(g, j, (h - j) as nat);
    assert(p * r == q);
    lemma_vanishing_combination(d * (1 * p), 0, r);
    assert(r * (d * (1 * p)) == d * q) by (nonlinear_arith)
        requires
            p * r == q,
    ;
    lemma_vanishing_combination(q + 1, 0, d);
    lemma_vanishing_combination(d * (q + 1), d * q, 1);
    assert(d * (q + 1) - d * q == d) by (nonlinear_arith);
}

proof fn lemma_square_step(i: nat, r: int, s: int)
    requires
        pow(TWO_ADIC_ROOT_OF_UNITY as int, pow2(i)) % (MODULUS as int) == r,
        (r * r) % (MODULUS as int) == s,
    ensures
        pow(TWO_ADIC_ROOT_OF_UNITY as int, pow2(i + 1)) % (MODULUS as int) == s,
{
    let x = pow(TWO_ADIC_ROOT_OF_UNITY as int, pow2(i));
    lemma_pow2_unfold(i + 1);
    lemma_pow_adds(TWO_ADIC_ROOT_OF_UNITY as int, pow2(i), pow2(i));
    vstd::arithmetic::div_mod::lemma_mul_mod_noop(x, x, MODULUS as int);
}

/// The root of order 2^32, raised to half of its order, is minus one.
proof fn lemma_root_order()
    ensures
        vanishes(pow(TWO_ADIC_ROOT_OF_UNITY as int, pow2(31)) + 1),
{
    lemma_pow0(2);
    lemma_pow1(TWO_ADIC_ROOT_OF_UNITY as int);
    lemma_square_step(0, 7277203076849721926, 3524815499551269279);
    lemma_square_step(1, 3524815499551269279, 1905180297017055339);
    lemma_square_step(2, 1905180297017055339, 2530564950562219707);
    lemma_square_step(3, 2530564950562219707, 2147253751702802259);
    lemma_square_step(4, 2147253751702802259, 4969973714567017225);
    lemma_square_step(5, 4969973714567017225, 3757607247483852735);
    lemma_square_step(6, 3757607247483852735, 8877499657461974390);
    lemma_square_step(7, 8877499657461974390, 2709866199236980323);
    lemma_square_step(8, 2709866199236980323, 5936499541590631774);
    lemma_square_step(9, 5936499541590631774, 8124823329697072476);
    lemma_square_step(10, 8124823329697072476, 6553637399136210105);
    lemma_square_step(11, 6553637399136210105, 1971462654193939361);
    lemma_square_step(12, 1971462654193939361, 8982441859486529725);
    lemma_square_step(13, 8982441859486529725, 3411401055030829696);
    lemma_square_step(14, 3411401055030829696, 5718075921287398682);
    lemma_square_step(15, 5718075921287398682, 8167150655112846419);
    lemma_square_step(16, 8167150655112846419, 1873558160482552414);
    lemma_square_step(17, 1873558160482552414, 7126024226993609386);
    lemma_square_step(18, 7126024226993609386, 4308460244895131701);
    lemma_square_step(19, 4308460244895131701, 4355325209153869931);
    lemma_square_step(20, 4355325209153869931, 9113133275150391358);
    lemma_square_step(21, 9113133275150391358, 4255134452441852017);
    lemma_square_step(22, 4255134452441852017, 6434636298004421797);
    lemma_square_step(23, 6434636298004421797, 4404853092538523347);
    lemma_square_step(24, 4404853092538523347, 2198989700608);
    lemma_square_step(25, 2198989700608, 8);
    lemma_square_step(26, 8, 64);
    lemma_square_step(27, 64, 4096);
    lemma_square_step(28, 4096, 16777216);
    lemma_square_step(29, 16777216, 281474976710656);
    lemma_square_step(30, 281474976710656, 18446744069414584320);
    lemma_residues(pow(TWO_ADIC_ROOT_OF_UNITY as int, pow2(31)), -1);
}

/// The generator of each subgroup is the square of that of the next larger one.
pub(crate) proof fn lemma_root_squares(k: nat)
    requires
        1 <= k < 32,
    ensures
        root_of_unity(32) == TWO_ADIC_ROOT_OF_UNITY,
        root_of_unity(k) == (root_of_unity(k + 1) * root_of_unity(k + 1)) % (MODULUS as int),
        root_of_unity(1) == MODULUS - 1,
{
    let r = TWO_ADIC_ROOT_OF_UNITY as int;
    let e = pow2((31 - k) as nat);
    lemma_pow0(2);
    lemma_pow1(r);
    lemma_pow2_unfold((32 - k) as nat);
    lemma_pow_adds(r, e, e);
    vstd::arithmetic::div_mod::lemma_mul_mod_noop(pow(r, e), pow(r, e), MODULUS as int);
    lemma_root_order();
    lemma_residues(pow(r, pow2(31)), MODULUS - 1);
    lemma_multiple_vanishes(1);
    lemma_vanishing_combination(pow(r, pow2(31)) + 1, MODULUS as int, 1);
}

proof fn lemma_root_generates(k: nat)
    requires
        1 <= k <= 32,
    ensures
        generates(root_of_unity(k), k),
{
    let r = TWO_ADIC_ROOT_OF_UNITY as int;
    let (e, f) = (pow2((32 - k) as nat), pow2((k - 1) as nat));
    lemma_root_order();
    lemma_pow_mod_noop(pow(r, e), f, MODULUS as int);
    lemma_pow_multiplies(r, e, f);
    lemma_pow2_adds((32 - k) as nat, (k - 1) as nat);
    lemma_residues(pow(root_of_unity(k), f), pow(r, pow2(31)));
    lemma_vanishing_combination(
        pow(root_of_unity(k), f) - pow(r, pow2(31)),
        pow(r, pow2(31)) + 1,
        1,
    );
}

/// At most one polynomial with as many coefficients as there are evaluations interpolates them.
pub proof fn law_interpolation_is_unique(
    poly: Seq<QuadFelt>,
    other: Seq<QuadFelt>,
    evaluations: Seq<QuadFelt>,
)
    requires
        is_domain_size(evaluations.len()),
        interpolates(poly, evaluations),
        interpolates(other, evaluations),
    ensures
        poly == other,
{
    let k = domain_log(evaluations.len());
    let g = root_of_unity(k);
    lemma_root_generates(k);
    let (p0, q0) = (first_coordinates(poly), first_coordinates(other));
    let (p1, q1) = (second_coordinates(poly), second_coordinates(other));
    let (d0, d1) = (combined(p0, q0, -1), combined(p1, q1, -1));
    assert forall|i: nat| i < pow2(k) implies vanishes(
        #[trigger] poly_eval(d0, pow(g, i)),
    ) by {
        let e = evaluations[i as int];
        lemma_eval_combined(p0, q0, -1, pow(g, i));
        lemma_residues(poly_eval(p0, pow(g, i)), poly_eval(q0, pow(g, i)));
    }
    assert forall|i: nat| i < pow2(k) implies vanishes(
        #[trigger] poly_eval(d1, pow(g, i)),
    ) by {
        let e = evaluations[i as int];
        lemma_eval_combined(p1, q1, -1, pow(g, i));
        lemma_residues(poly_eval(p1, pow(g, i)), poly_eval(q1, pow(g, i)));
    }
    lemma_no_roots_left(d0, g, k);
    lemma_no_roots_left(d1, g, k);
    assert forall|j: int| 0 <= j < poly.len() implies poly[j] == #[trigger] other[j] by {
        assert(vanishes(d0[j]));
        assert(vanishes(d1[j]));
        assert(poly[j].wf() && other[j].wf());
        lemma_residues(p0[j], q0[j]);
        lemma_residues(p1[j], q1[j]);
    }
    assert(poly =~= other);
}

} // verus!
