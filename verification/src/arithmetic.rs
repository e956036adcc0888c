//! Laws of rounded arithmetic.
use vstd::arithmetic::div_mod::*;
use vstd::arithmetic::power2::*;
use vstd::prelude::*;

use crate::double::{
    lemma_magnitude_increases, lemma_magnitude_parts, magnitude, nearest_even, pack, round_bits, Double,
    INF_BITS, TWO52, TWO53, UNIT_EXP,
};
use crate::whole::one_units;

verus! {

/// The distance between two numbers.
pub open spec fn gap(a: int, b: int) -> int {
    if a <= b {
        b - a
    } else {
        a - b
    }
}

// ---------------------------------------------------------------------------
// Rounding
// ---------------------------------------------------------------------------

/// No integer is nearer to a quotient than the nearest one.
proof fn lemma_nearest_even(p: nat, q: nat, n: nat)
    requires
        q > 0,
    ensures
        gap(nearest_even(p, q) * q as int, p as int) <= gap(n * q as int, p as int),
        p / q <= nearest_even(p, q) <= p / q + 1,
        2 * gap(nearest_even(p, q) * q as int, p as int) <= q,
{
    let f = p / q;
    let r = p % q;
    lemma_fundamental_div_mod(p as int, q as int);
    assert(p == f * q + r) by (nonlinear_arith)
        requires
            p == q * f + r,
    ;
    assert((f + 1) * q == f * q + q) by (nonlinear_arith);
    if n <= f {
        assert(n * q <= f * q) by (nonlinear_arith)
            requires
                n <= f,
                q > 0,
        ;
    } else {
        assert(n * q >= (f + 1) * q) by (nonlinear_arith)
            requires
                n >= f + 1,
                q > 0,
        ;
    }
}

proof fn lemma_nearest_even_bound(p: nat, q: nat, m: nat)
    requires
        q > 0,
    ensures
        p <= m * q ==> nearest_even(p, q) <= m,
        p >= m * q ==> nearest_even(p, q) >= m,
{
    let f = p / q;
    let r = p % q;
    lemma_fundamental_div_mod(p as int, q as int);
    assert(p == f * q + r) by (nonlinear_arith)
        requires
            p == q * f + r,
    ;
    if p <= m * q && f >= m {
        assert(f * q >= m * q) by (nonlinear_arith)
            requires
                f >= m,
        ;
        assert(r == 0);
        assert(f <= m) by (nonlinear_arith)
            requires
                f * q <= m * q,
                q > 0,
        ;
    }
    if p >= m * q && f < m {
        assert((f + 1) * q <= m * q) by (nonlinear_arith)
            requires
                f + 1 <= m,
        ;
        assert((f + 1) * q == f * q + q) by (nonlinear_arith);
    }
}

/// What is not below 2^52 units rounds to magnitude bits of 2^52 and more.
proof fn lemma_round_bits_large(p: nat, q: nat)
    requires
        q > 0,
        p >= TWO52 * q,
    ensures
        round_bits(p, q) >= TWO52,
{
    if p < TWO53 * q {
        lemma_nearest_even_bound(p, q, TWO52 as nat);
    }
}

/// No magnitude bits stand for a number nearer to a quotient than those it is
/// rounded to.
proof fn lemma_round_bits_nearest(p: nat, q: nat, b: nat)
    requires
        q > 0,
    ensures
        gap(magnitude(round_bits(p, q)) * q as int, p as int) <= gap(
            magnitude(b) * q as int,
            p as int,
        ),
    decreases p - q,
{
    if p < TWO53 * q {
        let r = nearest_even(p, q);
        lemma_nearest_even_bound(p, q, TWO53 as nat);
        lemma_nearest_even(p, q, magnitude(b));
        assert(magnitude(r) == r) by {
            if r == TWO53 {
                assert(magnitude(TWO52 as nat) == TWO52);
            }
        }
    } else {
        let r1 = round_bits(p, 2 * q);
        lemma_round_bits_large(p, 2 * q);
        let r = TWO52 as nat + r1;
        assert(magnitude(r) == 2 * magnitude(r1));
        let c = if b < TWO53 {
            TWO53 as nat
        } else {
            b
        };
        let c1 = (c - TWO52) as nat;
        lemma_round_bits_nearest(p, 2 * q, c1);
        assert(magnitude(c) == 2 * magnitude(c1));
        assert(magnitude(r) * q == magnitude(r1) * (2 * q)) by (nonlinear_arith)
            requires
                magnitude(r) == 2 * magnitude(r1),
        ;
        assert(magnitude(c) * q == magnitude(c1) * (2 * q)) by (nonlinear_arith)
            requires
                magnitude(c) == 2 * magnitude(c1),
        ;
        if b < TWO53 {
            assert(magnitude(c1) == TWO52);
            assert(magnitude(b) * q <= TWO53 * q) by (nonlinear_arith)
                requires
                    magnitude(b) <= TWO53,
            ;
        }
    }
}

/// Rounding is off by half a unit, or by a 2^53rd of the number, at most.
pub proof fn law_rounding_error(p: nat, q: nat)
    requires
        q > 0,
    ensures
        ({
            let off = gap(magnitude(round_bits(p, q)) * q as int, p as int);
            2 * off <= q || off * TWO53 <= p
        }),
    decreases p - q,
{
    let r = round_bits(p, q);
    if p < TWO53 * q {
        lemma_nearest_even_bound(p, q, TWO53 as nat);
        lemma_nearest_even(p, q, 0);
        assert(magnitude(r) == r) by {
            if r == TWO53 {
                assert(magnitude(TWO52 as nat) == TWO52);
            }
        }
    } else {
        let r1 = round_bits(p, 2 * q);
        law_rounding_error(p, 2 * q);
        lemma_round_bits_large(p, 2 * q);
        assert(magnitude(r) == 2 * magnitude(r1));
        assert(magnitude(r) * q == magnitude(r1) * (2 * q)) by (nonlinear_arith)
            requires
                magnitude(r) == 2 * magnitude(r1),
        ;
    }
}

/// Rounding keeps order.
pub proof fn law_rounding_keeps_order(p1: nat, p2: nat, q: nat)
    requires
        q > 0,
        p1 <= p2,
    ensures
        round_bits(p1, q) <= round_bits(p2, q),
    decreases p2 - q,
{
    if p2 < TWO53 * q {
        lemma_fundamental_div_mod(p1 as int, q as int);
        lemma_fundamental_div_mod(p2 as int, q as int);
        lemma_div_is_ordered(p1 as int, p2 as int, q as int);
        let (f1, f2) = (p1 / q, p2 / q);
        assert(f1 == f2 ==> q * f1 == q * f2);
    } else if p1 < TWO53 * q {
        lemma_nearest_even_bound(p1, q, TWO53 as nat);
        lemma_round_bits_large(p2, 2 * q);
    } else {
        law_rounding_keeps_order(p1, p2, 2 * q);
    }
}

/// No double is nearer to a quotient, in units of 2^-1074, than the one it is
/// rounded to, if that is finite.
pub proof fn law_rounding_nearest(neg: bool, p: nat, q: nat, x: Double)
    requires
        q > 0,
        pack(neg, p, q).finite(),
        x.finite(),
    ensures
        ({
            let exact = if neg {
                -p
            } else {
                p as int
            };
            gap(pack(neg, p, q).units() * q, exact) <= gap(x.units() * q, exact)
        }),
{
    let r = pack(neg, p, q);
    let b = x.mag() as nat;
    lemma_round_bits_nearest(p, q, b);
    assert(r.mag() == round_bits(p, q));
    let (mr, mx) = (r.size() as int, x.size() as int);
    assert(-mr * q == -(mr * q)) by (nonlinear_arith);
    assert(-mx * q == -(mx * q)) by (nonlinear_arith);
    assert(mx * q >= 0) by (nonlinear_arith)
        requires
            mx >= 0,
            q > 0,
    ;
    assert(mr * q >= 0) by (nonlinear_arith)
        requires
            mr >= 0,
            q > 0,
    ;
    if x.neg() != neg {
        // On the other side of zero nothing is nearer than zero.
        lemma_round_bits_nearest(p, q, 0);
        assert(magnitude(0) == 0);
        assert(0 * (q as int) == 0);
    }
}

/// No double is nearer to the exact sum of two than their sum, if that is finite.
pub proof fn law_sum_nearest(a: Double, b: Double, x: Double)
    requires
        a.finite(),
        b.finite(),
        a.plus(b).finite(),
        x.finite(),
    ensures
        gap(a.plus(b).units(), a.units() + b.units()) <= gap(x.units(), a.units() + b.units()),
{
    reveal(Double::spec_plus);
    let s = a.units() + b.units();
    if s < 0 {
        law_rounding_nearest(true, (-s) as nat, 1, x);
    } else if s > 0 {
        law_rounding_nearest(false, s as nat, 1, x);
    }
}

/// No double is nearer to the exact product of two than their product, if that is
/// finite. Both are taken times one, in units of 2^-1074.
pub proof fn law_product_nearest(a: Double, b: Double, x: Double)
    requires
        a.finite(),
        b.finite(),
        a.times(b).finite(),
        x.finite(),
    ensures
        gap(a.times(b).units() * one_units(), a.units() * b.units()) <= gap(
            x.units() * one_units(),
            a.units() * b.units(),
        ),
{
    reveal(Double::spec_times);
    lemma_pow2_pos(UNIT_EXP as nat);
    let neg = a.neg() != b.neg();
    let (m, n) = (a.size() as int, b.size() as int);
    law_rounding_nearest(neg, a.size() * b.size(), one_units(), x);
    assert(a.units() * b.units() == if neg {
        -(m * n)
    } else {
        m * n
    }) by {
        assert((-m) * n == -(m * n)) by (nonlinear_arith);
        assert(m * (-n) == -(m * n)) by (nonlinear_arith);
        assert((-m) * (-n) == m * n) by (nonlinear_arith);
    }
}

/// No double is nearer to the exact quotient of two than their quotient, if that
/// is finite. Both are taken times the size of the divisor.
pub proof fn law_quotient_nearest(a: Double, b: Double, x: Double)
    requires
        a.finite(),
        b.finite(),
        b.mag() > 0,
        a.over(b).finite(),
        x.finite(),
    ensures
        ({
            let size = a.size() * one_units();
            let exact = if a.neg() != b.neg() {
                -size
            } else {
                size as int
            };
            gap(a.over(b).units() * b.size(), exact) <= gap(x.units() * b.size(), exact)
        }),
{
    reveal(Double::spec_over);
    crate::double::lemma_magnitude_increases(0, b.mag() as nat);
    law_rounding_nearest(a.neg() != b.neg(), a.size() * one_units(), b.size(), x);
}

// ---------------------------------------------------------------------------
// Order
// ---------------------------------------------------------------------------

/// Adding the same keeps order.
pub proof fn law_sums_keep_order(a: Double, b: Double, c: Double)
    requires
        a.le(b),
        !a.plus(c).nan(),
        !b.plus(c).nan(),
    ensures
        a.plus(c).le(b.plus(c)),
{
    reveal(Double::spec_plus);
    crate::order::law_keys_order_numbers(a, b);
    if a.finite() && b.finite() && c.finite() {
        let s = a.units() + c.units();
        let t = b.units() + c.units();
        if 0 < s {
            law_rounding_keeps_order(s as nat, t as nat, 1);
        } else if t < 0 {
            law_rounding_keeps_order((-t) as nat, (-s) as nat, 1);
        }
    }
}

/// Adding in either order gives one sum.
pub proof fn law_sums_commute(a: Double, b: Double)
    ensures
        a.plus(b) == b.plus(a),
{
    reveal(Double::spec_plus);
}

/// What is rounded is a number.
pub proof fn lemma_pack_number(neg: bool, p: nat)
    ensures
        !pack(neg, p, 1).nan(),
{
}

// ---------------------------------------------------------------------------
// Exact results
// ---------------------------------------------------------------------------

/// The magnitude bits of a significand times a power of two.
proof fn lemma_representable(m: nat, e: nat) -> (b: nat)
    requires
        m < TWO53,
    ensures
        magnitude(b) == m * pow2(e),
    decreases e,
{
    if m >= TWO52 || e == 0 {
        lemma_magnitude_parts(m, e);
        e * TWO52 as nat + m
    } else {
        lemma_pow2_unfold(e);
        let e1 = (e - 1) as nat;
        assert(m * pow2(e) == 2 * m * pow2(e1)) by (nonlinear_arith)
            requires
                pow2(e) == 2 * pow2(e1),
        ;
        lemma_representable(2 * m, e1)
    }
}

/// What is a double is rounded to itself.
pub proof fn law_exact(neg: bool, m: nat, e: nat, q: nat)
    requires
        m < TWO53,
        e <= 2044,
        q > 0,
    ensures
        pack(neg, m * pow2(e) * q, q).finite(),
        pack(neg, m * pow2(e) * q, q).size() == m * pow2(e),
        pack(neg, m * pow2(e) * q, q).neg() == neg,
        pack(neg, m * pow2(e) * q, q) == pack(neg, m * pow2(e), 1),
{
    let p = m * pow2(e);
    let b = lemma_representable(m, e);
    let r = round_bits(p * q, q);
    let s = round_bits(p, 1);
    lemma_round_bits_nearest(p * q, q, b);
    lemma_round_bits_nearest(p, 1, b);
    assert(magnitude(r) == p) by (nonlinear_arith)
        requires
            magnitude(r) * q == p * q,
            q > 0,
    ;
    assert(magnitude(s) == p);
    if r < s {
        lemma_magnitude_increases(r, s);
    }
    if s < r {
        lemma_magnitude_increases(s, r);
    }
    if r >= INF_BITS {
        lemma_magnitude_parts(TWO52 as nat, 2046);
        if r > INF_BITS {
            lemma_magnitude_increases(INF_BITS as nat, r);
        }
        lemma_pow2_unfold(2046);
        lemma_pow2_strictly_increases(e, 2045);
        assert(m * pow2(e) < TWO53 * pow2(2045)) by (nonlinear_arith)
            requires
                m < TWO53,
                pow2(e) < pow2(2045),
                pow2(e) >= 0,
        ;
        assert(false);
    }
}

/// What is not over 2^2096 units is rounded to a finite double.
pub proof fn law_rounding_finite(neg: bool, p: nat, q: nat)
    requires
        q > 0,
        p <= TWO52 * pow2(2044) * q,
    ensures
        pack(neg, p, q).finite(),
{
    law_exact(neg, TWO52 as nat, 2044, q);
    law_rounding_keeps_order(p, TWO52 as nat * pow2(2044) * q, q);
}

/// A whole number below 2^53 is a double.
pub proof fn law_whole_exact(n: i64)
    requires
        -TWO53 < n < TWO53,
    ensures
        Double::of_int(n).finite(),
        Double::of_int(n).units() == n * one_units(),
        Double::of_int(n).neg() == (n < 0),
{
    reveal(Double::spec_of_int);
    let m = (if n < 0 {
        -n
    } else {
        n as int
    }) as nat;
    law_exact(n < 0, m, UNIT_EXP as nat, 1);
    assert(m * pow2(UNIT_EXP as nat) * 1 == m * pow2(UNIT_EXP as nat));
    assert((-n) * one_units() == -(n * one_units())) by (nonlinear_arith);
}

/// Whole numbers below 2^53 are ordered as such.
pub proof fn law_whole_order(a: i64, b: i64)
    requires
        -TWO53 < a < TWO53,
        -TWO53 < b < TWO53,
    ensures
        Double::of_int(a).lt(Double::of_int(b)) == (a < b),
{
    law_whole_exact(a);
    law_whole_exact(b);
    crate::order::law_keys_order_numbers(Double::of_int(a), Double::of_int(b));
    lemma_pow2_pos(UNIT_EXP as nat);
    let u = one_units() as int;
    assert(a < b <==> a * u < b * u) by (nonlinear_arith)
        requires
            u > 0,
    ;
}

/// Whole numbers add up exactly below 2^53.
pub proof fn law_whole_sum(a: i64, b: i64)
    requires
        0 <= a,
        0 <= b,
        a + b < TWO53,
    ensures
        Double::of_int(a).plus(Double::of_int(b)) == Double::of_int((a + b) as i64),
{
    law_whole_exact(a);
    law_whole_exact(b);
    reveal(Double::spec_plus);
    reveal(Double::spec_of_int);
    let u = one_units() as int;
    lemma_pow2_pos(UNIT_EXP as nat);
    assert(a * u + b * u == (a + b) * u) by (nonlinear_arith);
    assert((a + b) * u >= 0) by (nonlinear_arith)
        requires
            a + b >= 0,
            u > 0,
    ;
    if (a + b) * u == 0 {
        assert(a + b == 0) by (nonlinear_arith)
            requires
                (a + b) * u == 0,
                u > 0,
        ;
        assert(round_bits(0, 1) == 0);
    }
}

/// A multiple by a whole number gives the factor.
pub proof fn law_whole_quotient(k: i64, b: i64)
    requires
        0 <= k < TWO53,
        0 < b < TWO53,
        k * b < TWO53,
    ensures
        Double::of_int((k * b) as i64).over(Double::of_int(b)) == Double::of_int(k),
{
    assert(0 <= k * b) by (nonlinear_arith)
        requires
            0 <= k,
            0 < b,
    ;
    let a = (k * b) as i64;
    law_whole_exact(a);
    law_whole_exact(b);
    lemma_pow2_pos(UNIT_EXP as nat);
    let u = one_units() as int;
    assert(b * u > 0) by (nonlinear_arith)
        requires
            b > 0,
            u > 0,
    ;
    assert(a * u >= 0) by (nonlinear_arith)
        requires
            a >= 0,
            u > 0,
    ;
    law_exact(false, k as nat, UNIT_EXP as nat, (b * u) as nat);
    assert((k * u) * (b * u) == (a * u) * u) by (nonlinear_arith)
        requires
            a == k * b,
    ;
    reveal(Double::spec_over);
    reveal(Double::spec_of_int);
    assert(Double::of_int(b).mag() > 0) by {
        if Double::of_int(b).mag() == 0 {
            assert(magnitude(0) == 0);
        }
    }
}

/// A whole number is its own nearest whole number, and the index of it.
pub proof fn law_whole_round(k: i64)
    requires
        0 <= k < TWO53,
        k <= usize::MAX,
    ensures
        Double::of_int(k).round() == Double::of_int(k),
        Double::of_int(k).to_index() == k,
{
    law_whole_exact(k);
    reveal(Double::spec_round);
    reveal(Double::spec_to_index);
    reveal(Double::spec_of_int);
    lemma_pow2_pos(UNIT_EXP as nat);
    let u = one_units() as int;
    let s = Double::of_int(k).size() as int;
    assert(2 * s + u == k * (2 * u) + u) by (nonlinear_arith)
        requires
            s == k * u,
    ;
    lemma_fundamental_div_mod_converse(2 * s + u, 2 * u, k as int, u);
    lemma_fundamental_div_mod_converse(s, u, k as int, 0);
}

} // verus!
