//! Rounding an exact quotient to the nearest double.
//!
//! A quotient is narrowed one binary place at a time. What falls off is summed
//! up in a tail: nothing, less than half a place, half a place, or more.
use vstd::arithmetic::div_mod::*;
use vstd::arithmetic::mul::*;
use vstd::arithmetic::power2::*;
use vstd::prelude::*;

use crate::double::{Double, INF_BITS, SIGN_BIT, TWO52, TWO53};

verus! {

/// No tail: the quotient is an integer.
pub const EXACT: u8 = 0;

/// The tail is less than a half.
pub const BELOW_HALF: u8 = 1;

/// The tail is a half.
pub const HALF: u8 = 2;

/// The tail is more than a half.
pub const ABOVE_HALF: u8 = 3;

/// `num / den` is `m` and a tail of the given kind.
pub open spec fn located(m: nat, tail: u8, num: nat, den: nat) -> bool {
    let r = num - m * den;
    &&& den > 0
    &&& 0 <= r < den
    &&& tail == EXACT <==> r == 0
    &&& tail == BELOW_HALF <==> 0 < r && 2 * r < den
    &&& tail == HALF <==> 2 * r == den
    &&& tail == ABOVE_HALF <==> 2 * r > den
}

/// The tail that is left when the last place of `m` joins it.
pub open spec fn joined(m: nat, tail: u8) -> u8 {
    if m % 2 == 0 {
        if tail == EXACT { EXACT } else { BELOW_HALF }
    } else {
        if tail == EXACT { HALF } else { ABOVE_HALF }
    }
}

/// The numerator of `p / q` over `2^e`.
pub open spec fn num_at(p: nat, e: int) -> nat {
    if e < 0 { p * pow2((-e) as nat) } else { p }
}

/// The denominator of `p / q` over `2^e`.
pub open spec fn den_at(q: nat, e: int) -> nat {
    if e < 0 { q } else { q * pow2(e as nat) }
}

/// Doubling the denominator drops one place.
pub proof fn lemma_located_halve(m: nat, tail: u8, num: nat, den: nat)
    requires
        located(m, tail, num, den),
    ensures
        located(m / 2, joined(m, tail), num, 2 * den),
{
    let h = m / 2;
    let b = m % 2;
    assert(m * den == 2 * (h * den) + b * den) by (nonlinear_arith)
        requires
            m == 2 * h + b,
    ;
    assert(h * (2 * den) == 2 * (h * den)) by (nonlinear_arith);
    if b == 0 {
        assert(b * den == 0);
    } else {
        assert(b * den == den) by (nonlinear_arith)
            requires
                b == 1,
        ;
    }
}

/// A common factor does not matter.
pub proof fn lemma_located_scale(m: nat, tail: u8, num: nat, den: nat, k: nat)
    requires
        k > 0,
    ensures
        located(m, tail, num, den) <==> located(m, tail, num * k, den * k),
{
    let r = num - m * den;
    let rk = num * k - m * (den * k);
    assert(rk == r * k) by (nonlinear_arith)
        requires
            r == num - m * den,
            rk == num * k - m * (den * k),
    ;
    assert(den > 0 <==> den * k > 0) by (nonlinear_arith)
        requires
            k > 0,
    ;
    assert(r >= 0 <==> r * k >= 0) by (nonlinear_arith)
        requires
            k > 0,
    ;
    assert(r == 0 <==> r * k == 0) by (nonlinear_arith)
        requires
            k > 0,
    ;
    assert(r < den <==> r * k < den * k) by (nonlinear_arith)
        requires
            k > 0,
    ;
    assert(2 * r < den <==> 2 * (r * k) < den * k) by (nonlinear_arith)
        requires
            k > 0,
    ;
    assert(2 * r > den <==> 2 * (r * k) > den * k) by (nonlinear_arith)
        requires
            k > 0,
    ;
}

/// One place less of `p / q` over `2^e` is the quotient over `2^(e + 1)`.
proof fn lemma_located_step(m: nat, tail: u8, p: nat, q: nat, e: int)
    requires
        located(m, tail, num_at(p, e), den_at(q, e)),
    ensures
        located(m / 2, joined(m, tail), num_at(p, e + 1), den_at(q, e + 1)),
{
    let num = num_at(p, e);
    let den = den_at(q, e);
    lemma_located_halve(m, tail, num, den);
    lemma2_to64();
    if e < 0 {
        lemma_pow2_unfold((-e) as nat);
        let n1 = p * pow2((-e - 1) as nat);
        assert(num == n1 * 2) by (nonlinear_arith)
            requires
                num == p * pow2((-e) as nat),
                n1 == p * pow2((-e - 1) as nat),
                pow2((-e) as nat) == 2 * pow2((-e - 1) as nat),
        ;
        lemma_located_scale(m / 2, joined(m, tail), n1, q, 2);
        if e == -1 {
            assert(p * pow2(0) == p);
            assert(q * pow2(0) == q);
        }
    } else {
        lemma_pow2_unfold((e + 1) as nat);
        assert(q * pow2((e + 1) as nat) == 2 * (q * pow2(e as nat))) by (nonlinear_arith)
            requires
                pow2((e + 1) as nat) == 2 * pow2(e as nat),
        ;
    }
}

/// One place more of `p / q` over `2^e`, where nothing had fallen off.
proof fn lemma_located_back(m: nat, p: nat, q: nat, e: int)
    requires
        e > 0,
        located(m, EXACT, num_at(p, e), den_at(q, e)),
    ensures
        located(2 * m, EXACT, num_at(p, e - 1), den_at(q, e - 1)),
{
    lemma_pow2_unfold(e as nat);
    let d1 = q * pow2((e - 1) as nat);
    assert(den_at(q, e) == 2 * d1) by (nonlinear_arith)
        requires
            den_at(q, e) == q * pow2(e as nat),
            d1 == q * pow2((e - 1) as nat),
            pow2(e as nat) == 2 * pow2((e - 1) as nat),
    ;
    assert(m * (2 * d1) == (2 * m) * d1) by (nonlinear_arith);
}

/// Rounding a located quotient to an integer.
proof fn lemma_nearest_located(m: nat, tail: u8, num: nat, den: nat)
    requires
        located(m, tail, num, den),
    ensures
        crate::double::nearest_even(num, den) == (if tail == ABOVE_HALF || (tail == HALF && m % 2 == 1) {
            m + 1
        } else {
            m
        }),
{
    let r = num - m * den;
    lemma_fundamental_div_mod_converse(num as int, den as int, m as int, r);
}

/// Where the places below `2^e` are those that a double has no room for, the
/// nearest double is found by rounding there.
pub proof fn lemma_round_bits_at(p: nat, q: nat, e: nat)
    requires
        q > 0,
        p < TWO53 * (q * pow2(e)),
        e == 0 || p >= TWO52 * (q * pow2(e)),
    ensures
        crate::double::round_bits(p, q) == e * TWO52 + crate::double::nearest_even(
            p,
            q * pow2(e),
        ),
    decreases e,
{
    lemma2_to64();
    if e == 0 {
        assert(q * pow2(0) == q);
    } else {
        let e1 = (e - 1) as nat;
        lemma_pow2_unfold(e);
        lemma_pow2_pos(e1);
        assert((2 * q) * pow2(e1) == q * pow2(e)) by (nonlinear_arith)
            requires
                pow2(e) == 2 * pow2(e1),
        ;
        assert(TWO52 * (q * pow2(e)) >= TWO53 * q) by (nonlinear_arith)
            requires
                pow2(e) == 2 * pow2(e1),
                pow2(e1) >= 1,
                TWO53 == 2 * TWO52,
        ;
        lemma_round_bits_at(p, 2 * q, e1);
        assert(e * TWO52 == TWO52 + e1 * TWO52) by (nonlinear_arith)
            requires
                e == e1 + 1,
        ;
    }
}

/// Packs the quotient `p / q`, given as `m * 2^e` and a tail of the last place
/// of `m`, into the nearest double.
pub(crate) fn round_pack(
    neg: bool,
    m0: u128,
    e0: i32,
    tail0: u8,
    Ghost(p): Ghost<nat>,
    Ghost(q): Ghost<nat>,
) -> (r: Double)
    requires
        q > 0,
        -5000 <= e0 <= 5000,
        located(m0 as nat, tail0, num_at(p, e0 as int), den_at(q, e0 as int)),
        tail0 <= ABOVE_HALF,
        tail0 == EXACT || m0 >= TWO53 || e0 <= 0,
    ensures
        r == crate::double::pack(neg, p, q),
{
    let mut m: u128 = m0;
    let mut e: i32 = e0;
    let mut tail: u8 = tail0;
    let ghost mut k: nat = 128;
    proof {
        lemma2_to64();
        lemma_pow2_adds(64, 64);
    }
    while e < 0 || m >= TWO53 as u128
        invariant
            q > 0,
            -5000 <= e,
            located(m as nat, tail, num_at(p, e as int), den_at(q, e as int)),
            tail <= ABOVE_HALF,
            tail == EXACT || m >= TWO52 || e <= 0,
            m < pow2(k),
            k <= 128,
            e <= 0 || e + k <= 5128,
        decreases m + (if e < 0 { -e } else { 0 }),
    {
        proof {
            lemma_located_step(m as nat, tail, p, q, e as int);
            if k == 0 {
                lemma2_to64();
            } else {
                lemma_pow2_unfold(k);
                k = (k - 1) as nat;
            }
        }
        tail = if m % 2 == 0 {
            if tail == EXACT { EXACT } else { BELOW_HALF }
        } else {
            if tail == EXACT { HALF } else { ABOVE_HALF }
        };
        m = m / 2;
        e = e + 1;
    }
    if tail == EXACT && m == 0 {
        proof {
            lemma_mul_basics(den_at(q, e as int) as int);
            assert(num_at(p, e as int) == 0);
            assert(p == 0);
            assert(TWO53 * q > 0) by (nonlinear_arith)
                requires
                    q > 0,
            ;
            assert(crate::double::nearest_even(0, q) == 0) by {
                lemma_fundamental_div_mod_converse(0, q as int, 0, 0);
            }
        }
        return Double { bits: if neg { SIGN_BIT } else { 0 } };
    }
    while m < TWO52 as u128 && e > 0
        invariant
            q > 0,
            0 <= e <= 5128,
            located(m as nat, tail, num_at(p, e as int), den_at(q, e as int)),
            tail <= ABOVE_HALF,
            tail == EXACT || m >= TWO52 || e == 0,
            m < TWO53,
        decreases e,
    {
        proof {
            lemma_located_back(m as nat, p, q, e as int);
        }
        m = m * 2;
        e = e - 1;
    }
    let m1: u64 = if tail == ABOVE_HALF || (tail == HALF && m % 2 == 1) {
        m as u64 + 1
    } else {
        m as u64
    };
    let ghost den = q * pow2(e as nat);
    proof {
        lemma_nearest_located(m as nat, tail, p, den);
        assert(p < TWO53 * den) by (nonlinear_arith)
            requires
                p - m * den < den,
                m + 1 <= TWO53,
                den >= 0,
        ;
        if e > 0 {
            assert(p >= TWO52 * den) by (nonlinear_arith)
                requires
                    p - m * den >= 0,
                    m >= TWO52,
                    den >= 0,
            ;
        }
        lemma_round_bits_at(p, q, e as nat);
    }
    let mag: u64 = if e >= 2046 {
        INF_BITS
    } else {
        e as u64 * TWO52 + m1
    };
    Double { bits: if neg { SIGN_BIT + mag } else { mag } }
}

} // verus!
