//! Whole parts and remainders of doubles.
use vstd::arithmetic::div_mod::*;
use vstd::arithmetic::mul::*;
use vstd::arithmetic::power2::*;
use vstd::prelude::*;

use crate::double::{pack, scaled, split, Double, INF_BITS, NAN_BITS, TWO52, TWO53, UNIT_EXP};
use crate::rounding::{lemma_located_halve, located, round_pack, ABOVE_HALF, BELOW_HALF, EXACT, HALF};

verus! {

/// The number one, in units of 2^-1074.
pub open spec fn one_units() -> nat {
    pow2(UNIT_EXP as nat)
}

/// Drops the last `n` binary places of `m`.
fn drop_places(m: u64, n: u32) -> (r: (u64, u8))
    ensures
        located(r.0 as nat, r.1, m as nat, pow2(n as nat)),
        r.1 <= ABOVE_HALF,
        r.0 <= m,
{
    let mut i: u32 = 0;
    let mut w: u64 = m;
    let mut tail: u8 = EXACT;
    proof {
        lemma2_to64();
        assert(m * pow2(0) == m);
    }
    while i < n
        invariant
            i <= n,
            w <= m,
            tail <= ABOVE_HALF,
            located(w as nat, tail, m as nat, pow2(i as nat)),
        decreases n - i,
    {
        proof {
            lemma_located_halve(w as nat, tail, m as nat, pow2(i as nat));
            lemma_pow2_unfold((i + 1) as nat);
        }
        tail = if w % 2 == 0 {
            if tail == EXACT { EXACT } else { BELOW_HALF }
        } else {
            if tail == EXACT { HALF } else { ABOVE_HALF }
        };
        w = w / 2;
        i = i + 1;
    }
    (w, tail)
}

/// A number below the exponent of one, over one, is its significand over a
/// power of two.
proof fn lemma_whole_located(w: nat, tail: u8, m: nat, e: nat)
    requires
        e < UNIT_EXP,
        located(w, tail, m, pow2((UNIT_EXP - e) as nat)),
    ensures
        located(w, tail, m * pow2(e), one_units()),
{
    lemma_pow2_adds((UNIT_EXP - e) as nat, e);
    lemma_pow2_pos(e);
    crate::rounding::lemma_located_scale(w, tail, m, pow2((UNIT_EXP - e) as nat), pow2(e));
}

/// A number from the exponent of one on is whole.
proof fn lemma_whole_multiple(m: nat, e: nat)
    requires
        e >= UNIT_EXP,
    ensures
        m * pow2(e) == (m * pow2((e - UNIT_EXP) as nat)) * one_units(),
        (m * pow2(e)) / one_units() == m * pow2((e - UNIT_EXP) as nat),
        (m * pow2(e)) % one_units() == 0,
{
    let f = (e - UNIT_EXP) as nat;
    lemma_pow2_adds(f, UNIT_EXP as nat);
    lemma_pow2_pos(UNIT_EXP as nat);
    assert(m * pow2(e) == (m * pow2(f)) * one_units()) by (nonlinear_arith)
        requires
            pow2(e) == pow2(f) * one_units(),
    ;
    lemma_fundamental_div_mod_converse(
        (m * pow2(e)) as int,
        one_units() as int,
        (m * pow2(f)) as int,
        0,
    );
}

impl Double {
    /// The whole number `n` with the given sign.
    fn of_whole(neg: bool, n: u64) -> (r: Double)
        ensures
            r == pack(neg, n as nat * one_units(), 1),
    {
        proof {
            lemma_pow2_pos(UNIT_EXP as nat);
            assert(1 * one_units() == one_units());
        }
        round_pack(neg, n as u128, UNIT_EXP as i32, EXACT, Ghost(n as nat * one_units()), Ghost(1))
    }

    /// The same double, from its parts.
    fn of_split(neg: bool, m: u64, e: u32) -> (r: Double)
        requires
            m < TWO53,
            e <= 2045,
        ensures
            r == pack(neg, (m * pow2(e as nat)) as nat, 1),
    {
        proof {
            lemma_pow2_pos(e as nat);
            assert(1 * pow2(e as nat) == pow2(e as nat));
        }
        round_pack(neg, m as u128, e as i32, EXACT, Ghost((m * pow2(e as nat)) as nat), Ghost(1))
    }

    /// The least whole number that is not below this one.
    #[verifier::opaque]
    pub open spec fn spec_ceil(self) -> Double {
        if !self.finite() {
            self
        } else if self.neg() {
            pack(true, self.size() / one_units() * one_units(), 1)
        } else {
            pack(false, ((self.size() + one_units() - 1) as nat) / one_units() * one_units(), 1)
        }
    }

    /// The least whole number that is not below this one.
    #[verifier::when_used_as_spec(spec_ceil)]
    pub fn ceil(self) -> (r: Double)
        ensures
            r == self.spec_ceil(),
    {
        reveal(Double::spec_ceil);
        if self.mag_bits() >= INF_BITS {
            return self;
        }
        let (m, e) = split(self.mag_bits());
        let neg = self.is_neg();
        let ghost u = one_units();
        proof {
            lemma_pow2_pos(UNIT_EXP as nat);
        }
        if e >= UNIT_EXP {
            proof {
                lemma_whole_multiple(m as nat, e as nat);
                let f = (m * pow2((e - UNIT_EXP) as nat)) as int;
                lemma_fundamental_div_mod_converse(self.size() + u - 1, u as int, f, u - 1);
            }
            return Self::of_split(neg, m, e);
        }
        let (w, tail) = drop_places(m, UNIT_EXP - e);
        let ghost r = self.size() - w * u;
        proof {
            lemma_whole_located(w as nat, tail, m as nat, e as nat);
            lemma_fundamental_div_mod_converse(self.size() as int, u as int, w as int, r);
            if tail == EXACT {
                lemma_fundamental_div_mod_converse(self.size() + u - 1, u as int, w as int, u - 1);
            } else {
                assert((w + 1) * u == w * u + u) by (nonlinear_arith);
                lemma_fundamental_div_mod_converse(
                    self.size() + u - 1,
                    u as int,
                    w + 1,
                    r - 1,
                );
            }
        }
        if neg || tail == EXACT {
            Self::of_whole(neg, w)
        } else {
            Self::of_whole(false, w + 1)
        }
    }

    /// The nearest whole number; from the middle, the one farther from zero.
    #[verifier::opaque]
    pub open spec fn spec_round(self) -> Double {
        if !self.finite() {
            self
        } else {
            pack(
                self.neg(),
                (2 * self.size() + one_units()) / (2 * one_units()) * one_units(),
                1,
            )
        }
    }

    /// The nearest whole number; from the middle, the one farther from zero.
    #[verifier::when_used_as_spec(spec_round)]
    pub fn round(self) -> (r: Double)
        ensures
            r == self.spec_round(),
    {
        reveal(Double::spec_round);
        if self.mag_bits() >= INF_BITS {
            return self;
        }
        let (m, e) = split(self.mag_bits());
        let neg = self.is_neg();
        let ghost u = one_units();
        let ghost s = self.size();
        proof {
            lemma_pow2_pos(UNIT_EXP as nat);
        }
        if e >= UNIT_EXP {
            proof {
                lemma_whole_multiple(m as nat, e as nat);
                let f = (m * pow2((e - UNIT_EXP) as nat)) as int;
                assert(f * (2 * u) == 2 * (f * u)) by (nonlinear_arith);
                lemma_fundamental_div_mod_converse((2 * s + u) as int, 2 * u as int, f, u as int);
            }
            return Self::of_split(neg, m, e);
        }
        let (w, tail) = drop_places(m, UNIT_EXP - e);
        let ghost r = s - w * u;
        let up = tail == HALF || tail == ABOVE_HALF;
        proof {
            lemma_whole_located(w as nat, tail, m as nat, e as nat);
            assert(w * (2 * u) == 2 * (w * u)) by (nonlinear_arith);
            assert((w + 1) * (2 * u) == 2 * (w * u) + 2 * u) by (nonlinear_arith);
            if up {
                lemma_fundamental_div_mod_converse((2 * s + u) as int, 2 * u as int, w + 1, 2 * r - u);
            } else {
                lemma_fundamental_div_mod_converse((2 * s + u) as int, 2 * u as int, w as int, 2 * r + u);
            }
        }
        if up {
            Self::of_whole(neg, w + 1)
        } else {
            Self::of_whole(neg, w)
        }
    }

    /// The whole part as an index: nothing below zero, and at most the greatest
    /// index.
    #[verifier::opaque]
    pub open spec fn spec_to_index(self) -> usize {
        if self.nan() || self.neg() {
            0
        } else if self.inf() || self.size() / one_units() > usize::MAX {
            usize::MAX
        } else {
            (self.size() / one_units()) as usize
        }
    }

    /// The whole part as an index: nothing below zero, and at most the greatest
    /// index.
    #[verifier::when_used_as_spec(spec_to_index)]
    pub fn to_index(self) -> (r: usize)
        ensures
            r == self.spec_to_index(),
    {
        reveal(Double::spec_to_index);
        if self.is_nan() || self.is_neg() {
            return 0;
        }
        if self.mag_bits() == INF_BITS {
            return usize::MAX;
        }
        let (m, e) = split(self.mag_bits());
        let n: u128 = if e >= UNIT_EXP {
            proof {
                lemma_whole_multiple(m as nat, e as nat);
            }
            if e - UNIT_EXP > 74 {
                proof {
                    let f = (e - UNIT_EXP) as nat;
                    lemma_pow2_strictly_increases(64, f);
                    lemma2_to64();
                    assert(m * pow2(f) >= pow2(f)) by (nonlinear_arith)
                        requires
                            m >= 1,
                    ;
                }
                return usize::MAX;
            }
            scaled(m, e - UNIT_EXP)
        } else {
            let (w, tail) = drop_places(m, UNIT_EXP - e);
            proof {
                lemma_whole_located(w as nat, tail, m as nat, e as nat);
                lemma_fundamental_div_mod_converse(
                    self.size() as int,
                    one_units() as int,
                    w as int,
                    self.size() - w * one_units(),
                );
            }
            w as u128
        };
        if n > usize::MAX as u128 { usize::MAX } else { n as usize }
    }

    /// The remainder of the division by another number, with the sign of this
    /// one.
    #[verifier::opaque]
    pub open spec fn spec_rem(self, o: Double) -> Double {
        if self.nan() || o.nan() || self.inf() || o.mag() == 0 {
            Double { bits: NAN_BITS }
        } else if o.inf() {
            self
        } else {
            pack(self.neg(), self.size() % o.size(), 1)
        }
    }

    /// The remainder of the division by another number, with the sign of this
    /// one.
    #[verifier::when_used_as_spec(spec_rem)]
    pub fn rem(self, o: Double) -> (r: Double)
        ensures
            r == self.spec_rem(o),
    {
        reveal(Double::spec_rem);
        let (a, b) = (self.mag_bits(), o.mag_bits());
        if a >= INF_BITS || b > INF_BITS || b == 0 {
            return Double { bits: NAN_BITS };
        }
        if b == INF_BITS {
            return self;
        }
        let (m1, e1) = split(a);
        let (m2, e2) = split(b);
        let neg = self.is_neg();
        if a < b {
            proof {
                crate::double::lemma_magnitude_increases(a as nat, b as nat);
                lemma_small_mod(self.size(), o.size());
            }
            return Self::of_split(neg, m1, e1);
        }
        proof {
            assert(e1 >= e2) by (nonlinear_arith)
                requires
                    e1 * TWO52 + m1 >= e2 * TWO52 + m2,
                    e1 == 0 || m1 >= TWO52,
                    e2 == 0 || m2 >= TWO52,
                    m1 < 2 * TWO52,
                    m2 < 2 * TWO52,
            ;
            assert(m2 > 0);
        }
        let mut r: u64 = m1 % m2;
        let mut i: u32 = 0;
        proof {
            lemma2_to64();
            lemma_mul_basics(m1 as int);
            assert(m1 * pow2(0) == m1 * 1);
        }
        while i < e1 - e2
            invariant
                e2 <= e1,
                i <= e1 - e2,
                0 < m2 < TWO53,
                r == (m1 * pow2(i as nat)) as nat % m2 as nat,
            decreases e1 - e2 - i,
        {
            proof {
                lemma_pow2_unfold((i + 1) as nat);
                assert(m1 * pow2((i + 1) as nat) == 2 * (m1 * pow2(i as nat))) by (nonlinear_arith)
                    requires
                        pow2((i + 1) as nat) == 2 * pow2(i as nat),
                ;
                lemma_mul_mod_noop_right(2, m1 * pow2(i as nat), m2 as int);
            }
            r = (2 * r) % m2;
            i = i + 1;
        }
        proof {
            let d = (e1 - e2) as nat;
            let k = pow2(e2 as nat);
            let x = (m1 * pow2(d)) as nat;
            lemma_pow2_pos(e2 as nat);
            lemma_pow2_adds(d, e2 as nat);
            assert(m1 * pow2(e1 as nat) == x * k) by (nonlinear_arith)
                requires
                    x == m1 * pow2(d),
                    pow2(e1 as nat) == pow2(d) * k,
            ;
            lemma_fundamental_div_mod(x as int, m2 as int);
            let f = x as int / m2 as int;
            assert(x * k == f * (m2 * k) + r * k) by (nonlinear_arith)
                requires
                    x == m2 * f + r,
            ;
            assert(0 <= r * k < m2 * k) by (nonlinear_arith)
                requires
                    0 <= r < m2,
                    k > 0,
            ;
            lemma_fundamental_div_mod_converse(
                (x * k) as int,
                (m2 * k) as int,
                f,
                (r * k) as int,
            );
        }
        Self::of_split(neg, r, e2)
    }

    /// The remainder that is not below zero.
    pub open spec fn spec_rem_euclid(self, o: Double) -> Double {
        let r = self.spec_rem(o);
        if r.spec_lt(Double { bits: 0 }) { r.spec_plus(o.spec_abs()) } else { r }
    }

    /// The remainder that is not below zero.
    #[verifier::when_used_as_spec(spec_rem_euclid)]
    pub fn rem_euclid(self, o: Double) -> (r: Double)
        ensures
            r == self.spec_rem_euclid(o),
    {
        let r = self.rem(o);
        if r.lt(Double { bits: 0 }) { r.plus(o.abs()) } else { r }
    }
}

} // verus!
