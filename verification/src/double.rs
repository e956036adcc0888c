//! Double-precision numbers, held as their bit patterns.
//!
//! A [`Double`] is an IEEE 754 `binary64` value. Its arithmetic is carried out on
//! integers, so every operation can be stated exactly: the result is the double
//! nearest to the exact result, ties going to the even neighbour.
use vstd::arithmetic::div_mod::*;
use vstd::arithmetic::mul::*;
use vstd::arithmetic::power2::*;
use vstd::prelude::*;

use crate::rounding::{den_at, lemma_located_scale, located, num_at, round_pack, ABOVE_HALF, BELOW_HALF, EXACT, HALF};

verus! {

/// The bit pattern of the sign alone, 2^63.
pub const SIGN_BIT: u64 = 0x8000_0000_0000_0000;

/// The magnitude bits of infinity, 2047 * 2^52; greater ones are not numbers.
pub const INF_BITS: u64 = 0x7FF0_0000_0000_0000;

/// The magnitude bits of the one "not a number" that the operations return.
pub const NAN_BITS: u64 = 0x7FF8_0000_0000_0000;

/// 2^52: magnitude bits this far apart stand for numbers a factor of two apart.
pub const TWO52: u64 = 0x10_0000_0000_0000;

/// 2^53: the significands of doubles stay below it.
pub const TWO53: u64 = 0x20_0000_0000_0000;

/// The smallest positive double is 2^-1074.
pub const UNIT_EXP: u32 = 1074;

/// A double-precision number, as its bit pattern.
///
/// The derived `==` compares bit patterns: it tells the two zeros apart.
/// Use [`Double::same`] to compare numbers.
#[derive(Clone, Copy, Debug, PartialEq, Eq, Structural)]
pub struct Double {
    pub bits: u64,
}

/// The number that magnitude bits stand for, counted in units of 2^-1074.
pub open spec fn magnitude(b: nat) -> nat
    decreases b,
{
    if b < TWO53 {
        b
    } else {
        2 * magnitude((b - TWO52) as nat)
    }
}

/// The integer nearest to `p / q`, the even one on a tie.
pub open spec fn nearest_even(p: nat, q: nat) -> nat {
    let f = p / q;
    let r = p % q;
    if 2 * r < q {
        f
    } else if 2 * r > q {
        f + 1
    } else if f % 2 == 0 {
        f
    } else {
        f + 1
    }
}

/// The magnitude bits of the double nearest to `p / q` units of 2^-1074, were
/// there no greatest one.
pub open spec fn round_bits(p: nat, q: nat) -> nat
    decreases p - q,
{
    if q == 0 || p < TWO53 * q {
        nearest_even(p, q)
    } else {
        TWO52 as nat + round_bits(p, 2 * q)
    }
}

/// The double nearest to `p / q` units of 2^-1074, with the given sign:
/// infinity from the middle between the greatest double and 2^1024 on.
pub open spec fn pack(neg: bool, p: nat, q: nat) -> Double {
    let b = round_bits(p, q);
    signed(neg, if b < INF_BITS { b as u64 } else { INF_BITS })
}

/// The double with the given sign and magnitude bits.
pub open spec fn signed(neg: bool, mag: u64) -> Double {
    Double { bits: if neg { (SIGN_BIT + mag) as u64 } else { mag } }
}

impl Double {
    /// Whether the sign bit is set.
    pub open spec fn neg(self) -> bool {
        self.bits >= SIGN_BIT
    }

    /// The bits below the sign.
    pub open spec fn mag(self) -> u64 {
        if self.bits >= SIGN_BIT { (self.bits - SIGN_BIT) as u64 } else { self.bits }
    }

    /// Whether this is not a number.
    pub open spec fn nan(self) -> bool {
        self.mag() > INF_BITS
    }

    /// Whether this is one of the two infinities.
    pub open spec fn inf(self) -> bool {
        self.mag() == INF_BITS
    }

    /// Whether this is a number and no infinity.
    pub open spec fn finite(self) -> bool {
        self.mag() < INF_BITS
    }

    /// The absolute value in units of 2^-1074.
    pub open spec fn size(self) -> nat {
        magnitude(self.mag() as nat)
    }

    /// The value in units of 2^-1074.
    pub open spec fn units(self) -> int {
        if self.neg() { -(self.size() as int) } else { self.size() as int }
    }

    /// An integer by which doubles are ordered.
    pub open spec fn key(self) -> int {
        if self.neg() { -(self.mag() as int) } else { self.mag() as int }
    }
}

// ---------------------------------------------------------------------------
// Magnitudes and significands
// ---------------------------------------------------------------------------

/// Magnitude bits `e * 2^52 + m` stand for `m * 2^e` units.
pub proof fn lemma_magnitude_parts(m: nat, e: nat)
    requires
        m <= TWO53,
        e == 0 || m >= TWO52,
    ensures
        magnitude(e * TWO52 as nat + m) == m * pow2(e),
    decreases e,
{
    let b = e * TWO52 as nat + m;
    if e == 0 {
        lemma2_to64();
        assert(b == m);
        if m == TWO53 {
            assert(magnitude((b - TWO52) as nat) == TWO52);
        }
    } else {
        let e1 = (e - 1) as nat;
        assert(b - TWO52 == e1 * TWO52 + m) by (nonlinear_arith)
            requires
                b == e * TWO52 + m,
                e1 == e - 1,
        ;
        assert(b >= TWO53) by (nonlinear_arith)
            requires
                b == e * TWO52 + m,
                e >= 1,
                m >= TWO52,
                TWO53 == 2 * TWO52,
        ;
        lemma_magnitude_parts(m, e1);
        lemma_pow2_unfold(e);
        assert(m * pow2(e) == 2 * (m * pow2(e1))) by (nonlinear_arith)
            requires
                pow2(e) == 2 * pow2(e1),
        ;
    }
}

/// Greater magnitude bits stand for a greater number.
pub proof fn lemma_magnitude_increases(a: nat, b: nat)
    requires
        a < b,
    ensures
        magnitude(a) < magnitude(b),
    decreases b,
{
    if b < TWO53 {
    } else {
        let b1 = (b - TWO52) as nat;
        if a < TWO53 {
            if a < b1 {
                lemma_magnitude_increases(a, b1);
            } else {
                if b1 >= TWO53 {
                    lemma_magnitude_increases((TWO53 - 1) as nat, b1);
                }
            }
        } else {
            lemma_magnitude_increases((a - TWO52) as nat, b1);
        }
    }
}

/// What is not below one unit does not round to zero.
pub proof fn lemma_round_bits_positive(p: nat, q: nat)
    requires
        p >= q > 0,
    ensures
        round_bits(p, q) > 0,
{
    if p < TWO53 * q {
        lemma_div_is_ordered(q as int, p as int, q as int);
        lemma_div_by_self(q as int);
    }
}

/// Splits magnitude bits into a significand and an exponent.
pub(crate) fn split(b: u64) -> (r: (u64, u32))
    requires
        b < INF_BITS,
    ensures
        r.0 < TWO53,
        r.1 <= 2045,
        r.1 == 0 || r.0 >= TWO52,
        b == r.1 * TWO52 + r.0,
        magnitude(b as nat) == r.0 * pow2(r.1 as nat),
{
    let e: u64 = b / TWO52;
    let (m, s): (u64, u32) = if e == 0 {
        (b, 0)
    } else {
        (b % TWO52 + TWO52, (e - 1) as u32)
    };
    proof {
        lemma_fundamental_div_mod(b as int, TWO52 as int);
        lemma_magnitude_parts(m as nat, s as nat);
    }
    (m, s)
}

// ---------------------------------------------------------------------------
// Operations
// ---------------------------------------------------------------------------

/// `m * 2^d`.
pub(crate) fn scaled(m: u64, d: u32) -> (r: u128)
    requires
        m < TWO53,
        d <= 74,
    ensures
        r == m * pow2(d as nat),
        r < 0x8000_0000_0000_0000_0000_0000_0000_0000,
{
    let mut r: u128 = m as u128;
    let mut i: u32 = 0;
    proof {
        lemma2_to64();
        lemma_pow2_adds(64, 10);
        assert(m * pow2(0) == m);
    }
    while i < d
        invariant
            m < TWO53,
            i <= d <= 74,
            r == m * pow2(i as nat),
            pow2(74) == 0x10000000000000000 * 0x400,
        decreases d - i,
    {
        proof {
            lemma_pow2_unfold((i + 1) as nat);
            if i + 1 < 74 {
                lemma_pow2_strictly_increases((i + 1) as nat, 74);
            }
            assert(m * pow2((i + 1) as nat) == 2 * r) by (nonlinear_arith)
                requires
                    r == m * pow2(i as nat),
                    pow2((i + 1) as nat) == 2 * pow2(i as nat),
            ;
            assert(m * pow2((i + 1) as nat) < TWO53 * (0x10000000000000000 * 0x400))
                by (nonlinear_arith)
                requires
                    m < TWO53,
                    pow2((i + 1) as nat) <= 0x10000000000000000 * 0x400,
                    pow2((i + 1) as nat) >= 0,
            ;
        }
        r = r * 2;
        i = i + 1;
    }
    proof {
        if d < 74 {
            lemma_pow2_strictly_increases(d as nat, 74);
        }
        assert(m * pow2(d as nat) < TWO53 * (0x10000000000000000 * 0x400)) by (nonlinear_arith)
            requires
                m < TWO53,
                pow2(d as nat) <= 0x10000000000000000 * 0x400,
                pow2(d as nat) >= 0,
        ;
    }
    r
}

impl Double {
    /// The double with the given bit pattern; every "not a number" becomes the
    /// same one.
    pub fn from_bits(bits: u64) -> (r: Double)
        ensures
            r == (if (Double { bits }).nan() { Double { bits: NAN_BITS } } else { Double { bits } }),
    {
        let d = Double { bits };
        if d.is_nan() { Double { bits: NAN_BITS } } else { d }
    }

    /// The bit pattern.
    pub fn to_bits(self) -> (r: u64)
        ensures
            r == self.bits,
    {
        self.bits
    }

    /// Whether this is not a number.
    pub fn is_nan(self) -> (r: bool)
        ensures
            r == self.nan(),
    {
        self.mag_bits() > INF_BITS
    }

    pub(crate) fn is_neg(self) -> (r: bool)
        ensures
            r == self.neg(),
    {
        self.bits >= SIGN_BIT
    }

    pub(crate) fn mag_bits(self) -> (r: u64)
        ensures
            r == self.mag(),
    {
        if self.bits >= SIGN_BIT { self.bits - SIGN_BIT } else { self.bits }
    }

    pub(crate) fn of_parts(neg: bool, mag: u64) -> (r: Double)
        requires
            mag < SIGN_BIT,
        ensures
            r == signed(neg, mag),
    {
        Double { bits: if neg { SIGN_BIT + mag } else { mag } }
    }

    /// The same number with the sign turned.
    pub open spec fn spec_negated(self) -> Double {
        signed(!self.neg(), self.mag())
    }

    /// The same number with the sign turned.
    #[verifier::when_used_as_spec(spec_negated)]
    pub fn negated(self) -> (r: Double)
        ensures
            r == self.spec_negated(),
    {
        Self::of_parts(!self.is_neg(), self.mag_bits())
    }

    /// The absolute value.
    pub open spec fn spec_abs(self) -> Double {
        signed(false, self.mag())
    }

    /// The absolute value.
    #[verifier::when_used_as_spec(spec_abs)]
    pub fn abs(self) -> (r: Double)
        ensures
            r == self.spec_abs(),
    {
        Self::of_parts(false, self.mag_bits())
    }

    /// The sum: the nearest double to the exact sum. Opposite infinities have
    /// none. A sum of zero is negative only if both terms are.
    #[verifier::opaque]
    pub open spec fn spec_plus(self, o: Double) -> Double {
        if self.nan() || o.nan() || (self.inf() && o.inf() && self.neg() != o.neg()) {
            Double { bits: NAN_BITS }
        } else if self.inf() {
            self
        } else if o.inf() {
            o
        } else {
            let s = self.units() + o.units();
            if s == 0 {
                signed(self.neg() && o.neg(), 0)
            } else if s < 0 {
                pack(true, (-s) as nat, 1)
            } else {
                pack(false, s as nat, 1)
            }
        }
    }

    /// The sum, rounded to the nearest double.
    #[verifier::when_used_as_spec(spec_plus)]
    pub fn plus(self, o: Double) -> (r: Double)
        ensures
            r == self.spec_plus(o),
    {
        reveal(Double::spec_plus);
        let (a, b) = (self.mag_bits(), o.mag_bits());
        if a > INF_BITS || b > INF_BITS {
            return Double { bits: NAN_BITS };
        }
        if a == INF_BITS {
            if b == INF_BITS && self.is_neg() != o.is_neg() {
                return Double { bits: NAN_BITS };
            }
            return self;
        }
        if b == INF_BITS {
            return o;
        }
        // magnitude bits and exponents are ordered alike
        if a >= b {
            Self::sum_finite(self, o)
        } else {
            Self::sum_finite(o, self)
        }
    }

    /// The sum of two finite doubles, the first with the greater magnitude.
    fn sum_finite(x: Double, y: Double) -> (r: Double)
        requires
            x.finite(),
            y.finite(),
            x.mag() >= y.mag(),
        ensures
            ({
                let s = x.units() + y.units();
                r == if s == 0 {
                    signed(x.neg() && y.neg(), 0)
                } else if s < 0 {
                    pack(true, (-s) as nat, 1)
                } else {
                    pack(false, s as nat, 1)
                }
            }),
    {
        let (m1, e1) = split(x.mag_bits());
        let (m2, e2) = split(y.mag_bits());
        let neg = x.is_neg();
        let alike = neg == y.is_neg();
        proof {
            assert(e1 >= e2) by (nonlinear_arith)
                requires
                    e1 * TWO52 + m1 >= e2 * TWO52 + m2,
                    e1 == 0 || m1 >= TWO52,
                    e2 == 0 || m2 >= TWO52,
                    m1 < 2 * TWO52,
                    m2 < 2 * TWO52,
            ;
            if x.mag() > y.mag() {
                lemma_magnitude_increases(y.mag() as nat, x.mag() as nat);
            }
        }
        if x.mag_bits() == y.mag_bits() && !alike {
            return Double { bits: 0 };
        }
        if x.mag_bits() == 0 {
            return x;
        }
        let ghost p: nat = if alike { x.size() + y.size() } else { (x.size() - y.size()) as nat };
        proof {
            if x.mag() > 0 {
                lemma_magnitude_increases(0, x.mag() as nat);
            }
        }
        let d: u32 = e1 - e2;
        if d <= 74 {
            let w = scaled(m1, d);
            proof {
                lemma_sum_aligned(m1 as nat, m2 as nat, e1 as nat, e2 as nat);
            }
            let ghost k = pow2(e2 as nat);
            proof {
                assert(alike ==> (w + m2) * k == w * k + m2 * k) by (nonlinear_arith);
                assert(!alike ==> (w - m2) * k == w * k - m2 * k) by (nonlinear_arith);
                if !alike && w < m2 {
                    assert(w * k <= m2 * k) by (nonlinear_arith)
                        requires
                            w <= m2,
                            k >= 0,
                    ;
                    assert(false);
                }
                lemma_pow2_pos(e2 as nat);
            }
            let m: u128 = if alike { w + m2 as u128 } else { w - m2 as u128 };
            proof {
                assert(1 * k == k);
            }
            round_pack(neg, m, e2 as i32, EXACT, Ghost(p), Ghost(1))
        } else {
            let w = scaled(m1, 20);
            proof {
                lemma_sum_apart(m1 as nat, m2 as nat, e1 as nat, e2 as nat);
            }
            let ghost k = pow2((e1 - 20) as nat);
            proof {
                lemma2_to64();
                assert(w >= TWO52 * 0x100000) by (nonlinear_arith)
                    requires
                        w == m1 * 0x100000,
                        m1 >= TWO52,
                ;
                assert(1 * k == k);
                lemma_mul_is_distributive_sub_other_way(k as int, w as int, 1);
            }
            if m2 == 0 {
                round_pack(neg, w, (e1 - 20) as i32, EXACT, Ghost(p), Ghost(1))
            } else if alike {
                round_pack(neg, w, (e1 - 20) as i32, BELOW_HALF, Ghost(p), Ghost(1))
            } else {
                round_pack(neg, w - 1, (e1 - 20) as i32, ABOVE_HALF, Ghost(p), Ghost(1))
            }
        }
    }
}

/// Bringing the greater of two numbers to the exponent of the smaller.
proof fn lemma_sum_aligned(m1: nat, m2: nat, e1: nat, e2: nat)
    requires
        e1 >= e2,
    ensures
        m1 * pow2(e1) == (m1 * pow2((e1 - e2) as nat)) * pow2(e2),
{
    let d = (e1 - e2) as nat;
    lemma_pow2_adds(d, e2);
    assert(m1 * (pow2(d) * pow2(e2)) == (m1 * pow2(d)) * pow2(e2)) by (nonlinear_arith);
}

/// A number far below another is less than half of the last place kept.
proof fn lemma_sum_apart(m1: nat, m2: nat, e1: nat, e2: nat)
    requires
        e1 > e2 + 74,
        m2 < TWO53,
    ensures
        m1 * pow2(e1) == (m1 * pow2(20)) * pow2((e1 - 20) as nat),
        2 * (m2 * pow2(e2)) < pow2((e1 - 20) as nat),
        m2 > 0 ==> m2 * pow2(e2) > 0,
{
    let f = (e1 - 20) as nat;
    lemma_pow2_adds(20, f);
    assert(m1 * (pow2(20) * pow2(f)) == (m1 * pow2(20)) * pow2(f)) by (nonlinear_arith);
    lemma2_to64();
    lemma_pow2_adds(32, 22);
    lemma_pow2_adds(54, e2);
    lemma_pow2_pos(e2);
    if f > 54 + e2 {
        lemma_pow2_strictly_increases(54 + e2, f);
    }
    assert(2 * (m2 * pow2(e2)) < pow2(54) * pow2(e2)) by (nonlinear_arith)
        requires
            m2 < TWO53,
            pow2(54) == 2 * TWO53,
            pow2(e2) > 0,
    ;
    if m2 > 0 {
        assert(m2 * pow2(e2) > 0) by (nonlinear_arith)
            requires
                m2 > 0,
                pow2(e2) > 0,
        ;
    }
}

impl Double {
    /// The difference, rounded to the nearest double: the sum with the other
    /// number's sign turned.
    pub open spec fn spec_minus(self, o: Double) -> Double {
        self.spec_plus(o.spec_negated())
    }

    /// The difference, rounded to the nearest double.
    #[verifier::when_used_as_spec(spec_minus)]
    pub fn minus(self, o: Double) -> (r: Double)
        ensures
            r == self.spec_minus(o),
    {
        self.plus(o.negated())
    }

    /// The product: the nearest double to the exact product. Infinity times
    /// zero has none.
    #[verifier::opaque]
    pub open spec fn spec_times(self, o: Double) -> Double {
        let neg = self.neg() != o.neg();
        if self.nan() || o.nan() || (self.inf() && o.mag() == 0) || (self.mag() == 0 && o.inf()) {
            Double { bits: NAN_BITS }
        } else if self.inf() || o.inf() {
            signed(neg, INF_BITS)
        } else {
            pack(neg, self.size() * o.size(), pow2(UNIT_EXP as nat))
        }
    }

    /// The product, rounded to the nearest double.
    #[verifier::when_used_as_spec(spec_times)]
    pub fn times(self, o: Double) -> (r: Double)
        ensures
            r == self.spec_times(o),
    {
        reveal(Double::spec_times);
        let (a, b) = (self.mag_bits(), o.mag_bits());
        if a > INF_BITS || b > INF_BITS || (a == INF_BITS && b == 0) || (a == 0 && b == INF_BITS) {
            return Double { bits: NAN_BITS };
        }
        let neg = self.is_neg() != o.is_neg();
        if a == INF_BITS || b == INF_BITS {
            return Self::of_parts(neg, INF_BITS);
        }
        let (m1, e1) = split(a);
        let (m2, e2) = split(b);
        assert(m1 * m2 < TWO53 * TWO53) by (nonlinear_arith)
            requires
                m1 < TWO53,
                m2 < TWO53,
        ;
        let m: u128 = m1 as u128 * m2 as u128;
        let e: i32 = e1 as i32 + e2 as i32 - UNIT_EXP as i32;
        proof {
            lemma_product_located(m1 as nat, e1 as nat, m2 as nat, e2 as nat);
            lemma_pow2_pos(UNIT_EXP as nat);
        }
        round_pack(
            neg,
            m,
            e,
            EXACT,
            Ghost(self.size() * o.size()),
            Ghost(pow2(UNIT_EXP as nat)),
        )
    }

    /// The quotient: the nearest double to the exact quotient. Zero by zero and
    /// infinity by infinity have none; other numbers by zero give infinity.
    #[verifier::opaque]
    pub open spec fn spec_over(self, o: Double) -> Double {
        let neg = self.neg() != o.neg();
        if self.nan() || o.nan() || (self.inf() && o.inf()) || (self.mag() == 0 && o.mag() == 0) {
            Double { bits: NAN_BITS }
        } else if self.inf() || o.mag() == 0 {
            signed(neg, INF_BITS)
        } else if o.inf() {
            signed(neg, 0)
        } else {
            pack(neg, self.size() * pow2(UNIT_EXP as nat), o.size())
        }
    }

    /// The quotient, rounded to the nearest double.
    #[verifier::when_used_as_spec(spec_over)]
    pub fn over(self, o: Double) -> (r: Double)
        ensures
            r == self.spec_over(o),
    {
        reveal(Double::spec_over);
        let (a, b) = (self.mag_bits(), o.mag_bits());
        if a > INF_BITS || b > INF_BITS || (a == INF_BITS && b == INF_BITS) || (a == 0 && b == 0) {
            return Double { bits: NAN_BITS };
        }
        let neg = self.is_neg() != o.is_neg();
        if a == INF_BITS || b == 0 {
            return Self::of_parts(neg, INF_BITS);
        }
        if b == INF_BITS {
            return Self::of_parts(neg, 0);
        }
        let (m1, e1) = split(a);
        let (m2, e2) = split(b);
        Self::quotient(neg, m1, e1, m2, e2)
    }

    /// The quotient of `m1 * 2^e1` and `m2 * 2^e2`.
    fn quotient(neg: bool, m1: u64, e1: u32, m2: u64, e2: u32) -> (r: Double)
        requires
            m1 < TWO53,
            0 < m2 < TWO53,
            e1 <= 2045,
            e2 <= 2045,
        ensures
            r == pack(
                neg,
                (m1 * pow2(e1 as nat)) as nat * pow2(UNIT_EXP as nat),
                (m2 * pow2(e2 as nat)) as nat,
            ),
    {
        let ghost p: nat = (m1 * pow2(e1 as nat)) as nat * pow2(UNIT_EXP as nat);
        let ghost q: nat = (m2 * pow2(e2 as nat)) as nat;
        proof {
            lemma_pow2_pos(e2 as nat);
            assert(q > 0) by (nonlinear_arith)
                requires
                    q == m2 * pow2(e2 as nat),
                    m2 > 0,
                    pow2(e2 as nat) > 0,
            ;
        }
        let mut n: u64 = m1;
        let mut j: u32 = 0;
        proof {
            lemma2_to64();
            assert(m1 * pow2(0) == m1);
        }
        while 0 < n && n < TWO52
            invariant
                n < TWO53,
                n == m1 * pow2(j as nat),
                j <= 52,
                n > 0 ==> n >= pow2(j as nat),
                pow2(32) == 0x100000000,
            decreases TWO53 - n,
        {
            proof {
                lemma_pow2_unfold((j + 1) as nat);
                assert(m1 * pow2((j + 1) as nat) == 2 * n) by (nonlinear_arith)
                    requires
                        n == m1 * pow2(j as nat),
                        pow2((j + 1) as nat) == 2 * pow2(j as nat),
                ;
                lemma2_to64();
                lemma_pow2_adds(32, 20);
                if j >= 52 {
                    if j > 52 {
                        lemma_pow2_strictly_increases(52, j as nat);
                    }
                    assert(false);
                }
            }
            n = n * 2;
            j = j + 1;
        }
        if n == 0 {
            proof {
                lemma_pow2_pos(j as nat);
                assert(m1 == 0) by (nonlinear_arith)
                    requires
                        0 == m1 * pow2(j as nat),
                        pow2(j as nat) > 0,
                ;
                assert(p == 0) by {
                    lemma_mul_basics(pow2(e1 as nat) as int);
                    lemma_mul_basics(pow2(UNIT_EXP as nat) as int);
                }
                assert(TWO53 * q > 0) by (nonlinear_arith)
                    requires
                        q > 0,
                ;
                lemma_fundamental_div_mod_converse(0, q as int, 0, 0);
            }
            return Self::of_parts(neg, 0);
        }
        let w = scaled(n, 74);
        let d: u128 = m2 as u128;
        let m: u128 = w / d;
        let t: u128 = w % d;
        let tail: u8 = if t == 0 {
            EXACT
        } else if 2 * t < d {
            BELOW_HALF
        } else if 2 * t == d {
            HALF
        } else {
            ABOVE_HALF
        };
        let e: i32 = e1 as i32 + 1000 - e2 as i32 - j as i32;
        proof {
            lemma_fundamental_div_mod(w as int, d as int);
            assert(m * d == d * m) by (nonlinear_arith);
            assert(located(m as nat, tail, w as nat, m2 as nat));
            lemma_quotient_located(m as nat, tail, m1 as nat, e1 as nat, j as nat, m2 as nat, e2 as nat);
            lemma_pow2_adds(64, 10);
            lemma2_to64();
            assert(m >= TWO53) by (nonlinear_arith)
                requires
                    w == n * pow2(74),
                    pow2(74) == 0x10000000000000000 * 0x400,
                    n >= TWO52,
                    w == d * m + t,
                    t < d,
                    d <= TWO53,
                    d > 0,
            ;
        }
        round_pack(neg, m, e, tail, Ghost(p), Ghost(q))
    }

    /// The double nearest to an integer.
    #[verifier::opaque]
    pub open spec fn spec_of_int(n: i64) -> Double {
        pack(n < 0, (if n < 0 { -n } else { n as int }) as nat * pow2(UNIT_EXP as nat), 1)
    }

    /// The double nearest to an integer.
    #[verifier::when_used_as_spec(spec_of_int)]
    pub fn of_int(n: i64) -> (r: Double)
        ensures
            r == Self::spec_of_int(n),
    {
        reveal(Double::spec_of_int);
        let m: u128 = if n < 0 { (-(n as i128)) as u128 } else { n as u128 };
        proof {
            lemma_pow2_pos(UNIT_EXP as nat);
            assert(1 * pow2(UNIT_EXP as nat) == pow2(UNIT_EXP as nat));
        }
        round_pack(n < 0, m, UNIT_EXP as i32, EXACT, Ghost(m as nat * pow2(UNIT_EXP as nat)), Ghost(1))
    }

    /// The double nearest to the fraction `a / b`.
    #[verifier::opaque]
    pub open spec fn spec_ratio(a: u64, b: u64) -> Double {
        pack(false, a as nat * pow2(UNIT_EXP as nat), b as nat)
    }

    /// The double nearest to the fraction `a / b`.
    #[verifier::when_used_as_spec(spec_ratio)]
    pub fn ratio(a: u64, b: u64) -> (r: Double)
        requires
            a < TWO53,
            0 < b < TWO53,
        ensures
            r == Self::spec_ratio(a, b),
    {
        reveal(Double::spec_ratio);
        proof {
            lemma2_to64();
            assert(a * pow2(0) == a);
            assert(b * pow2(0) == b);
        }
        Self::quotient(false, a, 0, b, 0)
    }
}

/// The product of two numbers, over the exponent at which it is an integer.
proof fn lemma_product_located(m1: nat, e1: nat, m2: nat, e2: nat)
    ensures
        ({
            let p = (m1 * pow2(e1)) * (m2 * pow2(e2));
            let q = pow2(UNIT_EXP as nat);
            let e = e1 + e2 - UNIT_EXP;
            located(m1 * m2, EXACT, num_at(p, e), den_at(q, e))
        }),
{
    let p = (m1 * pow2(e1)) * (m2 * pow2(e2));
    let q = pow2(UNIT_EXP as nat);
    let e = e1 + e2 - UNIT_EXP;
    let m = m1 * m2;
    lemma_pow2_adds(e1, e2);
    lemma_pow2_pos(UNIT_EXP as nat);
    assert(p == m * pow2(e1 + e2)) by (nonlinear_arith)
        requires
            p == (m1 * pow2(e1)) * (m2 * pow2(e2)),
            m == m1 * m2,
            pow2(e1 + e2) == pow2(e1) * pow2(e2),
    ;
    if e < 0 {
        let k = (-e) as nat;
        lemma_pow2_adds(e1 + e2, k);
        assert(p * pow2(k) == m * q) by (nonlinear_arith)
            requires
                p == m * pow2(e1 + e2),
                q == pow2(e1 + e2) * pow2(k),
        ;
    } else {
        lemma_pow2_adds(UNIT_EXP as nat, e as nat);
        lemma_pow2_pos(e as nat);
        assert(q * pow2(e as nat) > 0) by (nonlinear_arith)
            requires
                q > 0,
                pow2(e as nat) > 0,
        ;
    }
}

/// The quotient of two numbers, over the exponent at which it was divided out.
proof fn lemma_quotient_located(
    m: nat,
    tail: u8,
    m1: nat,
    e1: nat,
    j: nat,
    m2: nat,
    e2: nat,
)
    requires
        j <= 52,
        located(m, tail, (m1 * pow2(j)) * pow2(74), m2),
    ensures
        ({
            let p = (m1 * pow2(e1)) * pow2(UNIT_EXP as nat);
            let q = m2 * pow2(e2);
            let e = e1 + 1000 - e2 - j;
            located(m, tail, num_at(p, e), den_at(q, e))
        }),
{
    let p = (m1 * pow2(e1)) * pow2(UNIT_EXP as nat);
    let q = m2 * pow2(e2);
    let e = e1 + 1000 - e2 - j;
    let w = (m1 * pow2(j)) * pow2(74);
    lemma_pow2_adds(j, 74);
    lemma_pow2_adds(e1, UNIT_EXP as nat);
    assert(w == m1 * pow2(j + 74)) by (nonlinear_arith)
        requires
            w == (m1 * pow2(j)) * pow2(74),
            pow2(j + 74) == pow2(j) * pow2(74),
    ;
    assert(p == m1 * pow2(e1 + UNIT_EXP as nat)) by (nonlinear_arith)
        requires
            p == (m1 * pow2(e1)) * pow2(UNIT_EXP as nat),
            pow2(e1 + UNIT_EXP as nat) == pow2(e1) * pow2(UNIT_EXP as nat),
    ;
    if e < 0 {
        let k = pow2(e2);
        lemma_pow2_pos(e2);
        lemma_pow2_adds(e1 + UNIT_EXP as nat, (-e) as nat);
        lemma_pow2_adds(j + 74, e2);
        assert(e1 + UNIT_EXP as nat + (-e) as nat == j + 74 + e2);
        assert(p * pow2((-e) as nat) == w * k) by (nonlinear_arith)
            requires
                p == m1 * pow2(e1 + UNIT_EXP as nat),
                w == m1 * pow2(j + 74),
                pow2(e1 + UNIT_EXP as nat) * pow2((-e) as nat) == pow2(j + 74) * k,
        ;
        lemma_located_scale(m, tail, w, m2, k);
    } else {
        let f = (e1 + 1000 - j) as nat;
        let k = pow2(f);
        lemma_pow2_pos(f);
        lemma_pow2_adds(j + 74, f);
        lemma_pow2_adds(e2, e as nat);
        assert(p == w * k) by (nonlinear_arith)
            requires
                p == m1 * pow2(e1 + UNIT_EXP as nat),
                w == m1 * pow2(j + 74),
                pow2(e1 + UNIT_EXP as nat) == pow2(j + 74) * k,
        ;
        assert(q * pow2(e as nat) == m2 * k) by (nonlinear_arith)
            requires
                q == m2 * pow2(e2),
                k == pow2(e2) * pow2(e as nat),
        ;
        lemma_located_scale(m, tail, w, m2, k);
    }
}

impl Double {
    /// The positive zero.
    pub open spec fn spec_zero() -> Double {
        Double { bits: 0 }
    }

    /// The positive zero.
    #[verifier::when_used_as_spec(spec_zero)]
    pub fn zero() -> (r: Double)
        ensures
            r == Self::spec_zero(),
    {
        Double { bits: 0 }
    }

    /// The negative zero, from which sums start.
    pub open spec fn spec_negative_zero() -> Double {
        Double { bits: SIGN_BIT }
    }

    /// The negative zero, from which sums start.
    #[verifier::when_used_as_spec(spec_negative_zero)]
    pub fn negative_zero() -> (r: Double)
        ensures
            r == Self::spec_negative_zero(),
    {
        Double { bits: SIGN_BIT }
    }

    /// The positive infinity.
    pub open spec fn spec_infinity() -> Double {
        Double { bits: INF_BITS }
    }

    /// The positive infinity.
    #[verifier::when_used_as_spec(spec_infinity)]
    pub fn infinity() -> (r: Double)
        ensures
            r == Self::spec_infinity(),
    {
        Double { bits: INF_BITS }
    }

    /// The double nearest to the ratio of a circle's circumference to its
    /// diameter.
    pub open spec fn spec_pi() -> Double {
        Double { bits: 0x4009_21FB_5444_2D18 }
    }

    /// The double nearest to the ratio of a circle's circumference to its
    /// diameter.
    #[verifier::when_used_as_spec(spec_pi)]
    pub fn pi() -> (r: Double)
        ensures
            r == Self::spec_pi(),
    {
        Double { bits: 0x4009_21FB_5444_2D18 }
    }

    /// The double nearest to a count.
    #[verifier::opaque]
    pub open spec fn spec_of_count(n: nat) -> Double {
        pack(false, n * pow2(UNIT_EXP as nat), 1)
    }

    /// The double nearest to a count.
    pub fn of_count(n: usize) -> (r: Double)
        ensures
            r == Self::spec_of_count(n as nat),
    {
        reveal(Double::spec_of_count);
        proof {
            lemma_pow2_pos(UNIT_EXP as nat);
            assert(1 * pow2(UNIT_EXP as nat) == pow2(UNIT_EXP as nat));
        }
        round_pack(
            false,
            n as u128,
            UNIT_EXP as i32,
            EXACT,
            Ghost(n as nat * pow2(UNIT_EXP as nat)),
            Ghost(1),
        )
    }
}

} // verus!
