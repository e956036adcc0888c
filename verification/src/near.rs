//! Doubles as real numbers, and how far computing with them is off.
use vstd::arithmetic::div_mod::*;
use vstd::arithmetic::power2::*;
use vstd::prelude::*;

use crate::arithmetic::{gap, law_exact, law_rounding_error, law_rounding_finite, law_whole_exact};
use crate::double::{magnitude, pack, round_bits, Double, TWO52, TWO53, UNIT_EXP};
use crate::order::law_keys_order_numbers;
use crate::whole::one_units;

verus! {

/// The number that a double stands for.
pub open spec fn val(x: Double) -> real {
    x.units() as real / one_units() as real
}

/// The absolute value of a number.
pub open spec fn abs(r: real) -> real {
    if r < 0real {
        -r
    } else {
        r
    }
}

/// A double is finite, and within `e` of a number.
pub open spec fn near(x: Double, r: real, e: real) -> bool {
    x.finite() && -e <= val(x) - r <= e
}

/// The rounding of a number, as a share of it: 2^-53.
pub open spec fn eps() -> real {
    1real / 0x20000000000000real
}

/// 2^1000: numbers up to it are far from overflowing.
pub open spec fn huge() -> real {
    pow2(1000) as real
}

pub proof fn lemma_one()
    ensures
        one_units() as real > 0x1000000000000000000000000000000real,
        one_units() > 0,
        huge() > 0x1000000000000000000000000000000real,
{
    lemma_pow2_strictly_increases(120, UNIT_EXP as nat);
    lemma_pow2_strictly_increases(120, 1000);
    lemma_pow2_adds(60, 60);
    lemma2_to64_rest();
    assert(pow2(120) == 0x1000000000000000000000000000000) by (nonlinear_arith)
        requires
            pow2(120) == pow2(60) * pow2(60),
            pow2(60) == 0x1000000000000000,
    ;
}

/// The value of a double, times one in units.
pub proof fn lemma_val(x: Double)
    ensures
        val(x) * (one_units() as real) == x.units() as real,
{
    lemma_one();
    let w = one_units() as real;
    let n = x.units() as real;
    assert(n / w * w == n) by (nonlinear_arith)
        requires
            w > 0real,
    ;
}

/// Numbers are ordered as the doubles that stand for them.
pub proof fn lemma_val_order(x: Double, y: Double)
    requires
        x.finite(),
        y.finite(),
    ensures
        x.lt(y) == (val(x) < val(y)),
        x.le(y) == (val(x) <= val(y)),
        x.same(y) == (val(x) == val(y)),
{
    lemma_one();
    law_keys_order_numbers(x, y);
    let w = one_units() as real;
    lemma_val(x);
    lemma_val(y);
    let (a, b) = (val(x), val(y));
    assert(a < b <==> a * w < b * w) by (nonlinear_arith)
        requires
            w > 0real,
    ;
    assert(a == b <==> a * w == b * w) by (nonlinear_arith)
        requires
            w > 0real,
    ;
}

pub proof fn lemma_zero()
    ensures
        Double::zero().finite(),
        val(Double::zero()) == 0real,
        Double::negative_zero().finite(),
        val(Double::negative_zero()) == 0real,
{
    lemma_one();
    assert(magnitude(0) == 0);
    assert(Double::zero().units() == 0);
    assert(Double::negative_zero().units() == 0);
    let w = one_units() as real;
    assert(0real / w == 0real) by (nonlinear_arith)
        requires
            w > 0real,
    ;
}

pub proof fn lemma_negated_val(x: Double)
    ensures
        x.negated().finite() == x.finite(),
        val(x.negated()) == -val(x),
        x.abs().finite() == x.finite(),
        val(x.abs()) == abs(val(x)),
{
    lemma_one();
    let w = one_units() as real;
    let n = x.units() as real;
    assert(x.negated().units() == -x.units());
    assert(x.abs().units() == x.size());
    assert((-n) / w == -(n / w)) by (nonlinear_arith)
        requires
            w > 0real,
    ;
    assert(n / w >= 0real <==> n >= 0real) by (nonlinear_arith)
        requires
            w > 0real,
    ;
}

/// A whole number below 2^53.
pub proof fn lemma_whole_val(n: i64)
    requires
        -TWO53 < n < TWO53,
    ensures
        Double::of_int(n).finite(),
        val(Double::of_int(n)) == n as real,
{
    law_whole_exact(n);
    lemma_one();
    let w = one_units() as real;
    let k = n as real;
    assert((n * one_units()) as real == k * w) by (nonlinear_arith)
        requires
            k == n as real,
            w == one_units() as real,
    ;
    assert(k * w / w == k) by (nonlinear_arith)
        requires
            w > 0real,
    ;
}

/// A number in units, times a divisor, is not over what is rounded to a finite double.
proof fn lemma_range(p: nat, q: nat, s: real)
    requires
        q > 0,
        s * ((q * one_units()) as real) == p as real,
        s <= huge(),
    ensures
        p <= TWO52 * pow2(2044) * q,
{
    lemma_one();
    let w = one_units();
    lemma_pow2_adds(1000, UNIT_EXP as nat);
    lemma_pow2_strictly_increases(2074, 2096);
    lemma_pow2_adds(52, 2044);
    lemma2_to64_rest();
    let (x, y) = ((q * w) as real, pow2(1000) as real);
    assert(q * w > 0) by (nonlinear_arith)
        requires
            q > 0,
            w > 0,
    ;
    assert(s * x <= y * x) by (nonlinear_arith)
        requires
            s <= y,
            x > 0real,
    ;
    assert(y * x == (pow2(1000) * (q * w)) as real) by (nonlinear_arith)
        requires
            x == (q * w) as real,
            y == pow2(1000) as real,
    ;
    assert(pow2(1000) * (q * w) == pow2(2074) * q) by (nonlinear_arith)
        requires
            pow2(2074) == pow2(1000) * w,
    ;
    assert(pow2(2074) * q <= pow2(2096) * q) by (nonlinear_arith)
        requires
            pow2(2074) <= pow2(2096),
    ;
    assert(pow2(2096) == TWO52 * pow2(2044));
}

/// What rounding is off by.
proof fn lemma_pack_val(neg: bool, p: nat, q: nat, s: real)
    requires
        q > 0,
        s * ((q * one_units()) as real) == p as real,
        s <= huge(),
    ensures
        ({
            let r = if neg {
                -s
            } else {
                s
            };
            near(pack(neg, p, q), r, eps() * s + eps() * eps())
        }),
        s >= 0real,
        q == 1 ==> ({
            let r = if neg {
                -s
            } else {
                s
            };
            near(pack(neg, p, q), r, eps() * s)
        }),
{
    lemma_one();
    lemma_range(p, q, s);
    law_rounding_finite(neg, p, q);
    law_rounding_error(p, q);
    let d = pack(neg, p, q);
    let k = d.size() as int;
    assert(k == magnitude(round_bits(p, q)));
    let w = one_units() as real;
    let g = gap(k * q as int, p as int);
    let (kr, qr, pr, gr) = (k as real, q as real, p as real, g as real);
    assert((k * q) as real == kr * qr) by (nonlinear_arith)
        requires
            kr == k as real,
            qr == q as real,
    ;
    assert((q * one_units()) as real == qr * w) by (nonlinear_arith)
        requires
            qr == q as real,
            w == one_units() as real,
    ;
    let v = kr / w;
    assert(v * w == kr) by (nonlinear_arith)
        requires
            v == kr / w,
            w > 0real,
    ;
    assert(s >= 0real) by (nonlinear_arith)
        requires
            s * (qr * w) == pr,
            pr >= 0real,
            qr > 0real,
            w > 0real,
    ;
    // The distance, times the divisor and one in units.
    assert((v - s) * (qr * w) == kr * qr - pr) by (nonlinear_arith)
        requires
            v * w == kr,
            s * (qr * w) == pr,
    ;
    let x = qr * w;
    assert(x > 0real) by (nonlinear_arith)
        requires
            qr > 0real,
            w > 0real,
            x == qr * w,
    ;
    assert(-gr <= (v - s) * x <= gr);
    let e = eps() * s;
    let ep = eps();
    assert(ep * 0x20000000000000real == 1real);
    assert(e * 0x20000000000000real == s) by (nonlinear_arith)
        requires
            e == ep * s,
            ep * 0x20000000000000real == 1real,
    ;
    if g * TWO53 <= p {
        assert(gr * 0x20000000000000real <= pr);
        assert(gr <= e * x) by (nonlinear_arith)
            requires
                gr * 0x20000000000000real <= pr,
                s * x == pr,
                e * 0x20000000000000real == s,
        ;
        assert(-e <= v - s <= e) by (nonlinear_arith)
            requires
                -gr <= (v - s) * x <= gr,
                gr <= e * x,
                x > 0real,
        ;
    } else {
        assert(2 * g <= q);
        let t = ep * ep;
        assert(t * w >= 1real) by (nonlinear_arith)
            requires
                w > 0x1000000000000000000000000000000real,
                ep * 0x20000000000000real == 1real,
                t == ep * ep,
        ;
        assert(-t <= v - s <= t) by (nonlinear_arith)
            requires
                -gr <= (v - s) * x <= gr,
                2real * gr <= qr,
                x == qr * w,
                qr > 0real,
                w > 0real,
                t * w >= 1real,
        ;
        assert(e >= 0real) by (nonlinear_arith)
            requires
                e * 0x20000000000000real == s,
                s >= 0real,
        ;
        if q == 1 {
            assert(g == 0);
            assert(v == s) by (nonlinear_arith)
                requires
                    (v - s) * x == 0real,
                    x > 0real,
            ;
        }
    }
    assert(ep * ep >= 0real) by (nonlinear_arith);
    assert(val(d) == (if neg {
        -v
    } else {
        v
    })) by {
        assert((-kr) / w == -(kr / w)) by (nonlinear_arith)
            requires
                w > 0real,
        ;
    }
}

// ---------------------------------------------------------------------------
// One operation
// ---------------------------------------------------------------------------

/// What a sum is off by.
pub proof fn lemma_plus_val(a: Double, b: Double)
    requires
        a.finite(),
        b.finite(),
        abs(val(a) + val(b)) <= huge(),
    ensures
        near(a.plus(b), val(a) + val(b), eps() * abs(val(a) + val(b))),
{
    reveal(Double::spec_plus);
    lemma_one();
    let w = one_units() as real;
    lemma_val(a);
    lemma_val(b);
    let n = a.units() + b.units();
    let r = val(a) + val(b);
    assert(r * w == n as real) by (nonlinear_arith)
        requires
            val(a) * w == a.units() as real,
            val(b) * w == b.units() as real,
            r == val(a) + val(b),
            n as real == a.units() as real + b.units() as real,
    ;
    assert(1 * one_units() == one_units());
    if n == 0 {
        lemma_zero();
        assert(r == 0real) by (nonlinear_arith)
            requires
                r * w == 0real,
                w > 0real,
        ;
        assert(eps() * 0real == 0real) by (nonlinear_arith);
    } else if n < 0 {
        assert(r < 0real) by (nonlinear_arith)
            requires
                r * w < 0real,
                w > 0real,
        ;
        assert((-r) * w == -(r * w)) by (nonlinear_arith);
        lemma_pack_val(true, (-n) as nat, 1, -r);
    } else {
        assert(r > 0real) by (nonlinear_arith)
            requires
                r * w > 0real,
                w > 0real,
        ;
        lemma_pack_val(false, n as nat, 1, r);
    }
}

/// What a difference is off by.
pub proof fn lemma_minus_val(a: Double, b: Double)
    requires
        a.finite(),
        b.finite(),
        abs(val(a) - val(b)) <= huge(),
    ensures
        near(a.minus(b), val(a) - val(b), eps() * abs(val(a) - val(b))),
{
    lemma_negated_val(b);
    lemma_plus_val(a, b.negated());
}

/// The size of a double, and its value.
proof fn lemma_size_val(x: Double)
    ensures
        abs(val(x)) * (one_units() as real) == x.size() as real,
        x.neg() ==> val(x) <= 0real,
        !x.neg() ==> val(x) >= 0real,
{
    lemma_val(x);
    lemma_one();
    let w = one_units() as real;
    let v = val(x);
    assert((-v) * w == -(v * w)) by (nonlinear_arith);
    assert(v * w >= 0real <==> v >= 0real) by (nonlinear_arith)
        requires
            w > 0real,
    ;
    assert(v * w <= 0real <==> v <= 0real) by (nonlinear_arith)
        requires
            w > 0real,
    ;
}

/// What a product is off by.
pub proof fn lemma_times_val(a: Double, b: Double)
    requires
        a.finite(),
        b.finite(),
        abs(val(a) * val(b)) <= huge(),
    ensures
        near(a.times(b), val(a) * val(b), eps() * abs(val(a) * val(b)) + eps() * eps()),
{
    reveal(Double::spec_times);
    lemma_one();
    lemma_size_val(a);
    lemma_size_val(b);
    let w = one_units() as real;
    let (x, y) = (val(a), val(b));
    let (ax, ay) = (abs(x), abs(y));
    let p = a.size() * b.size();
    assert(p as real == (a.size() as real) * (b.size() as real)) by (nonlinear_arith)
        requires
            p == a.size() * b.size(),
    ;
    assert((one_units() * one_units()) as real == w * w) by (nonlinear_arith)
        requires
            w == one_units() as real,
    ;
    assert(ax * ay * (w * w) == p as real) by (nonlinear_arith)
        requires
            ax * w == a.size() as real,
            ay * w == b.size() as real,
            p as real == (a.size() as real) * (b.size() as real),
    ;
    let neg = a.neg() != b.neg();
    assert(ax * ay == abs(x * y)) by {
        assert((-x) * y == -(x * y) && x * (-y) == -(x * y) && (-x) * (-y) == x * y)
            by (nonlinear_arith);
        assert(ax * ay >= 0real) by (nonlinear_arith)
            requires
                ax >= 0real,
                ay >= 0real,
        ;
    }
    lemma_pack_val(neg, p, one_units(), ax * ay);
    assert(x * y == (if neg {
        -(ax * ay)
    } else {
        ax * ay
    })) by {
        assert((-x) * y == -(x * y) && x * (-y) == -(x * y) && (-x) * (-y) == x * y)
            by (nonlinear_arith);
        assert(0real * y == 0real && x * 0real == 0real) by (nonlinear_arith);
    }
}

/// What a quotient is off by.
pub proof fn lemma_over_val(a: Double, b: Double)
    requires
        a.finite(),
        b.finite(),
        val(b) != 0real,
        abs(val(a) / val(b)) <= huge(),
    ensures
        near(a.over(b), val(a) / val(b), eps() * abs(val(a) / val(b)) + eps() * eps()),
{
    reveal(Double::spec_over);
    lemma_one();
    lemma_size_val(a);
    lemma_size_val(b);
    assert(magnitude(0) == 0);
    let w = one_units() as real;
    let (x, y) = (val(a), val(b));
    let (ax, ay) = (abs(x), abs(y));
    let q = ax / ay;
    assert(q * ay == ax) by (nonlinear_arith)
        requires
            q == ax / ay,
            ay > 0real,
    ;
    assert(b.size() > 0) by {
        assert(ay * w > 0real) by (nonlinear_arith)
            requires
                ay > 0real,
                w > 0real,
        ;
    }
    assert(b.mag() > 0);
    let p = a.size() * one_units();
    assert(p as real == (a.size() as real) * w) by (nonlinear_arith)
        requires
            p == a.size() * one_units(),
            w == one_units() as real,
    ;
    assert((b.size() * one_units()) as real == (b.size() as real) * w) by (nonlinear_arith)
        requires
            w == one_units() as real,
    ;
    assert(q * ((b.size() as real) * w) == p as real) by (nonlinear_arith)
        requires
            q * ay == ax,
            ax * w == a.size() as real,
            ay * w == b.size() as real,
            p as real == (a.size() as real) * w,
    ;
    let neg = a.neg() != b.neg();
    assert(q == abs(x / y)) by {
        assert((-x) / y == -(x / y) && x / (-y) == -(x / y) && (-x) / (-y) == x / y)
            by (nonlinear_arith)
            requires
                y != 0real,
        ;
        assert(q >= 0real) by (nonlinear_arith)
            requires
                q * ay == ax,
                ax >= 0real,
                ay > 0real,
        ;
    }
    lemma_pack_val(neg, p, b.size(), q);
    assert(x / y == (if neg {
        -q
    } else {
        q
    })) by {
        assert((-x) / y == -(x / y) && x / (-y) == -(x / y) && (-x) / (-y) == x / y)
            by (nonlinear_arith)
            requires
                y != 0real,
        ;
        assert(x == 0real ==> x / y == 0real) by (nonlinear_arith)
            requires
                y != 0real,
        ;
    }
}

/// The least whole number that is not below a number.
pub proof fn lemma_ceil_val(x: Double) -> (n: int)
    requires
        x.finite(),
        abs(val(x)) <= 0x10000000000000real,
    ensures
        x.ceil().finite(),
        val(x.ceil()) == n as real,
        (n as real) - 1real < val(x) <= n as real,
{
    reveal(Double::spec_ceil);
    lemma_one();
    lemma_size_val(x);
    let u = one_units();
    let w = u as real;
    let v = val(x);
    let s = x.size();
    let k: nat = if x.neg() {
        s / u
    } else {
        ((s + u - 1) as nat) / u
    };
    let av = abs(v);
    let (kr, sr) = (k as real, s as real);
    if x.neg() {
        lemma_fundamental_div_mod(s as int, u as int);
    } else {
        lemma_fundamental_div_mod(s + u - 1, u as int);
    }
    assert(k * u == u * k) by (nonlinear_arith);
    assert((k * u) as real == kr * w) by (nonlinear_arith)
        requires
            kr == k as real,
            w == u as real,
    ;
    if x.neg() {
        assert(kr <= av < kr + 1real) by (nonlinear_arith)
            requires
                av * w == sr,
                kr * w <= sr,
                sr < kr * w + w,
                w > 0real,
        ;
    } else {
        assert(kr - 1real < av <= kr) by (nonlinear_arith)
            requires
                av * w == sr,
                kr * w < sr + w,
                sr <= kr * w,
                w > 0real,
        ;
    }
    assert(k < TWO53);
    law_exact(x.neg(), k, UNIT_EXP as nat, 1);
    assert(k * pow2(UNIT_EXP as nat) * 1 == k * u);
    let c = x.ceil();
    assert(c == pack(x.neg(), k * u, 1));
    assert(kr * w / w == kr && (-(kr * w)) / w == -kr) by (nonlinear_arith)
        requires
            w > 0real,
    ;
    assert(c.size() == k * u);
    if x.neg() {
        -k
    } else {
        k as int
    }
}

/// The nearest whole number.
pub proof fn lemma_round_val(x: Double) -> (n: int)
    requires
        x.finite(),
        abs(val(x)) <= 0x8000000000000real,
    ensures
        x.round().finite(),
        val(x.round()) == n as real,
        abs(val(x) - n as real) <= 1real / 2real,
{
    reveal(Double::spec_round);
    lemma_one();
    lemma_size_val(x);
    let u = one_units();
    let w = u as real;
    let v = val(x);
    let s = x.size();
    let k: nat = (2 * s + u) / (2 * u);
    let av = abs(v);
    let (kr, sr) = (k as real, s as real);
    lemma_fundamental_div_mod((2 * s + u) as int, (2 * u) as int);
    assert((2 * u) * k == 2 * (k * u)) by (nonlinear_arith);
    assert((k * u) as real == kr * w) by (nonlinear_arith)
        requires
            kr == k as real,
            w == u as real,
    ;
    let h = 1real / 2real;
    assert(2real * (kr * w) <= 2real * sr + w && 2real * sr + w < 2real * (kr * w) + 2real * w);
    assert(kr - h <= av && av < kr + h) by (nonlinear_arith)
        requires
            av * w == sr,
            2real * (kr * w) <= 2real * sr + w,
            2real * sr + w < 2real * (kr * w) + 2real * w,
            w > 0real,
            2real * h == 1real,
    ;
    assert(k < TWO53);
    law_exact(x.neg(), k, UNIT_EXP as nat, 1);
    assert(k * pow2(UNIT_EXP as nat) * 1 == k * u);
    let c = x.round();
    assert(c == pack(x.neg(), k * u, 1));
    assert(kr * w / w == kr && (-(kr * w)) / w == -kr) by (nonlinear_arith)
        requires
            w > 0real,
    ;
    assert(c.size() == k * u);
    if x.neg() {
        -k
    } else {
        k as int
    }
}

/// A remainder: what is left of a number once a whole number of others is taken off, of its sign.
pub proof fn lemma_rem_val(x: Double, o: Double) -> (q: int)
    requires
        x.finite(),
        o.finite(),
        0real < val(o) <= huge(),
    ensures
        ({
            let r = val(x) - (q as real) * val(o);
            &&& near(x.rem(o), r, eps() * val(o))
            &&& x.neg() ==> -val(o) < r <= 0real
            &&& !x.neg() ==> 0real <= r < val(o)
        }),
{
    reveal(Double::spec_rem);
    lemma_one();
    lemma_eps();
    lemma_size_val(x);
    lemma_size_val(o);
    let u = one_units();
    let w = u as real;
    let (s, t) = (x.size(), o.size());
    let (v, d) = (abs(val(x)), val(o));
    assert(d * w > 0real) by (nonlinear_arith)
        requires
            d > 0real,
            w > 0real,
    ;
    assert(t > 0);
    assert(magnitude(0) == 0);
    assert(o.mag() > 0);
    let k = s / t;
    let rest = s % t;
    lemma_fundamental_div_mod(s as int, t as int);
    let (kr, sr, tr) = (k as real, s as real, t as real);
    assert((t * k) as real == tr * kr) by (nonlinear_arith)
        requires
            tr == t as real,
            kr == k as real,
    ;
    let r = v - kr * d;
    assert(r * w == rest as real) by (nonlinear_arith)
        requires
            r == v - kr * d,
            v * w == sr,
            d * w == tr,
            sr == tr * kr + rest as real,
    ;
    assert(0real <= r && r < d) by (nonlinear_arith)
        requires
            r * w == rest as real,
            0real <= rest as real,
            (rest as real) < tr,
            d * w == tr,
            w > 0real,
    ;
    assert(1 * u == u);
    lemma_pack_val(x.neg(), rest, 1, r);
    assert(eps() * r <= eps() * d) by {
        lemma_le(r, d, eps());
    }
    assert((-k) as real == -kr);
    assert((-kr) * d == -(kr * d)) by (nonlinear_arith);
    if x.neg() {
        -k
    } else {
        k as int
    }
}

/// A fraction.
pub proof fn lemma_ratio_val(a: u64, b: u64)
    requires
        b > 0,
        (a as real) / (b as real) <= 0x10000000000000000real,
    ensures
        near(
            Double::ratio(a, b),
            (a as real) / (b as real),
            eps() * ((a as real) / (b as real)) + eps() * eps(),
        ),
{
    reveal(Double::spec_ratio);
    lemma_one();
    let u = one_units();
    let w = u as real;
    let (x, y) = (a as real, b as real);
    let s = x / y;
    assert(s * y == x) by (nonlinear_arith)
        requires
            s == x / y,
            y > 0real,
    ;
    let p = a as nat * u;
    assert(p as real == x * w) by (nonlinear_arith)
        requires
            p == a as nat * u,
            x == a as real,
            w == u as real,
    ;
    assert((b as nat * u) as real == y * w) by (nonlinear_arith)
        requires
            y == b as real,
            w == u as real,
    ;
    assert(s * (y * w) == x * w) by (nonlinear_arith)
        requires
            s * y == x,
    ;
    lemma_pack_val(false, p, b as nat, s);
}

// ---------------------------------------------------------------------------
// One operation on numbers that are off already
// ---------------------------------------------------------------------------

pub proof fn lemma_eps()
    ensures
        eps() * 0x20000000000000real == 1real,
        0real < eps() < 1real / 0x10000000000000real,
        0real < eps() * eps() < eps(),
{
    let e = eps();
    assert(e * 0x20000000000000real == 1real);
    assert(0real < e * e && e * e < e) by (nonlinear_arith)
        requires
            0real < e < 1real,
    ;
}

/// A sum.
pub proof fn lemma_near_add(a: Double, ra: real, ea: real, b: Double, rb: real, eb: real, m: real)
    requires
        near(a, ra, ea),
        near(b, rb, eb),
        abs(ra + rb) + ea + eb <= m <= huge(),
    ensures
        near(a.plus(b), ra + rb, ea + eb + eps() * m),
{
    lemma_plus_val(a, b);
    lemma_eps();
    let (e, x) = (eps(), abs(val(a) + val(b)));
    assert(e * x <= e * m) by (nonlinear_arith)
        requires
            x <= m,
            e > 0real,
    ;
}

/// A difference.
pub proof fn lemma_near_sub(a: Double, ra: real, ea: real, b: Double, rb: real, eb: real, m: real)
    requires
        near(a, ra, ea),
        near(b, rb, eb),
        abs(ra - rb) + ea + eb <= m <= huge(),
    ensures
        near(a.minus(b), ra - rb, ea + eb + eps() * m),
{
    lemma_negated_val(b);
    lemma_near_add(a, ra, ea, b.negated(), -rb, eb, m);
}

/// The absolute value of a product.
pub proof fn lemma_abs_mul(x: real, y: real)
    ensures
        abs(x * y) == abs(x) * abs(y),
{
    assert((-x) * y == -(x * y) && x * (-y) == -(x * y) && (-x) * (-y) == x * y) by (nonlinear_arith);
    assert(abs(x) * abs(y) >= 0real) by (nonlinear_arith)
        requires
            abs(x) >= 0real,
            abs(y) >= 0real,
    ;
    if x * y < 0real {
        assert(!(x >= 0real && y >= 0real) && !(x < 0real && y < 0real)) by (nonlinear_arith)
            requires
                x * y < 0real,
        ;
    }
}

/// A product.
pub proof fn lemma_near_mul(
    a: Double,
    ra: real,
    ea: real,
    b: Double,
    rb: real,
    eb: real,
    ba: real,
    bb: real,
    m: real,
)
    requires
        near(a, ra, ea),
        near(b, rb, eb),
        abs(ra) <= ba,
        abs(rb) + eb <= bb,
        (ba + ea) * bb <= m <= huge(),
        1real <= m,
    ensures
        near(a.times(b), ra * rb, ea * bb + ba * eb + 2real * (eps() * m)),
{
    lemma_eps();
    let (x, y) = (val(a), val(b));
    let e = eps();
    assert(abs(x) * abs(y) <= (ba + ea) * bb) by (nonlinear_arith)
        requires
            0real <= abs(x) <= ba + ea,
            0real <= abs(y) <= bb,
    ;
    lemma_abs_mul(x, y);
    lemma_times_val(a, b);
    assert(e * abs(x * y) <= e * m) by (nonlinear_arith)
        requires
            abs(x * y) <= m,
            e > 0real,
    ;
    assert(e * e <= e * m) by (nonlinear_arith)
        requires
            e <= m,
            e > 0real,
    ;
    assert(x * y - ra * rb == (x - ra) * y + ra * (y - rb)) by (nonlinear_arith);
    assert(-(ea * bb) <= (x - ra) * y <= ea * bb) by (nonlinear_arith)
        requires
            -ea <= x - ra <= ea,
            -bb <= y <= bb,
    ;
    assert(-(ba * eb) <= ra * (y - rb) <= ba * eb) by (nonlinear_arith)
        requires
            -ba <= ra <= ba,
            -eb <= y - rb <= eb,
    ;
}

/// A quotient by a number without an error.
pub proof fn lemma_near_div(a: Double, ra: real, ea: real, b: Double, m: real)
    requires
        near(a, ra, ea),
        b.finite(),
        val(b) > 0real,
        (abs(ra) + ea) / val(b) <= m <= huge(),
        1real <= m,
    ensures
        near(a.over(b), ra / val(b), ea / val(b) + 2real * (eps() * m)),
{
    lemma_eps();
    let (x, y) = (val(a), val(b));
    let e = eps();
    let q = x / y;
    let c = (abs(ra) + ea) / y;
    assert(q * y == x && c * y == abs(ra) + ea) by (nonlinear_arith)
        requires
            q == x / y,
            c == (abs(ra) + ea) / y,
            y > 0real,
    ;
    assert(-m <= q <= m) by (nonlinear_arith)
        requires
            q * y == x,
            c * y == abs(ra) + ea,
            c <= m,
            -(abs(ra) + ea) <= x <= abs(ra) + ea,
            y > 0real,
    ;
    lemma_over_val(a, b);
    assert(e * abs(q) <= e * m) by (nonlinear_arith)
        requires
            abs(q) <= m,
            e > 0real,
    ;
    assert(e * e <= e * m) by (nonlinear_arith)
        requires
            e <= m,
            e > 0real,
    ;
    let (s, t) = (ra / y, ea / y);
    assert(s * y == ra && t * y == ea) by (nonlinear_arith)
        requires
            s == ra / y,
            t == ea / y,
            y > 0real,
    ;
    assert(-t <= q - s <= t) by (nonlinear_arith)
        requires
            q * y == x,
            s * y == ra,
            t * y == ea,
            -ea <= x - ra <= ea,
            y > 0real,
    ;
}

// ---------------------------------------------------------------------------
// Products of numbers
// ---------------------------------------------------------------------------

/// Products keep order.
pub proof fn lemma_le(a: real, b: real, c: real)
    requires
        a <= b,
        0real <= c,
    ensures
        a * c <= b * c,
        c * a <= c * b,
{
    assert(a * c <= b * c) by (nonlinear_arith)
        requires
            a <= b,
            0real <= c,
    ;
    assert(c * a == a * c && c * b == b * c) by (nonlinear_arith);
}

/// Factors in any order.
pub proof fn lemma_assoc(a: real, b: real, c: real)
    ensures
        a * (b * c) == (a * b) * c,
        a * (b * c) == b * (a * c),
        a * (b * c) == (a * c) * b,
        a * b == b * a,
{
    assert(a * (b * c) == (a * b) * c) by (nonlinear_arith);
    assert(a * (b * c) == b * (a * c)) by (nonlinear_arith);
    assert(a * (b * c) == (a * c) * b) by (nonlinear_arith);
    assert(a * b == b * a) by (nonlinear_arith);
}

/// Products of sums.
pub proof fn lemma_dist(a: real, b: real, c: real)
    ensures
        (a + b) * c == a * c + b * c,
        c * (a + b) == c * a + c * b,
        (a - b) * c == a * c - b * c,
        c * (a - b) == c * a - c * b,
        a * c == c * a,
        b * c == c * b,
{
    assert((a + b) * c == a * c + b * c) by (nonlinear_arith);
    assert((a - b) * c == a * c - b * c) by (nonlinear_arith);
    assert(a * c == c * a && b * c == c * b) by (nonlinear_arith);
    assert(c * (a + b) == (a + b) * c && c * (a - b) == (a - b) * c) by (nonlinear_arith);
}

} // verus!
