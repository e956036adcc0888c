//! Laws of turning points.
use vstd::arithmetic::power2::*;
use vstd::prelude::*;

use crate::arithmetic::{
    gap, law_product_nearest, law_rounding_error, law_rounding_finite, law_sum_nearest,
};
use crate::double::{magnitude, pack, Double, TWO52, TWO53, UNIT_EXP};
use crate::geom::{radians, turned, Pt};
use crate::tools::Trig;
use crate::whole::one_units;

verus! {

// ---------------------------------------------------------------------------
// Errors
// ---------------------------------------------------------------------------

/// A finite number of at most `m` units of 2^-1074.
pub open spec fn at_most(x: Double, m: int) -> bool {
    x.finite() && -m <= x.units() <= m
}

/// Lengths of which all sums and products in a turn are finite.
pub open spec fn turnable(m: int) -> bool {
    TWO53 <= m <= pow2(2088)
}

pub proof fn lemma_limits(m: int)
    requires
        m <= pow2(2088),
    ensures
        256 * m <= TWO52 * pow2(2044),
{
    lemma_pow2_adds(44, 2044);
    lemma2_to64_rest();
    assert(256 * (pow2(44) * pow2(2044)) == TWO52 * pow2(2044)) by (nonlinear_arith)
        requires
            pow2(44) == 0x100000000000,
    ;
}

/// What a sum is off by.
pub proof fn lemma_sum_error(a: Double, b: Double, l: int, m: int)
    requires
        a.finite(),
        b.finite(),
        -l <= a.units() + b.units() <= l,
        l <= 256 * m,
        m <= pow2(2088),
    ensures
        a.plus(b).finite(),
        gap(a.plus(b).units(), a.units() + b.units()) * TWO53 <= l,
{
    reveal(Double::spec_plus);
    lemma_limits(m);
    let s = a.units() + b.units();
    let n = (if s < 0 {
        -s
    } else {
        s
    }) as nat;
    assert(TWO52 * pow2(2044) * 1 == TWO52 * pow2(2044));
    law_rounding_finite(s < 0, n, 1);
    law_rounding_error(n, 1);
    let r = a.plus(b);
    if s == 0 {
        assert(magnitude(0) == 0);
        assert(r.units() == 0);
    } else {
        assert(r == pack(s < 0, n, 1));
        assert(magnitude(crate::double::round_bits(n, 1)) * 1 == r.size());
    }
}

pub proof fn lemma_negated(a: Double)
    ensures
        a.negated().units() == -a.units(),
        a.negated().finite() == a.finite(),
{
}

/// What a difference is off by.
pub proof fn lemma_difference_error(a: Double, b: Double, l: int, m: int)
    requires
        a.finite(),
        b.finite(),
        -l <= a.units() - b.units() <= l,
        l <= 256 * m,
        m <= pow2(2088),
    ensures
        a.minus(b).finite(),
        gap(a.minus(b).units(), a.units() - b.units()) * TWO53 <= l,
{
    lemma_negated(b);
    lemma_sum_error(a, b.negated(), l, m);
}

/// What a product by a sine or a cosine is off by.
proof fn lemma_product_error(a: Double, c: Double, m: int)
    requires
        at_most(a, m),
        at_most(c, one_units() as int),
        turnable(m),
    ensures
        at_most(a.times(c), 2 * m),
        gap(a.times(c).units() * one_units(), c.units() * a.units()) * TWO53 <= m * one_units(),
        c.times(a) == a.times(c),
{
    reveal(Double::spec_times);
    lemma_pow2_pos(UNIT_EXP as nat);
    lemma_limits(m);
    let u = one_units() as int;
    let (x, y) = (a.size() as int, c.size() as int);
    assert(x * y == y * x) by (nonlinear_arith);
    assert(0 <= x * y <= m * u) by (nonlinear_arith)
        requires
            0 <= x <= m,
            0 <= y <= u,
    ;
    assert(m * u <= TWO52 * pow2(2044) * u) by (nonlinear_arith)
        requires
            m <= TWO52 * pow2(2044),
            u > 0,
    ;
    let neg = a.neg() != c.neg();
    let p = (x * y) as nat;
    law_rounding_finite(neg, p, one_units());
    law_rounding_error(p, one_units());
    let r = a.times(c);
    assert(r == pack(neg, p, one_units()));
    let k = r.size() as int;
    let off = gap(k * u, p as int);
    assert(off * TWO53 <= m * u) by (nonlinear_arith)
        requires
            2 * off <= u || off * TWO53 <= m * u,
            m >= TWO53,
            u > 0,
    ;
    assert(k <= 2 * m) by (nonlinear_arith)
        requires
            k * u - p <= off,
            off * TWO53 <= m * u,
            p <= m * u,
            u > 0,
            off >= 0,
            k >= 0,
    ;
    assert((-k) * u == -(k * u)) by (nonlinear_arith);
    assert((-y) * x == -(y * x)) by (nonlinear_arith);
    assert(y * (-x) == -(y * x)) by (nonlinear_arith);
    assert((-y) * (-x) == y * x) by (nonlinear_arith);
}

// ---------------------------------------------------------------------------
// Exact turns
// ---------------------------------------------------------------------------

/// Where a turn brings a point exactly, across: a number of units of 2^-1074, times
/// one in those units.
pub open spec fn turn_x(p: Pt, sc: (Double, Double), o: Pt) -> int {
    let (s, c) = sc;
    o.x.units() * one_units() + c.units() * (p.x.units() - o.x.units()) - s.units() * (p.y.units()
        - o.y.units())
}

/// Where a turn brings a point exactly, up.
pub open spec fn turn_y(p: Pt, sc: (Double, Double), o: Pt) -> int {
    let (s, c) = sc;
    o.y.units() * one_units() + s.units() * (p.x.units() - o.x.units()) + c.units() * (p.y.units()
        - o.y.units())
}

/// A point with coordinates of at most `m` units.
pub open spec fn point_at_most(p: Pt, m: int) -> bool {
    at_most(p.x, m) && at_most(p.y, m)
}

/// A sine and a cosine: neither is over one.
pub open spec fn sine_and_cosine(sc: (Double, Double)) -> bool {
    at_most(sc.0, one_units() as int) && at_most(sc.1, one_units() as int)
}

/// The squares of a sine and a cosine add up to one, but for a 2^50th.
pub open spec fn squares_near_one(sc: (Double, Double)) -> bool {
    let (s, c, u) = (sc.0.units(), sc.1.units(), one_units() as int);
    gap(c * c + s * s, u * u) * 0x4000000000000 <= u * u
}

/// A difference times a unit.
proof fn lemma_off(x: int, y: int, n: int, m: int, u: int)
    requires
        u > 0,
        gap(x, y) * TWO53 <= n * m,
    ensures
        gap(x * u, y * u) * TWO53 <= n * (m * u),
{
    let off = gap(x, y);
    assert(gap(x * u, y * u) == off * u) by {
        assert(x * u - y * u == (x - y) * u) by (nonlinear_arith);
        assert((y - x) * u == -((x - y) * u)) by (nonlinear_arith);
        assert(x >= y ==> (x - y) * u >= 0) by (nonlinear_arith)
            requires
                u > 0,
        ;
        assert(x <= y ==> (x - y) * u <= 0) by (nonlinear_arith)
            requires
                u > 0,
        ;
    }
    assert(off * u * TWO53 <= n * (m * u)) by (nonlinear_arith)
        requires
            off * TWO53 <= n * m,
            u > 0,
    ;
}

/// Four products and an offset, added up, are near to their exact sum.
proof fn lemma_add_up(
    t: (int, int, int, int),
    k: (int, int, int, int),
    o: int,
    d: (int, int, int),
    x: int,
    m: int,
    u: int,
)
    requires
        u > 0,
        gap(t.0 * u, k.0) * TWO53 <= m * u,
        gap(t.1 * u, k.1) * TWO53 <= m * u,
        gap(t.2 * u, k.2) * TWO53 <= m * u,
        gap(t.3 * u, k.3) * TWO53 <= m * u,
        gap(d.0, t.0 + t.1) * TWO53 <= 4 * m,
        gap(d.1, o + t.2) * TWO53 <= 3 * m,
        gap(d.2, d.1 + t.3) * TWO53 <= 6 * m,
        gap(x, d.0 + d.2) * TWO53 <= 12 * m,
    ensures
        gap(x * u, o * u + k.0 + k.1 + k.2 + k.3) * 0x1000000000000 <= m * u,
{
    lemma_off(d.0, t.0 + t.1, 4, m, u);
    lemma_off(d.1, o + t.2, 3, m, u);
    lemma_off(d.2, d.1 + t.3, 6, m, u);
    lemma_off(x, d.0 + d.2, 12, m, u);
    assert((t.0 + t.1) * u == t.0 * u + t.1 * u) by (nonlinear_arith);
    assert((o + t.2) * u == o * u + t.2 * u) by (nonlinear_arith);
    assert((d.1 + t.3) * u == d.1 * u + t.3 * u) by (nonlinear_arith);
    assert((d.0 + d.2) * u == d.0 * u + d.2 * u) by (nonlinear_arith);
}

proof fn lemma_turned_x(p: Pt, sc: (Double, Double), o: Pt, m: int)
    requires
        point_at_most(p, m),
        point_at_most(o, m),
        sine_and_cosine(sc),
        turnable(m),
    ensures
        turned(p, sc, o).x.finite(),
        gap(turned(p, sc, o).x.units() * one_units(), turn_x(p, sc, o)) * 0x1000000000000 <= m
            * one_units(),
{
    let (s, c) = sc;
    let u = one_units() as int;
    lemma_pow2_pos(UNIT_EXP as nat);
    lemma_product_error(p.x, c, m);
    lemma_product_error(p.y, s, m);
    lemma_product_error(o.x, c, m);
    lemma_product_error(o.y, s, m);
    let (t1, t2, t3, t4) = (c.times(p.x), s.times(p.y), o.x.times(c), o.y.times(s));
    lemma_difference_error(t1, t2, 4 * m, m);
    lemma_difference_error(o.x, t3, 3 * m, m);
    let (d1, d2) = (t1.minus(t2), o.x.minus(t3));
    lemma_sum_error(d2, t4, 6 * m, m);
    let d3 = d2.plus(t4);
    lemma_sum_error(d1, d3, 12 * m, m);
    let x = d1.plus(d3);
    let (k1, k2) = (c.units() * p.x.units(), s.units() * p.y.units());
    let (k3, k4) = (c.units() * o.x.units(), s.units() * o.y.units());
    assert((-t2.units()) * u == -(t2.units() * u)) by (nonlinear_arith);
    assert((-t3.units()) * u == -(t3.units() * u)) by (nonlinear_arith);
    lemma_add_up(
        (t1.units(), -t2.units(), -t3.units(), t4.units()),
        (k1, -k2, -k3, k4),
        o.x.units(),
        (d1.units(), d2.units(), d3.units()),
        x.units(),
        m,
        u,
    );
    assert(c.units() * (p.x.units() - o.x.units()) == k1 - k3) by (nonlinear_arith)
        requires
            k1 == c.units() * p.x.units(),
            k3 == c.units() * o.x.units(),
    ;
    assert(s.units() * (p.y.units() - o.y.units()) == k2 - k4) by (nonlinear_arith)
        requires
            k2 == s.units() * p.y.units(),
            k4 == s.units() * o.y.units(),
    ;
}

proof fn lemma_turned_y(p: Pt, sc: (Double, Double), o: Pt, m: int)
    requires
        point_at_most(p, m),
        point_at_most(o, m),
        sine_and_cosine(sc),
        turnable(m),
    ensures
        turned(p, sc, o).y.finite(),
        gap(turned(p, sc, o).y.units() * one_units(), turn_y(p, sc, o)) * 0x1000000000000 <= m
            * one_units(),
{
    let (s, c) = sc;
    let u = one_units() as int;
    lemma_pow2_pos(UNIT_EXP as nat);
    lemma_product_error(p.x, s, m);
    lemma_product_error(p.y, c, m);
    lemma_product_error(o.x, s, m);
    lemma_product_error(o.y, c, m);
    let (t1, t2, t3, t4) = (s.times(p.x), c.times(p.y), o.x.times(s), o.y.times(c));
    lemma_sum_error(t1, t2, 4 * m, m);
    lemma_difference_error(o.y, t3, 3 * m, m);
    let (d1, d2) = (t1.plus(t2), o.y.minus(t3));
    lemma_difference_error(d2, t4, 6 * m, m);
    let d3 = d2.minus(t4);
    lemma_sum_error(d1, d3, 12 * m, m);
    let y = d1.plus(d3);
    let (k1, k2) = (s.units() * p.x.units(), c.units() * p.y.units());
    let (k3, k4) = (s.units() * o.x.units(), c.units() * o.y.units());
    assert((-t3.units()) * u == -(t3.units() * u)) by (nonlinear_arith);
    assert((-t4.units()) * u == -(t4.units() * u)) by (nonlinear_arith);
    lemma_add_up(
        (t1.units(), t2.units(), -t3.units(), -t4.units()),
        (k1, k2, -k3, -k4),
        o.y.units(),
        (d1.units(), d2.units(), d3.units()),
        y.units(),
        m,
        u,
    );
    assert(s.units() * (p.x.units() - o.x.units()) == k1 - k3) by (nonlinear_arith)
        requires
            k1 == s.units() * p.x.units(),
            k3 == s.units() * o.x.units(),
    ;
    assert(c.units() * (p.y.units() - o.y.units()) == k2 - k4) by (nonlinear_arith)
        requires
            k2 == c.units() * p.y.units(),
            k4 == c.units() * o.y.units(),
    ;
}

/// A turn brings a point to where it goes exactly, but for a 2^48th of the greatest
/// coordinate.
pub proof fn law_turned_near(p: Pt, sc: (Double, Double), o: Pt, m: int)
    requires
        point_at_most(p, m),
        point_at_most(o, m),
        sine_and_cosine(sc),
        turnable(m),
    ensures
        ({
            let r = turned(p, sc, o);
            let u = one_units() as int;
            &&& r.x.finite() && r.y.finite()
            &&& gap(r.x.units() * u, turn_x(p, sc, o)) * 0x1000000000000 <= m * u
            &&& gap(r.y.units() * u, turn_y(p, sc, o)) * 0x1000000000000 <= m * u
        }),
{
    lemma_turned_x(p, sc, o, m);
    lemma_turned_y(p, sc, o, m);
}

proof fn lemma_by_unit(a: int, b: int, m: int, u: int)
    by (nonlinear_arith)
    requires
        u > 0,
        (a * u - b * u) * 0x1000000000000 <= m * u,
    ensures
        (a - b) * 0x1000000000000 <= m,
{
}

/// The centre of a turn stays where it is, but for a 2^48th of its greater
/// coordinate.
pub proof fn law_centre_stays(sc: (Double, Double), o: Pt, m: int)
    requires
        point_at_most(o, m),
        sine_and_cosine(sc),
        turnable(m),
    ensures
        ({
            let r = turned(o, sc, o);
            &&& r.x.finite() && r.y.finite()
            &&& gap(r.x.units(), o.x.units()) * 0x1000000000000 <= m
            &&& gap(r.y.units(), o.y.units()) * 0x1000000000000 <= m
        }),
{
    law_turned_near(o, sc, o, m);
    lemma_pow2_pos(UNIT_EXP as nat);
    let u = one_units() as int;
    let r = turned(o, sc, o);
    let (s, c) = sc;
    assert(c.units() * 0 == 0 && s.units() * 0 == 0);
    assert(turn_x(o, sc, o) == o.x.units() * u);
    assert(turn_y(o, sc, o) == o.y.units() * u);
    lemma_by_unit(r.x.units(), o.x.units(), m, u);
    lemma_by_unit(o.x.units(), r.x.units(), m, u);
    lemma_by_unit(r.y.units(), o.y.units(), m, u);
    lemma_by_unit(o.y.units(), r.y.units(), m, u);
}

/// An exact turn keeps distances, as far as the squares of the sine and the cosine
/// add up to one.
pub proof fn law_exact_turn_keeps_distances(p: Pt, q: Pt, sc: (Double, Double), o: Pt)
    ensures
        ({
            let (s, c) = (sc.0.units(), sc.1.units());
            let (a, b) = (p.x.units() - q.x.units(), p.y.units() - q.y.units());
            let x = turn_x(p, sc, o) - turn_x(q, sc, o);
            let y = turn_y(p, sc, o) - turn_y(q, sc, o);
            x * x + y * y == (c * c + s * s) * (a * a + b * b)
        }),
{
    let (s, c) = (sc.0.units(), sc.1.units());
    let (a, b) = (p.x.units() - q.x.units(), p.y.units() - q.y.units());
    let (px, py, qx, qy) = (p.x.units(), p.y.units(), q.x.units(), q.y.units());
    let (ox, oy) = (o.x.units(), o.y.units());
    let x = turn_x(p, sc, o) - turn_x(q, sc, o);
    let y = turn_y(p, sc, o) - turn_y(q, sc, o);
    assert(c * (px - ox) - c * (qx - ox) == c * a) by (nonlinear_arith)
        requires
            a == px - qx,
    ;
    assert(s * (py - oy) - s * (qy - oy) == s * b) by (nonlinear_arith)
        requires
            b == py - qy,
    ;
    assert(s * (px - ox) - s * (qx - ox) == s * a) by (nonlinear_arith)
        requires
            a == px - qx,
    ;
    assert(c * (py - oy) - c * (qy - oy) == c * b) by (nonlinear_arith)
        requires
            b == py - qy,
    ;
    assert(x == c * a - s * b);
    assert(y == s * a + c * b);
    lemma_squares(c, s, a, b);
}

proof fn lemma_squares(c: int, s: int, a: int, b: int)
    ensures
        (c * a - s * b) * (c * a - s * b) + (s * a + c * b) * (s * a + c * b) == (c * c + s * s)
            * (a * a + b * b),
{
    let (w, x, y, z) = (c * a, s * b, s * a, c * b);
    assert((w - x) * (w - x) == w * w - 2 * (w * x) + x * x) by (nonlinear_arith);
    assert((y + z) * (y + z) == y * y + 2 * (y * z) + z * z) by (nonlinear_arith);
    assert((c * a) * (s * b) == (s * a) * (c * b)) by (nonlinear_arith);
    assert((c * a) * (c * a) == (c * c) * (a * a)) by (nonlinear_arith);
    assert((s * b) * (s * b) == (s * s) * (b * b)) by (nonlinear_arith);
    assert((s * a) * (s * a) == (s * s) * (a * a)) by (nonlinear_arith);
    assert((c * b) * (c * b) == (c * c) * (b * b)) by (nonlinear_arith);
    let (cc, ss, aa, bb) = (c * c, s * s, a * a, b * b);
    assert((cc + ss) * (aa + bb) == cc * aa + cc * bb + ss * aa + ss * bb) by (nonlinear_arith);
}

// ---------------------------------------------------------------------------
// Back and forth
// ---------------------------------------------------------------------------

/// A product that is small because a factor is.
proof fn lemma_small_product(c: int, e: int, m: int, u: int)
    requires
        -u <= c <= u,
        u > 0,
        gap(e, 0) * 0x1000000000000 <= m,
    ensures
        gap(c * e, 0) * 0x1000000000000 <= m * u,
{
    let off = gap(e, 0);
    assert(-(off * u) <= c * e <= off * u) by (nonlinear_arith)
        requires
            -u <= c <= u,
            -off <= e <= off,
    ;
    assert(off * u * 0x1000000000000 <= m * u) by (nonlinear_arith)
        requires
            off * 0x1000000000000 <= m,
            u > 0,
    ;
}

/// A turn leaves coordinates of not more than six times the greatest.
proof fn lemma_turn_bound(p: Pt, sc: (Double, Double), o: Pt, m: int)
    requires
        point_at_most(p, m),
        point_at_most(o, m),
        sine_and_cosine(sc),
        turnable(m),
    ensures
        point_at_most(turned(p, sc, o), 6 * m),
{
    law_turned_near(p, sc, o, m);
    lemma_pow2_pos(UNIT_EXP as nat);
    let u = one_units() as int;
    let (s, c) = (sc.0.units(), sc.1.units());
    let (a, b) = (p.x.units() - o.x.units(), p.y.units() - o.y.units());
    let (ox, oy) = (o.x.units(), o.y.units());
    let r = turned(p, sc, o);
    assert(-(2 * (m * u)) <= c * a <= 2 * (m * u)) by (nonlinear_arith)
        requires
            -u <= c <= u,
            -(2 * m) <= a <= 2 * m,
    ;
    assert(-(2 * (m * u)) <= s * b <= 2 * (m * u)) by (nonlinear_arith)
        requires
            -u <= s <= u,
            -(2 * m) <= b <= 2 * m,
    ;
    assert(-(2 * (m * u)) <= s * a <= 2 * (m * u)) by (nonlinear_arith)
        requires
            -u <= s <= u,
            -(2 * m) <= a <= 2 * m,
    ;
    assert(-(2 * (m * u)) <= c * b <= 2 * (m * u)) by (nonlinear_arith)
        requires
            -u <= c <= u,
            -(2 * m) <= b <= 2 * m,
    ;
    assert(-(m * u) <= ox * u <= m * u) by (nonlinear_arith)
        requires
            -m <= ox <= m,
            u > 0,
    ;
    assert(-(m * u) <= oy * u <= m * u) by (nonlinear_arith)
        requires
            -m <= oy <= m,
            u > 0,
    ;
    lemma_bound_by_unit(r.x.units(), m, u);
    lemma_bound_by_unit(r.y.units(), m, u);
}

proof fn lemma_bound_by_unit(x: int, m: int, u: int)
    by (nonlinear_arith)
    requires
        u > 0,
        -(6 * (m * u)) <= x * u <= 6 * (m * u),
    ensures
        -(6 * m) <= x <= 6 * m,
{
}

/// A coordinate turned there and back, with what the two turns are off by.
proof fn lemma_there_and_back(
    c: int,
    s: int,
    a: int,
    b: int,
    o: (int, int),
    r: (int, int),
    x: int,
    m: int,
    u: int,
)
    requires
        u > 0,
        -u <= c <= u,
        -u <= s <= u,
        gap(r.0 * u, o.0 * u + c * a - s * b) * 0x1000000000000 <= m * u,
        gap(r.1 * u, o.1 * u + s * a + c * b) * 0x1000000000000 <= m * u,
        gap(x * u, o.0 * u + c * (r.0 - o.0) + s * (r.1 - o.1)) * 0x1000000000000 <= 6 * m * u,
    ensures
        gap(x * u * u, o.0 * u * u + (c * c + s * s) * a) * 0x1000000000000 <= 8 * (m * u * u),
{
    let e = (r.0 - o.0) * u - (c * a - s * b);
    let f = (r.1 - o.1) * u - (s * a + c * b);
    let g = x * u - (o.0 * u + c * (r.0 - o.0) + s * (r.1 - o.1));
    assert((r.0 - o.0) * u == r.0 * u - o.0 * u) by (nonlinear_arith);
    assert((r.1 - o.1) * u == r.1 * u - o.1 * u) by (nonlinear_arith);
    lemma_small_product(c, e, m * u, u);
    lemma_small_product(s, f, m * u, u);
    assert(6 * m * u == 6 * (m * u)) by (nonlinear_arith);
    assert(u * g == g * u) by (nonlinear_arith);
    lemma_small_product(u, g, 6 * (m * u), u);
    assert(6 * (m * u) * u == 6 * (m * u * u)) by (nonlinear_arith);
    let (v, w) = (r.0 - o.0, r.1 - o.1);
    assert(c * e == c * v * u - c * (c * a - s * b)) by (nonlinear_arith)
        requires
            e == v * u - (c * a - s * b),
    ;
    assert(s * f == s * w * u - s * (s * a + c * b)) by (nonlinear_arith)
        requires
            f == w * u - (s * a + c * b),
    ;
    assert(g * u == x * u * u - o.0 * u * u - c * v * u - s * w * u) by (nonlinear_arith)
        requires
            g == x * u - (o.0 * u + c * v + s * w),
    ;
    assert(c * (c * a - s * b) == c * c * a - c * s * b) by (nonlinear_arith);
    assert(s * (s * a + c * b) == s * s * a + c * s * b) by (nonlinear_arith);
    assert((c * c + s * s) * a == c * c * a + s * s * a) by (nonlinear_arith);
}

/// A turn and the turn back leave a point where it was, as far as the squares of the
/// sine and the cosine add up to one, and but for a 2^45th of the greatest
/// coordinate.
pub proof fn law_turned_back(p: Pt, sc: (Double, Double), o: Pt, m: int)
    requires
        point_at_most(p, m),
        point_at_most(o, m),
        sine_and_cosine(sc),
        TWO53 <= m <= pow2(2085),
    ensures
        ({
            let r = turned(turned(p, sc, o), (sc.0.negated(), sc.1), o);
            let u = one_units() as int;
            let (s, c) = (sc.0.units(), sc.1.units());
            let one = c * c + s * s;
            &&& r.x.finite() && r.y.finite()
            &&& gap(r.x.units() * u * u, o.x.units() * u * u + one * (p.x.units() - o.x.units()))
                * 0x200000000000 <= m * u * u
            &&& gap(r.y.units() * u * u, o.y.units() * u * u + one * (p.y.units() - o.y.units()))
                * 0x200000000000 <= m * u * u
        }),
{
    lemma_pow2_adds(3, 2085);
    lemma2_to64();
    assert(8 * m <= pow2(2088)) by (nonlinear_arith)
        requires
            m <= pow2(2085),
            pow2(2088) == 8 * pow2(2085),
    ;
    lemma_pow2_pos(UNIT_EXP as nat);
    let u = one_units() as int;
    let (s, c) = (sc.0.units(), sc.1.units());
    let back = (sc.0.negated(), sc.1);
    let q = turned(p, sc, o);
    law_turned_near(p, sc, o, m);
    lemma_turn_bound(p, sc, o, m);
    lemma_negated(sc.0);
    law_turned_near(q, back, o, 6 * m);
    let r = turned(q, back, o);
    let (a, b) = (p.x.units() - o.x.units(), p.y.units() - o.y.units());
    let (v, w) = (q.x.units() - o.x.units(), q.y.units() - o.y.units());
    assert((-s) * w == -(s * w)) by (nonlinear_arith);
    assert((-s) * v == -(s * v)) by (nonlinear_arith);
    lemma_there_and_back(
        c,
        s,
        a,
        b,
        (o.x.units(), o.y.units()),
        (q.x.units(), q.y.units()),
        r.x.units(),
        m,
        u,
    );
    // Up, the turn back is that of a point with the axes swapped.
    assert((-s) * a == -(s * a) && (-s) * b == -(s * b) && (-s) * (-s) == s * s) by (nonlinear_arith);
    lemma_there_and_back(
        c,
        -s,
        b,
        a,
        (o.y.units(), o.x.units()),
        (q.y.units(), q.x.units()),
        r.y.units(),
        m,
        u,
    );
}

proof fn lemma_near_one(x: int, p: int, o: int, one: int, m: int, u: int)
    requires
        u > 0,
        -m <= p <= m,
        -m <= o <= m,
        gap(one, u * u) * 0x4000000000000 <= u * u,
        gap(x * u * u, o * u * u + one * (p - o)) * 0x200000000000 <= m * u * u,
    ensures
        gap(x, p) * 0x100000000000 <= m,
{
    let w = u * u;
    let d = one - w;
    let a = p - o;
    assert(w > 0) by (nonlinear_arith)
        requires
            u > 0,
            w == u * u,
    ;
    assert(x * u * u == x * w && o * u * u == o * w && m * u * u == m * w) by (nonlinear_arith)
        requires
            w == u * u,
    ;
    assert(one * a == w * a + d * a) by (nonlinear_arith)
        requires
            one == w + d,
    ;
    assert(w * a == p * w - o * w) by (nonlinear_arith)
        requires
            a == p - o,
    ;
    let off = gap(one, w);
    assert(-(2 * (off * m)) <= d * a <= 2 * (off * m)) by (nonlinear_arith)
        requires
            -off <= d <= off,
            -(2 * m) <= a <= 2 * m,
    ;
    assert(off * m * 0x4000000000000 <= m * w) by (nonlinear_arith)
        requires
            off * 0x4000000000000 <= w,
            m >= 0,
    ;
    let y = x - p;
    assert(y * w == x * w - p * w) by (nonlinear_arith)
        requires
            y == x - p,
    ;
    assert(-(m * w) <= y * w * 0x100000000000 <= m * w);
    assert(-m <= y * 0x100000000000 <= m) by (nonlinear_arith)
        requires
            -(m * w) <= y * w * 0x100000000000 <= m * w,
            w > 0,
    ;
}

/// With a sine and a cosine whose squares add up to one, but for a 2^50th, a turn and
/// the turn back leave a point where it was, but for a 2^44th of the greatest
/// coordinate.
pub proof fn law_turned_back_near(p: Pt, sc: (Double, Double), o: Pt, m: int)
    requires
        point_at_most(p, m),
        point_at_most(o, m),
        sine_and_cosine(sc),
        squares_near_one(sc),
        TWO53 <= m <= pow2(2085),
    ensures
        ({
            let r = turned(turned(p, sc, o), (sc.0.negated(), sc.1), o);
            &&& r.x.finite() && r.y.finite()
            &&& gap(r.x.units(), p.x.units()) * 0x100000000000 <= m
            &&& gap(r.y.units(), p.y.units()) * 0x100000000000 <= m
        }),
{
    law_turned_back(p, sc, o, m);
    lemma_pow2_pos(UNIT_EXP as nat);
    let r = turned(turned(p, sc, o), (sc.0.negated(), sc.1), o);
    let u = one_units() as int;
    let (s, c) = (sc.0.units(), sc.1.units());
    lemma_near_one(r.x.units(), p.x.units(), o.x.units(), c * c + s * s, m, u);
    lemma_near_one(r.y.units(), p.y.units(), o.y.units(), c * c + s * s, m, u);
}

// ---------------------------------------------------------------------------
// Quarters
// ---------------------------------------------------------------------------

proof fn lemma_exact_sum(a: Double, b: Double, x: Double, m: int)
    requires
        a.finite(),
        b.finite(),
        at_most(x, m),
        m <= pow2(2088),
        a.units() + b.units() == x.units(),
    ensures
        a.plus(b).finite(),
        a.plus(b).units() == x.units(),
{
    lemma_sum_error(a, b, m, m);
    law_sum_nearest(a, b, x);
}

proof fn lemma_exact_difference(a: Double, b: Double, x: Double, m: int)
    requires
        a.finite(),
        b.finite(),
        at_most(x, m),
        m <= pow2(2088),
        a.units() - b.units() == x.units(),
    ensures
        a.minus(b).finite(),
        a.minus(b).units() == x.units(),
{
    lemma_negated(b);
    lemma_exact_sum(a, b.negated(), x, m);
}

proof fn lemma_exact_product(a: Double, c: Double, x: Double, m: int)
    requires
        at_most(a, m),
        at_most(c, one_units() as int),
        at_most(x, m),
        turnable(m),
        c.units() * a.units() == x.units() * one_units(),
    ensures
        a.times(c).finite(),
        a.times(c).units() == x.units(),
        c.times(a) == a.times(c),
{
    lemma_product_error(a, c, m);
    lemma_pow2_pos(UNIT_EXP as nat);
    assert(a.units() * c.units() == c.units() * a.units()) by (nonlinear_arith);
    law_product_nearest(a, c, x);
    let u = one_units() as int;
    let y = a.times(c).units();
    assert(y == x.units()) by (nonlinear_arith)
        requires
            y * u == x.units() * u,
            u > 0,
    ;
}

/// A turn by nothing leaves every point where it is.
pub proof fn law_no_turn(p: Pt, sc: (Double, Double), o: Pt, m: int)
    requires
        point_at_most(p, m),
        point_at_most(o, m),
        turnable(m),
        sc.0.finite() && sc.0.units() == 0,
        sc.1.finite() && sc.1.units() == one_units(),
    ensures
        ({
            let r = turned(p, sc, o);
            &&& r.x.finite() && r.x.units() == p.x.units()
            &&& r.y.finite() && r.y.units() == p.y.units()
        }),
{
    let (s, c) = sc;
    let z = Double::zero();
    assert(magnitude(0) == 0);
    assert(z.units() == 0 && z.finite());
    lemma_ones(p.x.units());
    lemma_ones(p.y.units());
    lemma_ones(o.x.units());
    lemma_ones(o.y.units());
    lemma_exact_product(p.x, c, p.x, m);
    lemma_exact_product(p.y, c, p.y, m);
    lemma_exact_product(o.x, c, o.x, m);
    lemma_exact_product(o.y, c, o.y, m);
    lemma_exact_product(p.x, s, z, m);
    lemma_exact_product(p.y, s, z, m);
    lemma_exact_product(o.x, s, z, m);
    lemma_exact_product(o.y, s, z, m);
    let (cx, sy, sx, cy) = (c.times(p.x), s.times(p.y), s.times(p.x), c.times(p.y));
    lemma_exact_difference(cx, sy, p.x, m);
    lemma_exact_difference(o.x, o.x.times(c), z, m);
    lemma_exact_sum(o.x.minus(o.x.times(c)), o.y.times(s), z, m);
    lemma_exact_sum(
        cx.minus(sy),
        o.x.minus(o.x.times(c)).plus(o.y.times(s)),
        p.x,
        m,
    );
    lemma_exact_sum(sx, cy, p.y, m);
    lemma_exact_difference(o.y, o.x.times(s), o.y, m);
    lemma_exact_difference(o.y.minus(o.x.times(s)), o.y.times(c), z, m);
    lemma_exact_sum(
        sx.plus(cy),
        o.y.minus(o.x.times(s)).minus(o.y.times(c)),
        p.y,
        m,
    );
}

proof fn lemma_ones(x: int)
    ensures
        one_units() * x == x * one_units(),
        0 * x == 0 * one_units(),
        0 * x == 0,
{
    assert(one_units() * x == x * one_units()) by (nonlinear_arith);
}

/// A quarter turn about the origin is counterclockwise: what lies across comes up.
pub proof fn law_quarter_turn(p: Pt, sc: (Double, Double), o: Pt, m: int)
    requires
        point_at_most(p, m),
        turnable(m),
        o.x.finite() && o.x.units() == 0,
        o.y.finite() && o.y.units() == 0,
        sc.0.finite() && sc.0.units() == one_units(),
        sc.1.finite() && sc.1.units() == 0,
    ensures
        ({
            let r = turned(p, sc, o);
            &&& r.x.finite() && r.x.units() == -p.y.units()
            &&& r.y.finite() && r.y.units() == p.x.units()
        }),
{
    let (s, c) = sc;
    let z = Double::zero();
    assert(magnitude(0) == 0);
    assert(z.units() == 0 && z.finite());
    lemma_ones(p.x.units());
    lemma_ones(p.y.units());
    lemma_ones(0);
    lemma_negated(p.y);
    lemma_exact_product(p.x, c, z, m);
    lemma_exact_product(p.y, c, z, m);
    lemma_exact_product(p.x, s, p.x, m);
    lemma_exact_product(p.y, s, p.y, m);
    lemma_exact_product(o.x, c, z, m);
    lemma_exact_product(o.y, c, z, m);
    lemma_exact_product(o.x, s, z, m);
    lemma_exact_product(o.y, s, z, m);
    let (cx, sy, sx, cy) = (c.times(p.x), s.times(p.y), s.times(p.x), c.times(p.y));
    lemma_exact_difference(cx, sy, p.y.negated(), m);
    lemma_exact_difference(o.x, o.x.times(c), z, m);
    lemma_exact_sum(o.x.minus(o.x.times(c)), o.y.times(s), z, m);
    lemma_exact_sum(
        cx.minus(sy),
        o.x.minus(o.x.times(c)).plus(o.y.times(s)),
        p.y.negated(),
        m,
    );
    lemma_exact_sum(sx, cy, p.x, m);
    lemma_exact_difference(o.y, o.x.times(s), z, m);
    lemma_exact_difference(o.y.minus(o.x.times(s)), o.y.times(c), z, m);
    lemma_exact_sum(
        sx.plus(cy),
        o.y.minus(o.x.times(s)).minus(o.y.times(c)),
        p.x,
        m,
    );
}

// ---------------------------------------------------------------------------
// Distances
// ---------------------------------------------------------------------------

/// The squares of two numbers near to each other.
proof fn lemma_squares_near(x: int, y: int, w: int)
    requires
        gap(x, y) * 0x1000000000000 <= w,
        -(4 * w) <= y <= 4 * w,
    ensures
        gap(x * x, y * y) * 0x1000000000000 <= 9 * (w * w),
{
    let e = x - y;
    let f = x + y;
    assert(x * x - y * y == e * f) by (nonlinear_arith)
        requires
            e == x - y,
            f == x + y,
    ;
    let g = gap(x, y);
    assert(-(g * (9 * w)) <= e * f <= g * (9 * w)) by (nonlinear_arith)
        requires
            -g <= e <= g,
            -(9 * w) <= f <= 9 * w,
    ;
    assert(g * (9 * w) * 0x1000000000000 <= 9 * (w * w)) by (nonlinear_arith)
        requires
            g * 0x1000000000000 <= w,
            w >= 0,
    ;
}

/// With a sine and a cosine whose squares add up to one, but for a 2^50th, a turn keeps
/// the square of the distance from its centre, but for a 2^43rd of the square of the
/// greatest coordinate.
pub proof fn law_turn_keeps_distance(p: Pt, sc: (Double, Double), o: Pt, m: int)
    requires
        point_at_most(p, m),
        point_at_most(o, m),
        sine_and_cosine(sc),
        squares_near_one(sc),
        turnable(m),
    ensures
        ({
            let r = turned(p, sc, o);
            let (a, b) = (p.x.units() - o.x.units(), p.y.units() - o.y.units());
            let (x, y) = (r.x.units() - o.x.units(), r.y.units() - o.y.units());
            gap(x * x + y * y, a * a + b * b) * 0x80000000000 <= m * m
        }),
{
    let r = turned(p, sc, o);
    let u = one_units() as int;
    let (s, c) = (sc.0.units(), sc.1.units());
    let (a, b) = (p.x.units() - o.x.units(), p.y.units() - o.y.units());
    let (x, y) = (r.x.units() - o.x.units(), r.y.units() - o.y.units());
    law_turned_near(p, sc, o, m);
    lemma_pow2_pos(UNIT_EXP as nat);
    let mu = m * u;
    assert(-(2 * mu) <= c * a <= 2 * mu) by (nonlinear_arith)
        requires
            -u <= c <= u,
            -(2 * m) <= a <= 2 * m,
            mu == m * u,
    ;
    assert(-(2 * mu) <= s * b <= 2 * mu) by (nonlinear_arith)
        requires
            -u <= s <= u,
            -(2 * m) <= b <= 2 * m,
            mu == m * u,
    ;
    assert(-(2 * mu) <= s * a <= 2 * mu) by (nonlinear_arith)
        requires
            -u <= s <= u,
            -(2 * m) <= a <= 2 * m,
            mu == m * u,
    ;
    assert(-(2 * mu) <= c * b <= 2 * mu) by (nonlinear_arith)
        requires
            -u <= c <= u,
            -(2 * m) <= b <= 2 * m,
            mu == m * u,
    ;
    assert(x * u == r.x.units() * u - o.x.units() * u) by (nonlinear_arith)
        requires
            x == r.x.units() - o.x.units(),
    ;
    assert(y * u == r.y.units() * u - o.y.units() * u) by (nonlinear_arith)
        requires
            y == r.y.units() - o.y.units(),
    ;
    lemma_squares_near(x * u, c * a - s * b, mu);
    lemma_squares_near(y * u, s * a + c * b, mu);
    lemma_squares(c, s, a, b);
    let one = c * c + s * s;
    let (d, e) = (a * a + b * b, x * x + y * y);
    let w = u * u;
    assert(w > 0) by (nonlinear_arith)
        requires
            u > 0,
            w == u * u,
    ;
    assert(x * u * (x * u) + y * u * (y * u) == e * w) by (nonlinear_arith)
        requires
            e == x * x + y * y,
            w == u * u,
    ;
    let mm = m * m;
    assert(mu * mu == mm * w) by (nonlinear_arith)
        requires
            mu == m * u,
            mm == m * m,
            w == u * u,
    ;
    assert(gap(e * w, one * d) * 0x1000000000000 <= 18 * (mm * w));
    assert(0 <= d <= 8 * mm) by (nonlinear_arith)
        requires
            d == a * a + b * b,
            -(2 * m) <= a <= 2 * m,
            -(2 * m) <= b <= 2 * m,
            mm == m * m,
    ;
    let off = gap(one, w);
    let f = one - w;
    assert(one * d == w * d + f * d) by (nonlinear_arith)
        requires
            one == w + f,
    ;
    assert(-(8 * (off * mm)) <= f * d <= 8 * (off * mm)) by (nonlinear_arith)
        requires
            -off <= f <= off,
            0 <= d <= 8 * mm,
    ;
    assert(off * mm * 0x4000000000000 <= mm * w) by (nonlinear_arith)
        requires
            off * 0x4000000000000 <= w,
            mm >= 0,
    ;
    assert((e - d) * w == e * w - w * d) by (nonlinear_arith);
    assert(-(mm * w) <= (e - d) * w * 0x80000000000 <= mm * w);
    assert(-mm <= (e - d) * 0x80000000000 <= mm) by (nonlinear_arith)
        requires
            -(mm * w) <= (e - d) * w * 0x80000000000 <= mm * w,
            w > 0,
    ;
}

// ---------------------------------------------------------------------------
// Turns by degrees
// ---------------------------------------------------------------------------

/// An angle the other way, in radians.
pub proof fn lemma_radians_back(deg: Double)
    requires
        deg.finite(),
    ensures
        radians(deg.negated()) == radians(deg).negated(),
{
    reveal(Double::spec_times);
    reveal(Double::spec_over);
    crate::arithmetic::law_whole_exact(180);
    lemma_pow2_pos(UNIT_EXP as nat);
    assert(magnitude(0) == 0);
    let h = Double::of_int(180);
    assert(h.units() > 0) by {
        assert(180 * one_units() > 0) by (nonlinear_arith)
            requires
                one_units() > 0,
        ;
    }
    assert(h.mag() > 0);
    let (x, y) = (deg.times(Double::pi()), deg.negated().times(Double::pi()));
    assert(Double::pi().finite());
    assert(y == x.negated());
    assert(!x.nan());
}

/// A turn by degrees and the turn back leave a point where it was, but for a 2^44th of the
/// greatest coordinate, by a sine that changes its sign with that of the angle and a cosine
/// that does not, whose squares add up to one but for a 2^50th.
pub proof fn law_rotated_back(t: Trig, p: Pt, deg: Double, o: Pt, m: int)
    requires
        deg.finite(),
        point_at_most(p, m),
        point_at_most(o, m),
        TWO53 <= m <= pow2(2085),
        sine_and_cosine(t(radians(deg))),
        squares_near_one(t(radians(deg))),
        t(radians(deg).negated()) == (t(radians(deg)).0.negated(), t(radians(deg)).1),
    ensures
        ({
            let r = turned(turned(p, t(radians(deg)), o), t(radians(deg.negated())), o);
            &&& r.x.finite() && r.y.finite()
            &&& gap(r.x.units(), p.x.units()) * 0x100000000000 <= m
            &&& gap(r.y.units(), p.y.units()) * 0x100000000000 <= m
        }),
{
    lemma_radians_back(deg);
    law_turned_back_near(p, t(radians(deg)), o, m);
}

} // verus!
