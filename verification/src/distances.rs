//! Laws of distances: the point of a segment that is nearest, and the least distance between boundaries.
use vstd::prelude::*;

use crate::double::Double;
use crate::frames::point_within;
use crate::geom::{
    edge_ring_dist, foot, next_pt, poly_distance_by, ring_ring_dist_by, ring_ring_dist_to, ring_rings_dist,
    rings_dist_to, seg_seg_dist_by, PolygonView, Pt,
};
use crate::near::{
    abs, eps, huge, lemma_abs_mul, lemma_assoc, lemma_dist, lemma_eps, lemma_le, lemma_near_add, lemma_near_mul,
    lemma_near_sub, lemma_one, lemma_over_val, lemma_val_order, lemma_whole_val, lemma_zero, near, val,
};
use crate::tools::Hypot;

verus! {

// ---------------------------------------------------------------------------
// The nearest point of a segment
// ---------------------------------------------------------------------------

/// The square of the distance of a point from the point of a segment that is a share of it away from `a`.
pub open spec fn square_from(p: Pt, a: Pt, b: Pt, share: real) -> real {
    let x = val(p.x) - (val(a.x) + share * (val(b.x) - val(a.x)));
    let y = val(p.y) - (val(a.y) + share * (val(b.y) - val(a.y)));
    x * x + y * y
}

/// The square of the length of a segment.
pub open spec fn square_of(a: Pt, b: Pt) -> real {
    let (x, y) = (val(b.x) - val(a.x), val(b.y) - val(a.y));
    x * x + y * y
}

proof fn lemma_scale(m: real)
    requires
        1real <= m,
    ensures
        0real < eps() * m <= m,
        0real < eps() * (m * m),
        eps() * (m * m) * 0x20000000000000real == m * m,
        eps() * m * m == eps() * (m * m),
        1real <= m * m,
        m <= m * m,
{
    lemma_eps();
    let e = eps();
    let mm = m * m;
    assert(1real <= mm && m <= mm) by (nonlinear_arith)
        requires
            1real <= m,
            mm == m * m,
    ;
    lemma_le(e, 1real, m);
    assert(0real < e * m && 0real < e * mm) by (nonlinear_arith)
        requires
            0real < e,
            1real <= m,
            1real <= mm,
    ;
    lemma_assoc(e, m, m);
    assert(e * mm * 0x20000000000000real == (e * 0x20000000000000real) * mm) by (nonlinear_arith);
    assert(1real * mm == mm);
}

/// A product of two differences.
proof fn lemma_product(x: Double, xr: real, y: Double, yr: real, m: real)
    requires
        near(x, xr, 2real * (eps() * m)),
        near(y, yr, 2real * (eps() * m)),
        abs(xr) <= 2real * m,
        abs(yr) <= 2real * m,
        1real <= m,
        64real * (m * m) <= huge(),
    ensures
        near(x.times(y), xr * yr, 44real * (eps() * (m * m))),
        abs(xr * yr) <= 4real * (m * m),
{
    lemma_scale(m);
    let em = eps() * m;
    let mm = m * m;
    let k = eps() * mm;
    assert((2real * m + 2real * em) * (4real * m) <= 16real * mm) by (nonlinear_arith)
        requires
            em <= m,
            1real <= m,
            mm == m * m,
    ;
    lemma_near_mul(x, xr, 2real * em, y, yr, 2real * em, 2real * m, 4real * m, 16real * mm);
    assert(2real * em * (4real * m) == 8real * k && 2real * m * (2real * em) == 4real * k) by (nonlinear_arith)
        requires
            em * m == k,
    ;
    lemma_assoc(eps(), 16real, mm);
    lemma_abs_mul(xr, yr);
    assert(abs(xr) * abs(yr) <= 4real * mm) by (nonlinear_arith)
        requires
            0real <= abs(xr) <= 2real * m,
            0real <= abs(yr) <= 2real * m,
            mm == m * m,
    ;
}

/// A sum of two products of differences.
proof fn lemma_products(x: Double, xr: real, y: Double, yr: real, z: Double, zr: real, w: Double, wr: real, m: real)
    requires
        near(x, xr, 2real * (eps() * m)),
        near(y, yr, 2real * (eps() * m)),
        near(z, zr, 2real * (eps() * m)),
        near(w, wr, 2real * (eps() * m)),
        abs(xr) <= 2real * m,
        abs(yr) <= 2real * m,
        abs(zr) <= 2real * m,
        abs(wr) <= 2real * m,
        1real <= m,
        64real * (m * m) <= huge(),
    ensures
        near(x.times(y).plus(z.times(w)), xr * yr + zr * wr, 104real * (eps() * (m * m))),
        abs(xr * yr + zr * wr) <= 8real * (m * m),
{
    lemma_scale(m);
    lemma_product(x, xr, y, yr, m);
    lemma_product(z, zr, w, wr, m);
    let k = eps() * (m * m);
    lemma_near_add(x.times(y), xr * yr, 44real * k, z.times(w), zr * wr, 44real * k, 16real * (m * m));
    lemma_assoc(eps(), 16real, m * m);
}

/// A quotient, times the divisor.
proof fn lemma_share(d: Double, l: Double, m: real)
    requires
        d.finite(),
        l.finite(),
        abs(val(d)) <= 9real * (m * m),
        512real * (eps() * (m * m)) <= val(l) <= 9real * (m * m),
        1real <= m,
        64real * (m * m) <= huge(),
    ensures
        d.over(l).finite(),
        abs(val(d.over(l)) * val(l) - val(d)) <= 18real * (eps() * (m * m)),
{
    lemma_eps();
    lemma_one();
    lemma_scale(m);
    let e = eps();
    let mm = m * m;
    let k = e * mm;
    let (x, y) = (val(d), val(l));
    let q = x / y;
    let aq = abs(q);
    assert(q * y == x) by (nonlinear_arith)
        requires
            q == x / y,
            y > 0real,
    ;
    lemma_abs_mul(q, y);
    assert(aq * y == abs(x));
    assert(aq <= 0x20000000000000real) by (nonlinear_arith)
        requires
            aq * y <= 9real * mm,
            512real * k <= y,
            k * 0x20000000000000real == mm,
            k > 0real,
            aq >= 0real,
    ;
    lemma_over_val(d, l);
    let t = val(d.over(l));
    let f = t - q;
    let b = e * aq + e * e;
    lemma_dist(t, q, y);
    lemma_abs_mul(f, y);
    lemma_le(abs(f), b, y);
    lemma_dist(e * aq, e * e, y);
    lemma_assoc(e, aq, y);
    lemma_assoc(e, e, y);
    lemma_le(aq * y, 9real * mm, e);
    lemma_le(y, 9real * mm, e);
    lemma_le(e * y, 9real * k, e);
    lemma_le(e, 1real, 9real * k);
    lemma_assoc(e, 9real, mm);
}

/// The squares of distances along a segment.
proof fn lemma_parabola(wx: real, wy: real, vx: real, vy: real, s: real, t: real)
    ensures
        ({
            let d = |u: real| (wx - u * vx) * (wx - u * vx) + (wy - u * vy) * (wy - u * vy);
            let l = vx * vx + vy * vy;
            let w = wx * vx + wy * vy;
            d(s) - d(t) == (s - t) * (s - t) * l + 2real * ((s - t) * (t * l - w))
        }),
{
    lemma_parabola_by(wx, vx, s, t);
    lemma_parabola_by(wy, vy, s, t);
    let h = s - t;
    let (p, q) = (vx * vx, vy * vy);
    let (c, d) = (wx * vx, wy * vy);
    lemma_dist(p, q, h * h);
    lemma_dist(p, q, t);
    lemma_dist(t * p - c, t * q - d, h);
    assert(t * (p + q) - (c + d) == (t * p - c) + (t * q - d));
}

proof fn lemma_parabola_by(w: real, v: real, s: real, t: real)
    ensures
        (w - s * v) * (w - s * v) - (w - t * v) * (w - t * v) == (s - t) * (s - t) * (v * v) + 2real * ((s - t) * (t * (
        v * v) - w * v)),
{
    let (p, q) = (s * v, t * v);
    assert((w - p) * (w - p) - (w - q) * (w - q) == p * p - q * q - 2real * (w * (p - q))) by (nonlinear_arith);
    let h = s - t;
    let z = v * v;
    assert(p * p == s * s * z && q * q == t * t * z) by (nonlinear_arith)
        requires
            p == s * v,
            q == t * v,
            z == v * v,
    ;
    assert(p - q == h * v) by (nonlinear_arith)
        requires
            p == s * v,
            q == t * v,
            h == s - t,
    ;
    assert(w * (h * v) == h * (w * v)) by (nonlinear_arith);
    assert(s * s - t * t == h * h + 2real * (h * t)) by (nonlinear_arith)
        requires
            h == s - t,
    ;
    assert(s * s * z - t * t * z == (s * s - t * t) * z) by (nonlinear_arith);
    lemma_dist(h * h, 2real * (h * t), z);
    assert(2real * (h * t) * z == 2real * (h * (t * z))) by (nonlinear_arith);
    lemma_dist(t * z, w * v, h);
}

/// The foot of a point on a segment lies on the segment, and no point of the segment is nearer, but for
/// rounding: `share` is how far along the segment it lies, and `s` any other. The segment is longer than a
/// rounding error.
pub proof fn law_foot_is_nearest(p: Pt, a: Pt, b: Pt, s: real, m: real) -> (share: real)
    requires
        point_within(p, m),
        point_within(a, m),
        point_within(b, m),
        1024real * (eps() * (m * m)) <= square_of(a, b),
        0real <= s <= 1real,
        1real <= m,
        64real * (m * m) <= huge(),
    ensures
        0real <= share <= 1real,
        near(foot(p, a, b).x, val(a.x) + share * (val(b.x) - val(a.x)), 32real * (eps() * m)),
        near(foot(p, a, b).y, val(a.y) + share * (val(b.y) - val(a.y)), 32real * (eps() * m)),
        square_from(p, a, b, share) <= square_from(p, a, b, s) + 512real * (eps() * (m * m)),
{
    lemma_eps();
    lemma_scale(m);
    lemma_zero();
    lemma_whole_val(1);
    let em = eps() * m;
    let mm = m * m;
    let k = eps() * mm;
    lemma_assoc(eps(), 2real, m);
    let (vx, vy, wx, wy) = (b.x.minus(a.x), b.y.minus(a.y), p.x.minus(a.x), p.y.minus(a.y));
    let (rx, ry) = (val(b.x) - val(a.x), val(b.y) - val(a.y));
    let (ux, uy) = (val(p.x) - val(a.x), val(p.y) - val(a.y));
    lemma_near_sub(b.x, val(b.x), 0real, a.x, val(a.x), 0real, 2real * m);
    lemma_near_sub(b.y, val(b.y), 0real, a.y, val(a.y), 0real, 2real * m);
    lemma_near_sub(p.x, val(p.x), 0real, a.x, val(a.x), 0real, 2real * m);
    lemma_near_sub(p.y, val(p.y), 0real, a.y, val(a.y), 0real, 2real * m);
    lemma_products(vx, rx, vx, rx, vy, ry, vy, ry, m);
    lemma_products(wx, ux, vx, rx, wy, uy, vy, ry, m);
    let len2 = vx.times(vx).plus(vy.times(vy));
    let dot = wx.times(vx).plus(wy.times(vy));
    let l = rx * rx + ry * ry;
    let w = ux * rx + uy * ry;
    lemma_val_order(Double::zero(), len2);
    lemma_share(dot, len2, m);
    let t0 = dot.over(len2);
    let t = t0.clamp(Double::zero(), Double::of_int(1));
    lemma_val_order(t0, Double::zero());
    lemma_val_order(Double::of_int(1), t0);
    let r = val(t);
    assert(t.finite() && 0real <= r <= 1real);
    lemma_along(a.x, vx, rx, t, m);
    lemma_along(a.y, vy, ry, t, m);
    let (y, d) = (val(len2), val(dot));
    let x = val(t0);
    let g = r * l - w;
    let h = s - r;
    assert(-(256real * k) <= h * g) by {
        if x < 0real {
            assert(x * y <= 0real) by (nonlinear_arith)
                requires
                    x < 0real,
                    y >= 0real,
            ;
            assert(r == 0real);
            assert(0real * l == 0real);
            assert(g >= -(122real * k));
            lemma_factor(h, g, 122real * k);
        } else if x > 1real {
            assert(x * y >= y) by (nonlinear_arith)
                requires
                    x > 1real,
                    y >= 0real,
            ;
            assert(r == 1real);
            assert(1real * l == l);
            assert(-g >= -(226real * k));
            assert(h * g == (-h) * (-g)) by (nonlinear_arith);
            lemma_factor(-h, -g, 226real * k);
        } else {
            assert(r == x);
            let o = l - y;
            lemma_dist(l, y, r);
            lemma_abs_mul(r, o);
            lemma_le(r, 1real, abs(o));
            assert(r * o == r * l - r * y);
            assert(abs(g) <= 226real * k);
            if h >= 0real {
                lemma_factor(h, g, 226real * k);
            } else {
                assert(h * g == (-h) * (-g)) by (nonlinear_arith);
                lemma_factor(-h, -g, 226real * k);
            }
        }
    }
    lemma_parabola(ux, uy, rx, ry, s, r);
    assert(h * h * l >= 0real) by {
        assert(h * h >= 0real) by (nonlinear_arith);
        assert(l >= 0real);
        lemma_le(0real, h * h, l);
        assert(0real * l == 0real);
    }
    assert(val(p.x) - (val(a.x) + s * rx) == ux - s * rx);
    assert(val(p.y) - (val(a.y) + s * ry) == uy - s * ry);
    assert(val(p.x) - (val(a.x) + r * rx) == ux - r * rx);
    assert(val(p.y) - (val(a.y) + r * ry) == uy - r * ry);
    r
}

proof fn lemma_factor(h: real, g: real, b: real)
    requires
        0real <= h <= 1real,
        -b <= g,
        0real <= b,
    ensures
        -b <= h * g,
{
    assert(-b <= h * g) by (nonlinear_arith)
        requires
            0real <= h <= 1real,
            -b <= g,
            0real <= b,
    ;
}

/// A share of a way from a start.
proof fn lemma_along(a: Double, v: Double, vr: real, t: Double, m: real)
    requires
        a.finite(),
        abs(val(a)) <= m,
        near(v, vr, 2real * (eps() * m)),
        abs(vr) <= 2real * m,
        t.finite(),
        0real <= val(t) <= 1real,
        1real <= m,
        64real * (m * m) <= huge(),
    ensures
        near(a.plus(t.times(v)), val(a) + val(t) * vr, 32real * (eps() * m)),
{
    lemma_scale(m);
    let em = eps() * m;
    assert((1real + 0real) * (4real * m) == 4real * m && 0real * (4real * m) == 0real && 1real * (2real * em) == 2real
        * em);
    lemma_near_mul(t, val(t), 0real, v, vr, 2real * em, 1real, 4real * m, 4real * m);
    lemma_assoc(eps(), 4real, m);
    lemma_abs_mul(val(t), vr);
    lemma_le(val(t), 1real, abs(vr));
    lemma_near_add(a, val(a), 0real, t.times(v), val(t) * vr, 10real * em, 16real * m);
    lemma_assoc(eps(), 16real, m);
}

// ---------------------------------------------------------------------------
// The least distance between boundaries
// ---------------------------------------------------------------------------

/// The distance of edge `i` of one ring from edge `j` of another.
pub open spec fn edges_apart(h: Hypot, a: Seq<Pt>, i: int, b: Seq<Pt>, j: int) -> Double {
    seg_seg_dist_by(h, a[i], next_pt(a, i), b[j], next_pt(b, j))
}

/// The distances of the edges of one ring from those of another are numbers.
pub open spec fn measured(h: Hypot, a: Seq<Pt>, b: Seq<Pt>) -> bool {
    forall|i: int, j: int|
        0 <= i < a.len() && 0 <= j < b.len() ==> !(#[trigger] edges_apart(h, a, i, b, j)).nan()
}

proof fn lemma_edge_ring(h: Hypot, a: Seq<Pt>, i: int, b: Seq<Pt>, n: int, best: Double)
    requires
        measured(h, a, b),
        0 <= i < a.len(),
        0 <= n <= b.len(),
        !best.nan(),
    ensures
        ({
            let d = edge_ring_dist(h, a, i, b, n, best);
            &&& !d.nan()
            &&& d.le(best)
            &&& forall|j: int| 0 <= j < n ==> d.le(#[trigger] edges_apart(h, a, i, b, j))
            &&& d == best || exists|j: int| 0 <= j < n && d == #[trigger] edges_apart(h, a, i, b, j)
        }),
    decreases n,
{
    if n > 0 {
        lemma_edge_ring(h, a, i, b, n - 1, best);
        assert(!edges_apart(h, a, i, b, n - 1).nan());
        let (d, before) = (edge_ring_dist(h, a, i, b, n, best), edge_ring_dist(h, a, i, b, n - 1, best));
        assert(d == before || d == edges_apart(h, a, i, b, n - 1));
    }
}

proof fn lemma_ring_ring(h: Hypot, a: Seq<Pt>, n: int, b: Seq<Pt>)
    requires
        measured(h, a, b),
        0 <= n <= a.len(),
    ensures
        ({
            let d = ring_ring_dist_to(h, a, n, b);
            &&& !d.nan()
            &&& forall|i: int, j: int|
                0 <= i < n && 0 <= j < b.len() ==> d.le(#[trigger] edges_apart(h, a, i, b, j))
            &&& d == Double::infinity() || exists|i: int, j: int|
                0 <= i < n && 0 <= j < b.len() && d == #[trigger] edges_apart(h, a, i, b, j)
        }),
    decreases n,
{
    if n > 0 {
        lemma_ring_ring(h, a, n - 1, b);
        let before = ring_ring_dist_to(h, a, n - 1, b);
        lemma_edge_ring(h, a, n - 1, b, b.len() as int, before);
        let d = ring_ring_dist_to(h, a, n, b);
        assert forall|i: int, j: int| 0 <= i < n && 0 <= j < b.len() implies d.le(
            #[trigger] edges_apart(h, a, i, b, j),
        ) by {
            if i < n - 1 {
                assert(before.le(edges_apart(h, a, i, b, j)));
            }
        }
    }
}

/// All rings of one list are measured against all of another.
pub open spec fn all_measured(h: Hypot, a: Seq<Seq<Pt>>, b: Seq<Seq<Pt>>) -> bool {
    forall|k: int, l: int| 0 <= k < a.len() && 0 <= l < b.len() ==> #[trigger] measured(h, a[k], b[l])
}

proof fn lemma_ring_rings(h: Hypot, a: Seq<Pt>, b: Seq<Seq<Pt>>, n: int, best: Double)
    requires
        forall|l: int| 0 <= l < b.len() ==> #[trigger] measured(h, a, b[l]),
        0 <= n <= b.len(),
        !best.nan(),
    ensures
        ({
            let d = ring_rings_dist(h, a, b, n, best);
            &&& !d.nan()
            &&& d.le(best)
            &&& forall|l: int, i: int, j: int|
                0 <= l < n && 0 <= i < a.len() && 0 <= j < b[l].len() ==> d.le(
                    #[trigger] edges_apart(h, a, i, b[l], j),
                )
            &&& d == best || d == Double::infinity() || exists|l: int, i: int, j: int|
                0 <= l < n && 0 <= i < a.len() && 0 <= j < b[l].len() && d == #[trigger] edges_apart(
                    h,
                    a,
                    i,
                    b[l],
                    j,
                )
        }),
    decreases n,
{
    if n > 0 {
        lemma_ring_rings(h, a, b, n - 1, best);
        assert(measured(h, a, b[n - 1]));
        lemma_ring_ring(h, a, a.len() as int, b[n - 1]);
        let before = ring_rings_dist(h, a, b, n - 1, best);
        let more = ring_ring_dist_by(h, a, b[n - 1]);
        let d = ring_rings_dist(h, a, b, n, best);
        assert(d == before || d == more);
        assert(d.le(before) && d.le(more));
        assert forall|l: int, i: int, j: int| 0 <= l < n && 0 <= i < a.len() && 0 <= j < b[l].len() implies d.le(
            #[trigger] edges_apart(h, a, i, b[l], j),
        ) by {
            if l < n - 1 {
                assert(before.le(edges_apart(h, a, i, b[l], j)));
            } else {
                assert(more.le(edges_apart(h, a, i, b[l], j)));
            }
        }
    }
}

proof fn lemma_rings_rings(h: Hypot, a: Seq<Seq<Pt>>, n: int, b: Seq<Seq<Pt>>)
    requires
        all_measured(h, a, b),
        0 <= n <= a.len(),
    ensures
        ({
            let d = rings_dist_to(h, a, n, b);
            &&& !d.nan()
            &&& forall|k: int, l: int, i: int, j: int|
                0 <= k < n && 0 <= l < b.len() && 0 <= i < a[k].len() && 0 <= j < b[l].len() ==> d.le(
                    #[trigger] edges_apart(h, a[k], i, b[l], j),
                )
            &&& d == Double::infinity() || exists|k: int, l: int, i: int, j: int|
                0 <= k < n && 0 <= l < b.len() && 0 <= i < a[k].len() && 0 <= j < b[l].len() && d
                    == #[trigger] edges_apart(h, a[k], i, b[l], j)
        }),
    decreases n,
{
    if n > 0 {
        lemma_rings_rings(h, a, n - 1, b);
        let before = rings_dist_to(h, a, n - 1, b);
        let r = a[n - 1];
        assert forall|l: int| 0 <= l < b.len() implies #[trigger] measured(h, r, b[l]) by {
            assert(measured(h, a[n - 1], b[l]));
        }
        lemma_ring_rings(h, r, b, b.len() as int, before);
        let d = rings_dist_to(h, a, n, b);
        assert forall|k: int, l: int, i: int, j: int|
            0 <= k < n && 0 <= l < b.len() && 0 <= i < a[k].len() && 0 <= j < b[l].len() implies d.le(
            #[trigger] edges_apart(h, a[k], i, b[l], j),
        ) by {
            if k < n - 1 {
                assert(before.le(edges_apart(h, a[k], i, b[l], j)));
            }
        }
    }
}

/// A distance is the least of those of the edges of one list of rings from the edges of another: none is
/// less, and one is as much, unless there are no edges.
pub open spec fn is_least(h: Hypot, u: Seq<Seq<Pt>>, v: Seq<Seq<Pt>>, d: Double) -> bool {
    &&& forall|k: int, l: int, i: int, j: int|
        0 <= k < u.len() && 0 <= l < v.len() && 0 <= i < u[k].len() && 0 <= j < v[l].len() ==> d.le(
            #[trigger] edges_apart(h, u[k], i, v[l], j),
        )
    &&& d == Double::infinity() || exists|k: int, l: int, i: int, j: int|
        0 <= k < u.len() && 0 <= l < v.len() && 0 <= i < u[k].len() && 0 <= j < v[l].len() && d
            == #[trigger] edges_apart(h, u[k], i, v[l], j)
}

/// The distance between two polygons is the least of the distances of an edge of one from an edge of the
/// other, those of the outer rings and of the holes.
pub proof fn law_distance_is_least(h: Hypot, a: PolygonView, b: PolygonView)
    requires
        all_measured(h, seq![a.exterior] + a.interiors, seq![b.exterior] + b.interiors),
    ensures
        is_least(h, seq![a.exterior] + a.interiors, seq![b.exterior] + b.interiors, poly_distance_by(h, a, b)),
{
    lemma_rings_rings(h, a.rings(), a.rings().len() as int, b.rings());
}

} // verus!
