//! Laws of plans: their lines lie in the field, and run in its direction.
use vstd::prelude::*;

use crate::double::Double;
use crate::frames::{circular, lemma_turned_val, point_within};
use crate::geom::{radians, turned, GeomView, Pt};
use crate::measures::{behind, lemma_behind};
use crate::near::{
    abs, eps, huge, lemma_abs_mul, lemma_assoc, lemma_dist, lemma_eps, lemma_le, lemma_minus_val, lemma_near_add,
    lemma_near_sub, lemma_over_val, lemma_times_val, lemma_val_order, near, val,
};
use crate::params::AircraftParams;
use crate::plan::{plan_by, tally, Laying, LinePart, Part};
use crate::scanline::{crossing, crossings, framed, pairs, parts_of, ring_crossings, scan, scan_at, spans};
use crate::sorting::{by_number, law_sorted_by, sorted_by};
use crate::tiling::{beside, lemma_back, lemma_into, unit};
use crate::tools::Trig;
use crate::turning::lemma_radians_back;

verus! {

// ---------------------------------------------------------------------------
// Crossings
// ---------------------------------------------------------------------------

/// A height that an edge with finite ends crosses is finite, and between the ends.
proof fn lemma_between(a: Double, b: Double, y: Double)
    requires
        a.finite(),
        b.finite(),
        a.min(b).le(y),
        y.lt(a.max(b)),
    ensures
        y.finite(),
        val(a) <= val(y) <= val(b) || val(b) <= val(y) <= val(a),
{
    assert(y.finite());
    lemma_val_order(a, b);
    lemma_val_order(b, a);
    lemma_val_order(a, y);
    lemma_val_order(b, y);
    lemma_val_order(y, a);
    lemma_val_order(y, b);
}

/// The product of two numbers that are off by a share of them.
proof fn lemma_slanted(n: Double, nr: real, d: Double, dr: real, m: real)
    requires
        near(n, nr, eps() * abs(nr)),
        near(d, dr, eps() * abs(dr)),
        abs(nr) <= 2real * m,
        abs(dr) <= 2real * m,
        1real <= m,
        64real * (m * m) <= huge(),
    ensures
        near(n.times(d), nr * dr, 16real * (abs(nr) * (eps() * m)) + eps() * eps()),
{
    lemma_eps();
    let e = eps();
    let em = e * m;
    let (x, y) = (val(n), val(d));
    let (an, ad) = (abs(nr), abs(dr));
    let (u, v) = (x - nr, y - dr);
    // The two factors, and their product.
    lemma_le(e, 1real, an);
    lemma_le(e, 1real, ad);
    lemma_le(ad, 2real * m, e);
    lemma_assoc(e, 2real, m);
    assert(abs(y) <= 4real * m && abs(v) <= 2real * em && abs(u) <= e * an);
    lemma_abs_mul(x, y);
    lemma_le(abs(x), 2real * an, abs(y));
    lemma_le(abs(y), 4real * m, 2real * an);
    let am = an * m;
    lemma_assoc(2real * an, 4real, m);
    assert(2real * an * (4real * m) == 8real * am) by {
        lemma_assoc(2real, an, m);
        lemma_assoc(4real, 2real * an, m);
    }
    assert(abs(x * y) <= 8real * am);
    lemma_le(an, 2real * m, m);
    lemma_assoc(2real, m, m);
    lemma_times_val(n, d);
    lemma_le(abs(x * y), 8real * am, e);
    lemma_assoc(e, 8real, am);
    lemma_assoc(e, an, m);
    // x * y - nr * dr == u * y + nr * v
    lemma_dist(x, nr, y);
    lemma_dist(y, dr, nr);
    lemma_abs_mul(u, y);
    lemma_abs_mul(nr, v);
    lemma_le(abs(u), e * an, abs(y));
    lemma_le(abs(y), 4real * m, e * an);
    lemma_assoc(e * an, 4real, m);
    lemma_assoc(e, an, m);
    lemma_le(abs(v), 2real * em, an);
    lemma_assoc(an, 2real, em);
    let aem = an * em;
    assert(e * am == aem);
    assert(e * an * m == aem) by {
        lemma_assoc(e, an, m);
    }
    assert(e * an * (4real * m) == 4real * aem) by {
        lemma_assoc(4real, e * an, m);
    }
    assert(x * y - nr * dr == u * y + nr * v);
    assert(abs(u * y) <= 4real * aem);
    assert(abs(nr * v) <= 2real * aem);
}

/// A quotient by a divisor that is off by a share of it.
proof fn lemma_slanted_over(p: Double, n: real, d: real, h: Double, hr: real, m: real)
    requires
        near(p, n * d, 16real * (abs(n) * (eps() * m)) + eps() * eps()),
        near(h, hr, eps() * abs(hr)),
        abs(n) <= abs(hr),
        abs(d) <= 2real * m,
        abs(hr) >= eps(),
        1real <= m,
        64real * (m * m) <= huge(),
    ensures
        near(p.over(h), n / hr * d, 64real * (eps() * m)),
        abs(n / hr) <= 1real,
{
    lemma_eps();
    let e = eps();
    let em = e * m;
    let (x, y) = (val(p), val(h));
    let (ah, an) = (abs(hr), abs(n));
    let l = n / hr;
    assert(l * hr == n) by (nonlinear_arith)
        requires
            l == n / hr,
            hr != 0real,
    ;
    lemma_abs_mul(l, hr);
    assert(abs(l) <= 1real) by (nonlinear_arith)
        requires
            abs(l) * ah == an,
            an <= ah,
            ah > 0real,
    ;
    let q = x / y;
    let r = l * d;
    lemma_le(e, 1real / 0x1000real, ah);
    assert(abs(y) >= ah / 2real && y != 0real);
    assert(q * y == x) by (nonlinear_arith)
        requires
            q == x / y,
            y != 0real,
    ;
    // q - r, times y, is what the product and the divisor are off by.
    let g = y - hr;
    lemma_dist(q, r, y);
    lemma_dist(hr, g, r);
    assert(r * hr == n * d) by {
        lemma_assoc(l, d, hr);
        lemma_assoc(l, hr, d);
    }
    let t = x - n * d;
    assert((q - r) * y == t - r * g) by {
        assert(y == hr + g);
    }
    lemma_abs_mul(l, d);
    lemma_le(abs(l), 1real, abs(d));
    lemma_abs_mul(r, g);
    lemma_le(abs(r), 2real * m, abs(g));
    lemma_le(abs(g), e * ah, 2real * m);
    lemma_assoc(2real, m, e * ah);
    lemma_assoc(m, e, ah);
    let aem = ah * em;
    assert(m * (e * ah) == aem) by {
        lemma_assoc(ah, e, m);
        lemma_assoc(m, e, ah);
        lemma_assoc(m, ah, e);
    }
    assert(2real * m * (e * ah) == 2real * aem);
    lemma_le(an, ah, em);
    lemma_le(1real, m, e);
    lemma_le(e, em, ah);
    lemma_le(e, ah, e);
    assert(abs(t) <= 17real * aem) by {
        assert(e * e <= e * ah);
        assert(e * ah <= em * ah);
        lemma_assoc(em, ah, 1real);
    }
    let z = q - r;
    lemma_abs_mul(z, y);
    assert(abs(z) * abs(y) <= 19real * aem);
    assert(abs(z) <= 38real * em) by (nonlinear_arith)
        requires
            abs(z) * abs(y) <= 19real * aem,
            aem == ah * em,
            2real * abs(y) >= ah,
            ah > 0real,
            em > 0real,
            abs(z) >= 0real,
    ;
    lemma_le(e, 1real / 0x1000real, m);
    lemma_le(1real, m, m);
    assert(abs(q) <= 4real * m);
    lemma_over_val(p, h);
    lemma_le(abs(q), 4real * m, e);
    lemma_assoc(e, 4real, m);
}

/// Where an edge crosses a height is on the edge: a share of the way from one end to the other,
/// in both coordinates, but for rounding.
pub proof fn law_crossing_on_the_edge(a: Pt, b: Pt, y: Double, m: real) -> (share: real)
    requires
        crossing(a, b, y) is Some,
        point_within(a, m),
        point_within(b, m),
        1real <= m,
        64real * (m * m) <= huge(),
        val(a.y) == val(b.y) || abs(val(b.y) - val(a.y)) >= eps(),
    ensures
        0real <= share <= 1real,
        y.finite(),
        val(y) == val(a.y) + share * (val(b.y) - val(a.y)),
        near(crossing(a, b, y)->0, val(a.x) + share * (val(b.x) - val(a.x)), 80real * (eps() * m)),
{
    lemma_eps();
    let e = eps();
    let em = e * m;
    lemma_between(a.y, b.y, y);
    lemma_val_order(a.y, b.y);
    let (n, d, h) = (val(y) - val(a.y), val(b.x) - val(a.x), val(b.y) - val(a.y));
    lemma_le(1real, m, m);
    lemma_minus_val(y, a.y);
    lemma_minus_val(b.x, a.x);
    lemma_minus_val(b.y, a.y);
    lemma_slanted(y.minus(a.y), n, b.x.minus(a.x), d, m);
    let p = y.minus(a.y).times(b.x.minus(a.x));
    lemma_slanted_over(p, n, d, b.y.minus(a.y), h, m);
    let q = p.over(b.y.minus(a.y));
    let l = n / h;
    assert(l * h == n) by (nonlinear_arith)
        requires
            l == n / h,
            h != 0real,
    ;
    assert(l >= 0real) by (nonlinear_arith)
        requires
            l * h == n,
            (n >= 0real && h > 0real) || (n <= 0real && h < 0real),
    ;
    lemma_abs_mul(l, d);
    lemma_le(abs(l), 1real, abs(d));
    lemma_le(e, 1real / 0x1000real, m);
    lemma_near_add(a.x, val(a.x), 0real, q, l * d, 64real * em, 4real * m);
    lemma_assoc(e, 4real, m);
    l
}

/// Rings are of moderate size: coordinates are at most `m`, and an edge is level or its ends differ
/// in height by 2^-53 at least.
pub open spec fn crossable(rings: Seq<Seq<Pt>>, m: real) -> bool {
    &&& forall|k: int, i: int|
        0 <= k < rings.len() && 0 <= i < rings[k].len() ==> point_within(#[trigger] rings[k][i], m)
    &&& forall|k: int, i: int|
        0 <= k < rings.len() && 0 <= i < rings[k].len() ==> {
            let h = val(behind(rings[k], i).y) - val((#[trigger] rings[k][i]).y);
            h == 0real || abs(h) >= eps()
        }
    &&& 1real <= m
    &&& 64real * (m * m) <= huge()
}

/// All points of rings are on one side of a line.
pub open spec fn rings_beside(rings: Seq<Seq<Pt>>, a: real, b: real, c: real) -> bool {
    forall|k: int, i: int|
        0 <= k < rings.len() && 0 <= i < rings[k].len() ==> beside(#[trigger] rings[k][i], a, b, c)
}

/// A point at a height is finite and on one side of a line.
spec fn at_beside(x: Double, y: Double, a: real, b: real, c: real) -> bool {
    beside(Pt { x, y }, a, b, c)
}

proof fn lemma_crossing_beside(p: Pt, q: Pt, y: Double, a: real, b: real, c: real, m: real)
    requires
        crossing(p, q, y) is Some,
        point_within(p, m),
        point_within(q, m),
        1real <= m,
        64real * (m * m) <= huge(),
        val(p.y) == val(q.y) || abs(val(q.y) - val(p.y)) >= eps(),
        beside(p, a, b, c),
        beside(q, a, b, c),
        abs(a) <= 2real,
        abs(b) <= 2real,
    ensures
        at_beside(crossing(p, q, y)->0, y, a, b, c + 160real * (eps() * m)),
{
    let em = eps() * m;
    let l = law_crossing_on_the_edge(p, q, y, m);
    let x = crossing(p, q, y)->0;
    let (dx, dy) = (val(q.x) - val(p.x), val(q.y) - val(p.y));
    let xe = val(p.x) + l * dx;
    let off = val(x) - xe;
    lemma_dist(xe, off, a);
    lemma_dist(val(p.x), l * dx, a);
    lemma_dist(val(p.y), l * dy, b);
    lemma_assoc(a, l, dx);
    lemma_assoc(b, l, dy);
    lemma_dist(a * dx, b * dy, l);
    lemma_dist(val(q.x), val(p.x), a);
    lemma_dist(val(q.y), val(p.y), b);
    let (s, t) = (a * val(p.x) + b * val(p.y), a * val(q.x) + b * val(q.y));
    assert(a * dx + b * dy == t - s);
    assert(s + l * (t - s) <= c) by {
        if t >= s {
            lemma_le(l, 1real, t - s);
            assert(1real * (t - s) == t - s);
        } else {
            lemma_le(0real, l, s - t);
            lemma_dist(t, s, l);
            lemma_dist(s, t, l);
            assert(0real * (s - t) == 0real);
        }
    }
    lemma_abs_mul(a, off);
    lemma_le(abs(a), 2real, abs(off));
    assert(val(x) == xe + off);
}

proof fn lemma_ring_crossings_beside(
    r: Seq<Pt>,
    y: Double,
    n: int,
    a: real,
    b: real,
    c: real,
    m: real,
)
    requires
        crossable(seq![r], m),
        rings_beside(seq![r], a, b, c),
        abs(a) <= 2real,
        abs(b) <= 2real,
        0 <= n <= r.len(),
    ensures
        forall|i: int|
            0 <= i < ring_crossings(r, y, n).len() ==> at_beside(
                #[trigger] ring_crossings(r, y, n)[i],
                y,
                a,
                b,
                c + 160real * (eps() * m),
            ),
    decreases n,
{
    if n > 0 {
        lemma_ring_crossings_beside(r, y, n - 1, a, b, c, m);
        lemma_behind(r, n - 1);
        let rs = seq![r];
        let j = if n < r.len() {
            n
        } else {
            0
        };
        assert(point_within(rs[0][n - 1], m) && beside(rs[0][n - 1], a, b, c));
        assert(point_within(rs[0][j], m) && beside(rs[0][j], a, b, c));
        assert(behind(r, n - 1) == rs[0][j]);
        let h = val(behind(rs[0], n - 1).y) - val(rs[0][n - 1].y);
        if crossing(r[n - 1], behind(r, n - 1), y) is Some {
            lemma_crossing_beside(r[n - 1], behind(r, n - 1), y, a, b, c, m);
        }
        let (now, before) = (ring_crossings(r, y, n), ring_crossings(r, y, n - 1));
        assert forall|i: int| 0 <= i < now.len() implies at_beside(
            #[trigger] now[i],
            y,
            a,
            b,
            c + 160real * (eps() * m),
        ) by {
            if i < before.len() {
                assert(now[i] == before[i]);
            }
        }
    }
}

proof fn lemma_crossings_beside(
    rings: Seq<Seq<Pt>>,
    y: Double,
    n: int,
    a: real,
    b: real,
    c: real,
    m: real,
)
    requires
        crossable(rings, m),
        rings_beside(rings, a, b, c),
        abs(a) <= 2real,
        abs(b) <= 2real,
        0 <= n <= rings.len(),
    ensures
        forall|i: int|
            0 <= i < crossings(rings, y, n).len() ==> at_beside(
                #[trigger] crossings(rings, y, n)[i],
                y,
                a,
                b,
                c + 160real * (eps() * m),
            ),
    decreases n,
{
    if n > 0 {
        lemma_crossings_beside(rings, y, n - 1, a, b, c, m);
        let r = rings[n - 1];
        let one = seq![r];
        assert(crossable(one, m)) by {
            assert forall|k: int, i: int| 0 <= k < one.len() && 0 <= i < one[k].len() implies point_within(
                #[trigger] one[k][i],
                m,
            ) by {
                assert(one[k][i] == rings[n - 1][i]);
            }
            assert forall|k: int, i: int| 0 <= k < one.len() && 0 <= i < one[k].len() implies ({
                let h = val(behind(one[k], i).y) - val((#[trigger] one[k][i]).y);
                h == 0real || abs(h) >= eps()
            }) by {
                assert(one[k][i] == rings[n - 1][i]);
                let h = val(behind(rings[n - 1], i).y) - val(rings[n - 1][i].y);
            }
        }
        assert(rings_beside(one, a, b, c)) by {
            assert forall|k: int, i: int| 0 <= k < one.len() && 0 <= i < one[k].len() implies beside(
                #[trigger] one[k][i],
                a,
                b,
                c,
            ) by {
                assert(one[k][i] == rings[n - 1][i]);
            }
        }
        lemma_ring_crossings_beside(r, y, r.len() as int, a, b, c, m);
        let more = ring_crossings(r, y, r.len() as int);
        let (now, before) = (crossings(rings, y, n), crossings(rings, y, n - 1));
        assert forall|i: int| 0 <= i < now.len() implies at_beside(
            #[trigger] now[i],
            y,
            a,
            b,
            c + 160real * (eps() * m),
        ) by {
            if i < before.len() {
                assert(now[i] == before[i]);
            } else {
                assert(now[i] == more[i - before.len()]);
            }
        }
    }
}

/// Spans pair up what is crossed.
proof fn lemma_pairs_from(xs: Seq<Double>, n: int, k: int)
    requires
        0 <= n,
        2 * n <= xs.len(),
        0 <= k < pairs(xs, n).len(),
    ensures
        xs.contains(pairs(xs, n)[k].0),
        xs.contains(pairs(xs, n)[k].1),
    decreases n,
{
    let before = pairs(xs, n - 1);
    if k < before.len() {
        lemma_pairs_from(xs, n - 1, k);
        assert(pairs(xs, n)[k] == before[k]);
    } else {
        assert(xs[2 * n - 2] == pairs(xs, n)[k].0);
        assert(xs[2 * n - 1] == pairs(xs, n)[k].1);
    }
}

/// The ends of spans are crossings.
pub proof fn law_spans_end_at_crossings(rings: Seq<Seq<Pt>>, y: Double, k: int)
    requires
        0 <= k < spans(rings, y).len(),
    ensures
        crossings(rings, y, rings.len() as int).contains(spans(rings, y)[k].0),
        crossings(rings, y, rings.len() as int).contains(spans(rings, y)[k].1),
{
    broadcast use vstd::seq_lib::group_to_multiset_ensures;

    let c = crossings(rings, y, rings.len() as int);
    let xs = sorted_by(c, by_number());
    law_sorted_by(c, by_number());
    lemma_pairs_from(xs, xs.len() as int / 2, k);
    let (u, v) = spans(rings, y)[k];
    assert(xs.to_multiset().count(u) > 0 && xs.to_multiset().count(v) > 0);
}

proof fn lemma_span_beside(rings: Seq<Seq<Pt>>, y: Double, k: int, a: real, b: real, c: real, m: real)
    requires
        crossable(rings, m),
        rings_beside(rings, a, b, c),
        abs(a) <= 2real,
        abs(b) <= 2real,
        0 <= k < spans(rings, y).len(),
    ensures
        at_beside(spans(rings, y)[k].0, y, a, b, c + 160real * (eps() * m)),
        at_beside(spans(rings, y)[k].1, y, a, b, c + 160real * (eps() * m)),
{
    law_spans_end_at_crossings(rings, y, k);
    let cs = crossings(rings, y, rings.len() as int);
    lemma_crossings_beside(rings, y, rings.len() as int, a, b, c, m);
    let (u, v) = spans(rings, y)[k];
    let i = choose|i: int| 0 <= i < cs.len() && cs[i] == u;
    let j = choose|j: int| 0 <= j < cs.len() && cs[j] == v;
    assert(at_beside(cs[i], y, a, b, c + 160real * (eps() * m)));
    assert(at_beside(cs[j], y, a, b, c + 160real * (eps() * m)));
}

/// A part of a scan line ends where spans end.
proof fn lemma_parts_from(s: Seq<(Double, Double)>, thresh: Double, n: int, k: int)
    requires
        0 <= n <= s.len(),
        0 <= k < parts_of(s, thresh, n).len(),
        parts_of(s, thresh, n)[k] is Seg,
    ensures
        ({
            let (x0, x1) = match parts_of(s, thresh, n)[k] {
                Part::Seg(x0, x1, spray) => (x0, x1),
                _ => (Double::zero(), Double::zero()),
            };
            &&& exists|i: int| 0 <= i < n && ((#[trigger] s[i]).0 == x0 || s[i].1 == x0)
            &&& exists|i: int| 0 <= i < n && ((#[trigger] s[i]).0 == x1 || s[i].1 == x1)
        }),
    decreases n,
{
    let before = parts_of(s, thresh, n - 1);
    let now = parts_of(s, thresh, n);
    if k < before.len() {
        assert(now[k] == before[k]);
        lemma_parts_from(s, thresh, n - 1, k);
    } else {
        assert(s[n - 1].0 == s[n - 1].0);
        if n > 1 {
            assert(s[n - 2].1 == s[n - 2].1);
        }
    }
}

/// Every segment of scan lines has its ends on one side of a line.
spec fn scan_beside(s: Seq<(Double, Seq<Part>)>, a: real, b: real, c: real) -> bool {
    forall|i: int, k: int|
        0 <= i < s.len() && 0 <= k < s[i].1.len() ==> (match #[trigger] s[i].1[k] {
            Part::Seg(x0, x1, spray) => at_beside(x0, s[i].0, a, b, c) && at_beside(x1, s[i].0, a, b, c),
            Part::Break => true,
        })
}

proof fn lemma_scan_beside(
    rings: Seq<Seq<Pt>>,
    ys: Seq<Double>,
    thresh: Double,
    n: int,
    a: real,
    b: real,
    c: real,
    m: real,
)
    requires
        crossable(rings, m),
        rings_beside(rings, a, b, c),
        abs(a) <= 2real,
        abs(b) <= 2real,
        0 <= n <= ys.len(),
    ensures
        scan_beside(scan_at(rings, ys, thresh, n), a, b, c + 160real * (eps() * m)),
    decreases n,
{
    if n > 0 {
        lemma_scan_beside(rings, ys, thresh, n - 1, a, b, c, m);
        let (now, before) = (scan_at(rings, ys, thresh, n), scan_at(rings, ys, thresh, n - 1));
        let s = spans(rings, ys[n - 1]);
        let d = c + 160real * (eps() * m);
        assert forall|i: int, k: int| 0 <= i < now.len() && 0 <= k < now[i].1.len() implies (
        match #[trigger] now[i].1[k] {
            Part::Seg(x0, x1, spray) => at_beside(x0, now[i].0, a, b, d) && at_beside(x1, now[i].0, a, b, d),
            Part::Break => true,
        }) by {
            if i < before.len() {
                assert(now[i] == before[i]);
                assert(now[i].1[k] == before[i].1[k]);
            } else {
                let y = ys[n - 1];
                assert(now[i] == (y, parts_of(s, thresh, s.len() as int)));
                match now[i].1[k] {
                    Part::Seg(x0, x1, spray) => {
                        lemma_parts_from(s, thresh, s.len() as int, k);
                        let u = choose|u: int| 0 <= u < s.len() && ((#[trigger] s[u]).0 == x0 || s[u].1 == x0);
                        let v = choose|v: int| 0 <= v < s.len() && ((#[trigger] s[v]).0 == x1 || s[v].1 == x1);
                        lemma_span_beside(rings, y, u, a, b, c, m);
                        lemma_span_beside(rings, y, v, a, b, c, m);
                    },
                    Part::Break => {},
                }
            }
        }
    }
}

// ---------------------------------------------------------------------------
// Lines
// ---------------------------------------------------------------------------

/// A flown part is laid back from a segment of one of the first `n` scan lines.
spec fn laid_from(s: Seq<(Double, Seq<Part>)>, back: (Double, Double), origin: Pt, n: int, part: LinePart) -> bool {
    exists|i: int, j: int|
        0 <= i < n && 0 <= j < s[i].1.len() && (match #[trigger] s[i].1[j] {
            Part::Seg(x0, x1, spray) => part == (Laying { y: s[i].0, back, origin }).laid(x0, x1, spray),
            Part::Break => false,
        })
}

/// A flown part is laid back from one of the first `n` segments of a scan line.
spec fn laid_of(lay: Laying, parts: Seq<Part>, n: int, part: LinePart) -> bool {
    exists|j: int|
        0 <= j < n && (match #[trigger] parts[j] {
            Part::Seg(x0, x1, spray) => part == lay.laid(x0, x1, spray),
            Part::Break => false,
        })
}

proof fn lemma_laid_more(lay: Laying, parts: Seq<Part>, n: int, part: LinePart)
    requires
        laid_of(lay, parts, n, part),
    ensures
        laid_of(lay, parts, n + 1, part),
{
    let j = choose|j: int|
        0 <= j < n && (match #[trigger] parts[j] {
            Part::Seg(x0, x1, spray) => part == lay.laid(x0, x1, spray),
            Part::Break => false,
        });
    assert(0 <= j < n + 1 && (match parts[j] {
        Part::Seg(x0, x1, spray) => part == lay.laid(x0, x1, spray),
        Part::Break => false,
    }));
}

proof fn lemma_open_line_from(lay: Laying, parts: Seq<Part>, n: int, k: int)
    requires
        0 <= n <= parts.len(),
        0 <= k < lay.open_line(parts, n).len(),
    ensures
        laid_of(lay, parts, n, lay.open_line(parts, n)[k]),
    decreases n,
{
    if n > 0 {
        let before = lay.open_line(parts, n - 1);
        match parts[n - 1] {
            Part::Seg(x0, x1, spray) => {
                if k < before.len() {
                    lemma_open_line_from(lay, parts, n - 1, k);
                    lemma_laid_more(lay, parts, n - 1, before[k]);
                } else {
                    assert(match parts[n - 1] {
                        Part::Seg(x0, x1, spray) => lay.open_line(parts, n)[k] == lay.laid(x0, x1, spray),
                        Part::Break => false,
                    });
                }
            },
            Part::Break => {},
        }
    }
}

proof fn lemma_closed_lines_from(lay: Laying, parts: Seq<Part>, n: int, l: int, k: int)
    requires
        0 <= n <= parts.len(),
        0 <= l < lay.closed_lines(parts, n).len(),
        0 <= k < lay.closed_lines(parts, n)[l].len(),
    ensures
        laid_of(lay, parts, n, lay.closed_lines(parts, n)[l][k]),
    decreases n,
{
    if n > 0 {
        let before = lay.closed_lines(parts, n - 1);
        if l < before.len() {
            assert(lay.closed_lines(parts, n)[l] == before[l]);
            lemma_closed_lines_from(lay, parts, n - 1, l, k);
            lemma_laid_more(lay, parts, n - 1, before[l][k]);
        } else {
            lemma_open_line_from(lay, parts, n - 1, k);
            lemma_laid_more(lay, parts, n - 1, lay.open_line(parts, n - 1)[k]);
        }
    }
}

proof fn lemma_tally_from(s: Seq<(Double, Seq<Part>)>, back: (Double, Double), origin: Pt, n: int, l: int, k: int)
    requires
        0 <= n <= s.len(),
        0 <= l < tally(s, back, origin, n).lines.len(),
        0 <= k < tally(s, back, origin, n).lines[l].len(),
    ensures
        laid_from(s, back, origin, n, tally(s, back, origin, n).lines[l][k]),
    decreases n,
{
    if n > 0 {
        let before = tally(s, back, origin, n - 1).lines;
        let (y, parts) = s[n - 1];
        let lay = Laying { y, back, origin };
        let more = lay.lines(parts);
        let part = tally(s, back, origin, n).lines[l][k];
        if l < before.len() {
            lemma_tally_from(s, back, origin, n - 1, l, k);
            assert(part == before[l][k]);
            let (i, j) = choose|i: int, j: int|
                0 <= i < n - 1 && 0 <= j < s[i].1.len() && (match #[trigger] s[i].1[j] {
                    Part::Seg(x0, x1, spray) => part == (Laying { y: s[i].0, back, origin }).laid(x0, x1, spray),
                    Part::Break => false,
                });
            assert(0 <= i < n && 0 <= j < s[i].1.len() && (match s[i].1[j] {
                Part::Seg(x0, x1, spray) => part == (Laying { y: s[i].0, back, origin }).laid(x0, x1, spray),
                Part::Break => false,
            }));
        } else {
            let at = l - before.len();
            assert(part == more[at][k]);
            let c = lay.closed_lines(parts, parts.len() as int);
            if at < c.len() {
                lemma_closed_lines_from(lay, parts, parts.len() as int, at, k);
            } else {
                lemma_open_line_from(lay, parts, parts.len() as int, k);
            }
            let j = choose|j: int|
                0 <= j < parts.len() && (match #[trigger] parts[j] {
                    Part::Seg(x0, x1, spray) => part == lay.laid(x0, x1, spray),
                    Part::Break => false,
                });
            assert(0 <= n - 1 < n && 0 <= j < s[n - 1].1.len() && (match s[n - 1].1[j] {
                Part::Seg(x0, x1, spray) => part == (Laying { y: s[n - 1].0, back, origin }).laid(x0, x1, spray),
                Part::Break => false,
            }));
        }
    }
}

/// All points of a geometry have coordinates of at most `m`, on one side of a line.
pub open spec fn geom_beside(g: GeomView, m: real, a: real, b: real, c: real) -> bool {
    let rings = g.rings();
    forall|k: int, i: int|
        0 <= k < rings.len() && 0 <= i < rings[k].len() ==> point_within(#[trigger] rings[k][i], m)
            && beside(rings[k][i], a, b, c)
}

/// A turn by an angle and back: by a sine and a cosine whose squares add up to one, a sine that changes
/// its sign with the angle, and a cosine that does not.
pub open spec fn turns_both_ways(t: Trig, deg: Double) -> bool {
    &&& deg.finite()
    &&& unit(t(radians(deg)))
    &&& t(radians(deg).negated()) == (t(radians(deg)).0.negated(), t(radians(deg)).1)
}

proof fn lemma_framed_beside(g: GeomView, sc: (Double, Double), a: real, b: real, c: real, m: real)
    requires
        geom_beside(g, m, a, b, c),
        point_within(g.centroid(), m),
        unit(sc),
        1real <= m,
        1024real * m <= huge(),
        abs(a) <= 1real,
        abs(b) <= 1real,
    ensures
        ({
            let o = g.centroid();
            let (sr, cr) = (val(sc.0), val(sc.1));
            let (a1, b1) = (a * cr + b * sr, b * cr - a * sr);
            let off = a1 * val(o.x) + b1 * val(o.y) + (c - (a * val(o.x) + b * val(o.y)));
            let rings = framed(g, (sc.0.negated(), sc.1));
            &&& rings_beside(rings, a1, b1, off + 512real * (eps() * m))
            &&& rings_beside(rings, 1real, 0real, 6real * m)
            &&& rings_beside(rings, -1real, 0real, 6real * m)
            &&& rings_beside(rings, 0real, 1real, 6real * m)
            &&& rings_beside(rings, 0real, -1real, 6real * m)
            &&& abs(a1) <= 2real
            &&& abs(b1) <= 2real
        }),
{
    let o = g.centroid();
    let (sr, cr) = (val(sc.0), val(sc.1));
    let (a1, b1) = (a * cr + b * sr, b * cr - a * sr);
    let c1 = a1 * val(o.x) + b1 * val(o.y) + (c - (a * val(o.x) + b * val(o.y))) + 512real * (eps() * m);
    let rings = framed(g, (sc.0.negated(), sc.1));
    let given = g.rings();
    assert forall|k: int, i: int| 0 <= k < rings.len() && 0 <= i < rings[k].len() implies beside(
        #[trigger] rings[k][i],
        a1,
        b1,
        c1,
    ) && beside(rings[k][i], 1real, 0real, 6real * m) && beside(rings[k][i], -1real, 0real, 6real * m)
        && beside(rings[k][i], 0real, 1real, 6real * m) && beside(rings[k][i], 0real, -1real, 6real * m) by {
        let v = given[k][i];
        assert(point_within(given[k][i], m) && beside(given[k][i], a, b, c));
        assert(rings[k][i] == turned(v, (sc.0.negated(), sc.1), o));
        lemma_into(v, sc, o, a, b, c, m);
    }
    crate::tiling::lemma_turned_line(a, b, cr, sr);
}

/// The lines of a plan lie in the field: whatever line all points of the field are beside, both ends of
/// every part that the plan flies are beside it too, but for rounding. They also run in the direction of
/// the plan: from the start of a part to its end it goes by its length times the cosine across and by its
/// length times the sine up.
pub proof fn law_lines_lie_in_the_field(
    t: Trig,
    g: GeomView,
    angle_deg: Double,
    p: AircraftParams,
    l: int,
    k: int,
    a: real,
    b: real,
    c: real,
    m: real,
)
    requires
        turns_both_ways(t, angle_deg),
        geom_beside(g, m, a, b, c),
        point_within(g.centroid(), m),
        crossable(framed(g, t(radians(angle_deg.negated()))), 6real * m),
        1real <= m,
        1024real * m <= huge(),
        abs(a) <= 1real,
        abs(b) <= 1real,
        0 <= l < plan_by(t, g, angle_deg, p).lines.len(),
        0 <= k < plan_by(t, g, angle_deg, p).lines[l].len(),
    ensures
        ({
            let part = plan_by(t, g, angle_deg, p).lines[l][k];
            let (s, cos) = (val(t(radians(angle_deg)).0), val(t(radians(angle_deg)).1));
            let e = 2048real * (eps() * m);
            &&& beside(part.0, a, b, c + 2real * e)
            &&& beside(part.1, a, b, c + 2real * e)
            &&& part.3.finite()
            &&& abs(val(part.1.x) - val(part.0.x) - val(part.3) * cos) <= e
            &&& abs(val(part.1.y) - val(part.0.y) - val(part.3) * s) <= e
        }),
{
    let o = g.centroid();
    let sc = t(radians(angle_deg));
    lemma_radians_back(angle_deg);
    let into = t(radians(angle_deg.negated()));
    assert(into == (sc.0.negated(), sc.1));
    let rings = framed(g, into);
    let (sr, cr) = (val(sc.0), val(sc.1));
    let (a1, b1) = (a * cr + b * sr, b * cr - a * sr);
    let off = a1 * val(o.x) + b1 * val(o.y) + (c - (a * val(o.x) + b * val(o.y)));
    let e = eps();
    let em = e * m;
    lemma_eps();
    lemma_framed_beside(g, sc, a, b, c, m);
    let sl = scan(rings, p);
    let (lo, hi) = crate::scanline::heights(rings, rings.len() as int);
    let ys = crate::scanline::steps_up(lo.plus(p.swath_ft.over(Double::of_int(2))), p.swath_ft, hi);
    let th = p.gap_threshold_ft();
    let n = ys.len() as int;
    let m6 = 6real * m;
    lemma_assoc(e, 6real, m);
    let d = 960real * em;
    assert(160real * (e * m6) == d);
    lemma_scan_beside(rings, ys, th, n, a1, b1, off + 512real * em, m6);
    lemma_scan_beside(rings, ys, th, n, 1real, 0real, m6, m6);
    lemma_scan_beside(rings, ys, th, n, -1real, 0real, m6, m6);
    lemma_scan_beside(rings, ys, th, n, 0real, 1real, m6, m6);
    lemma_scan_beside(rings, ys, th, n, 0real, -1real, m6, m6);
    lemma_tally_from(sl, sc, o, sl.len() as int, l, k);
    let part = plan_by(t, g, angle_deg, p).lines[l][k];
    let (i, j) = choose|i: int, j: int|
        0 <= i < sl.len() && 0 <= j < sl[i].1.len() && (match #[trigger] sl[i].1[j] {
            Part::Seg(x0, x1, spray) => part == (Laying { y: sl[i].0, back: sc, origin: o }).laid(x0, x1, spray),
            Part::Break => false,
        });
    match sl[i].1[j] {
        Part::Seg(x0, x1, spray) => {
            let y = sl[i].0;
            let (u, v) = (Pt { x: x0, y }, Pt { x: x1, y });
            let c2 = c + 512real * em + d;
            lemma_assoc(0x20000000000000real, e, m);
            assert(em * 0x20000000000000real == m);
            lemma_ends(u, a1, b1, off + 512real * em + d, m6 + d, m);
            lemma_ends(v, a1, b1, off + 512real * em + d, m6 + d, m);
            lemma_back(u, sc, o, a, b, c2, m);
            lemma_back(v, sc, o, a, b, c2, m);
            lemma_run(u, v, sc, o, m);
        },
        Part::Break => {},
    }
}

/// A point in a frame is within a square.
proof fn lemma_ends(u: Pt, a: real, b: real, c: real, sq: real, m: real)
    requires
        beside(u, a, b, c),
        beside(u, 1real, 0real, sq),
        beside(u, -1real, 0real, sq),
        beside(u, 0real, 1real, sq),
        beside(u, 0real, -1real, sq),
        sq <= 8real * m,
    ensures
        point_within(u, 8real * m),
        a * val(u.x) + b * val(u.y) <= c,
{
    assert(0real * val(u.x) == 0real && 0real * val(u.y) == 0real && 1real * val(u.x) == val(u.x) && 1real
        * val(u.y) == val(u.y) && -1real * val(u.x) == -val(u.x) && -1real * val(u.y) == -val(u.y));
}

/// A level segment, turned back, runs in the direction of the turn.
proof fn lemma_run(u: Pt, v: Pt, sc: (Double, Double), o: Pt, m: real)
    requires
        point_within(u, 8real * m),
        point_within(v, 8real * m),
        u.y == v.y,
        point_within(o, m),
        circular(sc),
        1real <= m,
        1024real * m <= huge(),
    ensures
        ({
            let (a, b) = (turned(u, sc, o), turned(v, sc, o));
            let l = v.x.minus(u.x);
            let e = 2048real * (eps() * m);
            &&& l.finite()
            &&& abs(val(b.x) - val(a.x) - val(l) * val(sc.1)) <= e
            &&& abs(val(b.y) - val(a.y) - val(l) * val(sc.0)) <= e
        }),
{
    lemma_eps();
    let em = eps() * m;
    lemma_turned_val(u, sc, o, 8real * m);
    lemma_turned_val(v, sc, o, 8real * m);
    lemma_assoc(eps(), 8real, m);
    lemma_near_sub(v.x, val(v.x), 0real, u.x, val(u.x), 0real, 16real * m);
    lemma_assoc(eps(), 16real, m);
    let l = v.x.minus(u.x);
    let r = val(v.x) - val(u.x);
    let f = val(l) - r;
    let (s, c) = (val(sc.0), val(sc.1));
    let (p, q) = (val(u.x) - val(o.x), val(v.x) - val(o.x));
    let h = val(u.y) - val(o.y);
    lemma_dist(q, p, c);
    lemma_dist(q, p, s);
    assert(q - p == r);
    lemma_dist(r, f, c);
    lemma_dist(r, f, s);
    lemma_abs_mul(f, c);
    lemma_abs_mul(f, s);
    lemma_le(abs(c), 1real, abs(f));
    lemma_le(abs(s), 1real, abs(f));
    assert(val(l) == r + f);
}

} // verus!
