//! Laws of passes: how far apart they lie, what they spray and what they leave out.
use vstd::prelude::*;

use crate::double::Double;
use crate::geom::{next_pt, Pt};
use crate::near::{
    abs, eps, huge, lemma_assoc, lemma_dist, lemma_eps, lemma_le, lemma_near_add, lemma_near_div, lemma_val_order,
    lemma_whole_val, near, val,
};
use crate::params::AircraftParams;
use crate::plan::Part;
use crate::scanline::{
    crossing, crossings, heights, no_span, pairs, parts_of, ring_crossings, ring_heights, scan, scan_at, spans,
    steps_up,
};
use crate::sorting::{by_number, law_sorted_by, sorted_by};

verus! {

// ---------------------------------------------------------------------------
// Heights
// ---------------------------------------------------------------------------

/// Rings with a point each, whose heights are at most `m`.
pub open spec fn tall(rings: Seq<Seq<Pt>>, m: real) -> bool {
    &&& rings.len() > 0
    &&& forall|k: int| 0 <= k < rings.len() ==> (#[trigger] rings[k]).len() > 0
    &&& forall|k: int, i: int|
        0 <= k < rings.len() && 0 <= i < rings[k].len() ==> (#[trigger] rings[k][i]).y.finite() && abs(
            val(rings[k][i].y),
        ) <= m
}

proof fn lemma_ring_heights(r: Seq<Pt>, n: int, a: Double, b: Double)
    requires
        1 <= n <= r.len(),
        forall|i: int| 0 <= i < r.len() ==> (#[trigger] r[i]).y.finite(),
        (a == Double::infinity() && b == Double::infinity().negated()) || (a.finite() && b.finite()),
    ensures
        ({
            let (lo, hi) = ring_heights(r, n, a, b);
            &&& lo.finite() && hi.finite()
            &&& forall|i: int| 0 <= i < n ==> val(lo) <= val((#[trigger] r[i]).y) <= val(hi)
            &&& a.finite() ==> val(lo) <= val(a) && val(b) <= val(hi)
            &&& (a.finite() && lo == a) || exists|i: int| 0 <= i < n && (#[trigger] r[i]).y == lo
            &&& (b.finite() && hi == b) || exists|i: int| 0 <= i < n && (#[trigger] r[i]).y == hi
        }),
    decreases n,
{
    let (lo, hi) = ring_heights(r, n, a, b);
    let (c, d) = ring_heights(r, n - 1, a, b);
    let y = r[n - 1].y;
    if n > 1 {
        lemma_ring_heights(r, n - 1, a, b);
    } else {
        assert(ring_heights(r, 0, a, b) == (a, b));
    }
    if c.finite() {
        lemma_val_order(y, c);
        lemma_val_order(c, y);
        lemma_val_order(y, d);
        lemma_val_order(d, y);
    }
    assert(lo == c || r[n - 1].y == lo);
    assert(hi == d || r[n - 1].y == hi);
}

proof fn lemma_heights(rings: Seq<Seq<Pt>>, n: int, m: real)
    requires
        tall(rings, m),
        1 <= n <= rings.len(),
    ensures
        ({
            let (lo, hi) = heights(rings, n);
            &&& lo.finite() && hi.finite()
            &&& forall|k: int, i: int|
                0 <= k < n && 0 <= i < rings[k].len() ==> val(lo) <= val((#[trigger] rings[k][i]).y) <= val(hi)
            &&& exists|k: int, i: int| 0 <= k < n && 0 <= i < rings[k].len() && (#[trigger] rings[k][i]).y == lo
            &&& exists|k: int, i: int| 0 <= k < n && 0 <= i < rings[k].len() && (#[trigger] rings[k][i]).y == hi
        }),
    decreases n,
{
    let (a, b) = heights(rings, n - 1);
    let r = rings[n - 1];
    if n > 1 {
        lemma_heights(rings, n - 1, m);
    } else {
        assert(heights(rings, 0) == (Double::infinity(), Double::infinity().negated()));
    }
    assert forall|i: int| 0 <= i < r.len() implies (#[trigger] r[i]).y.finite() by {
        assert(rings[n - 1][i].y.finite());
    }
    lemma_ring_heights(r, r.len() as int, a, b);
    let (lo, hi) = heights(rings, n);
    assert forall|k: int, i: int| 0 <= k < n && 0 <= i < rings[k].len() implies val(lo) <= val(
        (#[trigger] rings[k][i]).y,
    ) <= val(hi) by {
        if k == n - 1 {
            assert(val(lo) <= val(r[i].y) <= val(hi));
        }
    }
    if exists|i: int| 0 <= i < r.len() && (#[trigger] r[i]).y == lo {
        let i = choose|i: int| 0 <= i < r.len() && (#[trigger] r[i]).y == lo;
        assert(rings[n - 1][i].y == lo);
    } else {
        assert(n > 1);
        let (k, i) = choose|k: int, i: int|
            0 <= k < n - 1 && 0 <= i < rings[k].len() && (#[trigger] rings[k][i]).y == a;
        assert(rings[k][i].y == lo);
    }
    if exists|i: int| 0 <= i < r.len() && (#[trigger] r[i]).y == hi {
        let i = choose|i: int| 0 <= i < r.len() && (#[trigger] r[i]).y == hi;
        assert(rings[n - 1][i].y == hi);
    } else {
        assert(n > 1);
        let (k, i) = choose|k: int, i: int|
            0 <= k < n - 1 && 0 <= i < rings[k].len() && (#[trigger] rings[k][i]).y == b;
        assert(rings[k][i].y == hi);
    }
}

/// Steps lead on by a step each, and do not stop before the top.
proof fn lemma_steps(y: Double, r: real, off: real, step: Double, max: Double, m: real)
    requires
        near(y, r, off),
        abs(val(y)) <= 4real * m,
        max.finite(),
        val(max) <= m,
        step.finite(),
        64real * (eps() * m) <= val(step) <= m,
        0real <= off,
        1real <= m,
        64real * m <= huge(),
    ensures
        ({
            let ys = steps_up(y, step, max);
            let e = 8real * (eps() * m);
            &&& forall|k: int|
                0 <= k < ys.len() ==> near(#[trigger] ys[k], r + (k as real) * val(step), off + (k as real) * e)
                    && val(ys[k]) <= val(max)
            &&& val(max) < r + (ys.len() as real) * val(step) + off + (ys.len() as real) * e
        }),
    decreases (if y.le(max) { max.key() - y.key() + 1 } else { 0 }),
{
    let ys = steps_up(y, step, max);
    let e = 8real * (eps() * m);
    let s = val(step);
    lemma_val_order(y, max);
    assert(0real * s == 0real && 0real * e == 0real && 1real * s == s && 1real * e == e);
    if y.le(max) {
        let next = y.plus(step);
        lemma_eps();
        lemma_le(0real, eps(), m);
        assert(0real * m == 0real);
        lemma_near_add(y, val(y), 0real, step, s, 0real, 8real * m);
        lemma_assoc(eps(), 8real, m);
        assert(near(next, val(y) + s, e));
        lemma_val_order(y, next);
        assert(y.lt(next));
        let rest = steps_up(next, step, max);
        lemma_assoc(0x20000000000000real, eps(), m);
        assert(eps() * m * 0x20000000000000real == m);
        lemma_steps(next, r + s, off + e, step, max, m);
        assert forall|k: int| 0 <= k < ys.len() implies near(
            #[trigger] ys[k],
            r + (k as real) * s,
            off + (k as real) * e,
        ) && val(ys[k]) <= val(max) by {
            if k == 0 {
                assert(ys[k] == y);
            } else {
                let j = k - 1;
                assert(ys[k] == rest[j]);
                let jr = j as real;
                lemma_dist(k as real, -1real, s);
                lemma_dist(k as real, -1real, e);
                assert(jr == k as real + -1real);
            }
        }
        let jr = rest.len() as real;
        assert(ys.len() as real == jr + 1real);
        lemma_dist(jr, 1real, s);
        lemma_dist(jr, 1real, e);
    } else {
        assert(ys.len() == 0);
    }
}

/// Scan lines lie at the first `n` heights on which something is inside, and at no others.
pub open spec fn lines_at(rings: Seq<Seq<Pt>>, s: Seq<(Double, Seq<Part>)>, ys: Seq<Double>, n: int) -> bool {
    &&& forall|i: int| 0 <= i < s.len() ==> exists|k: int| 0 <= k < n && (#[trigger] s[i]).0 == #[trigger] ys[k]
    &&& forall|k: int|
        0 <= k < n && spans(rings, #[trigger] ys[k]).len() > 0 ==> exists|i: int|
            0 <= i < s.len() && (#[trigger] s[i]).0 == ys[k]
}

proof fn lemma_scanned(rings: Seq<Seq<Pt>>, ys: Seq<Double>, thresh: Double, n: int)
    requires
        0 <= n <= ys.len(),
    ensures
        lines_at(rings, scan_at(rings, ys, thresh, n), ys, n),
    decreases n,
{
    if n > 0 {
        lemma_scanned(rings, ys, thresh, n - 1);
        let (s, before) = (scan_at(rings, ys, thresh, n), scan_at(rings, ys, thresh, n - 1));
        assert forall|i: int| 0 <= i < s.len() implies exists|k: int|
            0 <= k < n && (#[trigger] s[i]).0 == #[trigger] ys[k] by {
            if i < before.len() {
                assert(s[i] == before[i]);
                let k = choose|k: int| 0 <= k < n - 1 && before[i].0 == #[trigger] ys[k];
                assert(s[i].0 == ys[k]);
            } else {
                assert(s[i].0 == ys[n - 1]);
            }
        }
        assert forall|k: int| 0 <= k < n && spans(rings, #[trigger] ys[k]).len() > 0 implies exists|i: int|
            0 <= i < s.len() && (#[trigger] s[i]).0 == ys[k] by {
            if k < n - 1 {
                let i = choose|i: int| 0 <= i < before.len() && (#[trigger] before[i]).0 == ys[k];
                assert(s[i].0 == ys[k]);
            } else {
                assert(s[s.len() - 1].0 == ys[k]);
            }
        }
    }
}

/// Passes lie a swath apart. The lowest is half a swath above the lowest point, `at.0`, each other
/// a swath above the one before, but for rounding, and no more than half a swath and a rounding error
/// is left between the last and the highest point, `at.1`. Of these heights, those on which something
/// lies inside are scan lines, and no others.
pub proof fn law_passes_a_swath_apart(rings: Seq<Seq<Pt>>, p: AircraftParams, m: real) -> (r: (
    Seq<Double>,
    (int, int),
    (int, int),
))
    requires
        tall(rings, m),
        p.swath_ft.finite(),
        64real * (eps() * m) <= val(p.swath_ft) <= m,
        1real <= m,
        64real * m <= huge(),
    ensures
        ({
            let (ys, low, high) = r;
            let (a, b) = (val(rings[low.0][low.1].y), val(rings[high.0][high.1].y));
            let s = val(p.swath_ft);
            let e = 8real * (eps() * m);
            &&& 0 <= low.0 < rings.len() && 0 <= low.1 < rings[low.0].len()
            &&& 0 <= high.0 < rings.len() && 0 <= high.1 < rings[high.0].len()
            &&& forall|k: int, i: int|
                0 <= k < rings.len() && 0 <= i < rings[k].len() ==> a <= val((#[trigger] rings[k][i]).y) <= b
            &&& forall|k: int|
                0 <= k < ys.len() ==> near(
                    #[trigger] ys[k],
                    a + s / 2real + (k as real) * s,
                    (k as real) * e + e,
                ) && val(ys[k]) <= b
            &&& b < a + s / 2real + (ys.len() as real) * s + (ys.len() as real) * e + e
            &&& lines_at(rings, scan(rings, p), ys, ys.len() as int)
        }),
{
    let n = rings.len() as int;
    lemma_heights(rings, n, m);
    let (lo, hi) = heights(rings, n);
    let low = choose|k: int, i: int| 0 <= k < n && 0 <= i < rings[k].len() && (#[trigger] rings[k][i]).y == lo;
    let high = choose|k: int, i: int| 0 <= k < n && 0 <= i < rings[k].len() && (#[trigger] rings[k][i]).y == hi;
    let s = val(p.swath_ft);
    let em = eps() * m;
    lemma_eps();
    lemma_whole_val(2);
    lemma_assoc(0x20000000000000real, eps(), m);
    assert(em * 0x20000000000000real == m);
    let two = Double::of_int(2);
    lemma_near_div(p.swath_ft, s, 0real, two, m);
    let half = p.swath_ft.over(two);
    assert(0real / 2real == 0real);
    lemma_near_add(lo, val(lo), 0real, half, s / 2real, 2real * em, 2real * m);
    lemma_assoc(eps(), 2real, m);
    let y = lo.plus(half);
    lemma_steps(y, val(lo) + s / 2real, 8real * em, p.swath_ft, hi, m);
    let ys = steps_up(y, p.swath_ft, hi);
    let e = 8real * em;
    let (a, b) = (val(rings[low.0][low.1].y), val(rings[high.0][high.1].y));
    assert(a == val(lo) && b == val(hi));
    assert forall|k: int| 0 <= k < ys.len() implies near(
        #[trigger] ys[k],
        a + s / 2real + (k as real) * s,
        (k as real) * e + e,
    ) && val(ys[k]) <= b by {}
    assert(b < a + s / 2real + (ys.len() as real) * s + (ys.len() as real) * e + e);
    assert(scan(rings, p) == scan_at(rings, ys, p.gap_threshold_ft(), ys.len() as int));
    lemma_scanned(rings, ys, p.gap_threshold_ft(), ys.len() as int);
    (ys, low, high)
}

// ---------------------------------------------------------------------------
// Parts
// ---------------------------------------------------------------------------

/// What lies between a span and the next: the gap, flown through with the booms off if it is shorter
/// than the threshold, and else a break.
pub open spec fn between(s: Seq<(Double, Double)>, thresh: Double, k: int) -> Part {
    if s[k + 1].0.minus(s[k].1).lt(thresh) {
        Part::Seg(s[k].1, s[k + 1].0, false)
    } else {
        Part::Break
    }
}

/// Spans are sprayed, one after the other; between one and the next lies the gap, flown through with
/// the booms off if it is shorter than the threshold, and else a break.
pub proof fn law_parts_alternate(s: Seq<(Double, Double)>, thresh: Double, n: int)
    requires
        1 <= n <= s.len(),
    ensures
        ({
            let parts = parts_of(s, thresh, n);
            &&& parts.len() == 2 * n - 1
            &&& forall|k: int|
                0 <= k < n ==> parts[2 * k] == Part::Seg((#[trigger] s[k]).0, s[k].1, true)
            &&& forall|k: int|
                0 <= k < n - 1 ==> parts[2 * k + 1] == #[trigger] between(s, thresh, k)
        }),
    decreases n,
{
    let (now, before) = (parts_of(s, thresh, n), parts_of(s, thresh, n - 1));
    if n > 1 {
        law_parts_alternate(s, thresh, n - 1);
        let (x0, x1) = s[n - 1];
        let gap = between(s, thresh, n - 2);
        assert(now == before.push(gap).push(Part::Seg(x0, x1, true)));
        assert forall|k: int| 0 <= k < n implies now[2 * k] == Part::Seg((#[trigger] s[k]).0, s[k].1, true) by {
            if k < n - 1 {
                assert(now[2 * k] == before[2 * k]);
            }
        }
        assert forall|k: int| 0 <= k < n - 1 implies now[2 * k + 1] == #[trigger] between(
            s,
            thresh,
            k,
        ) by {
            if k < n - 2 {
                assert(now[2 * k + 1] == before[2 * k + 1]);
            }
        }
    } else {
        assert(before.len() == 0);
        assert(now =~= seq![Part::Seg(s[0].0, s[0].1, true)]);
    }
}

// ---------------------------------------------------------------------------
// Inside and outside
// ---------------------------------------------------------------------------

/// A line crosses an edge if its height is from that of the lower end up to below that of the upper one.
pub proof fn law_crossed_between_the_ends(a: Pt, b: Pt, y: Double)
    requires
        a.y.finite(),
        b.y.finite(),
        y.finite(),
    ensures
        crossing(a, b, y) is Some <==> (val(a.y) <= val(y) < val(b.y) || val(b.y) <= val(y) < val(a.y)),
{
    lemma_val_order(a.y, b.y);
    lemma_val_order(b.y, a.y);
    lemma_val_order(a.y, y);
    lemma_val_order(b.y, y);
    lemma_val_order(y, a.y);
    lemma_val_order(y, b.y);
}

/// How many of the first `n` numbers are below `x`.
pub open spec fn below(xs: Seq<Double>, x: real, n: int) -> int
    decreases n,
{
    if n <= 0 {
        0
    } else {
        below(xs, x, n - 1) + (if val(xs[n - 1]) < x { 1int } else { 0 })
    }
}

/// How many of the first `n` edges of a ring the line at height `y` crosses to the left of `x`.
pub open spec fn edges_left(r: Seq<Pt>, y: Double, x: real, n: int) -> int
    decreases n,
{
    if n <= 0 {
        0
    } else {
        edges_left(r, y, x, n - 1) + (match crossing(r[n - 1], next_pt(r, n - 1), y) {
            Some(at) if val(at) < x => 1int,
            _ => 0,
        })
    }
}

/// A point on the line at height `y` is inside a ring: from there to the left an odd number of edges is
/// crossed.
pub open spec fn inside(r: Seq<Pt>, y: Double, x: real) -> bool {
    edges_left(r, y, x, r.len() as int) % 2 == 1
}

/// How many of the first `n` rings a point is inside of.
pub open spec fn rings_round(rings: Seq<Seq<Pt>>, y: Double, x: real, n: int) -> int
    decreases n,
{
    if n <= 0 {
        0
    } else {
        rings_round(rings, y, x, n - 1) + (if inside(rings[n - 1], y, x) { 1int } else { 0 })
    }
}

proof fn lemma_below_more(a: Seq<Double>, b: Seq<Double>, x: real, n: int)
    requires
        0 <= n <= b.len(),
    ensures
        below(a + b, x, a.len() + n) == below(a, x, a.len() as int) + below(b, x, n),
    decreases n,
{
    if n > 0 {
        lemma_below_more(a, b, x, n - 1);
        assert((a + b)[a.len() + n - 1] == b[n - 1]);
    } else {
        lemma_below_same(a + b, a, x, a.len() as int);
    }
}

proof fn lemma_below_same(a: Seq<Double>, b: Seq<Double>, x: real, n: int)
    requires
        0 <= n <= a.len(),
        n <= b.len(),
        forall|i: int| 0 <= i < n ==> a[i] == b[i],
    ensures
        below(a, x, n) == below(b, x, n),
    decreases n,
{
    if n > 0 {
        lemma_below_same(a, b, x, n - 1);
    }
}

proof fn lemma_edges_left(r: Seq<Pt>, y: Double, x: real, n: int)
    requires
        0 <= n <= r.len(),
    ensures
        below(ring_crossings(r, y, n), x, ring_crossings(r, y, n).len() as int) == edges_left(r, y, x, n),
    decreases n,
{
    if n > 0 {
        lemma_edges_left(r, y, x, n - 1);
        let (now, before) = (ring_crossings(r, y, n), ring_crossings(r, y, n - 1));
        if crossing(r[n - 1], next_pt(r, n - 1), y) is Some {
            lemma_below_same(now, before, x, before.len() as int);
        }
    }
}

proof fn lemma_rings_round(rings: Seq<Seq<Pt>>, y: Double, x: real, n: int)
    requires
        0 <= n <= rings.len(),
    ensures
        below(crossings(rings, y, n), x, crossings(rings, y, n).len() as int) % 2 == rings_round(rings, y, x, n) % 2,
    decreases n,
{
    if n > 0 {
        lemma_rings_round(rings, y, x, n - 1);
        let r = rings[n - 1];
        let (before, more) = (crossings(rings, y, n - 1), ring_crossings(r, y, r.len() as int));
        lemma_below_more(before, more, x, more.len() as int);
        lemma_edges_left(r, y, x, r.len() as int);
    }
}

/// How many numbers are below another does not depend on their order.
proof fn lemma_below_any_order(a: Seq<Double>, b: Seq<Double>, x: real)
    requires
        a.to_multiset() == b.to_multiset(),
    ensures
        below(a, x, a.len() as int) == below(b, x, b.len() as int),
{
    lemma_below_multiset(a, x);
    lemma_below_multiset(b, x);
}

proof fn lemma_below_multiset(a: Seq<Double>, x: real)
    ensures
        below(a, x, a.len() as int) == a.to_multiset().filter(|v: Double| val(v) < x).len(),
    decreases a.len(),
{
    broadcast use vstd::multiset::group_multiset_axioms, vstd::seq_lib::group_to_multiset_ensures;

    let f = |v: Double| val(v) < x;
    if a.len() > 0 {
        let (b, last) = (a.drop_last(), a.last());
        lemma_below_multiset(b, x);
        lemma_below_same(a, b, x, b.len() as int);
        assert(a =~= b.push(last));
        assert(a.to_multiset() =~= b.to_multiset().insert(last));
        if f(last) {
            assert(a.to_multiset().filter(f) =~= b.to_multiset().filter(f).insert(last));
        } else {
            assert(a.to_multiset().filter(f) =~= b.to_multiset().filter(f));
        }
    } else {
        assert(a.to_multiset().filter(f) =~= vstd::multiset::Multiset::empty());
    }
}

/// Of sorted numbers, those up to one below `x` are below it, and those from one that is not are not.
proof fn lemma_below_sorted(xs: Seq<Double>, x: real, k: int, n: int)
    requires
        0 <= k <= n <= xs.len(),
        forall|i: int| 0 <= i < k ==> val(#[trigger] xs[i]) < x,
        forall|i: int| k <= i < n ==> x <= val(#[trigger] xs[i]),
    ensures
        below(xs, x, n) == k,
    decreases n,
{
    if n > 0 {
        if k == n {
            lemma_below_sorted(xs, x, n - 1, n - 1);
        } else {
            lemma_below_sorted(xs, x, k, n - 1);
        }
    }
}

/// A pair of neighbours, and its place.
proof fn lemma_pair_at(xs: Seq<Double>, n: int, k: int) -> (j: int)
    requires
        0 <= n,
        2 * n <= xs.len(),
        0 <= k < pairs(xs, n).len(),
    ensures
        0 <= j < n,
        pairs(xs, n)[k] == (xs[2 * j], xs[2 * j + 1]),
    decreases n,
{
    if k < pairs(xs, n - 1).len() {
        lemma_pair_at(xs, n - 1, k)
    } else {
        n - 1
    }
}

/// A pair that is far enough apart is kept.
proof fn lemma_pair_kept(xs: Seq<Double>, n: int, j: int) -> (k: int)
    requires
        0 <= j < n,
        2 * n <= xs.len(),
        no_span().lt(xs[2 * j + 1].minus(xs[2 * j])),
    ensures
        0 <= k < pairs(xs, n).len(),
        pairs(xs, n)[k] == (xs[2 * j], xs[2 * j + 1]),
    decreases n,
{
    if j == n - 1 {
        pairs(xs, n).len() - 1
    } else {
        lemma_pair_kept(xs, n - 1, j)
    }
}

/// Crossings sorted from left to right.
proof fn lemma_crossings_sorted(rings: Seq<Seq<Pt>>, y: Double, x: real)
    requires
        forall|i: int|
            0 <= i < crossings(rings, y, rings.len() as int).len() ==> (#[trigger] crossings(
                rings,
                y,
                rings.len() as int,
            )[i]).finite(),
    ensures
        ({
            let xs = sorted_by(crossings(rings, y, rings.len() as int), by_number());
            &&& below(xs, x, xs.len() as int) % 2 == rings_round(rings, y, x, rings.len() as int) % 2
            &&& forall|i: int| 0 <= i < xs.len() ==> (#[trigger] xs[i]).finite()
            &&& forall|i: int, j: int| 0 <= i <= j < xs.len() ==> val(#[trigger] xs[i]) <= val(#[trigger] xs[j])
        }),
{
    broadcast use vstd::seq_lib::group_to_multiset_ensures;

    let c = crossings(rings, y, rings.len() as int);
    let xs = sorted_by(c, by_number());
    law_sorted_by(c, by_number());
    lemma_rings_round(rings, y, x, rings.len() as int);
    lemma_below_any_order(c, xs, x);
    assert forall|i: int| 0 <= i < xs.len() implies (#[trigger] xs[i]).finite() by {
        assert(xs.contains(xs[i]));
        assert(xs.to_multiset().count(xs[i]) > 0);
        assert(c.contains(xs[i]));
    }
    assert forall|i: int, j: int| 0 <= i <= j < xs.len() implies val(#[trigger] xs[i]) <= val(#[trigger] xs[j]) by {
        assert(by_number()(xs[i]) <= by_number()(xs[j]));
        lemma_val_order(xs[i], xs[j]);
    }
}

/// What is sprayed is inside the field: every point within a span is inside an odd number of the rings.
/// With a boundary and holes that lie in it and apart from one another, it is inside the boundary and in
/// no hole.
pub proof fn law_spans_are_inside(rings: Seq<Seq<Pt>>, y: Double, k: int, x: real)
    requires
        forall|i: int|
            0 <= i < crossings(rings, y, rings.len() as int).len() ==> (#[trigger] crossings(
                rings,
                y,
                rings.len() as int,
            )[i]).finite(),
        0 <= k < spans(rings, y).len(),
        val(spans(rings, y)[k].0) < x <= val(spans(rings, y)[k].1),
    ensures
        rings_round(rings, y, x, rings.len() as int) % 2 == 1,
{
    let xs = sorted_by(crossings(rings, y, rings.len() as int), by_number());
    lemma_crossings_sorted(rings, y, x);
    let j = lemma_pair_at(xs, xs.len() as int / 2, k);
    lemma_below_sorted(xs, x, 2 * j + 1, xs.len() as int);
}

/// All that is inside the field is sprayed: on a line that crosses an even number of edges, a point inside
/// an odd number of the rings lies within a span, or between two neighbours that are too close to make one.
pub proof fn law_inside_is_spanned(rings: Seq<Seq<Pt>>, y: Double, x: real) -> (r: (bool, Double, Double))
    requires
        forall|i: int|
            0 <= i < crossings(rings, y, rings.len() as int).len() ==> (#[trigger] crossings(
                rings,
                y,
                rings.len() as int,
            )[i]).finite(),
        crossings(rings, y, rings.len() as int).len() % 2 == 0,
        rings_round(rings, y, x, rings.len() as int) % 2 == 1,
    ensures
        ({
            let (kept, x0, x1) = r;
            &&& x0.finite() && x1.finite()
            &&& val(x0) < x <= val(x1)
            &&& kept ==> spans(rings, y).contains((x0, x1))
            &&& !kept ==> !no_span().lt(x1.minus(x0))
        }),
{
    broadcast use vstd::seq_lib::group_to_multiset_ensures;

    let c = crossings(rings, y, rings.len() as int);
    let xs = sorted_by(c, by_number());
    law_sorted_by(c, by_number());
    lemma_crossings_sorted(rings, y, x);
    assert(xs.len() == c.len()) by {
        assert(xs.to_multiset().len() == c.to_multiset().len());
    }
    let n = xs.len() as int;
    let b = below(xs, x, n);
    lemma_below_split(xs, x, n);
    let j = (b - 1) / 2;
    assert(b == 2 * j + 1 && 0 <= j < n / 2);
    let (x0, x1) = (xs[2 * j], xs[2 * j + 1]);
    if no_span().lt(x1.minus(x0)) {
        let k = lemma_pair_kept(xs, n / 2, j);
        assert(spans(rings, y)[k] == (x0, x1));
        (true, x0, x1)
    } else {
        (false, x0, x1)
    }
}

/// Sorted numbers below `x` come first.
proof fn lemma_below_split(xs: Seq<Double>, x: real, n: int)
    requires
        0 <= n <= xs.len(),
        forall|i: int, j: int| 0 <= i <= j < xs.len() ==> val(#[trigger] xs[i]) <= val(#[trigger] xs[j]),
    ensures
        0 <= below(xs, x, n) <= n,
        forall|i: int| 0 <= i < below(xs, x, n) ==> val(#[trigger] xs[i]) < x,
        forall|i: int| below(xs, x, n) <= i < n ==> x <= val(#[trigger] xs[i]),
    decreases n,
{
    if n > 0 {
        lemma_below_split(xs, x, n - 1);
        if val(xs[n - 1]) < x && below(xs, x, n - 1) < n - 1 {
            assert(val(xs[below(xs, x, n - 1)]) <= val(xs[n - 1]));
        }
    }
}

} // verus!
