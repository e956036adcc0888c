//! Laws of sweeps and orders: where a polygon is cut, which directions are tried, and what comes first.
use vstd::prelude::*;

use crate::boundary::{
    distinct_sorted, events, law_distinct_sorted, ring_events, shared, tenth, tenths, turning_points, turns_back,
};
use crate::cells::{best_neighbor, slab};
use crate::decompose::{aligned, leader, members, sweeps_for};
use crate::double::Double;
use crate::field::{large_parts, negated_areas, parts_to_plan, small_part, transit};
use crate::geom::{bounds_of, dist_by, law_bounds_hold_points, poly_distance_by, GeomView, PolygonView, Pt};
use crate::merge::{saving, BlockView};
use crate::near::{
    abs, eps, huge, lemma_assoc, lemma_dist, lemma_eps, lemma_le, lemma_near_add, lemma_near_div, lemma_near_mul,
    lemma_near_sub, lemma_one, lemma_ratio_val, lemma_round_val, lemma_val_order, lemma_whole_val, lemma_zero, near,
    val,
};
use crate::ordering::{law_greedy_rearranges, Flight};
use crate::params::AircraftParams;
use crate::plan::{plan_by, PlanView};
use crate::sorting::{by_key, indices, law_sorted_by, sorted_by};
use crate::timing::within;
use crate::tools::{Hypot, Trig};

verus! {

// ---------------------------------------------------------------------------
// Where a polygon is cut
// ---------------------------------------------------------------------------

/// A number rounded to a tenth is a tenth of a whole number, `n`, and no farther away than half a tenth, but for
/// rounding.
pub proof fn law_tenth(x: Double, m: real) -> (n: int)
    requires
        x.finite(),
        abs(val(x)) <= m,
        1real <= m <= 0x10000000000real,
    ensures
        near(tenth(x), (n as real) / 10real, 4real * (eps() * m)),
        abs(val(tenth(x)) - val(x)) <= 1real / 20real + 8real * (eps() * m),
{
    lemma_eps();
    lemma_one();
    lemma_whole_val(10);
    let e = eps();
    let em = e * m;
    lemma_le(1real, m, e);
    lemma_le(e, 1real / 0x10000000000real, m);
    let ten = Double::of_int(10);
    assert((m + 0real) * 10real == 10real * m && 0real * 10real == 0real && m * 0real == 0real);
    lemma_near_mul(x, val(x), 0real, ten, 10real, 0real, m, 10real, 16real * m);
    lemma_assoc(e, 16real, m);
    let a = x.times(ten);
    let n = lemma_round_val(a);
    let r = n as real;
    lemma_near_div(a.round(), r, 0real, ten, 2real * m);
    lemma_assoc(e, 2real, m);
    assert(0real / 10real == 0real);
    n
}

proof fn lemma_ring_events(r: Seq<Pt>, n: int, i: int)
    requires
        0 <= i < n <= r.len(),
        turns_back(r, i),
    ensures
        ring_events(r, n).contains(r[i].x),
    decreases n,
{
    let now = ring_events(r, n);
    if i == n - 1 {
        assert(now[now.len() - 1] == r[i].x);
    } else {
        lemma_ring_events(r, n - 1, i);
        let before = ring_events(r, n - 1);
        let j = choose|j: int| 0 <= j < before.len() && before[j] == r[i].x;
        assert(now[j] == r[i].x);
    }
}

proof fn lemma_turning_points(rings: Seq<Seq<Pt>>, n: int, k: int, i: int)
    requires
        0 <= k < n <= rings.len(),
        0 <= i < rings[k].len(),
        turns_back(rings[k], i),
    ensures
        turning_points(rings, n).contains(rings[k][i].x),
    decreases n,
{
    let before = turning_points(rings, n - 1);
    let more = ring_events(rings[n - 1], rings[n - 1].len() as int);
    let x = rings[k][i].x;
    if k == n - 1 {
        lemma_ring_events(rings[k], rings[k].len() as int, i);
        let j = choose|j: int| 0 <= j < more.len() && more[j] == x;
        assert((before + more)[before.len() + j] == x);
    } else {
        lemma_turning_points(rings, n - 1, k, i);
        let j = choose|j: int| 0 <= j < before.len() && before[j] == x;
        assert((before + more)[j] == x);
    }
}

/// A number is among others, as a number.
pub open spec fn among(s: Seq<Double>, x: Double) -> bool {
    exists|j: int| 0 <= j < s.len() && x.same(#[trigger] s[j])
}

/// The horizontal coordinates of rings are at most `m`.
pub open spec fn level_within(rings: Seq<Seq<Pt>>, m: real) -> bool {
    forall|k: int, j: int|
        0 <= k < rings.len() && 0 <= j < rings[k].len() ==> level_at(#[trigger] rings[k][j], m)
}

/// The horizontal coordinate of a point is at most `m`.
pub open spec fn level_at(p: Pt, m: real) -> bool {
    p.x.finite() && abs(val(p.x)) <= m
}

/// A number is at most `m`.
spec fn at_most(x: Double, m: real) -> bool {
    x.finite() && abs(val(x)) <= m
}

/// A polygon is cut at every point, of its outer ring and of its holes, from which its ring goes on to one side
/// only, and at its leftmost and rightmost point, each to a tenth; `u` is the number of a ring and `i` that of
/// a point.
pub proof fn law_cut_where_rings_turn_back(poly: PolygonView, u: int, i: int, m: real)
    requires
        0 <= u < 1 + poly.interiors.len(),
        0 <= i < (seq![poly.exterior] + poly.interiors)[u].len(),
        level_within(seq![poly.exterior] + poly.interiors, m),
        poly.exterior.len() > 0,
        1real <= m <= 0x10000000000real,
    ensures
        ({
            let r = (seq![poly.exterior] + poly.interiors)[u];
            let n = r.len() as int;
            let (before, at, after) = (val(r[(i + n - 1) % n].x), val(r[i].x), val(r[(i + 1) % n].x));
            let (lo, hi) = bounds_of(poly.exterior, poly.exterior.len() as int);
            &&& (before <= at && after <= at) || (before >= at && after >= at) ==> among(events(poly), tenth(r[i].x))
            &&& among(events(poly), tenth(lo.x))
            &&& among(events(poly), tenth(hi.x))
        }),
{
    let rings = poly.rings();
    let r = rings[u];
    let n = r.len() as int;
    let (lo, hi) = bounds_of(poly.exterior, poly.exterior.len() as int);
    let t = turning_points(rings, rings.len() as int);
    let all = t.push(lo.x).push(hi.x);
    let s = tenths(all);
    lemma_all_finite(rings, rings.len() as int, m);
    lemma_bounds_finite(poly, m);
    assert forall|j: int| 0 <= j < s.len() implies !(#[trigger] s[j]).nan() by {
        assert(s[j] == tenth(all[j]));
        if j < t.len() {
            assert(all[j] == t[j]);
            assert(at_most(t[j], m));
        }
        let n = law_tenth(all[j], m);
    }
    law_distinct_sorted(s);
    let ev = events(poly);
    assert(ev == distinct_sorted(s));
    let k = t.len() as int;
    assert(s[k] == tenth(lo.x) && s[k + 1] == tenth(hi.x));
    assert(exists|j: int| 0 <= j < ev.len() && s[k].same(#[trigger] ev[j]));
    assert(exists|j: int| 0 <= j < ev.len() && s[k + 1].same(#[trigger] ev[j]));
    let (before, at, after) = (r[(i + n - 1) % n].x, r[i].x, r[(i + 1) % n].x);
    assert(crate::boundary::prev_pt(r, i) == r[(i + n - 1) % n]) by {
        if i == 0 {
            assert((n - 1) % n == n - 1) by (nonlinear_arith)
                requires
                    n >= 1,
            ;
        } else {
            assert((i + n - 1) % n == i - 1) by (nonlinear_arith)
                requires
                    1 <= i < n,
            ;
        }
    }
    assert(0 <= (i + n - 1) % n < n && 0 <= (i + 1) % n < n);
    assert(level_at(rings[u][(i + n - 1) % n], m) && level_at(rings[u][i], m) && level_at(rings[u][(i + 1) % n], m));
    lemma_val_order(before, at);
    lemma_val_order(at, before);
    lemma_val_order(at, after);
    lemma_val_order(after, at);
    if (val(before) <= val(at) && val(after) <= val(at)) || (val(before) >= val(at) && val(after) >= val(at)) {
        assert(turns_back(r, i));
        lemma_turning_points(rings, rings.len() as int, u, i);
        let j = choose|j: int| 0 <= j < t.len() && t[j] == r[i].x;
        assert(all[j] == t[j]);
        assert(s[j] == tenth(r[i].x));
        assert(exists|q: int| 0 <= q < ev.len() && s[j].same(#[trigger] ev[q]));
    }
}

proof fn lemma_ring_finite(r: Seq<Pt>, n: int, m: real)
    requires
        0 <= n <= r.len(),
        forall|j: int| 0 <= j < r.len() ==> level_at(#[trigger] r[j], m),
    ensures
        forall|j: int| 0 <= j < ring_events(r, n).len() ==> at_most(#[trigger] ring_events(r, n)[j], m),
    decreases n,
{
    if n > 0 {
        lemma_ring_finite(r, n - 1, m);
        assert(level_at(r[n - 1], m));
        let (now, before) = (ring_events(r, n), ring_events(r, n - 1));
        assert forall|j: int| 0 <= j < now.len() implies at_most(#[trigger] now[j], m) by {
            if j < before.len() {
                assert(now[j] == before[j]);
            }
        }
    }
}

proof fn lemma_all_finite(rings: Seq<Seq<Pt>>, n: int, m: real)
    requires
        0 <= n <= rings.len(),
        level_within(rings, m),
    ensures
        forall|j: int|
            0 <= j < turning_points(rings, n).len() ==> at_most(#[trigger] turning_points(rings, n)[j], m),
    decreases n,
{
    if n > 0 {
        lemma_all_finite(rings, n - 1, m);
        let r = rings[n - 1];
        assert forall|j: int| 0 <= j < r.len() implies level_at(#[trigger] r[j], m) by {
            assert(level_at(rings[n - 1][j], m));
        }
        lemma_ring_finite(r, r.len() as int, m);
        let (now, before) = (turning_points(rings, n), turning_points(rings, n - 1));
        let more = ring_events(r, r.len() as int);
        assert forall|j: int| 0 <= j < now.len() implies at_most(#[trigger] now[j], m) by {
            if j < before.len() {
                assert(now[j] == before[j]);
            } else {
                assert(now[j] == more[j - before.len()]);
            }
        }
    }
}

proof fn lemma_bounds_finite(poly: PolygonView, m: real)
    requires
        poly.exterior.len() > 0,
        level_within(poly.rings(), m),
    ensures
        at_most(bounds_of(poly.exterior, poly.exterior.len() as int).0.x, m),
        at_most(bounds_of(poly.exterior, poly.exterior.len() as int).1.x, m),
{
    let r = poly.exterior;
    assert(poly.rings()[0] == r);
    assert forall|j: int| 0 <= j < r.len() implies level_at(#[trigger] r[j], m) by {
        assert(level_at(poly.rings()[0][j], m));
    }
    lemma_bounds_to(r, r.len() as int, m);
}

proof fn lemma_bounds_to(r: Seq<Pt>, n: int, m: real)
    requires
        1 <= n <= r.len(),
        forall|j: int| 0 <= j < r.len() ==> level_at(#[trigger] r[j], m),
    ensures
        at_most(bounds_of(r, n).0.x, m),
        at_most(bounds_of(r, n).1.x, m),
    decreases n,
{
    assert(level_at(r[n - 1], m));
    if n > 1 {
        lemma_bounds_to(r, n - 1, m);
    } else {
        assert(bounds_of(r, 0).0.x == Double::infinity());
    }
}

/// A slab reaches over the polygon that it cuts: nine feet and more below and above every point.
pub proof fn law_slab_reaches_over(r: Seq<Pt>, xa: Double, xb: Double, i: int, m: real)
    requires
        0 <= i < r.len(),
        forall|j: int|
            0 <= j < r.len() ==> (#[trigger] r[j]).x.finite() && r[j].y.finite() && abs(val(r[j].y)) <= m,
        bounds_of(r, r.len() as int).0.y.finite(),
        bounds_of(r, r.len() as int).1.y.finite(),
        abs(val(bounds_of(r, r.len() as int).0.y)) <= m,
        abs(val(bounds_of(r, r.len() as int).1.y)) <= m,
        16real <= m <= 0x10000000000real,
    ensures
        ({
            let (lo, hi) = bounds_of(r, r.len() as int);
            let s = slab(xa, xb, lo.y, hi.y);
            let y = val(r[i].y);
            &&& s.interiors.len() == 0
            &&& s.exterior.len() == 5 && s.exterior[0] == s.exterior[4]
            &&& (s.exterior[0].x, s.exterior[1].x, s.exterior[2].x, s.exterior[3].x) == (xa, xb, xb, xa)
            &&& val(s.exterior[0].y) <= y - 9real && val(s.exterior[1].y) <= y - 9real
            &&& y + 9real <= val(s.exterior[2].y) && y + 9real <= val(s.exterior[3].y)
        }),
{
    lemma_eps();
    lemma_one();
    lemma_whole_val(10);
    law_bounds_hold_points(r, r.len() as int, i);
    let (lo, hi) = bounds_of(r, r.len() as int);
    assert(r[i].y.finite());
    lemma_val_order(lo.y, r[i].y);
    lemma_val_order(r[i].y, hi.y);
    lemma_near_sub(lo.y, val(lo.y), 0real, Double::of_int(10), 10real, 0real, 2real * m);
    lemma_near_add(hi.y, val(hi.y), 0real, Double::of_int(10), 10real, 0real, 2real * m);
    let e = eps();
    lemma_assoc(e, 2real, m);
    lemma_le(e, 1real / 0x10000000000000real, m);
}

// ---------------------------------------------------------------------------
// Directions that are tried
// ---------------------------------------------------------------------------

/// The sweeps that are tried are at zero, at 90 degrees and, to a tenth, in the direction of the plan modulo half
/// a turn, and no others.
pub proof fn law_sweeps_tried(angle_deg: Double)
    requires
        !tenth(angle_deg.rem_euclid(Double::of_int(180))).nan(),
    ensures
        ({
            let s = sweeps_for(angle_deg);
            let own = tenth(angle_deg.rem_euclid(Double::of_int(180)));
            &&& among(s, Double::zero())
            &&& among(s, Double::of_int(90))
            &&& among(s, own)
            &&& forall|j: int|
                0 <= j < s.len() ==> (#[trigger] s[j]) == Double::zero() || s[j] == Double::of_int(90) || s[j] == own
        }),
{
    lemma_whole_val(90);
    lemma_zero();
    lemma_three(Double::zero(), Double::of_int(90), tenth(angle_deg.rem_euclid(Double::of_int(180))));
}

proof fn lemma_three(a: Double, b: Double, c: Double)
    requires
        !a.nan(),
        !b.nan(),
        !c.nan(),
    ensures
        ({
            let s = distinct_sorted(seq![a, b, c]);
            &&& among(s, a)
            &&& among(s, b)
            &&& among(s, c)
            &&& forall|j: int| 0 <= j < s.len() ==> (#[trigger] s[j]) == a || s[j] == b || s[j] == c
        }),
{
    let given = seq![a, b, c];
    assert(given[0] == a && given[1] == b && given[2] == c && given.len() == 3);
    lemma_given(given, distinct_sorted(given));
}

proof fn lemma_given(given: Seq<Double>, s: Seq<Double>)
    requires
        given.len() == 3,
        !given[0].nan(),
        !given[1].nan(),
        !given[2].nan(),
        s == distinct_sorted(given),
    ensures
        among(s, given[0]),
        among(s, given[1]),
        among(s, given[2]),
        forall|j: int| 0 <= j < s.len() ==> (#[trigger] s[j]) == given[0] || s[j] == given[1] || s[j] == given[2],
{
    law_distinct_sorted(given);
    assert forall|j: int| 0 <= j < s.len() implies (#[trigger] s[j]) == given[0] || s[j] == given[1] || s[j]
        == given[2] by {
        assert(given.contains(s[j]));
    }
}

// ---------------------------------------------------------------------------
// The greedy order
// ---------------------------------------------------------------------------

proof fn lemma_nearest_first(f: Flight, left: Seq<usize>, pos: Pt, n: int)
    requires
        1 <= n <= left.len(),
    ensures
        0 <= f.nearest(left, pos, n) < n,
        forall|i: int|
            0 <= i < n ==> f.nearness(pos, left[f.nearest(left, pos, n)]).rank() <= f.nearness(
                pos,
                #[trigger] left[i],
            ).rank(),
    decreases n,
{
    if n > 1 {
        lemma_nearest_first(f, left, pos, n - 1);
    }
}

/// Where the aircraft is before block `i` of an order: at first where it starts, then where it has left the block
/// before.
pub open spec fn place_before(f: Flight, order: Seq<usize>, pos: Pt, i: int) -> Pt {
    if i <= 0 {
        pos
    } else {
        f.exit(order[i - 1], 0)
    }
}

/// The greedy order goes on to the nearest block: from where the aircraft is, no entry of any block that is flown
/// later is nearer than the nearest entry of the next one.
pub proof fn law_greedy_goes_to_the_nearest(f: Flight, left: Seq<usize>, pos: Pt, i: int, j: int, c: int)
    requires
        ({
            let w = f.greedy(left, pos);
            let at = place_before(f, w, pos, i);
            &&& 0 <= i < j < w.len()
            &&& 0 <= c < 4
            &&& forall|b: int, d: int|
                0 <= b < w.len() && 0 <= d < 4 ==> !dist_by(f.hypot, at, #[trigger] f.entry(w[b], d)).nan()
        }),
    ensures
        ({
            let w = f.greedy(left, pos);
            let at = place_before(f, w, pos, i);
            exists|d: int|
                0 <= d < 4 && dist_by(f.hypot, at, #[trigger] f.entry(w[i], d)).le(
                    dist_by(f.hypot, at, f.entry(w[j], c)),
                )
        }),
{
    let w = f.greedy(left, pos);
    let at = place_before(f, w, pos, i);
    lemma_greedy_rank(f, left, pos, i, j);
    lemma_nearness(f, at, w[i]);
    lemma_nearness(f, at, w[j]);
    let (x, y) = (f.nearness(at, w[i]), f.nearness(at, w[j]));
    let d = choose|d: int| 0 <= d < 4 && x == dist_by(f.hypot, at, #[trigger] f.entry(w[i], d));
    assert(x == dist_by(f.hypot, at, f.entry(w[i], d)));
    assert(y.le(dist_by(f.hypot, at, f.entry(w[j], c))));
}

proof fn lemma_nearness(f: Flight, at: Pt, b: usize)
    requires
        forall|d: int| 0 <= d < 4 ==> !dist_by(f.hypot, at, #[trigger] f.entry(b, d)).nan(),
    ensures
        !f.nearness(at, b).nan(),
        forall|d: int| 0 <= d < 4 ==> f.nearness(at, b).le(dist_by(f.hypot, at, #[trigger] f.entry(b, d))),
        exists|d: int| 0 <= d < 4 && f.nearness(at, b) == dist_by(f.hypot, at, #[trigger] f.entry(b, d)),
{
    let d0 = dist_by(f.hypot, at, f.entry(b, 0));
    let d1 = dist_by(f.hypot, at, f.entry(b, 1));
    let d2 = dist_by(f.hypot, at, f.entry(b, 2));
    let d3 = dist_by(f.hypot, at, f.entry(b, 3));
    let x = f.nearness(at, b);
    assert(!d0.nan() && !d1.nan() && !d2.nan() && !d3.nan());
    assert(x.le(d0) && x.le(d1) && x.le(d2) && x.le(d3));
    assert(x == d0 || x == d1 || x == d2 || x == d3 || x == Double::infinity());
    if x == Double::infinity() {
        assert(d0 == x);
    }
    assert forall|d: int| 0 <= d < 4 implies x.le(dist_by(f.hypot, at, #[trigger] f.entry(b, d))) by {
        assert(d == 0 || d == 1 || d == 2 || d == 3);
    }
}

proof fn lemma_greedy_rank(f: Flight, left: Seq<usize>, pos: Pt, i: int, j: int)
    requires
        0 <= i < j < f.greedy(left, pos).len(),
    ensures
        ({
            let w = f.greedy(left, pos);
            let at = place_before(f, w, pos, i);
            f.nearness(at, w[i]).rank() <= f.nearness(at, w[j]).rank()
        }),
    decreases left.len(),
{
    broadcast use vstd::seq_lib::group_to_multiset_ensures;

    let n = left.len() as int;
    lemma_nearest_first(f, left, pos, n);
    let k = f.nearest(left, pos, n);
    let rest = left.remove(k);
    let next = f.exit(left[k], 0);
    let tail = f.greedy(rest, next);
    let w = f.greedy(left, pos);
    assert(w == seq![left[k]] + tail);
    assert(w[0] == left[k]);
    assert(w[j] == tail[j - 1]);
    if i == 0 {
        law_greedy_rearranges(f, rest, next);
        assert(tail.to_multiset() == rest.to_multiset());
        assert(tail.contains(tail[j - 1]));
        assert(rest.to_multiset().count(tail[j - 1]) > 0);
        assert(rest.contains(tail[j - 1]));
        let q = choose|q: int| 0 <= q < rest.len() && rest[q] == tail[j - 1];
        let at = if q < k {
            q
        } else {
            q + 1
        };
        assert(left[at] == w[j]);
    } else {
        lemma_greedy_rank(f, rest, next, i - 1, j - 1);
        assert(w[i] == tail[i - 1]);
        if i > 1 {
            assert(w[i - 1] == tail[i - 2]);
        }
    }
}

// ---------------------------------------------------------------------------
// Parts of a field
// ---------------------------------------------------------------------------

/// What a merger saves is the cost of both blocks and of the turn from one to the other, less that of the union,
/// but for rounding.
pub proof fn law_saving(a: PlanView, b: PlanView, whole: PlanView, p: AircraftParams, m: real)
    requires
        within(a.block_cost(p), m),
        within(b.block_cost(p), m),
        within(whole.block_cost(p), m),
        within(p.t_turn_s, m),
        1real <= m,
        16real * m <= huge(),
    ensures
        near(
            saving(a, b, whole, p),
            val(a.block_cost(p)) + val(b.block_cost(p)) + val(p.t_turn_s) - val(whole.block_cost(p)),
            24real * (eps() * m),
        ),
{
    lemma_eps();
    let em = eps() * m;
    lemma_assoc(eps(), 8real, m);
    lemma_assoc(0x20000000000000real, eps(), m);
    assert(em * 0x20000000000000real == m);
    let (x, y, z, w) = (a.block_cost(p), b.block_cost(p), p.t_turn_s, whole.block_cost(p));
    lemma_near_add(x, val(x), 0real, y, val(y), 0real, 8real * m);
    lemma_near_add(x.plus(y), val(x) + val(y), 8real * em, z, val(z), 0real, 8real * m);
    lemma_near_sub(x.plus(y).plus(z), val(x) + val(y) + val(z), 16real * em, w, val(w), 0real, 8real * m);
}

/// The distances between the first `n` parts, one after the other.
pub open spec fn ways_between(h: Hypot, parts: Seq<PolygonView>, n: int) -> real
    decreases n,
{
    if n <= 1 {
        0real
    } else {
        ways_between(h, parts, n - 1) + val(poly_distance_by(h, parts[n - 2], parts[n - 1]))
    }
}

/// The way between parts is their distances, one after the other, and a thousand feet from each to the next, but
/// for rounding. `m` bounds it.
pub proof fn law_transit(h: Hypot, parts: Seq<PolygonView>, n: int, c: real, m: real)
    requires
        1 <= n <= parts.len(),
        forall|i: int|
            0 <= i < n - 1 ==> within(#[trigger] poly_distance_by(h, parts[i], parts[i + 1]), c),
        ((n - 1) as real) * (c + 1000real) <= m,
        n <= 0x10000000000,
        1real <= m,
        16real * m <= huge(),
    ensures
        near(
            transit(h, parts, n),
            ways_between(h, parts, n) + 1000real * ((n - 1) as real),
            ((n - 1) as real) * (8real * (eps() * m)),
        ),
        0real <= ways_between(h, parts, n) + 1000real * ((n - 1) as real) <= ((n - 1) as real) * (c + 1000real),
    decreases n,
{
    lemma_eps();
    lemma_zero();
    lemma_whole_val(1000);
    let em = eps() * m;
    let e = 8real * em;
    lemma_le(1real, m, eps());
    lemma_assoc(0x20000000000000real, eps(), m);
    assert(em * 0x20000000000000real == m);
    if n == 1 {
        assert(0real * e == 0real && 0real * (c + 1000real) == 0real);
    } else {
        let k = (n - 2) as real;
        let b = c + 1000real;
        let d = poly_distance_by(h, parts[n - 2], parts[n - 1]);
        assert(within(poly_distance_by(h, parts[n - 2], parts[n - 2 + 1]), c));
        lemma_dist(k, 1real, b);
        assert(1real * b == b && (n - 1) as real == k + 1real);
        lemma_le(0real, k, b);
        assert(0real * b == 0real);
        law_transit(h, parts, n - 1, c, m);
        lemma_near_add(d, val(d), 0real, Double::of_int(1000), 1000real, 0real, 2real * m);
        lemma_assoc(eps(), 2real, m);
        lemma_assoc(eps(), 4real, m);
        lemma_dist(k, 1real, e);
        assert(1real * e == e);
        lemma_le(k, 0x10000000000real, e);
        let r = ways_between(h, parts, n - 1) + 1000real * k;
        lemma_near_add(
            transit(h, parts, n - 1),
            r,
            k * e,
            d.plus(Double::of_int(1000)),
            val(d) + 1000real,
            2real * em,
            4real * m,
        );
    }
}

proof fn lemma_large(parts: Seq<PolygonView>, n: int)
    requires
        0 <= n <= parts.len(),
    ensures
        forall|q: PolygonView| #[trigger]
            large_parts(parts, n).contains(q) <==> small_part().lt(q.area()) && exists|i: int|
                0 <= i < n && parts[i] == q,
    decreases n,
{
    let now = large_parts(parts, n);
    if n > 0 {
        lemma_large(parts, n - 1);
        let before = large_parts(parts, n - 1);
        let last = parts[n - 1];
        assert forall|q: PolygonView| #[trigger] now.contains(q) <==> small_part().lt(q.area()) && exists|i: int|
            0 <= i < n && parts[i] == q by {
            if now.contains(q) {
                let j = choose|j: int| 0 <= j < now.len() && now[j] == q;
                if j < before.len() {
                    assert(before[j] == q);
                    assert(before.contains(q));
                } else {
                    assert(parts[n - 1] == q);
                }
            }
            if small_part().lt(q.area()) && exists|i: int| 0 <= i < n && parts[i] == q {
                let i = choose|i: int| 0 <= i < n && parts[i] == q;
                if i < n - 1 {
                    assert(before.contains(q));
                    let j = choose|j: int| 0 <= j < before.len() && before[j] == q;
                    assert(now[j] == q);
                } else {
                    assert(now[now.len() - 1] == q);
                }
            }
        }
    }
}

/// The parts of a field that are planned by themselves are those of more than a quarter of an acre, the largest
/// first: none has a larger one behind it.
pub proof fn law_large_parts_by_area(g: GeomView)
    requires
        g.parts.len() <= usize::MAX,
        forall|i: int| 0 <= i < g.parts.len() ==> !(#[trigger] g.parts[i]).area().nan(),
    ensures
        forall|q: PolygonView| #[trigger]
            parts_to_plan(g).contains(q) <==> small_part().lt(q.area()) && g.parts.contains(q),
        forall|i: int, j: int|
            0 <= i < j < parts_to_plan(g).len() ==> !(#[trigger] parts_to_plan(g)[i]).area().lt(
                (#[trigger] parts_to_plan(g)[j]).area(),
            ),
{
    broadcast use vstd::seq_lib::group_to_multiset_ensures;

    let large = large_parts(g.parts, g.parts.len() as int);
    lemma_large(g.parts, g.parts.len() as int);
    lemma_large_len(g.parts, g.parts.len() as int);
    let keys = negated_areas(large);
    let given = indices(large.len());
    let at = sorted_by(given, by_key(keys));
    law_sorted_by(given, by_key(keys));
    let out = parts_to_plan(g);
    assert forall|i: int| 0 <= i < at.len() implies 0 <= #[trigger] at[i] < large.len() by {
        assert(at.contains(at[i]));
        assert(at.to_multiset().count(at[i]) > 0);
        assert(given.contains(at[i]));
    }
    assert forall|q: PolygonView| #[trigger] out.contains(q) <==> small_part().lt(q.area()) && g.parts.contains(q) by {
        assert(large.contains(q) <==> small_part().lt(q.area()) && exists|i: int|
            0 <= i < g.parts.len() && g.parts[i] == q);
        if out.contains(q) {
            let i = choose|i: int| 0 <= i < out.len() && out[i] == q;
            assert(large[at[i] as int] == q);
        }
        if large.contains(q) {
            let k = choose|k: int| 0 <= k < large.len() && large[k] == q;
            assert(given[k] == k as usize);
            assert(given.contains(k as usize));
            assert(given.to_multiset().count(k as usize) > 0);
            assert(at.contains(k as usize));
            let i = choose|i: int| 0 <= i < at.len() && at[i] == k as usize;
            assert(out[i] == q);
        }
    }
    assert forall|i: int, j: int| 0 <= i < j < out.len() implies !(#[trigger] out[i]).area().lt(
        (#[trigger] out[j]).area(),
    ) by {
        assert(by_key(keys)(at[i]) <= by_key(keys)(at[j]));
        let (p, q) = (large[at[i] as int], large[at[j] as int]);
        assert(large.contains(p) && large.contains(q));
        assert(keys[at[i] as int] == p.area().negated() && keys[at[j] as int] == q.area().negated());
        lemma_negated_rank(p.area(), q.area());
    }
}

proof fn lemma_large_len(parts: Seq<PolygonView>, n: int)
    requires
        0 <= n <= parts.len(),
    ensures
        large_parts(parts, n).len() <= n,
    decreases n,
{
    if n > 0 {
        lemma_large_len(parts, n - 1);
    }
}

proof fn lemma_negated_rank(a: Double, b: Double)
    requires
        !a.nan(),
        !b.nan(),
        a.negated().rank() <= b.negated().rank(),
    ensures
        !a.lt(b),
{
}

/// A part is planned by itself from a quarter of an acre, of 43560 square feet, but for rounding.
pub proof fn law_quarter_of_an_acre()
    ensures
        near(small_part(), 43560real / 4real, 200000real * eps()),
{
    lemma_eps();
    lemma_one();
    lemma_ratio_val(1, 4);
    lemma_whole_val(43560);
    let e = eps();
    let r = (1u64 as real) / (4u64 as real);
    lemma_le(r, 1real, e);
    lemma_quarter(Double::ratio(1, 4), r, 2real * e);
}

proof fn lemma_quarter(q: Double, r: real, e: real)
    requires
        near(q, r, e),
        r == 1real / 4real,
        e == 2real * eps(),
    ensures
        near(q.times(Double::of_int(43560)), 43560real / 4real, 200000real * eps()),
{
    lemma_eps();
    lemma_one();
    lemma_whole_val(43560);
    lemma_near_mul(q, r, e, Double::of_int(43560), 43560real, 0real, 1real / 4real, 43560real, 20000real);
}

/// The acres of a plan are the square feet of the field over 43560, but for rounding.
pub proof fn law_acres(t: Trig, g: GeomView, angle_deg: Double, p: AircraftParams, m: real)
    requires
        within(g.area(), 40000real * m),
        1real <= m,
        huge() >= 64real * m,
    ensures
        near(plan_by(t, g, angle_deg, p).area_ac, val(g.area()) / 43560real, 2real * (eps() * m)),
{
    lemma_whole_val(43560);
    let a = g.area();
    assert((abs(val(a)) + 0real) / 43560real <= m);
    lemma_near_div(a, val(a), 0real, Double::of_int(43560), m);
    assert(0real / 43560real == 0real);
}

// ---------------------------------------------------------------------------
// Directions
// ---------------------------------------------------------------------------

/// How far an angle is from `j` half turns.
pub open spec fn off_half_turns(d: real, j: int) -> real {
    abs(d - 180real * (j as real))
}

/// Two directions lie on one grid if they are within five degrees of each other, whatever number of half turns lies
/// between them, but for rounding: `k` is that number for two that do.
pub proof fn law_aligned(a: Double, b: Double, m: real) -> (k: int)
    requires
        a.finite(),
        b.finite(),
        abs(val(a)) <= m,
        abs(val(b)) <= m,
        1real <= m <= 0x10000000000real,
    ensures
        ({
            let d = val(a) - val(b);
            let e = 2048real * (eps() * m);
            &&& aligned(a, b) ==> off_half_turns(d, k) <= 5real + e
            &&& !aligned(a, b) ==> forall|j: int| #[trigger] off_half_turns(d, j) >= 5real - e
        }),
{
    lemma_eps();
    lemma_one();
    lemma_zero();
    lemma_whole_val(180);
    lemma_whole_val(5);
    let em = eps() * m;
    lemma_le(1real, m, eps());
    lemma_le(eps(), 1real / 0x10000000000000real, m);
    let half = Double::of_int(180);
    lemma_near_sub(a, val(a), 0real, b, val(b), 0real, 2real * m);
    lemma_assoc(eps(), 2real, m);
    let x = a.minus(b);
    let q = crate::near::lemma_rem_val(x, half);
    let qr = q as real;
    let r = x.rem(half);
    let rr = val(x) - qr * 180real;
    assert(near(r, rr, 180real * em));
    lemma_val_order(r, Double::zero());
    crate::near::lemma_negated_val(half);
    assert(half.abs() == half);
    let y = x.rem_euclid(half);
    let (k, yr) = if r.lt(Double::zero()) {
        lemma_near_add(r, rr, 180real * em, half, 180real, 0real, 512real);
        assert(y == r.plus(half));
        (q - 1, rr + 180real)
    } else {
        assert(y == r);
        (q, rr)
    };
    assert(near(y, yr, 700real * em));
    assert(yr == val(x) - 180real * (k as real));
    assert(-(180real * em) <= yr && yr <= 180real + 180real * em);
    lemma_near_sub(half, 180real, 0real, y, yr, 700real * em, 1024real);
    let z = half.minus(y);
    assert(eps() * 1024real <= 1024real * em);
    assert(near(z, 180real - yr, 1800real * em));
    lemma_val_order(y, z);
    lemma_val_order(z, y);
    let least = y.min(z);
    assert(least == y || least == z);
    lemma_val_order(least, Double::of_int(5));
    let d = val(a) - val(b);
    if aligned(a, b) {
        if least == y {
            k
        } else {
            assert((k + 1) as real == k as real + 1real);
            k + 1
        }
    } else {
        assert forall|j: int| #[trigger] off_half_turns(d, j) >= 5real - 2048real * em by {
            let kr = k as real;
            if j <= k {
                assert(j as real <= kr);
            } else {
                assert(j as real >= kr + 1real);
            }
        }
        k
    }
}

// ---------------------------------------------------------------------------
// Neighbours and groups
// ---------------------------------------------------------------------------

/// The neighbour of a cell is another one, with which it shares boundary, and no other shares more; where there is no
/// neighbour, it shares boundary with none.
pub proof fn law_neighbor_shares_most(h: Hypot, cells: Seq<GeomView>, i: int, n: int)
    requires
        0 <= n <= cells.len(),
    ensures
        ({
            let (j, l) = best_neighbor(h, cells, i, n);
            &&& j < 0 ==> l == Double::zero()
            &&& j >= 0 ==> j < n && j != i && l == shared(h, cells[i], cells[j]) && Double::zero().lt(l)
            &&& forall|k: int| 0 <= k < n && k != i ==> !l.lt(#[trigger] shared(h, cells[i], cells[k]))
        }),
    decreases n,
{
    if n > 0 {
        law_neighbor_shares_most(h, cells, i, n - 1);
    }
}

/// The plan of a group follows the largest of its members: none has a larger area.
pub proof fn law_leader_is_largest(blocks: Seq<BlockView>, at: Seq<usize>, n: int)
    requires
        1 <= n <= at.len(),
    ensures
        ({
            let k = leader(blocks, at, n);
            &&& 0 <= k < n
            &&& forall|i: int|
                0 <= i < n ==> blocks[(#[trigger] at[i]) as int].geom.area().rank()
                    <= blocks[at[k] as int].geom.area().rank()
        }),
    decreases n,
{
    if n > 1 {
        law_leader_is_largest(blocks, at, n - 1);
    }
}

/// A block is a member of the group whose label it has, and of no other.
pub proof fn law_member_of_its_group(labels: Seq<usize>, label: usize, n: int, b: usize)
    requires
        0 <= n <= labels.len(),
        labels.len() <= usize::MAX,
        b < n,
    ensures
        members(labels, label, n).contains(b) <==> labels[b as int] == label,
    decreases n,
{
    let now = members(labels, label, n);
    let before = members(labels, label, n - 1);
    if b == n - 1 {
        lemma_members_below(labels, label, n - 1);
        if labels[n - 1] == label {
            assert(now[now.len() - 1] == b);
        } else if now.contains(b) {
            let j = choose|j: int| 0 <= j < now.len() && now[j] == b;
            assert(before[j] < n - 1);
        }
    } else {
        law_member_of_its_group(labels, label, n - 1, b);
        if before.contains(b) {
            let j = choose|j: int| 0 <= j < before.len() && before[j] == b;
            assert(now[j] == b);
        }
        if now.contains(b) {
            let j = choose|j: int| 0 <= j < now.len() && now[j] == b;
            assert(j < before.len());
            assert(before[j] == b);
        }
    }
}

proof fn lemma_members_below(labels: Seq<usize>, label: usize, n: int)
    requires
        0 <= n <= labels.len(),
        labels.len() <= usize::MAX,
    ensures
        forall|j: int| 0 <= j < members(labels, label, n).len() ==> (#[trigger] members(labels, label, n)[j]) < n,
    decreases n,
{
    if n > 0 {
        lemma_members_below(labels, label, n - 1);
        let (now, before) = (members(labels, label, n), members(labels, label, n - 1));
        assert forall|j: int| 0 <= j < now.len() implies (#[trigger] now[j]) < n by {
            if j < before.len() {
                assert(now[j] == before[j]);
            }
        }
    }
}

} // verus!
