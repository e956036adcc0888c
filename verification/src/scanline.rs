//! Cutting a field into scan lines.
use vstd::prelude::*;

use crate::double::Double;
use crate::geom::{next_pt, radians, ring_views, turn_ring, turned_rings, Geom, GeomView, Pt};
use crate::params::AircraftParams;
use crate::plan::Part;
use crate::sorting::{by_number, sort_doubles, sorted_by};
use crate::tools::{trig_is, trig_total, Trig};

verus! {

/// The rings of a geometry, turned about its centroid.
pub open spec fn framed(g: GeomView, sc: (Double, Double)) -> Seq<Seq<Pt>> {
    turned_rings(g.rings(), sc, g.centroid())
}

/// The rings of a geometry, turned about its centroid, and the centroid.
fn turn_into_frame(geom: &Geom, sc: (Double, Double)) -> (r: (Vec<Vec<Pt>>, Pt))
    ensures
        ring_views(r.0@) == framed(geom@, sc),
        r.1 == geom@.centroid(),
{
    let c = geom.centroid();
    let rings = geom.all_rings();
    let mut out: Vec<Vec<Pt>> = Vec::new();
    for i in 0..rings.len()
        invariant
            c == geom@.centroid(),
            rings@.len() == geom@.rings().len(),
            forall|k: int| 0 <= k < rings@.len() ==> (#[trigger] rings@[k])@ == geom@.rings()[k],
            ring_views(out@) == framed(geom@, sc).take(i as int),
    {
        let t = turn_ring(rings[i], sc, c);
        proof {
            crate::geom::lemma_ring_views_push(out@, t);
            assert(framed(geom@, sc).take(i as int).push(t@) =~= framed(geom@, sc).take(i + 1));
        }
        out.push(t);
    }
    assert(ring_views(out@) =~= framed(geom@, sc));
    (out, c)
}

// ---------------------------------------------------------------------------
// Spans
// ---------------------------------------------------------------------------

/// Where the edge from `a` to `b` crosses the line at height `y`: an edge holds
/// its lower end and not its upper one, and a level edge crosses nothing.
pub open spec fn crossing(a: Pt, b: Pt, y: Double) -> Option<Double> {
    if !a.y.same(b.y) && a.y.min(b.y).le(y) && y.lt(a.y.max(b.y)) {
        Some(a.x.plus(y.minus(a.y).times(b.x.minus(a.x)).over(b.y.minus(a.y))))
    } else {
        None
    }
}

fn crossing_of(a: Pt, b: Pt, y: Double) -> (r: Option<Double>)
    ensures
        r == crossing(a, b, y),
{
    if !a.y.same(b.y) && a.y.min(b.y).le(y) && y.lt(a.y.max(b.y)) {
        Some(a.x.plus(y.minus(a.y).times(b.x.minus(a.x)).over(b.y.minus(a.y))))
    } else {
        None
    }
}

/// Where the first `n` edges of a ring cross the line at height `y`.
pub open spec fn ring_crossings(r: Seq<Pt>, y: Double, n: int) -> Seq<Double>
    decreases n,
{
    if n <= 0 {
        seq![]
    } else {
        match crossing(r[n - 1], next_pt(r, n - 1), y) {
            Some(x) => ring_crossings(r, y, n - 1).push(x),
            None => ring_crossings(r, y, n - 1),
        }
    }
}

/// Where the first `n` rings cross the line at height `y`.
pub open spec fn crossings(rings: Seq<Seq<Pt>>, y: Double, n: int) -> Seq<Double>
    decreases n,
{
    if n <= 0 {
        seq![]
    } else {
        let r = rings[n - 1];
        crossings(rings, y, n - 1) + ring_crossings(r, y, r.len() as int)
    }
}

/// 10^-6: spans that are not longer are dropped.
pub open spec fn spec_no_span() -> Double {
    Double::ratio(1, 1_000_000)
}

/// 10^-6: spans that are not longer are dropped.
#[verifier::when_used_as_spec(spec_no_span)]
pub fn no_span() -> (r: Double)
    ensures
        r == spec_no_span(),
{
    Double::ratio(1, 1_000_000)
}

/// The first `n` pairs of neighbours, without those that are too close.
pub open spec fn pairs(xs: Seq<Double>, n: int) -> Seq<(Double, Double)>
    decreases n,
{
    if n <= 0 {
        seq![]
    } else {
        let (x0, x1) = (xs[2 * n - 2], xs[2 * n - 1]);
        if no_span().lt(x1.minus(x0)) {
            pairs(xs, n - 1).push((x0, x1))
        } else {
            pairs(xs, n - 1)
        }
    }
}

/// The spans of the line at height `y` that lie inside the rings, from left to
/// right: by the even-odd rule, from each crossing of odd number to the next.
pub open spec fn spans(rings: Seq<Seq<Pt>>, y: Double) -> Seq<(Double, Double)> {
    let xs = sorted_by(crossings(rings, y, rings.len() as int), by_number());
    pairs(xs, xs.len() as int / 2)
}

/// The spans of the line at height `y` that lie inside the rings.
pub fn scanline_spans(rings: &Vec<Vec<Pt>>, y: Double) -> (r: Vec<(Double, Double)>)
    ensures
        r@ == spans(ring_views(rings@), y),
{
    let ghost view = ring_views(rings@);
    let mut xs: Vec<Double> = Vec::new();
    for k in 0..rings.len()
        invariant
            view == ring_views(rings@),
            xs@ == crossings(view, y, k as int),
    {
        let ring = &rings[k];
        let n = ring.len();
        assert(view[k as int] == ring@);
        let ghost start = xs@;
        assert(xs@ =~= start + ring_crossings(ring@, y, 0));
        for i in 0..n
            invariant
                n == ring@.len(),
                xs@ == start + ring_crossings(ring@, y, i as int),
        {
            match crossing_of(ring[i], ring[crate::geom::after(i, n)], y) {
                Some(x) => {
                    xs.push(x);
                    assert(xs@ =~= start + ring_crossings(ring@, y, i + 1));
                },
                None => {},
            }
        }
    }
    let xs = sort_doubles(&xs);
    let mut out: Vec<(Double, Double)> = Vec::new();
    let len = xs.len();
    let n = len / 2;
    for i in 0..n
        invariant
            len == xs@.len(),
            n == len / 2,
            out@ == pairs(xs@, i as int),
    {
        assert(2 * i + 1 < len);
        let (x0, x1) = (xs[2 * i], xs[2 * i + 1]);
        if no_span().lt(x1.minus(x0)) {
            out.push((x0, x1));
        }
    }
    out
}

// ---------------------------------------------------------------------------
// Parts
// ---------------------------------------------------------------------------

/// The parts of a scan line over its first `n` spans: the spans, sprayed, and
/// between two of them the gap, flown through if it is shorter than the threshold,
/// else a break.
pub open spec fn parts_of(s: Seq<(Double, Double)>, thresh: Double, n: int) -> Seq<Part>
    decreases n,
{
    if n <= 0 {
        seq![]
    } else {
        let (x0, x1) = s[n - 1];
        let before = parts_of(s, thresh, n - 1);
        let linked = if n == 1 {
            before
        } else {
            let end = s[n - 2].1;
            if x0.minus(end).lt(thresh) {
                before.push(Part::Seg(end, x0, false))
            } else {
                before.push(Part::Break)
            }
        };
        linked.push(Part::Seg(x0, x1, true))
    }
}

/// The parts of a scan line.
pub fn classify(s: &Vec<(Double, Double)>, thresh: Double) -> (r: Vec<Part>)
    ensures
        r@ == parts_of(s@, thresh, s@.len() as int),
{
    let mut parts: Vec<Part> = Vec::new();
    for i in 0..s.len()
        invariant
            parts@ == parts_of(s@, thresh, i as int),
    {
        let (x0, x1) = s[i];
        if i > 0 {
            let end = s[i - 1].1;
            if x0.minus(end).lt(thresh) {
                parts.push(Part::Seg(end, x0, false));
            } else {
                parts.push(Part::Break);
            }
        }
        parts.push(Part::Seg(x0, x1, true));
    }
    parts
}

/// The least and the greatest height among the first `n` points of a ring, and
/// the two given ones.
pub open spec fn ring_heights(r: Seq<Pt>, n: int, lo: Double, hi: Double) -> (Double, Double)
    decreases n,
{
    if n <= 0 {
        (lo, hi)
    } else {
        let (a, b) = ring_heights(r, n - 1, lo, hi);
        (a.min(r[n - 1].y), b.max(r[n - 1].y))
    }
}

/// The least and the greatest height among the first `n` rings.
pub open spec fn heights(rings: Seq<Seq<Pt>>, n: int) -> (Double, Double)
    decreases n,
{
    if n <= 0 {
        (Double::infinity(), Double::infinity().negated())
    } else {
        let (a, b) = heights(rings, n - 1);
        ring_heights(rings[n - 1], rings[n - 1].len() as int, a, b)
    }
}

fn heights_of(rings: &Vec<Vec<Pt>>) -> (r: (Double, Double))
    ensures
        r == heights(ring_views(rings@), rings@.len() as int),
{
    let mut lo = Double::infinity();
    let mut hi = Double::infinity().negated();
    for k in 0..rings.len()
        invariant
            (lo, hi) == heights(ring_views(rings@), k as int),
    {
        let ring = &rings[k];
        let ghost (a, b) = (lo, hi);
        for i in 0..ring.len()
            invariant
                (lo, hi) == ring_heights(ring@, i as int, a, b),
        {
            lo = lo.min(ring[i].y);
            hi = hi.max(ring[i].y);
        }
    }
    (lo, hi)
}

/// The heights from `y` up to `max` in steps of `step`. A step that does not
/// lead higher is the last.
pub open spec fn steps_up(y: Double, step: Double, max: Double) -> Seq<Double>
    decreases (if y.le(max) { max.key() - y.key() + 1 } else { 0 }),
{
    if y.le(max) {
        let next = y.plus(step);
        if y.lt(next) {
            seq![y] + steps_up(next, step, max)
        } else {
            seq![y]
        }
    } else {
        seq![]
    }
}

/// The heights from `y` up to `max` in steps of `step`.
pub fn climb(start: Double, step: Double, max: Double) -> (r: Vec<Double>)
    ensures
        r@ == steps_up(start, step, max),
{
    let mut out: Vec<Double> = Vec::new();
    let mut y = start;
    assert(out@ + steps_up(y, step, max) =~= steps_up(start, step, max));
    while y.le(max)
        invariant
            out@ + steps_up(y, step, max) == steps_up(start, step, max),
        decreases (if y.le(max) { max.key() - y.key() + 1 } else { 0 }),
    {
        let next = y.plus(step);
        let ghost before = out@;
        out.push(y);
        if !y.lt(next) {
            assert(out@ =~= before + steps_up(y, step, max));
            return out;
        }
        assert(before + (seq![y] + steps_up(next, step, max)) =~= out@ + steps_up(next, step, max));
        y = next;
    }
    assert(out@ =~= out@ + steps_up(y, step, max));
    out
}

/// The scan lines at the first `n` heights: those that have a span, each with
/// its height and its parts.
pub open spec fn scan_at(
    rings: Seq<Seq<Pt>>,
    ys: Seq<Double>,
    thresh: Double,
    n: int,
) -> Seq<(Double, Seq<Part>)>
    decreases n,
{
    if n <= 0 {
        seq![]
    } else {
        let s = spans(rings, ys[n - 1]);
        let before = scan_at(rings, ys, thresh, n - 1);
        if s.len() == 0 {
            before
        } else {
            before.push((ys[n - 1], parts_of(s, thresh, s.len() as int)))
        }
    }
}

/// The scan lines of turned rings, the first half a swath above the lowest
/// point, the others each a swath higher.
pub open spec fn scan(rings: Seq<Seq<Pt>>, p: AircraftParams) -> Seq<(Double, Seq<Part>)> {
    let (lo, hi) = heights(rings, rings.len() as int);
    let ys = steps_up(lo.plus(p.swath_ft.over(Double::of_int(2))), p.swath_ft, hi);
    scan_at(rings, ys, p.gap_threshold_ft(), ys.len() as int)
}

/// The heights and parts of scan lines.
pub open spec fn scan_views(v: Seq<(Double, Vec<Part>)>) -> Seq<(Double, Seq<Part>)> {
    Seq::new(v.len(), |i: int| (v[i].0, v[i].1@))
}

/// The scan lines of a geometry in the frame whose sine and cosine are given,
/// and the point about which it was turned.
pub fn segments_in_frame(geom: &Geom, sc: (Double, Double), p: &AircraftParams) -> (r: (
    Vec<(Double, Vec<Part>)>,
    Pt,
))
    ensures
        scan_views(r.0@) == scan(framed(geom@, sc), *p),
        r.1 == geom@.centroid(),
{
    let (rings, c) = turn_into_frame(geom, sc);
    let ghost view = ring_views(rings@);
    let (lo, hi) = heights_of(&rings);
    let ys = climb(lo.plus(p.swath_ft.over(Double::of_int(2))), p.swath_ft, hi);
    let thresh = p.gap_threshold_ft();
    let mut out: Vec<(Double, Vec<Part>)> = Vec::new();
    assert(scan_views(out@) =~= seq![]);
    for i in 0..ys.len()
        invariant
            view == ring_views(rings@),
            scan_views(out@) == scan_at(view, ys@, thresh, i as int),
    {
        let s = scanline_spans(&rings, ys[i]);
        if s.len() > 0 {
            let parts = classify(&s, thresh);
            let ghost before = out@;
            out.push((ys[i], parts));
            assert(scan_views(out@) =~= scan_views(before).push((ys@[i as int], parts@)));
        }
    }
    (out, c)
}

/// The scan lines of a geometry whose passes lie at `angle_deg`, in the frame in
/// which they are level, and the point about which it was turned.
pub fn segments_for_angle<T: Fn(Double) -> (Double, Double)>(
    geom: &Geom,
    angle_deg: Double,
    p: &AircraftParams,
    sin_cos: &T,
) -> (r: (Vec<(Double, Vec<Part>)>, Pt))
    requires
        trig_total(*sin_cos),
    ensures
        forall|t: Trig| #[trigger]
            trig_is(*sin_cos, t) ==> scan_views(r.0@) == scan(
                framed(geom@, t(radians(angle_deg.negated()))),
                *p,
            ),
        r.1 == geom@.centroid(),
{
    segments_in_frame(geom, sin_cos(radians(angle_deg.negated())), p)
}

proof fn lemma_pairs(xs: Seq<Double>, n: int)
    requires
        2 * n <= xs.len(),
        forall|i: int| 0 <= i < xs.len() ==> !(#[trigger] xs[i]).nan(),
        forall|i: int, j: int|
            0 <= i <= j < xs.len() ==> (#[trigger] xs[i]).key() <= (#[trigger] xs[j]).key(),
    ensures
        forall|k: int|
            0 <= k < pairs(xs, n).len() ==> (#[trigger] pairs(xs, n)[k]).0.le(pairs(xs, n)[k].1)
                && pairs(xs, n)[k].1.le(xs[2 * n - 1]) && no_span().lt(
                pairs(xs, n)[k].1.minus(pairs(xs, n)[k].0),
            ),
        forall|k: int, l: int|
            0 <= k < l < pairs(xs, n).len() ==> (#[trigger] pairs(xs, n)[k]).1.le(
                (#[trigger] pairs(xs, n)[l]).0,
            ),
    decreases n,
{
    if n > 0 {
        lemma_pairs(xs, n - 1);
        let (now, before) = (pairs(xs, n), pairs(xs, n - 1));
        if n > 1 {
            assert(xs[2 * n - 3].key() <= xs[2 * n - 2].key());
        }
        assert(xs[2 * n - 2].key() <= xs[2 * n - 1].key());
        assert forall|k: int| 0 <= k < now.len() implies (#[trigger] now[k]).0.le(now[k].1)
            && now[k].1.le(xs[2 * n - 1]) && no_span().lt(now[k].1.minus(now[k].0)) by {
            if k < before.len() {
                assert(now[k] == before[k]);
            }
        }
        assert forall|k: int, l: int| 0 <= k < l < now.len() implies (#[trigger] now[k]).1.le(
            (#[trigger] now[l]).0,
        ) by {
            assert(now[k] == before[k]);
            if l < before.len() {
                assert(now[l] == before[l]);
            }
        }
    }
}

/// The spans of a line run from left to right, are longer than the least length,
/// and do not overlap.
pub proof fn law_spans_ordered(rings: Seq<Seq<Pt>>, y: Double)
    requires
        forall|i: int|
            0 <= i < crossings(rings, y, rings.len() as int).len() ==> !(#[trigger] crossings(
                rings,
                y,
                rings.len() as int,
            )[i]).nan(),
    ensures
        forall|k: int|
            0 <= k < spans(rings, y).len() ==> (#[trigger] spans(rings, y)[k]).0.le(
                spans(rings, y)[k].1,
            ) && no_span().lt(spans(rings, y)[k].1.minus(spans(rings, y)[k].0)),
        forall|k: int, l: int|
            0 <= k < l < spans(rings, y).len() ==> (#[trigger] spans(rings, y)[k]).1.le(
                (#[trigger] spans(rings, y)[l]).0,
            ),
{
    broadcast use vstd::seq_lib::group_to_multiset_ensures;

    let c = crossings(rings, y, rings.len() as int);
    let xs = sorted_by(c, by_number());
    crate::sorting::law_sorted_by(c, by_number());
    assert forall|i: int| 0 <= i < xs.len() implies !(#[trigger] xs[i]).nan() by {
        assert(xs.contains(xs[i]));
        assert(xs.to_multiset().count(xs[i]) > 0);
        assert(c.contains(xs[i]));
    }
    assert forall|i: int, j: int| 0 <= i <= j < xs.len() implies (#[trigger] xs[i]).key() <= (
    #[trigger] xs[j]).key() by {
        assert(by_number()(xs[i]) <= by_number()(xs[j]));
    }
    lemma_pairs(xs, xs.len() as int / 2);
}

/// A line through a vertex between two edges that go on upwards, or downwards,
/// crosses one of them; at a peak it crosses none or both.
pub proof fn law_vertex_counted_once(a: Pt, b: Pt, c: Pt, y: Double)
    requires
        b.y.same(y),
    ensures
        (a.y.lt(y) && y.lt(c.y)) || (c.y.lt(y) && y.lt(a.y)) ==> crossing(a, b, y) is Some
            != crossing(b, c, y) is Some,
        a.y.lt(y) && c.y.lt(y) ==> crossing(a, b, y) is None && crossing(b, c, y) is None,
        y.lt(a.y) && y.lt(c.y) ==> crossing(a, b, y) is Some && crossing(b, c, y) is Some,
{
}

/// Whether an edge is crossed does not depend on which way it runs.
pub proof fn law_crossing_either_way(a: Pt, b: Pt, y: Double)
    ensures
        crossing(a, b, y) is Some == crossing(b, a, y) is Some,
{
}

} // verus!
