//! Boundaries: where a vertical line starts or stops to meet them, what two of
//! them share, and how far apart they are.
use vstd::prelude::*;

use crate::double::Double;
use crate::geom::{
    after, bounds_of, next_pt, poly_distance, poly_distance_by, Geom, GeomView, Polygon, PolygonView,
    Pt,
};
use crate::sorting::{by_number, sort_doubles, sorted_by};
use crate::tools::{hypot_is, hypot_total, Hypot};

verus! {

// ---------------------------------------------------------------------------
// Events of a sweep
// ---------------------------------------------------------------------------

/// Numbers without those that equal the one kept before them, of the first `n`.
pub open spec fn deduped(s: Seq<Double>, n: int) -> Seq<Double>
    decreases n,
{
    if n <= 0 {
        Seq::empty()
    } else {
        let d = deduped(s, n - 1);
        if n > 1 && s[n - 1].same(d.last()) {
            d
        } else {
            d.push(s[n - 1])
        }
    }
}

/// Numbers in ascending order, each once.
pub open spec fn distinct_sorted(s: Seq<Double>) -> Seq<Double> {
    deduped(sorted_by(s, by_number()), s.len() as int)
}

proof fn lemma_deduped_some(s: Seq<Double>, n: int)
    requires
        0 < n,
    ensures
        deduped(s, n).len() > 0,
    decreases n,
{
    if n > 1 {
        lemma_deduped_some(s, n - 1);
    }
}

proof fn lemma_deduped(s: Seq<Double>, n: int)
    requires
        0 < n <= s.len(),
        forall|i: int| 0 <= i < s.len() ==> !(#[trigger] s[i]).nan(),
        forall|i: int, j: int| 0 <= i <= j < s.len() ==> (#[trigger] s[i]).key() <= (
        #[trigger] s[j]).key(),
    ensures
        deduped(s, n).len() > 0,
        deduped(s, n).last().key() == s[n - 1].key(),
        forall|i: int|
            0 <= i < deduped(s, n).len() ==> s.contains(#[trigger] deduped(s, n)[i]),
        forall|i: int, j: int|
            0 <= i < j < deduped(s, n).len() ==> (#[trigger] deduped(s, n)[i]).key() < (
            #[trigger] deduped(s, n)[j]).key(),
        forall|k: int|
            0 <= k < n ==> exists|i: int|
                0 <= i < deduped(s, n).len() && (#[trigger] s[k]).key() == (
                #[trigger] deduped(s, n)[i]).key(),
    decreases n,
{
    let d = deduped(s, n);
    if n > 1 {
        lemma_deduped(s, n - 1);
        let e = deduped(s, n - 1);
        assert(s[n - 2].key() <= s[n - 1].key());
        assert(s.contains(e.last()));
        assert forall|i: int, j: int| 0 <= i < j < d.len() implies (#[trigger] d[i]).key() < (
        #[trigger] d[j]).key() by {
            if j == e.len() {
                assert(d[i] == e[i]);
                assert(i < e.len() - 1 ==> e[i].key() < e.last().key());
            }
        }
        assert forall|k: int| 0 <= k < n implies exists|i: int|
            0 <= i < d.len() && (#[trigger] s[k]).key() == (#[trigger] d[i]).key() by {
            if k < n - 1 {
                let i = choose|i: int|
                    0 <= i < e.len() && s[k].key() == (#[trigger] e[i]).key();
                assert(d[i] == e[i]);
            } else {
                assert(d[d.len() - 1] == d.last());
            }
        }
        assert forall|i: int| 0 <= i < d.len() implies s.contains(#[trigger] d[i]) by {
            if i < e.len() {
                assert(d[i] == e[i]);
            } else {
                assert(d[i] == s[n - 1]);
            }
        }
    } else {
        assert(deduped(s, 0).len() == 0);
        assert(d =~= seq![s[0]]);
        assert(d[0] == s[0]);
    }
}

/// Numbers in ascending order, each once, ascend strictly and are those that
/// were given, as far as numbers tell them apart.
pub proof fn law_distinct_sorted(s: Seq<Double>)
    requires
        forall|i: int| 0 <= i < s.len() ==> !(#[trigger] s[i]).nan(),
    ensures
        forall|i: int, j: int|
            0 <= i < j < distinct_sorted(s).len() ==> (#[trigger] distinct_sorted(s)[i]).lt(
                #[trigger] distinct_sorted(s)[j],
            ),
        forall|i: int|
            0 <= i < distinct_sorted(s).len() ==> s.contains(#[trigger] distinct_sorted(s)[i]),
        forall|k: int|
            0 <= k < s.len() ==> exists|i: int|
                0 <= i < distinct_sorted(s).len() && (#[trigger] s[k]).same(
                    #[trigger] distinct_sorted(s)[i],
                ),
{
    broadcast use vstd::seq_lib::group_to_multiset_ensures;

    let t = sorted_by(s, by_number());
    crate::sorting::law_sorted_by(s, by_number());
    if s.len() > 0 {
        assert forall|i: int| 0 <= i < t.len() implies s.contains(#[trigger] t[i]) && !t[i].nan() by {
            assert(t.to_multiset().count(t[i]) > 0) by {
                assert(t.contains(t[i]));
            }
        }
        assert forall|i: int, j: int| 0 <= i <= j < t.len() implies (#[trigger] t[i]).key() <= (
        #[trigger] t[j]).key() by {
            assert(by_number()(t[i]) <= by_number()(t[j]));
        }
        lemma_deduped(t, t.len() as int);
        let d = distinct_sorted(s);
        assert forall|i: int| 0 <= i < d.len() implies s.contains(#[trigger] d[i]) && !d[i].nan() by {
            assert(t.contains(d[i]));
        }
        assert forall|k: int| 0 <= k < s.len() implies exists|i: int|
            0 <= i < d.len() && (#[trigger] s[k]).same(#[trigger] d[i]) by {
            assert(s.to_multiset().count(s[k]) > 0) by {
                assert(s.contains(s[k]));
            }
            assert(t.contains(s[k]));
            let m = choose|m: int| 0 <= m < t.len() && t[m] == s[k];
            let i = choose|i: int| 0 <= i < d.len() && t[m].key() == (#[trigger] d[i]).key();
            assert(s[k].same(d[i]));
        }
    }
}

/// Numbers in ascending order, each once.
pub fn sort_distinct(v: &Vec<Double>) -> (r: Vec<Double>)
    ensures
        r@ == distinct_sorted(v@),
{
    let s = sort_doubles(v);
    proof {
        crate::sorting::law_sorted_by(v@, by_number());
    }
    let mut out: Vec<Double> = Vec::new();
    for i in 0..s.len()
        invariant
            out@ == deduped(s@, i as int),
    {
        proof {
            if i > 0 {
                lemma_deduped_some(s@, i as int);
            }
        }
        if i == 0 || !s[i].same(out[out.len() - 1]) {
            out.push(s[i]);
        }
    }
    out
}

/// A number rounded to a tenth.
pub open spec fn spec_tenth(x: Double) -> Double {
    x.times(Double::of_int(10)).round().over(Double::of_int(10))
}

/// A number rounded to a tenth.
#[verifier::when_used_as_spec(spec_tenth)]
pub fn tenth(x: Double) -> (r: Double)
    ensures
        r == spec_tenth(x),
{
    x.times(Double::of_int(10)).round().over(Double::of_int(10))
}

/// The point before point `i` of a ring.
pub open spec fn prev_pt(r: Seq<Pt>, i: int) -> Pt {
    if i <= 0 {
        r.last()
    } else {
        r[i - 1]
    }
}

/// Whether a ring does not go on to one side at point `i`: no neighbour lies to
/// the left of it, or none to the right.
pub open spec fn turns_back(r: Seq<Pt>, i: int) -> bool {
    let (x0, x1, x2) = (prev_pt(r, i).x, r[i].x, next_pt(r, i).x);
    (x1.le(x0) && x1.le(x2)) || (x0.le(x1) && x2.le(x1))
}

/// Where a ring turns back among its first `n` points.
pub open spec fn ring_events(r: Seq<Pt>, n: int) -> Seq<Double>
    decreases n,
{
    if n <= 0 {
        Seq::empty()
    } else {
        let before = ring_events(r, n - 1);
        if turns_back(r, n - 1) {
            before.push(r[n - 1].x)
        } else {
            before
        }
    }
}

/// Where the first `n` rings turn back.
pub open spec fn turning_points(rings: Seq<Seq<Pt>>, n: int) -> Seq<Double>
    decreases n,
{
    if n <= 0 {
        Seq::empty()
    } else {
        turning_points(rings, n - 1) + ring_events(rings[n - 1], rings[n - 1].len() as int)
    }
}

/// Numbers rounded to a tenth.
pub open spec fn tenths(s: Seq<Double>) -> Seq<Double> {
    Seq::new(s.len(), |i: int| tenth(s[i]))
}

/// Where a vertical line may meet a polygon in another way than just left of it:
/// where a ring turns back, and at the bounds. To a tenth, ascending, each once.
pub open spec fn events(poly: PolygonView) -> Seq<Double> {
    let (lo, hi) = bounds_of(poly.exterior, poly.exterior.len() as int);
    distinct_sorted(
        tenths(turning_points(poly.rings(), poly.rings().len() as int).push(lo.x).push(hi.x)),
    )
}

/// Where a vertical line may meet a polygon in another way than just left of it.
pub fn x_events(poly: &Polygon) -> (r: Vec<Double>)
    ensures
        r@ == events(poly@),
{
    let rings = poly.rings();
    let mut xs: Vec<Double> = Vec::new();
    for k in 0..rings.len()
        invariant
            rings@.len() == poly@.rings().len(),
            forall|i: int| 0 <= i < rings@.len() ==> (#[trigger] rings@[i])@ == poly@.rings()[i],
            xs@ == turning_points(poly@.rings(), k as int),
    {
        let ring = rings[k];
        let n = ring.len();
        let ghost before = xs@;
        assert(before + ring_events(ring@, 0) =~= before);
        for i in 0..n
            invariant
                n == ring@.len(),
                xs@ == before + ring_events(ring@, i as int),
        {
            let x0 = if i == 0 {
                ring[n - 1].x
            } else {
                ring[i - 1].x
            };
            let x1 = ring[i].x;
            let x2 = ring[after(i, n)].x;
            if (x1.le(x0) && x1.le(x2)) || (x0.le(x1) && x2.le(x1)) {
                xs.push(x1);
            }
            assert(xs@ =~= before + ring_events(ring@, i + 1));
        }
    }
    let (minx, _, maxx, _) = poly.bounds();
    xs.push(minx);
    xs.push(maxx);
    let mut r: Vec<Double> = Vec::new();
    for i in 0..xs.len()
        invariant
            r@ == tenths(xs@).take(i as int),
    {
        r.push(tenth(xs[i]));
        assert(r@ =~= tenths(xs@).take(i + 1));
    }
    assert(r@ =~= tenths(xs@));
    sort_distinct(&r)
}

// ---------------------------------------------------------------------------
// Shared boundaries
// ---------------------------------------------------------------------------

/// How far a point lies off the line through `a` in a direction.
pub open spec fn off_line(p: Pt, a: Pt, u: Pt) -> Double {
    p.x.minus(a.x).times(u.y.negated()).plus(p.y.minus(a.y).times(u.x)).abs()
}

/// How far along the line through `a` in a direction a point lies.
pub open spec fn along_line(p: Pt, a: Pt, u: Pt) -> Double {
    p.x.minus(a.x).times(u.x).plus(p.y.minus(a.y).times(u.y))
}

/// The length that two segments have in common, if they lie on one line.
pub open spec fn overlap(h: Hypot, a: (Pt, Pt), b: (Pt, Pt)) -> Double {
    let (dx, dy) = (a.1.x.minus(a.0.x), a.1.y.minus(a.0.y));
    let la = h(dx, dy);
    let u = Pt { x: dx.over(la), y: dy.over(la) };
    let far = Double::ratio(1, 1_000_000);
    if la.lt(Double::ratio(1, 1_000_000_000)) {
        Double::zero()
    } else if far.lt(off_line(b.0, a.0, u)) || far.lt(off_line(b.1, a.0, u)) {
        Double::zero()
    } else {
        let (a0, a1) = if la.lt(Double::zero()) {
            (la, Double::zero())
        } else {
            (Double::zero(), la)
        };
        let (s, t) = (along_line(b.0, a.0, u), along_line(b.1, a.0, u));
        let (b0, b1) = if t.lt(s) {
            (t, s)
        } else {
            (s, t)
        };
        a1.min(b1).minus(a0.max(b0)).max(Double::zero())
    }
}

/// The length that two segments have in common, if they lie on one line.
pub fn collinear_overlap<H: Fn(Double, Double) -> Double>(
    a: (Pt, Pt),
    b: (Pt, Pt),
    hypot: &H,
) -> (r: Double)
    requires
        hypot_total(*hypot),
    ensures
        forall|h: Hypot| #[trigger] hypot_is(*hypot, h) ==> r == overlap(h, a, b),
{
    let (dx, dy) = (a.1.x.minus(a.0.x), a.1.y.minus(a.0.y));
    let la = hypot(dx, dy);
    if la.lt(Double::ratio(1, 1_000_000_000)) {
        return Double::zero();
    }
    let u = Pt { x: dx.over(la), y: dy.over(la) };
    let far = Double::ratio(1, 1_000_000);
    let off0 = b.0.x.minus(a.0.x).times(u.y.negated()).plus(b.0.y.minus(a.0.y).times(u.x)).abs();
    let off1 = b.1.x.minus(a.0.x).times(u.y.negated()).plus(b.1.y.minus(a.0.y).times(u.x)).abs();
    if far.lt(off0) || far.lt(off1) {
        return Double::zero();
    }
    let (a0, a1) = if la.lt(Double::zero()) {
        (la, Double::zero())
    } else {
        (Double::zero(), la)
    };
    let s = b.0.x.minus(a.0.x).times(u.x).plus(b.0.y.minus(a.0.y).times(u.y));
    let t = b.1.x.minus(a.0.x).times(u.x).plus(b.1.y.minus(a.0.y).times(u.y));
    let (b0, b1) = if t.lt(s) {
        (t, s)
    } else {
        (s, t)
    };
    a1.min(b1).minus(a0.max(b0)).max(Double::zero())
}

/// The edges of a ring.
pub open spec fn ring_edges(r: Seq<Pt>) -> Seq<(Pt, Pt)> {
    Seq::new(r.len(), |i: int| (r[i], next_pt(r, i)))
}

/// The edges of the first `n` rings.
pub open spec fn edges(rings: Seq<Seq<Pt>>, n: int) -> Seq<(Pt, Pt)>
    decreases n,
{
    if n <= 0 {
        Seq::empty()
    } else {
        edges(rings, n - 1) + ring_edges(rings[n - 1])
    }
}

/// A total and what an edge shares with the first `n` of others.
pub open spec fn edge_shared(h: Hypot, e: (Pt, Pt), others: Seq<(Pt, Pt)>, from: Double, n: int) -> Double
    decreases n,
{
    if n <= 0 {
        from
    } else {
        edge_shared(h, e, others, from, n - 1).plus(overlap(h, e, others[n - 1]))
    }
}

/// What the first `n` edges share with others.
pub open spec fn edges_shared(h: Hypot, es: Seq<(Pt, Pt)>, others: Seq<(Pt, Pt)>, n: int) -> Double
    decreases n,
{
    if n <= 0 {
        Double::zero()
    } else {
        edge_shared(
            h,
            es[n - 1],
            others,
            edges_shared(h, es, others, n - 1),
            others.len() as int,
        )
    }
}

impl PolygonView {
    /// The edges of all rings.
    pub open spec fn edges(self) -> Seq<(Pt, Pt)> {
        edges(self.rings(), self.rings().len() as int)
    }
}

/// The length that two polygons have in common on their boundaries.
pub open spec fn polys_shared(h: Hypot, a: PolygonView, b: PolygonView) -> Double {
    edges_shared(h, a.edges(), b.edges(), a.edges().len() as int)
}

fn edges_of(p: &Polygon) -> (r: Vec<(Pt, Pt)>)
    ensures
        r@ == p@.edges(),
{
    let rings = p.rings();
    let mut out: Vec<(Pt, Pt)> = Vec::new();
    for k in 0..rings.len()
        invariant
            rings@.len() == p@.rings().len(),
            forall|i: int| 0 <= i < rings@.len() ==> (#[trigger] rings@[i])@ == p@.rings()[i],
            out@ == edges(p@.rings(), k as int),
    {
        let ring = rings[k];
        let n = ring.len();
        let ghost before = out@;
        assert(before + ring_edges(ring@).take(0) =~= before);
        for i in 0..n
            invariant
                n == ring@.len(),
                out@ == before + ring_edges(ring@).take(i as int),
        {
            out.push((ring[i], ring[after(i, n)]));
            assert(out@ =~= before + ring_edges(ring@).take(i + 1));
        }
        assert(ring_edges(ring@).take(n as int) =~= ring_edges(ring@));
    }
    out
}

/// The length that two polygons have in common on their boundaries.
pub fn rings_shared_len<H: Fn(Double, Double) -> Double>(
    a: &Polygon,
    b: &Polygon,
    hypot: &H,
) -> (r: Double)
    requires
        hypot_total(*hypot),
    ensures
        forall|h: Hypot| #[trigger] hypot_is(*hypot, h) ==> r == polys_shared(h, a@, b@),
{
    let ea = edges_of(a);
    let eb = edges_of(b);
    let mut total = Double::zero();
    for i in 0..ea.len()
        invariant
            hypot_total(*hypot),
            forall|h: Hypot| #[trigger]
                hypot_is(*hypot, h) ==> total == edges_shared(h, ea@, eb@, i as int),
    {
        let ghost from = total;
        for j in 0..eb.len()
            invariant
                hypot_total(*hypot),
                i < ea@.len(),
                forall|h: Hypot| #[trigger]
                    hypot_is(*hypot, h) ==> total == edge_shared(
                        h,
                        ea@[i as int],
                        eb@,
                        from,
                        j as int,
                    ),
        {
            total = total.plus(collinear_overlap(ea[i], eb[j], hypot));
        }
    }
    total
}

/// A total and the boundary that a polygon shares with the first `n` of others.
pub open spec fn part_shared(
    h: Hypot,
    a: PolygonView,
    others: Seq<PolygonView>,
    from: Double,
    n: int,
) -> Double
    decreases n,
{
    if n <= 0 {
        from
    } else {
        part_shared(h, a, others, from, n - 1).plus(polys_shared(h, a, others[n - 1]))
    }
}

/// The boundary that the first `n` polygons share with others.
pub open spec fn parts_shared(
    h: Hypot,
    parts: Seq<PolygonView>,
    others: Seq<PolygonView>,
    n: int,
) -> Double
    decreases n,
{
    if n <= 0 {
        Double::zero()
    } else {
        part_shared(
            h,
            parts[n - 1],
            others,
            parts_shared(h, parts, others, n - 1),
            others.len() as int,
        )
    }
}

/// The length that two geometries have in common on their boundaries.
pub open spec fn shared(h: Hypot, a: GeomView, b: GeomView) -> Double {
    parts_shared(h, a.parts, b.parts, a.parts.len() as int)
}

/// The length that two geometries have in common on their boundaries.
pub fn shared_boundary_len<H: Fn(Double, Double) -> Double>(
    a: &Geom,
    b: &Geom,
    hypot: &H,
) -> (r: Double)
    requires
        hypot_total(*hypot),
    ensures
        forall|h: Hypot| #[trigger] hypot_is(*hypot, h) ==> r == shared(h, a@, b@),
{
    let pa = a.parts();
    let pb = b.parts();
    let mut total = Double::zero();
    for i in 0..pa.len()
        invariant
            hypot_total(*hypot),
            pa@.len() == a@.parts.len(),
            forall|k: int| 0 <= k < pa@.len() ==> (#[trigger] pa@[k])@ == a@.parts[k],
            pb@.len() == b@.parts.len(),
            forall|k: int| 0 <= k < pb@.len() ==> (#[trigger] pb@[k])@ == b@.parts[k],
            forall|h: Hypot| #[trigger]
                hypot_is(*hypot, h) ==> total == parts_shared(h, a@.parts, b@.parts, i as int),
    {
        let ghost from = total;
        for j in 0..pb.len()
            invariant
                hypot_total(*hypot),
                i < pa@.len(),
                pa@[i as int]@ == a@.parts[i as int],
                pb@.len() == b@.parts.len(),
                forall|k: int| 0 <= k < pb@.len() ==> (#[trigger] pb@[k])@ == b@.parts[k],
                forall|h: Hypot| #[trigger]
                    hypot_is(*hypot, h) ==> total == part_shared(
                        h,
                        a@.parts[i as int],
                        b@.parts,
                        from,
                        j as int,
                    ),
        {
            total = total.plus(rings_shared_len(pa[i], pb[j], hypot));
        }
    }
    total
}

// ---------------------------------------------------------------------------
// Distances
// ---------------------------------------------------------------------------

/// The least of a distance and those of a polygon from the first `n` of others.
pub open spec fn part_apart(
    h: Hypot,
    a: PolygonView,
    others: Seq<PolygonView>,
    from: Double,
    n: int,
) -> Double
    decreases n,
{
    if n <= 0 {
        from
    } else {
        part_apart(h, a, others, from, n - 1).min(poly_distance_by(h, a, others[n - 1]))
    }
}

/// The least distance of one of the first `n` polygons from one of others.
pub open spec fn parts_apart(
    h: Hypot,
    parts: Seq<PolygonView>,
    others: Seq<PolygonView>,
    n: int,
) -> Double
    decreases n,
{
    if n <= 0 {
        Double::infinity()
    } else {
        part_apart(
            h,
            parts[n - 1],
            others,
            parts_apart(h, parts, others, n - 1),
            others.len() as int,
        )
    }
}

/// The least distance between the boundaries of two geometries.
pub open spec fn geoms_apart(h: Hypot, a: GeomView, b: GeomView) -> Double {
    parts_apart(h, a.parts, b.parts, a.parts.len() as int)
}

/// The least distance between the boundaries of two geometries.
pub fn geom_distance<H: Fn(Double, Double) -> Double>(a: &Geom, b: &Geom, hypot: &H) -> (r: Double)
    requires
        hypot_total(*hypot),
    ensures
        forall|h: Hypot| #[trigger] hypot_is(*hypot, h) ==> r == geoms_apart(h, a@, b@),
{
    let pa = a.parts();
    let pb = b.parts();
    let mut best = Double::infinity();
    for i in 0..pa.len()
        invariant
            hypot_total(*hypot),
            pa@.len() == a@.parts.len(),
            forall|k: int| 0 <= k < pa@.len() ==> (#[trigger] pa@[k])@ == a@.parts[k],
            pb@.len() == b@.parts.len(),
            forall|k: int| 0 <= k < pb@.len() ==> (#[trigger] pb@[k])@ == b@.parts[k],
            forall|h: Hypot| #[trigger]
                hypot_is(*hypot, h) ==> best == parts_apart(h, a@.parts, b@.parts, i as int),
    {
        let ghost from = best;
        for j in 0..pb.len()
            invariant
                hypot_total(*hypot),
                i < pa@.len(),
                pa@[i as int]@ == a@.parts[i as int],
                pb@.len() == b@.parts.len(),
                forall|k: int| 0 <= k < pb@.len() ==> (#[trigger] pb@[k])@ == b@.parts[k],
                forall|h: Hypot| #[trigger]
                    hypot_is(*hypot, h) ==> best == part_apart(
                        h,
                        a@.parts[i as int],
                        b@.parts,
                        from,
                        j as int,
                    ),
        {
            best = best.min(poly_distance(pa[i], pb[j], hypot));
        }
    }
    best
}

} // verus!
