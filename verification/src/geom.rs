//! Points, rings, polygons and the measures that planning takes of them.
use vstd::prelude::*;

use crate::double::Double;
use crate::tools::{hypot_is, hypot_total, trig_is, trig_total, Hypot, Trig};

verus! {

/// A point in the plane.
#[derive(Clone, Copy, Debug, PartialEq, Eq, Structural)]
pub struct Pt {
    pub x: Double,
    pub y: Double,
}

/// Whether two points are the same place.
pub open spec fn same_place(a: Pt, b: Pt) -> bool {
    a.x.same(b.x) && a.y.same(b.y)
}

/// Whether two points are the same place.
pub fn is_same_place(a: Pt, b: Pt) -> (r: bool)
    ensures
        r == same_place(a, b),
{
    a.x.same(b.x) && a.y.same(b.y)
}

/// A polygon with holes.
#[derive(Debug)]
pub struct Polygon {
    /// The outer ring; the first point is not repeated at the end.
    pub exterior: Vec<Pt>,
    /// The rings of the holes, in the same form.
    pub interiors: Vec<Vec<Pt>>,
}

/// The points of a [`Polygon`].
#[verifier::ext_equal]
pub struct PolygonView {
    pub exterior: Seq<Pt>,
    pub interiors: Seq<Seq<Pt>>,
}

/// The points of a list of rings.
pub open spec fn ring_views(v: Seq<Vec<Pt>>) -> Seq<Seq<Pt>> {
    Seq::new(v.len(), |i: int| v[i]@)
}

/// The points of a list of polygons.
pub open spec fn polygon_views(v: Seq<Polygon>) -> Seq<PolygonView> {
    Seq::new(v.len(), |i: int| v[i]@)
}

/// Views of a list with one more ring.
pub proof fn lemma_ring_views_push(v: Seq<Vec<Pt>>, r: Vec<Pt>)
    ensures
        ring_views(v.push(r)) == ring_views(v).push(r@),
{
    assert(ring_views(v.push(r)) =~= ring_views(v).push(r@));
}

/// Views of a list with one more polygon.
pub proof fn lemma_polygon_views_push(v: Seq<Polygon>, p: Polygon)
    ensures
        polygon_views(v.push(p)) == polygon_views(v).push(p@),
{
    assert(polygon_views(v.push(p)) =~= polygon_views(v).push(p@));
}

impl View for Polygon {
    type V = PolygonView;

    open spec fn view(&self) -> PolygonView {
        PolygonView { exterior: self.exterior@, interiors: ring_views(self.interiors@) }
    }
}

/// One polygon, or several.
#[derive(Debug)]
pub enum Geom {
    Poly(Polygon),
    Multi(Vec<Polygon>),
}

/// The polygons of a [`Geom`].
#[verifier::ext_equal]
pub struct GeomView {
    pub multi: bool,
    pub parts: Seq<PolygonView>,
}

impl View for Geom {
    type V = GeomView;

    open spec fn view(&self) -> GeomView {
        match self {
            Geom::Poly(p) => GeomView { multi: false, parts: seq![p@] },
            Geom::Multi(v) => GeomView { multi: true, parts: polygon_views(v@) },
        }
    }
}

impl PolygonView {
    /// The outer ring, then those of the holes.
    pub open spec fn rings(self) -> Seq<Seq<Pt>> {
        seq![self.exterior] + self.interiors
    }
}

/// A copy of a ring.
pub fn copy_ring(r: &Vec<Pt>) -> (c: Vec<Pt>)
    ensures
        c@ == r@,
{
    let mut c: Vec<Pt> = Vec::new();
    for i in 0..r.len()
        invariant
            c@ == r@.take(i as int),
    {
        c.push(r[i]);
        assert(r@.take(i + 1) =~= r@.take(i as int).push(r@[i as int]));
    }
    assert(r@.take(r@.len() as int) =~= r@);
    c
}

impl Clone for Polygon {
    fn clone(&self) -> (r: Self)
        ensures
            r@ == self@,
    {
        let mut interiors: Vec<Vec<Pt>> = Vec::new();
        for i in 0..self.interiors.len()
            invariant
                ring_views(interiors@) == ring_views(self.interiors@).take(i as int),
        {
            let c = copy_ring(&self.interiors[i]);
            proof {
                lemma_ring_views_push(interiors@, c);
                assert(ring_views(self.interiors@).take(i as int).push(c@) =~= ring_views(
                    self.interiors@,
                ).take(i + 1));
            }
            interiors.push(c);
        }
        let r = Polygon { exterior: copy_ring(&self.exterior), interiors };
        assert(r@.interiors =~= self@.interiors);
        r
    }
}

impl Clone for Geom {
    fn clone(&self) -> (r: Self)
        ensures
            r@ == self@,
    {
        match self {
            Geom::Poly(p) => Geom::Poly(p.clone()),
            Geom::Multi(v) => {
                let mut w: Vec<Polygon> = Vec::new();
                for i in 0..v.len()
                    invariant
                        polygon_views(w@) == polygon_views(v@).take(i as int),
                {
                    let c = v[i].clone();
                    proof {
                        lemma_polygon_views_push(w@, c);
                        assert(polygon_views(v@).take(i as int).push(c@) =~= polygon_views(
                            v@,
                        ).take(i + 1));
                    }
                    w.push(c);
                }
                assert(polygon_views(w@) =~= polygon_views(v@));
                Geom::Multi(w)
            },
        }
    }
}

// ---------------------------------------------------------------------------
// Rings
// ---------------------------------------------------------------------------

/// The point behind point `i` of a ring.
pub open spec fn next_pt(r: Seq<Pt>, i: int) -> Pt {
    r[(i + 1) % (r.len() as int)]
}

/// `a.x * b.y - b.x * a.y`.
pub open spec fn cross(a: Pt, b: Pt) -> Double {
    a.x.times(b.y).minus(b.x.times(a.y))
}

fn cross_of(a: Pt, b: Pt) -> (r: Double)
    ensures
        r == cross(a, b),
{
    a.x.times(b.y).minus(b.x.times(a.y))
}

/// The index behind `i` on a ring of `n` points.
pub(crate) fn after(i: usize, n: usize) -> (r: usize)
    requires
        i < n,
    ensures
        r == (i + 1) % (n as int),
        r < n,
{
    proof {
        if i + 1 < n {
            vstd::arithmetic::div_mod::lemma_small_mod((i + 1) as nat, n as nat);
        } else {
            vstd::arithmetic::div_mod::lemma_mod_self_0(n as int);
        }
    }
    if i + 1 == n {
        0
    } else {
        i + 1
    }
}

/// The sum of the first `n` cross products around a ring.
pub open spec fn shoelace(r: Seq<Pt>, n: int) -> Double
    decreases n,
{
    if n <= 0 {
        Double::zero()
    } else {
        shoelace(r, n - 1).plus(cross(r[n - 1], next_pt(r, n - 1)))
    }
}

/// The area that a ring encloses.
pub open spec fn ring_area(r: Seq<Pt>) -> Double {
    if r.len() < 3 {
        Double::zero()
    } else {
        shoelace(r, r.len() as int).abs().over(Double::of_int(2))
    }
}

fn area_of_ring(r: &Vec<Pt>) -> (a: Double)
    ensures
        a == ring_area(r@),
{
    let n = r.len();
    if n < 3 {
        return Double::zero();
    }
    let mut s = Double::zero();
    for i in 0..n
        invariant
            n == r@.len(),
            s == shoelace(r@, i as int),
    {
        s = s.plus(cross_of(r[i], r[after(i, n)]));
    }
    s.abs().over(Double::of_int(2))
}

/// The sum of the first `n` points, by coordinate.
pub open spec fn point_sum(r: Seq<Pt>, n: int) -> Pt
    decreases n,
{
    if n <= 0 {
        Pt { x: Double::zero(), y: Double::zero() }
    } else {
        let s = point_sum(r, n - 1);
        Pt { x: s.x.plus(r[n - 1].x), y: s.y.plus(r[n - 1].y) }
    }
}

/// The mean of the points of a ring; the origin if it has none.
pub open spec fn point_mean(r: Seq<Pt>) -> Pt {
    let s = point_sum(r, r.len() as int);
    let d = Double::spec_of_count(if r.len() == 0 { 1 } else { r.len() });
    Pt { x: s.x.over(d), y: s.y.over(d) }
}

fn mean_of(r: &Vec<Pt>) -> (c: Pt)
    ensures
        c == point_mean(r@),
{
    let mut s = Pt { x: Double::zero(), y: Double::zero() };
    let n = r.len();
    for i in 0..n
        invariant
            n == r@.len(),
            s == point_sum(r@, i as int),
    {
        s = Pt { x: s.x.plus(r[i].x), y: s.y.plus(r[i].y) };
    }
    let d = Double::of_count(if n == 0 { 1 } else { n });
    Pt { x: s.x.over(d), y: s.y.over(d) }
}

/// The first moments of a ring: sums of cross products, weighted by the
/// coordinates of the two points.
pub open spec fn moments(r: Seq<Pt>, n: int) -> Pt
    decreases n,
{
    if n <= 0 {
        Pt { x: Double::zero(), y: Double::zero() }
    } else {
        let (a, b) = (r[n - 1], next_pt(r, n - 1));
        let s = moments(r, n - 1);
        Pt {
            x: s.x.plus(a.x.plus(b.x).times(cross(a, b))),
            y: s.y.plus(a.y.plus(b.y).times(cross(a, b))),
        }
    }
}

/// 10^-12: areas below it count as none.
pub open spec fn spec_no_area() -> Double {
    Double::ratio(1, 1_000_000_000_000)
}

/// 10^-12: areas below it count as none.
#[verifier::when_used_as_spec(spec_no_area)]
pub fn no_area() -> (r: Double)
    ensures
        r == spec_no_area(),
{
    Double::ratio(1, 1_000_000_000_000)
}

/// The area centroid of a ring and its area. A ring without area has the mean
/// of its points.
pub open spec fn centroid_of_ring(r: Seq<Pt>) -> (Pt, Double) {
    let a = shoelace(r, r.len() as int).times(Double::ratio(1, 2));
    if r.len() < 3 || a.abs().lt(no_area()) {
        (point_mean(r), Double::zero())
    } else {
        let m = moments(r, r.len() as int);
        let d = Double::of_int(6).times(a);
        (Pt { x: m.x.over(d), y: m.y.over(d) }, a.abs())
    }
}

fn ring_centroid(r: &Vec<Pt>) -> (c: (Pt, Double))
    ensures
        c == centroid_of_ring(r@),
{
    let n = r.len();
    if n < 3 {
        return (mean_of(r), Double::zero());
    }
    let mut a = Double::zero();
    let mut m = Pt { x: Double::zero(), y: Double::zero() };
    for i in 0..n
        invariant
            n == r@.len(),
            a == shoelace(r@, i as int),
            m == moments(r@, i as int),
    {
        let p0 = r[i];
        let p1 = r[after(i, n)];
        let c = cross_of(p0, p1);
        a = a.plus(c);
        m = Pt { x: m.x.plus(p0.x.plus(p1.x).times(c)), y: m.y.plus(p0.y.plus(p1.y).times(c)) };
    }
    let a = a.times(Double::ratio(1, 2));
    if a.abs().lt(no_area()) {
        return (mean_of(r), Double::zero());
    }
    let d = Double::of_int(6).times(a);
    (Pt { x: m.x.over(d), y: m.y.over(d) }, a.abs())
}

// ---------------------------------------------------------------------------
// Polygons
// ---------------------------------------------------------------------------

impl PolygonView {
    /// The area of the outer ring less those of the first `n` holes.
    pub open spec fn area_less(self, n: int) -> Double
        decreases n,
    {
        if n <= 0 {
            ring_area(self.exterior)
        } else {
            self.area_less(n - 1).minus(ring_area(self.interiors[n - 1]))
        }
    }

    /// The area inside the outer ring and outside the holes.
    pub open spec fn area(self) -> Double {
        self.area_less(self.interiors.len() as int)
    }

    /// The moment of the outer ring less those of the first `n` holes, and the
    /// area likewise.
    pub open spec fn moment_less(self, n: int) -> (Pt, Double)
        decreases n,
    {
        if n <= 0 {
            let (c, a) = centroid_of_ring(self.exterior);
            (Pt { x: c.x.times(a), y: c.y.times(a) }, a)
        } else {
            let (m, net) = self.moment_less(n - 1);
            let (c, a) = centroid_of_ring(self.interiors[n - 1]);
            (Pt { x: m.x.minus(c.x.times(a)), y: m.y.minus(c.y.times(a)) }, net.minus(a))
        }
    }

    /// The area centroid, holes counting as negative area. Without area, the
    /// mean of the outer ring's points.
    pub open spec fn centroid(self) -> Pt {
        let (m, net) = self.moment_less(self.interiors.len() as int);
        if net.abs().lt(no_area()) {
            point_mean(self.exterior)
        } else {
            Pt { x: m.x.over(net), y: m.y.over(net) }
        }
    }
}

/// The least and greatest coordinates of the first `n` points.
pub open spec fn bounds_of(r: Seq<Pt>, n: int) -> (Pt, Pt)
    decreases n,
{
    if n <= 0 {
        (
            Pt { x: Double::infinity(), y: Double::infinity() },
            Pt { x: Double::infinity().negated(), y: Double::infinity().negated() },
        )
    } else {
        let (lo, hi) = bounds_of(r, n - 1);
        let p = r[n - 1];
        (
            Pt { x: lo.x.min(p.x), y: lo.y.min(p.y) },
            Pt { x: hi.x.max(p.x), y: hi.y.max(p.y) },
        )
    }
}

impl Polygon {
    /// All rings, the outer one first.
    pub fn rings(&self) -> (r: Vec<&Vec<Pt>>)
        ensures
            r@.len() == self@.rings().len(),
            forall|i: int| 0 <= i < r@.len() ==> (#[trigger] r@[i])@ == self@.rings()[i],
    {
        let mut out: Vec<&Vec<Pt>> = Vec::new();
        out.push(&self.exterior);
        for i in 0..self.interiors.len()
            invariant
                out@.len() == i + 1,
                forall|k: int| 0 <= k < out@.len() ==> (#[trigger] out@[k])@ == self@.rings()[k],
        {
            out.push(&self.interiors[i]);
        }
        out
    }

    /// The area inside the outer ring and outside the holes.
    pub fn area(&self) -> (a: Double)
        ensures
            a == self@.area(),
    {
        let mut a = area_of_ring(&self.exterior);
        for i in 0..self.interiors.len()
            invariant
                a == self@.area_less(i as int),
        {
            a = a.minus(area_of_ring(&self.interiors[i]));
        }
        a
    }

    /// `(minx, miny, maxx, maxy)` over the outer ring.
    pub fn bounds(&self) -> (b: (Double, Double, Double, Double))
        ensures
            ({
                let (lo, hi) = bounds_of(self@.exterior, self@.exterior.len() as int);
                b == (lo.x, lo.y, hi.x, hi.y)
            }),
    {
        let mut lo = Pt { x: Double::infinity(), y: Double::infinity() };
        let mut hi = Pt { x: Double::infinity().negated(), y: Double::infinity().negated() };
        for i in 0..self.exterior.len()
            invariant
                (lo, hi) == bounds_of(self@.exterior, i as int),
        {
            let p = self.exterior[i];
            lo = Pt { x: lo.x.min(p.x), y: lo.y.min(p.y) };
            hi = Pt { x: hi.x.max(p.x), y: hi.y.max(p.y) };
        }
        (lo.x, lo.y, hi.x, hi.y)
    }

    /// The area centroid, holes counting as negative area.
    pub fn centroid(&self) -> (c: Pt)
        ensures
            c == self@.centroid(),
    {
        let (ec, ea) = ring_centroid(&self.exterior);
        let mut m = Pt { x: ec.x.times(ea), y: ec.y.times(ea) };
        let mut net = ea;
        for i in 0..self.interiors.len()
            invariant
                (m, net) == self@.moment_less(i as int),
        {
            let (hc, ha) = ring_centroid(&self.interiors[i]);
            m = Pt { x: m.x.minus(hc.x.times(ha)), y: m.y.minus(hc.y.times(ha)) };
            net = net.minus(ha);
        }
        if net.abs().lt(no_area()) {
            return mean_of(&self.exterior);
        }
        Pt { x: m.x.over(net), y: m.y.over(net) }
    }
}

// ---------------------------------------------------------------------------
// Geometries of several parts
// ---------------------------------------------------------------------------

impl GeomView {
    /// The sum of the areas of the first `n` parts.
    pub open spec fn area_to(self, n: int) -> Double
        decreases n,
    {
        if n <= 0 {
            Double::negative_zero()
        } else {
            self.area_to(n - 1).plus(self.parts[n - 1].area())
        }
    }

    /// The area of all parts.
    pub open spec fn area(self) -> Double {
        self.area_to(self.parts.len() as int)
    }

    /// The rings of the first `n` parts.
    pub open spec fn rings_to(self, n: int) -> Seq<Seq<Pt>>
        decreases n,
    {
        if n <= 0 {
            seq![]
        } else {
            self.rings_to(n - 1) + self.parts[n - 1].rings()
        }
    }

    /// The rings of all parts.
    pub open spec fn rings(self) -> Seq<Seq<Pt>> {
        self.rings_to(self.parts.len() as int)
    }

    /// The points of the outer rings of the first `n` parts.
    pub open spec fn verts_to(self, n: int) -> Seq<Pt>
        decreases n,
    {
        if n <= 0 {
            seq![]
        } else {
            self.verts_to(n - 1) + self.parts[n - 1].exterior
        }
    }

    /// The points of all outer rings.
    pub open spec fn verts(self) -> Seq<Pt> {
        self.verts_to(self.parts.len() as int)
    }

    /// The sum over the first `n` parts of the area, and of the centroid
    /// weighted by it.
    pub open spec fn weight_to(self, n: int) -> (Double, Pt)
        decreases n,
    {
        if n <= 0 {
            (Double::zero(), Pt { x: Double::zero(), y: Double::zero() })
        } else {
            let (w, m) = self.weight_to(n - 1);
            let a = self.parts[n - 1].area();
            let c = self.parts[n - 1].centroid();
            (w.plus(a), Pt { x: m.x.plus(c.x.times(a)), y: m.y.plus(c.y.times(a)) })
        }
    }

    /// The centroid of the parts, weighted by their areas; of the first part
    /// if there is no other, or no area; the origin if there is no part.
    pub open spec fn centroid(self) -> Pt {
        let (w, m) = self.weight_to(self.parts.len() as int);
        if self.parts.len() == 0 {
            Pt { x: Double::zero(), y: Double::zero() }
        } else if self.parts.len() == 1 || w.abs().lt(no_area()) {
            self.parts[0].centroid()
        } else {
            Pt { x: m.x.over(w), y: m.y.over(w) }
        }
    }
}

impl Geom {
    /// The polygons.
    pub fn parts(&self) -> (r: Vec<&Polygon>)
        ensures
            r@.len() == self@.parts.len(),
            forall|i: int| 0 <= i < r@.len() ==> (#[trigger] r@[i])@ == self@.parts[i],
    {
        let mut out: Vec<&Polygon> = Vec::new();
        match self {
            Geom::Poly(p) => {
                out.push(p);
            },
            Geom::Multi(v) => {
                for i in 0..v.len()
                    invariant
                        out@.len() == i,
                        forall|k: int| 0 <= k < i ==> (#[trigger] out@[k])@ == v@[k]@,
                {
                    out.push(&v[i]);
                }
            },
        }
        out
    }

    /// Whether this is a list of polygons, of whatever length.
    pub fn is_multi(&self) -> (r: bool)
        ensures
            r == self@.multi,
    {
        match self {
            Geom::Poly(_) => false,
            Geom::Multi(_) => true,
        }
    }

    /// The area of all parts.
    pub fn area(&self) -> (a: Double)
        ensures
            a == self@.area(),
    {
        let parts = self.parts();
        let mut a = Double::negative_zero();
        for i in 0..parts.len()
            invariant
                parts@.len() == self@.parts.len(),
                forall|k: int| 0 <= k < parts@.len() ==> (#[trigger] parts@[k])@ == self@.parts[k],
                a == self@.area_to(i as int),
        {
            a = a.plus(parts[i].area());
        }
        a
    }

    /// All rings of all parts.
    pub fn all_rings(&self) -> (r: Vec<&Vec<Pt>>)
        ensures
            r@.len() == self@.rings().len(),
            forall|i: int| 0 <= i < r@.len() ==> (#[trigger] r@[i])@ == self@.rings()[i],
    {
        let parts = self.parts();
        let mut out: Vec<&Vec<Pt>> = Vec::new();
        for i in 0..parts.len()
            invariant
                parts@.len() == self@.parts.len(),
                forall|k: int| 0 <= k < parts@.len() ==> (#[trigger] parts@[k])@ == self@.parts[k],
                out@.len() == self@.rings_to(i as int).len(),
                forall|k: int|
                    0 <= k < out@.len() ==> (#[trigger] out@[k])@ == self@.rings_to(i as int)[k],
        {
            let rings = parts[i].rings();
            let ghost before = out@.len() as int;
            for j in 0..rings.len()
                invariant
                    i < self@.parts.len(),
                    parts@[i as int]@ == self@.parts[i as int],
                    rings@.len() == self@.parts[i as int].rings().len(),
                    forall|k: int|
                        0 <= k < rings@.len() ==> (#[trigger] rings@[k])@
                            == self@.parts[i as int].rings()[k],
                    before == self@.rings_to(i as int).len(),
                    out@.len() == before + j,
                    forall|k: int|
                        0 <= k < out@.len() ==> (#[trigger] out@[k])@ == self@.rings_to(i + 1)[k],
            {
                out.push(rings[j]);
            }
        }
        out
    }

    /// The points of all outer rings.
    pub fn exterior_verts(&self) -> (r: Vec<Pt>)
        ensures
            r@ == self@.verts(),
    {
        let parts = self.parts();
        let mut out: Vec<Pt> = Vec::new();
        for i in 0..parts.len()
            invariant
                parts@.len() == self@.parts.len(),
                forall|k: int| 0 <= k < parts@.len() ==> (#[trigger] parts@[k])@ == self@.parts[k],
                out@ == self@.verts_to(i as int),
        {
            let ring = &parts[i].exterior;
            for j in 0..ring.len()
                invariant
                    i < self@.parts.len(),
                    ring@ == self@.parts[i as int].exterior,
                    out@ == self@.verts_to(i as int) + ring@.take(j as int),
            {
                out.push(ring[j]);
                assert(out@ =~= self@.verts_to(i as int) + ring@.take(j + 1));
            }
            assert(ring@.take(ring@.len() as int) =~= ring@);
        }
        out
    }

    /// The centroid of the parts, weighted by their areas.
    pub fn centroid(&self) -> (c: Pt)
        ensures
            c == self@.centroid(),
    {
        let parts = self.parts();
        if parts.len() == 0 {
            return Pt { x: Double::zero(), y: Double::zero() };
        }
        if parts.len() == 1 {
            return parts[0].centroid();
        }
        let mut w = Double::zero();
        let mut m = Pt { x: Double::zero(), y: Double::zero() };
        for i in 0..parts.len()
            invariant
                parts@.len() == self@.parts.len(),
                forall|k: int| 0 <= k < parts@.len() ==> (#[trigger] parts@[k])@ == self@.parts[k],
                (w, m) == self@.weight_to(i as int),
        {
            let a = parts[i].area();
            let c = parts[i].centroid();
            w = w.plus(a);
            m = Pt { x: m.x.plus(c.x.times(a)), y: m.y.plus(c.y.times(a)) };
        }
        if w.abs().lt(no_area()) {
            return parts[0].centroid();
        }
        Pt { x: m.x.over(w), y: m.y.over(w) }
    }
}

impl From<Polygon> for Geom {
    fn from(p: Polygon) -> (r: Self) {
        Geom::Poly(p)
    }
}

impl vstd::std_specs::convert::FromSpecImpl<Polygon> for Geom {
    open spec fn obeys_from_spec() -> bool {
        true
    }

    open spec fn from_spec(p: Polygon) -> Self {
        Geom::Poly(p)
    }
}

// ---------------------------------------------------------------------------
// Rotations
// ---------------------------------------------------------------------------

/// An angle in degrees, in radians.
pub open spec fn spec_radians(deg: Double) -> Double {
    deg.times(Double::pi()).over(Double::of_int(180))
}

/// An angle in degrees, in radians.
#[verifier::when_used_as_spec(spec_radians)]
pub fn radians(deg: Double) -> (r: Double)
    ensures
        r == spec_radians(deg),
{
    deg.times(Double::pi()).over(Double::of_int(180))
}

/// A point turned counterclockwise about `o` by the angle whose sine and cosine
/// are given.
pub open spec fn turned(p: Pt, sc: (Double, Double), o: Pt) -> Pt {
    let (s, c) = sc;
    let xoff = o.x.minus(o.x.times(c)).plus(o.y.times(s));
    let yoff = o.y.minus(o.x.times(s)).minus(o.y.times(c));
    Pt {
        x: c.times(p.x).minus(s.times(p.y)).plus(xoff),
        y: s.times(p.x).plus(c.times(p.y)).plus(yoff),
    }
}

/// A point turned counterclockwise about `o` by the angle whose sine and cosine
/// are given.
pub fn turn(p: Pt, sc: (Double, Double), o: Pt) -> (r: Pt)
    ensures
        r == turned(p, sc, o),
{
    let (s, c) = sc;
    let xoff = o.x.minus(o.x.times(c)).plus(o.y.times(s));
    let yoff = o.y.minus(o.x.times(s)).minus(o.y.times(c));
    Pt {
        x: c.times(p.x).minus(s.times(p.y)).plus(xoff),
        y: s.times(p.x).plus(c.times(p.y)).plus(yoff),
    }
}

/// A point turned counterclockwise about `o` by `deg` degrees.
pub fn rotate_pt<T: Fn(Double) -> (Double, Double)>(p: Pt, deg: Double, o: Pt, sin_cos: &T) -> (r: Pt)
    requires
        trig_total(*sin_cos),
    ensures
        forall|t: Trig| #[trigger] trig_is(*sin_cos, t) ==> r == turned(p, t(radians(deg)), o),
{
    turn(p, sin_cos(radians(deg)), o)
}

/// A ring whose points are turned.
pub open spec fn turned_ring(r: Seq<Pt>, sc: (Double, Double), o: Pt) -> Seq<Pt> {
    Seq::new(r.len(), |i: int| turned(r[i], sc, o))
}

/// Rings whose points are turned.
pub open spec fn turned_rings(v: Seq<Seq<Pt>>, sc: (Double, Double), o: Pt) -> Seq<Seq<Pt>> {
    Seq::new(v.len(), |i: int| turned_ring(v[i], sc, o))
}

impl PolygonView {
    /// A polygon whose points are turned.
    pub open spec fn turned(self, sc: (Double, Double), o: Pt) -> PolygonView {
        PolygonView {
            exterior: turned_ring(self.exterior, sc, o),
            interiors: turned_rings(self.interiors, sc, o),
        }
    }
}

/// A ring whose points are turned.
pub fn turn_ring(r: &Vec<Pt>, sc: (Double, Double), o: Pt) -> (out: Vec<Pt>)
    ensures
        out@ == turned_ring(r@, sc, o),
{
    let mut out: Vec<Pt> = Vec::new();
    for i in 0..r.len()
        invariant
            out@ == turned_ring(r@, sc, o).take(i as int),
    {
        out.push(turn(r[i], sc, o));
        assert(out@ =~= turned_ring(r@, sc, o).take(i + 1));
    }
    assert(out@ =~= turned_ring(r@, sc, o));
    out
}

/// A polygon whose points are turned.
pub fn turn_poly(poly: &Polygon, sc: (Double, Double), o: Pt) -> (out: Polygon)
    ensures
        out@ == poly@.turned(sc, o),
{
    let exterior = turn_ring(&poly.exterior, sc, o);
    let mut interiors: Vec<Vec<Pt>> = Vec::new();
    for i in 0..poly.interiors.len()
        invariant
            ring_views(interiors@) == turned_rings(poly@.interiors, sc, o).take(i as int),
    {
        let c = turn_ring(&poly.interiors[i], sc, o);
        proof {
            lemma_ring_views_push(interiors@, c);
            assert(turned_rings(poly@.interiors, sc, o).take(i as int).push(c@) =~= turned_rings(
                poly@.interiors,
                sc,
                o,
            ).take(i + 1));
        }
        interiors.push(c);
    }
    let out = Polygon { exterior, interiors };
    assert(out@.interiors =~= turned_rings(poly@.interiors, sc, o));
    out
}

/// A polygon turned counterclockwise about `o` by `deg` degrees.
pub fn rotate_poly<T: Fn(Double) -> (Double, Double)>(
    poly: &Polygon,
    deg: Double,
    o: Pt,
    sin_cos: &T,
) -> (r: Polygon)
    requires
        trig_total(*sin_cos),
    ensures
        forall|t: Trig| #[trigger] trig_is(*sin_cos, t) ==> r@ == poly@.turned(t(radians(deg)), o),
{
    turn_poly(poly, sin_cos(radians(deg)), o)
}

// ---------------------------------------------------------------------------
// Distances
// ---------------------------------------------------------------------------

/// The distance between two points.
pub open spec fn dist_by(h: Hypot, a: Pt, b: Pt) -> Double {
    h(a.x.minus(b.x), a.y.minus(b.y))
}

/// The distance between two points.
pub fn dist<H: Fn(Double, Double) -> Double>(a: Pt, b: Pt, hypot: &H) -> (r: Double)
    requires
        hypot_total(*hypot),
    ensures
        forall|h: Hypot| #[trigger] hypot_is(*hypot, h) ==> r == dist_by(h, a, b),
{
    hypot(a.x.minus(b.x), a.y.minus(b.y))
}

/// The point of the segment `a b` that is nearest to `p`.
pub open spec fn foot(p: Pt, a: Pt, b: Pt) -> Pt {
    let vx = b.x.minus(a.x);
    let vy = b.y.minus(a.y);
    let wx = p.x.minus(a.x);
    let wy = p.y.minus(a.y);
    let len2 = vx.times(vx).plus(vy.times(vy));
    let t = if Double::zero().lt(len2) {
        wx.times(vx).plus(wy.times(vy)).over(len2).clamp(Double::zero(), Double::of_int(1))
    } else {
        Double::zero()
    };
    Pt { x: a.x.plus(t.times(vx)), y: a.y.plus(t.times(vy)) }
}

fn foot_of(p: Pt, a: Pt, b: Pt) -> (r: Pt)
    ensures
        r == foot(p, a, b),
{
    let vx = b.x.minus(a.x);
    let vy = b.y.minus(a.y);
    let wx = p.x.minus(a.x);
    let wy = p.y.minus(a.y);
    let len2 = vx.times(vx).plus(vy.times(vy));
    let t = if Double::zero().lt(len2) {
        wx.times(vx).plus(wy.times(vy)).over(len2).clamp(Double::zero(), Double::of_int(1))
    } else {
        Double::zero()
    };
    Pt { x: a.x.plus(t.times(vx)), y: a.y.plus(t.times(vy)) }
}

/// On which side of the line `a b` the point `c` lies, by sign.
pub open spec fn side(a: Pt, b: Pt, c: Pt) -> Double {
    b.x.minus(a.x).times(c.y.minus(a.y)).minus(b.y.minus(a.y).times(c.x.minus(a.x)))
}

fn side_of(a: Pt, b: Pt, c: Pt) -> (r: Double)
    ensures
        r == side(a, b, c),
{
    b.x.minus(a.x).times(c.y.minus(a.y)).minus(b.y.minus(a.y).times(c.x.minus(a.x)))
}

/// One number is above zero and the other below.
pub open spec fn opposite(a: Double, b: Double) -> bool {
    ||| Double::zero().lt(a) && b.lt(Double::zero())
    ||| a.lt(Double::zero()) && Double::zero().lt(b)
}

fn are_opposite(a: Double, b: Double) -> (r: bool)
    ensures
        r == opposite(a, b),
{
    let z = Double::zero();
    (z.lt(a) && b.lt(z)) || (a.lt(z) && z.lt(b))
}

/// Each segment has its ends on both sides of the other's line.
pub open spec fn segments_cross(p1: Pt, p2: Pt, p3: Pt, p4: Pt) -> bool {
    &&& opposite(side(p3, p4, p1), side(p3, p4, p2))
    &&& opposite(side(p1, p2, p3), side(p1, p2, p4))
}

fn segments_intersect(p1: Pt, p2: Pt, p3: Pt, p4: Pt) -> (r: bool)
    ensures
        r == segments_cross(p1, p2, p3, p4),
{
    are_opposite(side_of(p3, p4, p1), side_of(p3, p4, p2)) && are_opposite(
        side_of(p1, p2, p3),
        side_of(p1, p2, p4),
    )
}

/// The distance of a point from a segment.
pub open spec fn pt_seg_dist_by(h: Hypot, p: Pt, a: Pt, b: Pt) -> Double {
    dist_by(h, p, foot(p, a, b))
}

fn pt_seg_dist<H: Fn(Double, Double) -> Double>(p: Pt, a: Pt, b: Pt, hypot: &H) -> (r: Double)
    requires
        hypot_total(*hypot),
    ensures
        forall|h: Hypot| #[trigger] hypot_is(*hypot, h) ==> r == pt_seg_dist_by(h, p, a, b),
{
    dist(p, foot_of(p, a, b), hypot)
}

/// The distance between two segments: zero where they cross, else the least
/// distance of an end of one from the other.
pub open spec fn seg_seg_dist_by(h: Hypot, p1: Pt, p2: Pt, p3: Pt, p4: Pt) -> Double {
    if segments_cross(p1, p2, p3, p4) {
        Double::zero()
    } else {
        Double::infinity().min(pt_seg_dist_by(h, p1, p3, p4)).min(
            pt_seg_dist_by(h, p2, p3, p4),
        ).min(pt_seg_dist_by(h, p3, p1, p2)).min(pt_seg_dist_by(h, p4, p1, p2))
    }
}

fn seg_seg_dist<H: Fn(Double, Double) -> Double>(
    p1: Pt,
    p2: Pt,
    p3: Pt,
    p4: Pt,
    hypot: &H,
) -> (r: Double)
    requires
        hypot_total(*hypot),
    ensures
        forall|h: Hypot| #[trigger]
            hypot_is(*hypot, h) ==> r == seg_seg_dist_by(h, p1, p2, p3, p4),
{
    if segments_intersect(p1, p2, p3, p4) {
        return Double::zero();
    }
    let d1 = pt_seg_dist(p1, p3, p4, hypot);
    let d2 = pt_seg_dist(p2, p3, p4, hypot);
    let d3 = pt_seg_dist(p3, p1, p2, hypot);
    let d4 = pt_seg_dist(p4, p1, p2, hypot);
    Double::infinity().min(d1).min(d2).min(d3).min(d4)
}

/// The least of `best` and the distances of edge `i` of ring `a` from the first
/// `n` edges of ring `b`.
pub open spec fn edge_ring_dist(h: Hypot, a: Seq<Pt>, i: int, b: Seq<Pt>, n: int, best: Double) -> Double
    decreases n,
{
    if n <= 0 {
        best
    } else {
        edge_ring_dist(h, a, i, b, n - 1, best).min(
            seg_seg_dist_by(h, a[i], next_pt(a, i), b[n - 1], next_pt(b, n - 1)),
        )
    }
}

/// The least distance of one of the first `n` edges of ring `a` from an edge of
/// ring `b`.
pub open spec fn ring_ring_dist_to(h: Hypot, a: Seq<Pt>, n: int, b: Seq<Pt>) -> Double
    decreases n,
{
    if n <= 0 {
        Double::infinity()
    } else {
        edge_ring_dist(h, a, n - 1, b, b.len() as int, ring_ring_dist_to(h, a, n - 1, b))
    }
}

/// The least distance of an edge of one ring from an edge of another.
pub open spec fn ring_ring_dist_by(h: Hypot, a: Seq<Pt>, b: Seq<Pt>) -> Double {
    ring_ring_dist_to(h, a, a.len() as int, b)
}

fn ring_ring_dist<H: Fn(Double, Double) -> Double>(
    a: &Vec<Pt>,
    b: &Vec<Pt>,
    hypot: &H,
) -> (r: Double)
    requires
        hypot_total(*hypot),
    ensures
        forall|h: Hypot| #[trigger] hypot_is(*hypot, h) ==> r == ring_ring_dist_by(h, a@, b@),
{
    let mut best = Double::infinity();
    let na = a.len();
    let nb = b.len();
    for i in 0..na
        invariant
            na == a@.len(),
            nb == b@.len(),
            hypot_total(*hypot),
            forall|h: Hypot| #[trigger]
                hypot_is(*hypot, h) ==> best == ring_ring_dist_to(h, a@, i as int, b@),
    {
        let s0 = a[i];
        let s1 = a[after(i, na)];
        let ghost start = best;
        for j in 0..nb
            invariant
                nb == b@.len(),
                i < a@.len(),
                s0 == a@[i as int],
                s1 == next_pt(a@, i as int),
                hypot_total(*hypot),
                forall|h: Hypot| #[trigger]
                    hypot_is(*hypot, h) ==> best == edge_ring_dist(
                        h,
                        a@,
                        i as int,
                        b@,
                        j as int,
                        start,
                    ),
        {
            best = best.min(seg_seg_dist(s0, s1, b[j], b[after(j, nb)], hypot));
        }
    }
    best
}

/// The least of `best` and the distances of ring `a` from the first `n` rings
/// of `b`.
pub open spec fn ring_rings_dist(h: Hypot, a: Seq<Pt>, b: Seq<Seq<Pt>>, n: int, best: Double) -> Double
    decreases n,
{
    if n <= 0 {
        best
    } else {
        ring_rings_dist(h, a, b, n - 1, best).min(ring_ring_dist_by(h, a, b[n - 1]))
    }
}

/// The least distance of one of the first `n` rings of `a` from a ring of `b`.
pub open spec fn rings_dist_to(h: Hypot, a: Seq<Seq<Pt>>, n: int, b: Seq<Seq<Pt>>) -> Double
    decreases n,
{
    if n <= 0 {
        Double::infinity()
    } else {
        ring_rings_dist(h, a[n - 1], b, b.len() as int, rings_dist_to(h, a, n - 1, b))
    }
}

/// The least distance between the boundaries of two polygons.
pub open spec fn poly_distance_by(h: Hypot, a: PolygonView, b: PolygonView) -> Double {
    rings_dist_to(h, a.rings(), a.rings().len() as int, b.rings())
}

/// The least distance between the boundaries of two polygons, whether or not one
/// lies inside the other.
pub fn poly_distance<H: Fn(Double, Double) -> Double>(
    a: &Polygon,
    b: &Polygon,
    hypot: &H,
) -> (r: Double)
    requires
        hypot_total(*hypot),
    ensures
        forall|h: Hypot| #[trigger] hypot_is(*hypot, h) ==> r == poly_distance_by(h, a@, b@),
{
    let ra = a.rings();
    let rb = b.rings();
    let mut best = Double::infinity();
    for i in 0..ra.len()
        invariant
            ra@.len() == a@.rings().len(),
            forall|k: int| 0 <= k < ra@.len() ==> (#[trigger] ra@[k])@ == a@.rings()[k],
            rb@.len() == b@.rings().len(),
            forall|k: int| 0 <= k < rb@.len() ==> (#[trigger] rb@[k])@ == b@.rings()[k],
            hypot_total(*hypot),
            forall|h: Hypot| #[trigger]
                hypot_is(*hypot, h) ==> best == rings_dist_to(
                    h,
                    a@.rings(),
                    i as int,
                    b@.rings(),
                ),
    {
        let ghost start = best;
        for j in 0..rb.len()
            invariant
                i < ra@.len(),
                ra@[i as int]@ == a@.rings()[i as int],
                rb@.len() == b@.rings().len(),
                forall|k: int| 0 <= k < rb@.len() ==> (#[trigger] rb@[k])@ == b@.rings()[k],
                hypot_total(*hypot),
                forall|h: Hypot| #[trigger]
                    hypot_is(*hypot, h) ==> best == ring_rings_dist(
                        h,
                        a@.rings()[i as int],
                        b@.rings(),
                        j as int,
                        start,
                    ),
        {
            best = best.min(ring_ring_dist(ra[i], rb[j], hypot));
        }
    }
    best
}

/// The bounds of points hold every point that has coordinates.
pub proof fn law_bounds_hold_points(r: Seq<Pt>, n: int, i: int)
    requires
        0 <= i < n,
        !r[i].x.nan(),
        !r[i].y.nan(),
    ensures
        ({
            let (lo, hi) = bounds_of(r, n);
            lo.x.le(r[i].x) && r[i].x.le(hi.x) && lo.y.le(r[i].y) && r[i].y.le(hi.y)
        }),
    decreases n,
{
    lemma_bounds_number(r, n - 1);
    if i < n - 1 {
        law_bounds_hold_points(r, n - 1, i);
    }
}

proof fn lemma_bounds_number(r: Seq<Pt>, n: int)
    ensures
        ({
            let (lo, hi) = bounds_of(r, n);
            !lo.x.nan() && !lo.y.nan() && !hi.x.nan() && !hi.y.nan()
        }),
    decreases n,
{
    if n > 0 {
        lemma_bounds_number(r, n - 1);
    }
}

} // verus!
