//! Rings with and without their first point repeated at the end, and unions of
//! geometries.
use vstd::prelude::*;

use crate::geom::{
    copy_ring, is_same_place, lemma_polygon_views_push, lemma_ring_views_push, polygon_views,
    ring_views, same_place, Geom, GeomView, Polygon, PolygonView, Pt,
};
use crate::tools::{union_is, union_total, Union};

verus! {

/// A ring with its first point repeated at the end.
pub open spec fn closed_ring(r: Seq<Pt>) -> Seq<Pt> {
    if r.len() == 0 {
        r
    } else {
        r.push(r[0])
    }
}

/// A ring without a last point that repeats the first.
pub open spec fn opened_ring(r: Seq<Pt>) -> Seq<Pt> {
    if r.len() >= 2 && same_place(r[0], r.last()) {
        r.drop_last()
    } else {
        r
    }
}

/// Opening a ring gives back what was closed, if its first point has
/// coordinates.
pub proof fn law_open_undoes_close(r: Seq<Pt>)
    requires
        r.len() > 0 ==> !r[0].x.nan() && !r[0].y.nan(),
    ensures
        opened_ring(closed_ring(r)) == r,
{
    if r.len() > 0 {
        assert(closed_ring(r).drop_last() =~= r);
    }
}

/// A ring with its first point repeated at the end.
pub fn close_ring(r: &Vec<Pt>) -> (out: Vec<Pt>)
    ensures
        out@ == closed_ring(r@),
{
    let mut out = copy_ring(r);
    if r.len() > 0 {
        out.push(r[0]);
    }
    out
}

/// A ring without a last point that repeats the first.
pub fn open_ring(r: &Vec<Pt>) -> (out: Vec<Pt>)
    ensures
        out@ == opened_ring(r@),
{
    let mut out = copy_ring(r);
    if r.len() >= 2 && is_same_place(r[0], r[r.len() - 1]) {
        out.pop();
        assert(out@ =~= r@.drop_last());
    }
    out
}

impl PolygonView {
    /// With all rings closed.
    pub open spec fn closed(self) -> PolygonView {
        PolygonView {
            exterior: closed_ring(self.exterior),
            interiors: Seq::new(self.interiors.len(), |i: int| closed_ring(self.interiors[i])),
        }
    }

    /// With all rings opened.
    pub open spec fn opened(self) -> PolygonView {
        PolygonView {
            exterior: opened_ring(self.exterior),
            interiors: Seq::new(self.interiors.len(), |i: int| opened_ring(self.interiors[i])),
        }
    }
}

/// A polygon with all rings closed.
pub fn close_poly(p: &Polygon) -> (out: Polygon)
    ensures
        out@ == p@.closed(),
{
    let mut interiors: Vec<Vec<Pt>> = Vec::new();
    for i in 0..p.interiors.len()
        invariant
            ring_views(interiors@) == p@.closed().interiors.take(i as int),
    {
        let r = close_ring(&p.interiors[i]);
        proof {
            lemma_ring_views_push(interiors@, r);
            assert(p@.closed().interiors.take(i as int).push(r@) =~= p@.closed().interiors.take(
                i + 1,
            ));
        }
        interiors.push(r);
    }
    let out = Polygon { exterior: close_ring(&p.exterior), interiors };
    assert(out@ =~= p@.closed());
    out
}

/// A polygon with all rings opened.
pub fn open_poly(p: &Polygon) -> (out: Polygon)
    ensures
        out@ == p@.opened(),
{
    let mut interiors: Vec<Vec<Pt>> = Vec::new();
    for i in 0..p.interiors.len()
        invariant
            ring_views(interiors@) == p@.opened().interiors.take(i as int),
    {
        let r = open_ring(&p.interiors[i]);
        proof {
            lemma_ring_views_push(interiors@, r);
            assert(p@.opened().interiors.take(i as int).push(r@) =~= p@.opened().interiors.take(
                i + 1,
            ));
        }
        interiors.push(r);
    }
    let out = Polygon { exterior: open_ring(&p.exterior), interiors };
    assert(out@ =~= p@.opened());
    out
}

// ---------------------------------------------------------------------------
// Unions
// ---------------------------------------------------------------------------

/// What geometries hold.
pub open spec fn geom_views(v: Seq<Geom>) -> Seq<GeomView> {
    Seq::new(v.len(), |i: int| v[i]@)
}

/// Polygons with all rings closed.
pub open spec fn all_closed(v: Seq<PolygonView>) -> Seq<PolygonView> {
    Seq::new(v.len(), |i: int| v[i].closed())
}

/// Polygons with all rings opened.
pub open spec fn all_opened(v: Seq<PolygonView>) -> Seq<PolygonView> {
    Seq::new(v.len(), |i: int| v[i].opened())
}

/// The closed polygons of the first `n` of the geometries at the given places.
pub open spec fn gathered(geoms: Seq<GeomView>, at: Seq<usize>, n: int) -> Seq<PolygonView>
    decreases n,
{
    if n <= 0 {
        Seq::empty()
    } else {
        gathered(geoms, at, n - 1) + all_closed(geoms[at[n - 1] as int].parts)
    }
}

/// One geometry out of polygons: a lone polygon where there is one.
pub open spec fn geom_of(parts: Seq<PolygonView>) -> GeomView {
    GeomView { multi: parts.len() != 1, parts }
}

/// The union of the geometries at the given places.
pub open spec fn union_at(u: Union, geoms: Seq<GeomView>, at: Seq<usize>) -> GeomView {
    geom_of(all_opened(u(gathered(geoms, at, at.len() as int))))
}

/// One geometry out of closed polygons.
pub fn geom_from_closed(v: &Vec<Polygon>) -> (r: Geom)
    ensures
        r@ == geom_of(all_opened(polygon_views(v@))),
{
    if v.len() == 1 {
        let r = Geom::Poly(open_poly(&v[0]));
        assert(r@.parts =~= all_opened(polygon_views(v@)));
        return r;
    }
    let mut parts: Vec<Polygon> = Vec::new();
    for i in 0..v.len()
        invariant
            polygon_views(parts@) == all_opened(polygon_views(v@)).take(i as int),
    {
        let q = open_poly(&v[i]);
        proof {
            lemma_polygon_views_push(parts@, q);
            assert(all_opened(polygon_views(v@)).take(i as int).push(q@) =~= all_opened(
                polygon_views(v@),
            ).take(i + 1));
        }
        parts.push(q);
    }
    assert(polygon_views(parts@) =~= all_opened(polygon_views(v@)));
    Geom::Multi(parts)
}

/// The union of the geometries at the given places.
pub fn union_geoms<U: Fn(&Vec<Polygon>) -> Vec<Polygon>>(
    geoms: &Vec<Geom>,
    at: &Vec<usize>,
    union: &U,
) -> (r: Geom)
    requires
        union_total(*union),
        forall|i: int| 0 <= i < at@.len() ==> #[trigger] at@[i] < geoms@.len(),
    ensures
        forall|u: Union| #[trigger]
            union_is(*union, u) ==> r@ == union_at(u, geom_views(geoms@), at@),
{
    let mut polys: Vec<Polygon> = Vec::new();
    for i in 0..at.len()
        invariant
            forall|k: int| 0 <= k < at@.len() ==> #[trigger] at@[k] < geoms@.len(),
            polygon_views(polys@) == gathered(geom_views(geoms@), at@, i as int),
    {
        assert(at@[i as int] < geoms@.len());
        let parts = geoms[at[i]].parts();
        let ghost before = polygon_views(polys@);
        let ghost closed = all_closed(geom_views(geoms@)[at@[i as int] as int].parts);
        assert(closed.take(0) =~= Seq::<PolygonView>::empty());
        for j in 0..parts.len()
            invariant
                parts@.len() == closed.len(),
                forall|k: int| 0 <= k < parts@.len() ==> (#[trigger] parts@[k])@.closed() == closed[k],
                polygon_views(polys@) == before + closed.take(j as int),
        {
            let q = close_poly(parts[j]);
            proof {
                lemma_polygon_views_push(polys@, q);
                assert((before + closed.take(j as int)).push(q@) =~= before + closed.take(j + 1));
            }
            polys.push(q);
        }
        assert(closed.take(closed.len() as int) =~= closed);
    }
    let whole = union(&polys);
    geom_from_closed(&whole)
}

} // verus!
