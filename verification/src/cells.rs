//! Cells of a polygon: cut where a sweep line meets it in another way, slivers
//! joined to a neighbour.
use vstd::prelude::*;

use crate::boundary::{events, shared, shared_boundary_len, x_events};
use crate::double::Double;
use crate::geom::{
    bounds_of, lemma_polygon_views_push, polygon_views, radians, turn_poly, Geom, GeomView, Polygon,
    PolygonView, Pt,
};
use crate::rings::{close_poly, geom_views, open_poly, union_at, union_geoms};
use crate::tools::{clip_is, clip_total, hypot_is, hypot_total, Clip, Hypot, Meaning, Tools};

verus! {

/// The ring of a slab between two verticals, ten feet beyond the bounds, closed.
pub open spec fn slab_ring(xa: Double, xb: Double, miny: Double, maxy: Double) -> Seq<Pt> {
    let (lo, hi) = (miny.minus(Double::of_int(10)), maxy.plus(Double::of_int(10)));
    seq![
        Pt { x: xa, y: lo },
        Pt { x: xb, y: lo },
        Pt { x: xb, y: hi },
        Pt { x: xa, y: hi },
        Pt { x: xa, y: lo },
    ]
}

/// A slab between two verticals.
pub open spec fn slab(xa: Double, xb: Double, miny: Double, maxy: Double) -> PolygonView {
    PolygonView { exterior: slab_ring(xa, xb, miny, maxy), interiors: Seq::empty() }
}

fn slab_between(xa: Double, xb: Double, miny: Double, maxy: Double) -> (r: Polygon)
    ensures
        r@ == slab(xa, xb, miny, maxy),
{
    let (lo, hi) = (miny.minus(Double::of_int(10)), maxy.plus(Double::of_int(10)));
    let mut ring: Vec<Pt> = Vec::new();
    ring.push(Pt { x: xa, y: lo });
    ring.push(Pt { x: xb, y: lo });
    ring.push(Pt { x: xb, y: hi });
    ring.push(Pt { x: xa, y: hi });
    ring.push(Pt { x: xa, y: lo });
    let r = Polygon { exterior: ring, interiors: Vec::new() };
    assert(r@ =~= slab(xa, xb, miny, maxy));
    r
}

/// A geometry of one polygon.
pub open spec fn lone(p: PolygonView) -> GeomView {
    GeomView { multi: false, parts: seq![p] }
}

/// The cells out of the first `n` polygons of a cut: those of more than a square
/// foot.
pub open spec fn kept(cut: Seq<PolygonView>, n: int) -> Seq<GeomView>
    decreases n,
{
    if n <= 0 {
        Seq::empty()
    } else {
        let before = kept(cut, n - 1);
        let p = cut[n - 1].opened();
        if Double::of_int(1).lt(p.area()) {
            before.push(lone(p))
        } else {
            before
        }
    }
}

/// The cells in the first `n` slabs of a foot and more.
pub open spec fn slab_cells(clip: Clip, rot: PolygonView, xs: Seq<Double>, n: int) -> Seq<GeomView>
    decreases n,
{
    if n <= 0 {
        Seq::empty()
    } else {
        let before = slab_cells(clip, rot, xs, n - 1);
        let (lo, hi) = bounds_of(rot.exterior, rot.exterior.len() as int);
        let (xa, xb) = (xs[n - 1], xs[n]);
        if xb.minus(xa).lt(Double::of_int(1)) {
            before
        } else {
            let cut = clip(rot.closed(), slab(xa, xb, lo.y, hi.y));
            before + kept(cut, cut.len() as int)
        }
    }
}

proof fn lemma_geom_views_push(v: Seq<Geom>, g: Geom)
    ensures
        geom_views(v.push(g)) == geom_views(v).push(g@),
{
    assert(geom_views(v.push(g)) =~= geom_views(v).push(g@));
}

/// The cells between neighbouring events of a polygon.
pub fn cut_cells<C: Fn(&Polygon, &Polygon) -> Vec<Polygon>>(
    rot: &Polygon,
    xs: &Vec<Double>,
    clip: &C,
) -> (r: Vec<Geom>)
    requires
        clip_total(*clip),
    ensures
        forall|c: Clip| #[trigger]
            clip_is(*clip, c) ==> geom_views(r@) == slab_cells(c, rot@, xs@, xs@.len() - 1),
{
    let (_, miny, _, maxy) = rot.bounds();
    let whole = close_poly(rot);
    let mut cells: Vec<Geom> = Vec::new();
    assert(geom_views(cells@) =~= Seq::empty());
    if xs.len() == 0 {
        return cells;
    }
    for k in 0..xs.len() - 1
        invariant
            clip_total(*clip),
            xs@.len() > 0,
            whole@ == rot@.closed(),
            miny == bounds_of(rot@.exterior, rot@.exterior.len() as int).0.y,
            maxy == bounds_of(rot@.exterior, rot@.exterior.len() as int).1.y,
            forall|c: Clip| #[trigger]
                clip_is(*clip, c) ==> geom_views(cells@) == slab_cells(c, rot@, xs@, k as int),
    {
        let (xa, xb) = (xs[k], xs[k + 1]);
        if !xb.minus(xa).lt(Double::of_int(1)) {
            let strip = slab_between(xa, xb, miny, maxy);
            let cut = clip(&whole, &strip);
            let ghost before = geom_views(cells@);
            assert(before + kept(polygon_views(cut@), 0) =~= before);
            for i in 0..cut.len()
                invariant
                    geom_views(cells@) == before + kept(polygon_views(cut@), i as int),
            {
                let p = open_poly(&cut[i]);
                if Double::of_int(1).lt(p.area()) {
                    let g = Geom::Poly(p);
                    proof {
                        lemma_geom_views_push(cells@, g);
                        assert((before + kept(polygon_views(cut@), i as int)).push(g@) =~= before
                            + kept(polygon_views(cut@), i as int).push(g@));
                    }
                    cells.push(g);
                }
            }
        }
    }
    cells
}

// ---------------------------------------------------------------------------
// Slivers
// ---------------------------------------------------------------------------

/// The cell among the first `n` with which cell `i` shares most boundary, the
/// first on a tie, and how much; no cell, -1, where it shares none.
pub open spec fn best_neighbor(h: Hypot, cells: Seq<GeomView>, i: int, n: int) -> (int, Double)
    decreases n,
{
    if n <= 0 {
        (-1int, Double::zero())
    } else {
        let best = best_neighbor(h, cells, i, n - 1);
        let l = shared(h, cells[i], cells[n - 1]);
        if n - 1 != i && best.1.lt(l) {
            (n - 1, l)
        } else {
            best
        }
    }
}

/// Whether cell `i` is a sliver that is joined: not of the least area, and with
/// more than half a foot of boundary in common with a neighbour.
pub open spec fn joins(h: Hypot, cells: Seq<GeomView>, least: Double, i: int) -> bool {
    let (j, l) = best_neighbor(h, cells, i, cells.len() as int);
    !least.le(cells[i].area()) && j >= 0 && Double::ratio(1, 2).lt(l)
}

/// The first cell from `i` on that is joined to a neighbour; the number of cells
/// where none is.
pub open spec fn first_sliver(h: Hypot, cells: Seq<GeomView>, least: Double, i: int) -> int
    decreases cells.len() - i,
{
    if i >= cells.len() || joins(h, cells, least, i) {
        i
    } else {
        first_sliver(h, cells, least, i + 1)
    }
}

/// The union of cell `j` with cell `i` in its place, and cell `i` gone.
pub open spec fn joined_cells(m: Meaning, cells: Seq<GeomView>, i: int, j: int) -> Seq<GeomView> {
    cells.update(j, union_at(m.union, cells, seq![j as usize, i as usize])).remove(i)
}

/// Cells after slivers are joined to neighbours, one after the other.
pub open spec fn absorbed(m: Meaning, cells: Seq<GeomView>, least: Double) -> Seq<GeomView>
    decreases cells.len(),
{
    let i = first_sliver(m.hypot, cells, least, 0);
    if 0 <= i < cells.len() {
        let j = best_neighbor(m.hypot, cells, i, cells.len() as int).0;
        proof {
            lemma_first_sliver(m.hypot, cells, least, 0);
            lemma_best_neighbor(m.hypot, cells, i, cells.len() as int);
        }
        absorbed(m, joined_cells(m, cells, i, j), least)
    } else {
        cells
    }
}

/// The best neighbour of a cell is another cell.
pub proof fn lemma_best_neighbor(h: Hypot, cells: Seq<GeomView>, i: int, n: int)
    ensures
        -1 <= best_neighbor(h, cells, i, n).0 < n || n < 0,
        best_neighbor(h, cells, i, n).0 == -1 || best_neighbor(h, cells, i, n).0 != i,
    decreases n,
{
    if n > 0 {
        lemma_best_neighbor(h, cells, i, n - 1);
    }
}

/// What the first sliver is.
pub proof fn lemma_first_sliver(h: Hypot, cells: Seq<GeomView>, least: Double, i: int)
    ensures
        first_sliver(h, cells, least, i) >= i,
        first_sliver(h, cells, least, i) < cells.len() ==> joins(
            h,
            cells,
            least,
            first_sliver(h, cells, least, i),
        ),
    decreases cells.len() - i,
{
    if i >= cells.len() || joins(h, cells, least, i) {
    } else {
        lemma_first_sliver(h, cells, least, i + 1);
    }
}

proof fn lemma_no_sliver_before(h: Hypot, cells: Seq<GeomView>, least: Double, i: int, k: int)
    requires
        i <= k < first_sliver(h, cells, least, i),
    ensures
        !joins(h, cells, least, k),
    decreases k - i,
{
    if i < k {
        lemma_no_sliver_before(h, cells, least, i + 1, k);
    }
}

/// Once slivers are absorbed, no cell is left that would be joined to a
/// neighbour, and there are no more cells than before.
pub proof fn law_absorbed(m: Meaning, cells: Seq<GeomView>, least: Double)
    ensures
        absorbed(m, cells, least).len() <= cells.len(),
        forall|k: int|
            0 <= k < absorbed(m, cells, least).len() ==> !#[trigger] joins(
                m.hypot,
                absorbed(m, cells, least),
                least,
                k,
            ),
    decreases cells.len(),
{
    let i = first_sliver(m.hypot, cells, least, 0);
    lemma_first_sliver(m.hypot, cells, least, 0);
    if i < cells.len() {
        let j = best_neighbor(m.hypot, cells, i, cells.len() as int).0;
        lemma_best_neighbor(m.hypot, cells, i, cells.len() as int);
        law_absorbed(m, joined_cells(m, cells, i, j), least);
    } else {
        assert forall|k: int| 0 <= k < cells.len() implies !#[trigger] joins(
            m.hypot,
            cells,
            least,
            k,
        ) by {
            lemma_no_sliver_before(m.hypot, cells, least, 0, k);
        }
    }
}

/// The neighbour that cell `i` is joined to, if it is.
fn neighbor_to_join<H: Fn(Double, Double) -> Double>(
    cells: &Vec<Geom>,
    least: Double,
    i: usize,
    hypot: &H,
) -> (r: Option<usize>)
    requires
        hypot_total(*hypot),
        i < cells@.len(),
    ensures
        r is Some ==> r->0 < cells@.len() && r->0 != i,
        forall|h: Hypot| #[trigger]
            hypot_is(*hypot, h) ==> {
                &&& r is Some == joins(h, geom_views(cells@), least, i as int)
                &&& r is Some ==> r->0 == best_neighbor(
                    h,
                    geom_views(cells@),
                    i as int,
                    cells@.len() as int,
                ).0
            },
{
    if least.le(cells[i].area()) {
        return None;
    }
    let mut best: Option<usize> = None;
    let mut best_len = Double::zero();
    for j in 0..cells.len()
        invariant
            hypot_total(*hypot),
            i < cells@.len(),
            best is Some ==> best->0 < j && best->0 != i,
            forall|h: Hypot| #[trigger]
                hypot_is(*hypot, h) ==> (match best {
                    Some(b) => b as int,
                    None => -1int,
                }, best_len) == best_neighbor(h, geom_views(cells@), i as int, j as int),
    {
        if j != i {
            let l = shared_boundary_len(&cells[i], &cells[j], hypot);
            if best_len.lt(l) {
                best_len = l;
                best = Some(j);
            }
        }
    }
    if Double::ratio(1, 2).lt(best_len) {
        best
    } else {
        None
    }
}

/// Cells after slivers are joined to neighbours.
pub fn absorb_slivers<
    T: Fn(Double) -> (Double, Double),
    H: Fn(Double, Double) -> Double,
    U: Fn(&Vec<Polygon>) -> Vec<Polygon>,
    C: Fn(&Polygon, &Polygon) -> Vec<Polygon>,
>(given: Vec<Geom>, least: Double, tools: &Tools<T, H, U, C>) -> (r: Vec<Geom>)
    requires
        tools.total(),
    ensures
        forall|m: Meaning| #[trigger]
            tools.computes(m) ==> geom_views(r@) == absorbed(m, geom_views(given@), least),
{
    let mut cells = given;
    let mut i: usize = 0;
    while i < cells.len()
        invariant
            tools.total(),
            i <= cells@.len(),
            forall|m: Meaning| #[trigger]
                tools.computes(m) ==> {
                    &&& absorbed(m, geom_views(cells@), least) == absorbed(
                        m,
                        geom_views(given@),
                        least,
                    )
                    &&& first_sliver(m.hypot, geom_views(cells@), least, 0) == first_sliver(
                        m.hypot,
                        geom_views(cells@),
                        least,
                        i as int,
                    )
                },
        decreases cells@.len(), cells@.len() - i,
    {
        match neighbor_to_join(&cells, least, i, &tools.hypot) {
            Some(j) => {
                let mut at: Vec<usize> = Vec::new();
                at.push(j);
                at.push(i);
                assert(at@ =~= seq![j, i]);
                let merged = union_geoms(&cells, &at, &tools.union);
                let ghost before = geom_views(cells@);
                let ghost merged_view = merged@;
                cells.set(j, merged);
                let _ = cells.remove(i);
                assert(geom_views(cells@) =~= before.update(j as int, merged_view).remove(i as int));
                i = 0;
            },
            None => {
                i = i + 1;
            },
        }
    }
    cells
}

// ---------------------------------------------------------------------------
// Decomposition
// ---------------------------------------------------------------------------

impl GeomView {
    /// A geometry whose points are turned.
    pub open spec fn turned(self, sc: (Double, Double), o: Pt) -> GeomView {
        GeomView {
            multi: self.multi,
            parts: Seq::new(self.parts.len(), |i: int| self.parts[i].turned(sc, o)),
        }
    }
}

/// A geometry whose points are turned.
pub fn turn_geom(g: &Geom, sc: (Double, Double), o: Pt) -> (r: Geom)
    ensures
        r@ == g@.turned(sc, o),
{
    match g {
        Geom::Poly(p) => {
            let r = Geom::Poly(turn_poly(p, sc, o));
            assert(r@ =~= g@.turned(sc, o));
            r
        },
        Geom::Multi(v) => {
            let mut parts: Vec<Polygon> = Vec::new();
            for i in 0..v.len()
                invariant
                    g@.parts == polygon_views(v@),
                    polygon_views(parts@) == g@.turned(sc, o).parts.take(i as int),
            {
                let p = turn_poly(&v[i], sc, o);
                proof {
                    lemma_polygon_views_push(parts@, p);
                    assert(g@.turned(sc, o).parts.take(i as int).push(p@) =~= g@.turned(
                        sc,
                        o,
                    ).parts.take(i + 1));
                }
                parts.push(p);
            }
            let r = Geom::Multi(parts);
            assert(r@ =~= g@.turned(sc, o));
            r
        },
    }
}

/// Geometries whose points are turned.
pub open spec fn all_turned(v: Seq<GeomView>, sc: (Double, Double), o: Pt) -> Seq<GeomView> {
    Seq::new(v.len(), |i: int| v[i].turned(sc, o))
}

/// The cells of a polygon for a sweep in a direction: cut between its events when
/// the sweep lies along x, slivers of less than an area joined, and turned back.
#[verifier::opaque]
pub open spec fn cells_of(m: Meaning, part: PolygonView, sweep_deg: Double, least: Double) -> Seq<
    GeomView,
> {
    let c = part.centroid();
    let rot = part.turned((m.sin_cos)(radians(sweep_deg.negated())), c);
    let xs = events(rot);
    all_turned(
        absorbed(m, slab_cells(m.clip, rot, xs, xs.len() - 1), least),
        (m.sin_cos)(radians(sweep_deg)),
        c,
    )
}

/// The cells of a polygon for a sweep in a direction.
pub fn decompose<
    T: Fn(Double) -> (Double, Double),
    H: Fn(Double, Double) -> Double,
    U: Fn(&Vec<Polygon>) -> Vec<Polygon>,
    C: Fn(&Polygon, &Polygon) -> Vec<Polygon>,
>(part: &Polygon, sweep_deg: Double, least: Double, tools: &Tools<T, H, U, C>) -> (r: Vec<Geom>)
    requires
        tools.total(),
    ensures
        forall|m: Meaning| #[trigger]
            tools.computes(m) ==> geom_views(r@) == cells_of(m, part@, sweep_deg, least),
{
    reveal(cells_of);
    let c = part.centroid();
    let rot = turn_poly(part, (tools.sin_cos)(radians(sweep_deg.negated())), c);
    let xs = x_events(&rot);
    let cut = cut_cells(&rot, &xs, &tools.clip);
    let cells = absorb_slivers(cut, least, tools);
    let sc = (tools.sin_cos)(radians(sweep_deg));
    let mut out: Vec<Geom> = Vec::new();
    for i in 0..cells.len()
        invariant
            geom_views(out@) == all_turned(geom_views(cells@), sc, c).take(i as int),
    {
        let g = turn_geom(&cells[i], sc, c);
        proof {
            lemma_geom_views_push(out@, g);
            assert(all_turned(geom_views(cells@), sc, c).take(i as int).push(g@) =~= all_turned(
                geom_views(cells@),
                sc,
                c,
            ).take(i + 1));
        }
        out.push(g);
    }
    assert(geom_views(out@) =~= all_turned(geom_views(cells@), sc, c));
    out
}

} // verus!
