//! Laws of cells: they lie where the part lies, and cover what is cut out of it.
use vstd::prelude::*;

use crate::cells::{
    absorbed, best_neighbor, cells_of, first_sliver, joined_cells, kept, lemma_best_neighbor, lemma_first_sliver, slab,
    slab_cells,
};
use crate::boundary::events;
use crate::double::Double;
use crate::frames::{circular, lemma_turned_val, point_within};
use crate::geom::{bounds_of, radians, turned, GeomView, PolygonView, Pt};
use crate::near::{abs, eps, huge, lemma_abs_mul, lemma_assoc, lemma_dist, lemma_eps, lemma_le, near, val};
use crate::rings::gathered;
use crate::tools::{Clip, Meaning, Union};
use crate::turning::lemma_radians_back;

verus! {

// ---------------------------------------------------------------------------
// What holds of all that is cut and joined
// ---------------------------------------------------------------------------

/// What holds of polygons that are joined holds of their union, one level on.
pub open spec fn kept_by_union(u: Union, q: spec_fn(int, PolygonView) -> bool) -> bool {
    forall|level: int, ps: Seq<PolygonView>, k: int|
        0 <= k < u(ps).len() && (forall|i: int| 0 <= i < ps.len() ==> q(level, #[trigger] ps[i]))
            ==> #[trigger] q(level + 1, u(ps)[k])
}

/// What holds of a polygon holds of it with its rings opened or closed, and one level on.
pub open spec fn of_rings(q: spec_fn(int, PolygonView) -> bool) -> bool {
    &&& forall|level: int, p: PolygonView| q(level, p) ==> #[trigger] q(level, p.opened())
    &&& forall|level: int, p: PolygonView| q(level, p) ==> #[trigger] q(level, p.closed())
    &&& forall|level: int, p: PolygonView, more: int| #[trigger]
        q(level, p) && level <= more ==> #[trigger] q(more, p)
}

/// Something holds of all parts of a geometry.
pub open spec fn of_parts(g: GeomView, level: int, q: spec_fn(int, PolygonView) -> bool) -> bool {
    forall|i: int| 0 <= i < g.parts.len() ==> q(level, #[trigger] g.parts[i])
}

/// Something holds of all parts of geometries.
pub open spec fn of_geoms(v: Seq<GeomView>, level: int, q: spec_fn(int, PolygonView) -> bool) -> bool {
    forall|i: int| 0 <= i < v.len() ==> of_parts(#[trigger] v[i], level, q)
}

proof fn lemma_kept_holds(cut: Seq<PolygonView>, n: int, q: spec_fn(int, PolygonView) -> bool)
    requires
        of_rings(q),
        0 <= n <= cut.len(),
        forall|k: int| 0 <= k < cut.len() ==> q(0, #[trigger] cut[k]),
    ensures
        of_geoms(kept(cut, n), 0, q),
    decreases n,
{
    if n > 0 {
        lemma_kept_holds(cut, n - 1, q);
        let (now, before) = (kept(cut, n), kept(cut, n - 1));
        assert(q(0, cut[n - 1]));
        assert(q(0, cut[n - 1].opened()));
        assert forall|i: int| 0 <= i < now.len() implies of_parts(#[trigger] now[i], 0, q) by {
            if i < before.len() {
                assert(now[i] == before[i]);
            } else {
                assert(now[i].parts =~= seq![cut[n - 1].opened()]);
            }
        }
    }
}

proof fn lemma_slabs_hold(
    clip: Clip,
    rot: PolygonView,
    xs: Seq<Double>,
    n: int,
    q: spec_fn(int, PolygonView) -> bool,
)
    requires
        of_rings(q),
        forall|b: PolygonView, k: int|
            0 <= k < clip(rot.closed(), b).len() ==> q(0, #[trigger] clip(rot.closed(), b)[k]),
    ensures
        of_geoms(slab_cells(clip, rot, xs, n), 0, q),
    decreases n,
{
    if n > 0 {
        lemma_slabs_hold(clip, rot, xs, n - 1, q);
        let (lo, hi) = bounds_of(rot.exterior, rot.exterior.len() as int);
        let cut = clip(rot.closed(), slab(xs[n - 1], xs[n], lo.y, hi.y));
        lemma_kept_holds(cut, cut.len() as int, q);
        let (now, before) = (slab_cells(clip, rot, xs, n), slab_cells(clip, rot, xs, n - 1));
        let more = kept(cut, cut.len() as int);
        assert forall|i: int| 0 <= i < now.len() implies of_parts(#[trigger] now[i], 0, q) by {
            if i < before.len() {
                assert(now[i] == before[i]);
            } else {
                assert(now[i] == more[i - before.len()]);
            }
        }
    }
}

proof fn lemma_gathered_hold(
    geoms: Seq<GeomView>,
    at: Seq<usize>,
    n: int,
    level: int,
    q: spec_fn(int, PolygonView) -> bool,
)
    requires
        of_rings(q),
        of_geoms(geoms, level, q),
        0 <= n <= at.len(),
        forall|i: int| 0 <= i < at.len() ==> #[trigger] at[i] < geoms.len(),
    ensures
        forall|i: int|
            0 <= i < gathered(geoms, at, n).len() ==> q(level, #[trigger] gathered(geoms, at, n)[i]),
    decreases n,
{
    if n > 0 {
        lemma_gathered_hold(geoms, at, n - 1, level, q);
        let (now, before) = (gathered(geoms, at, n), gathered(geoms, at, n - 1));
        assert(at[n - 1] < geoms.len());
        let g = geoms[at[n - 1] as int];
        assert(of_parts(g, level, q));
        assert forall|i: int| 0 <= i < now.len() implies q(level, #[trigger] now[i]) by {
            if i < before.len() {
                assert(now[i] == before[i]);
            } else {
                let p = g.parts[i - before.len()];
                assert(q(level, p));
                assert(now[i] == p.closed());
            }
        }
    }
}

proof fn lemma_absorbed_holds(
    m: Meaning,
    cells: Seq<GeomView>,
    least: Double,
    level: int,
    q: spec_fn(int, PolygonView) -> bool,
)
    requires
        of_rings(q),
        kept_by_union(m.union, q),
        of_geoms(cells, level, q),
        cells.len() <= usize::MAX,
    ensures
        of_geoms(absorbed(m, cells, least), level + cells.len(), q),
    decreases cells.len(),
{
    let i = first_sliver(m.hypot, cells, least, 0);
    lemma_first_sliver(m.hypot, cells, least, 0);
    if i < cells.len() {
        let j = best_neighbor(m.hypot, cells, i, cells.len() as int).0;
        lemma_best_neighbor(m.hypot, cells, i, cells.len() as int);
        let next = joined_cells(m, cells, i, j);
        let at = seq![j as usize, i as usize];
        lemma_gathered_hold(cells, at, 2, level, q);
        let ps = gathered(cells, at, 2);
        let joined = crate::rings::union_at(m.union, cells, at);
        assert forall|k: int| 0 <= k < joined.parts.len() implies q(level + 1, #[trigger] joined.parts[k]) by {
            assert(q(level + 1, (m.union)(ps)[k]));
            assert(joined.parts[k] == (m.union)(ps)[k].opened());
        }
        assert(of_parts(joined, level + 1, q));
        assert forall|k: int| 0 <= k < next.len() implies of_parts(#[trigger] next[k], level + 1, q) by {
            let from = if k < i {
                k
            } else {
                k + 1
            };
            assert(next[k] == cells.update(j, joined)[from]);
            if from != j {
                assert(next[k] == cells[from]);
                assert(of_parts(cells[from], level, q));
                assert forall|x: int| 0 <= x < next[k].parts.len() implies q(
                    level + 1,
                    #[trigger] next[k].parts[x],
                ) by {
                    assert(q(level, cells[from].parts[x]));
                }
            }
        }
        lemma_absorbed_holds(m, next, least, level + 1, q);
    } else {
        assert forall|k: int| 0 <= k < cells.len() implies of_parts(
            #[trigger] cells[k],
            level + cells.len(),
            q,
        ) by {
            assert(of_parts(cells[k], level, q));
            assert forall|x: int| 0 <= x < cells[k].parts.len() implies q(
                level + cells.len(),
                #[trigger] cells[k].parts[x],
            ) by {
                assert(q(level, cells[k].parts[x]));
            }
        }
    }
}

/// The cells in the frame of a sweep, in which it lies along x.
pub open spec fn frame_cells(m: Meaning, part: PolygonView, sweep_deg: Double) -> Seq<GeomView> {
    let rot = part.turned((m.sin_cos)(radians(sweep_deg.negated())), part.centroid());
    slab_cells(m.clip, rot, events(rot), events(rot).len() - 1)
}

/// Whatever holds of all that is cut out of the part in the frame of a sweep, and of unions of what
/// it holds of, holds of every cell before it is turned back by the angle of the sweep about the
/// same centre.
pub proof fn law_cells_are_cut_from_the_part(
    m: Meaning,
    part: PolygonView,
    sweep_deg: Double,
    least: Double,
    q: spec_fn(int, PolygonView) -> bool,
    i: int,
    j: int,
) -> (w: PolygonView)
    requires
        of_rings(q),
        kept_by_union(m.union, q),
        ({
            let rot = part.turned((m.sin_cos)(radians(sweep_deg.negated())), part.centroid());
            forall|b: PolygonView, k: int|
                0 <= k < (m.clip)(rot.closed(), b).len() ==> q(
                    0,
                    #[trigger] (m.clip)(rot.closed(), b)[k],
                )
        }),
        frame_cells(m, part, sweep_deg).len() <= usize::MAX,
        0 <= i < cells_of(m, part, sweep_deg, least).len(),
        0 <= j < cells_of(m, part, sweep_deg, least)[i].parts.len(),
    ensures
        q(frame_cells(m, part, sweep_deg).len() as int, w),
        cells_of(m, part, sweep_deg, least)[i].parts[j] == w.turned(
            (m.sin_cos)(radians(sweep_deg)),
            part.centroid(),
        ),
{
    reveal(cells_of);
    let rot = part.turned((m.sin_cos)(radians(sweep_deg.negated())), part.centroid());
    let cells = frame_cells(m, part, sweep_deg);
    lemma_slabs_hold(m.clip, rot, events(rot), events(rot).len() - 1, q);
    lemma_absorbed_holds(m, cells, least, 0, q);
    let a = absorbed(m, cells, least);
    assert(of_parts(a[i], cells.len() as int, q));
    a[i].parts[j]
}

// ---------------------------------------------------------------------------
// Within the hull
// ---------------------------------------------------------------------------

/// A point with finite coordinates is on one side of a line: `a * x + b * y` is at most `c`.
pub open spec fn beside(p: Pt, a: real, b: real, c: real) -> bool {
    p.x.finite() && p.y.finite() && a * val(p.x) + b * val(p.y) <= c
}

/// All points of a polygon are on one side of a line.
pub open spec fn all_beside(p: PolygonView, a: real, b: real, c: real) -> bool {
    &&& forall|i: int| 0 <= i < p.exterior.len() ==> beside(#[trigger] p.exterior[i], a, b, c)
    &&& forall|k: int, i: int|
        0 <= k < p.interiors.len() && 0 <= i < p.interiors[k].len() ==> beside(
            #[trigger] p.interiors[k][i],
            a,
            b,
            c,
        )
}

/// What is cut out of a polygon is on the side of a line on which the polygon is, but for `tol`.
pub open spec fn cut_beside(clip: Clip, p: PolygonView, by: PolygonView, k: int, a: real, b: real, c: real, tol: real) -> bool {
    all_beside(p, a, b, c) && abs(a) <= 2real && abs(b) <= 2real ==> all_beside(
        clip(p, by)[k],
        a,
        b,
        c + tol,
    )
}

/// Clipping keeps to the first polygon, but for `tol`.
pub open spec fn clips_within(clip: Clip, tol: real) -> bool {
    forall|p: PolygonView, by: PolygonView, k: int, a: real, b: real, c: real|
        0 <= k < clip(p, by).len() ==> #[trigger] cut_beside(clip, p, by, k, a, b, c, tol)
}

/// A union is on the side of a line on which all that is joined is, but for `tol`.
pub open spec fn join_beside(u: Union, ps: Seq<PolygonView>, k: int, a: real, b: real, c: real, tol: real) -> bool {
    (forall|i: int| 0 <= i < ps.len() ==> all_beside(#[trigger] ps[i], a, b, c)) && abs(a) <= 2real
        && abs(b) <= 2real ==> all_beside(u(ps)[k], a, b, c + tol)
}

/// A union keeps to what is joined, but for `tol`.
pub open spec fn joins_within(u: Union, tol: real) -> bool {
    forall|ps: Seq<PolygonView>, k: int, a: real, b: real, c: real|
        0 <= k < u(ps).len() ==> #[trigger] join_beside(u, ps, k, a, b, c, tol)
}

/// The slack after a number of unions.
spec fn slack(level: int, tol: real) -> real {
    ((level + 1) as real) * tol
}

/// A polygon in a frame: beside a line, and within a square.
spec fn framed_within(a: real, b: real, c: real, m: real, tol: real) -> spec_fn(int, PolygonView) -> bool {
    |level: int, p: PolygonView|
        {
            let d = slack(level, tol);
            &&& all_beside(p, a, b, c + d)
            &&& all_beside(p, 1real, 0real, m + d)
            &&& all_beside(p, -1real, 0real, m + d)
            &&& all_beside(p, 0real, 1real, m + d)
            &&& all_beside(p, 0real, -1real, m + d)
        }
}

proof fn lemma_beside_rings(p: PolygonView, a: real, b: real, c: real)
    requires
        all_beside(p, a, b, c),
    ensures
        all_beside(p.opened(), a, b, c),
        all_beside(p.closed(), a, b, c),
{
    let (o, q) = (p.opened(), p.closed());
    assert forall|i: int| 0 <= i < o.exterior.len() implies beside(#[trigger] o.exterior[i], a, b, c) by {
        assert(o.exterior[i] == p.exterior[i]);
    }
    assert forall|k: int, i: int| 0 <= k < o.interiors.len() && 0 <= i < o.interiors[k].len() implies beside(
        #[trigger] o.interiors[k][i],
        a,
        b,
        c,
    ) by {
        assert(o.interiors[k][i] == p.interiors[k][i]);
    }
    assert forall|i: int| 0 <= i < q.exterior.len() implies beside(#[trigger] q.exterior[i], a, b, c) by {
        assert(q.exterior[i] == p.exterior[if i < p.exterior.len() {
            i
        } else {
            0
        }]);
    }
    assert forall|k: int, i: int| 0 <= k < q.interiors.len() && 0 <= i < q.interiors[k].len() implies beside(
        #[trigger] q.interiors[k][i],
        a,
        b,
        c,
    ) by {
        assert(q.interiors[k][i] == p.interiors[k][if i < p.interiors[k].len() {
            i
        } else {
            0
        }]);
    }
}

proof fn lemma_beside_more(p: PolygonView, a: real, b: real, c: real, d: real)
    requires
        all_beside(p, a, b, c),
        c <= d,
    ensures
        all_beside(p, a, b, d),
{
    assert forall|i: int| 0 <= i < p.exterior.len() implies beside(#[trigger] p.exterior[i], a, b, d) by {
        assert(beside(p.exterior[i], a, b, c));
    }
    assert forall|k: int, i: int| 0 <= k < p.interiors.len() && 0 <= i < p.interiors[k].len() implies beside(
        #[trigger] p.interiors[k][i],
        a,
        b,
        d,
    ) by {
        assert(beside(p.interiors[k][i], a, b, c));
    }
}

proof fn lemma_slack(level: int, more: int, tol: real)
    requires
        level <= more,
        tol >= 0real,
    ensures
        slack(level, tol) <= slack(more, tol),
        slack(level + 1, tol) == slack(level, tol) + tol,
{
    lemma_le((level + 1) as real, (more + 1) as real, tol);
    lemma_dist((level + 1) as real, 1real, tol);
    assert(1real * tol == tol);
}

proof fn lemma_framed(clip: Clip, u: Union, rot: PolygonView, a: real, b: real, c: real, m: real, tol: real)
    requires
        clips_within(clip, tol),
        joins_within(u, tol),
        tol >= 0real,
        abs(a) <= 2real,
        abs(b) <= 2real,
        all_beside(rot, a, b, c),
        all_beside(rot, 1real, 0real, m),
        all_beside(rot, -1real, 0real, m),
        all_beside(rot, 0real, 1real, m),
        all_beside(rot, 0real, -1real, m),
    ensures
        ({
            let q = framed_within(a, b, c, m, tol);
            &&& of_rings(q)
            &&& kept_by_union(u, q)
            &&& forall|by: PolygonView, k: int|
                0 <= k < clip(rot.closed(), by).len() ==> q(0, #[trigger] clip(rot.closed(), by)[k])
        }),
{
    let q = framed_within(a, b, c, m, tol);
    assert forall|level: int, p: PolygonView| q(level, p) implies #[trigger] q(level, p.opened()) by {
        let d = slack(level, tol);
        lemma_beside_rings(p, a, b, c + d);
        lemma_beside_rings(p, 1real, 0real, m + d);
        lemma_beside_rings(p, -1real, 0real, m + d);
        lemma_beside_rings(p, 0real, 1real, m + d);
        lemma_beside_rings(p, 0real, -1real, m + d);
    }
    assert forall|level: int, p: PolygonView| q(level, p) implies #[trigger] q(level, p.closed()) by {
        let d = slack(level, tol);
        lemma_beside_rings(p, a, b, c + d);
        lemma_beside_rings(p, 1real, 0real, m + d);
        lemma_beside_rings(p, -1real, 0real, m + d);
        lemma_beside_rings(p, 0real, 1real, m + d);
        lemma_beside_rings(p, 0real, -1real, m + d);
    }
    assert forall|level: int, p: PolygonView, more: int| #[trigger]
        q(level, p) && level <= more implies #[trigger] q(more, p) by {
        lemma_slack(level, more, tol);
        let (d, e) = (slack(level, tol), slack(more, tol));
        lemma_beside_more(p, a, b, c + d, c + e);
        lemma_beside_more(p, 1real, 0real, m + d, m + e);
        lemma_beside_more(p, -1real, 0real, m + d, m + e);
        lemma_beside_more(p, 0real, 1real, m + d, m + e);
        lemma_beside_more(p, 0real, -1real, m + d, m + e);
    }
    assert forall|level: int, ps: Seq<PolygonView>, k: int|
        0 <= k < u(ps).len() && (forall|i: int| 0 <= i < ps.len() ==> q(level, #[trigger] ps[i]))
        implies #[trigger] q(level + 1, u(ps)[k]) by {
        lemma_slack(level, level, tol);
        let d = slack(level, tol);
        assert forall|i: int| 0 <= i < ps.len() implies all_beside(#[trigger] ps[i], a, b, c + d)
            && all_beside(ps[i], 1real, 0real, m + d) && all_beside(ps[i], -1real, 0real, m + d)
            && all_beside(ps[i], 0real, 1real, m + d) && all_beside(ps[i], 0real, -1real, m + d) by {
            assert(q(level, ps[i]));
        }
        assert(join_beside(u, ps, k, a, b, c + d, tol));
        assert(join_beside(u, ps, k, 1real, 0real, m + d, tol));
        assert(join_beside(u, ps, k, -1real, 0real, m + d, tol));
        assert(join_beside(u, ps, k, 0real, 1real, m + d, tol));
        assert(join_beside(u, ps, k, 0real, -1real, m + d, tol));
        assert(c + d + tol == c + slack(level + 1, tol) && m + d + tol == m + slack(level + 1, tol));
    }
    assert forall|by: PolygonView, k: int| 0 <= k < clip(rot.closed(), by).len() implies q(
        0,
        #[trigger] clip(rot.closed(), by)[k],
    ) by {
        let r = rot.closed();
        lemma_beside_rings(rot, a, b, c);
        lemma_beside_rings(rot, 1real, 0real, m);
        lemma_beside_rings(rot, -1real, 0real, m);
        lemma_beside_rings(rot, 0real, 1real, m);
        lemma_beside_rings(rot, 0real, -1real, m);
        assert(cut_beside(clip, r, by, k, a, b, c, tol));
        assert(cut_beside(clip, r, by, k, 1real, 0real, m, tol));
        assert(cut_beside(clip, r, by, k, -1real, 0real, m, tol));
        assert(cut_beside(clip, r, by, k, 0real, 1real, m, tol));
        assert(cut_beside(clip, r, by, k, 0real, -1real, m, tol));
        assert(slack(0, tol) == tol) by {
            assert(1real * tol == tol);
        }
    }
}

/// A sine and a cosine whose squares add up to one, but for 2^-50.
pub open spec fn unit(sc: (Double, Double)) -> bool {
    let (s, c) = (val(sc.0), val(sc.1));
    circular(sc) && abs(c * c + s * s - 1real) <= 8real * eps()
}

/// A point beside a line, turned into the frame of a sweep, is beside the line turned with it.
pub proof fn lemma_into(v: Pt, sc: (Double, Double), o: Pt, a: real, b: real, c: real, m: real)
    requires
        point_within(v, m),
        point_within(o, m),
        unit(sc),
        1real <= m,
        1024real * m <= huge(),
        abs(a) <= 1real,
        abs(b) <= 1real,
        a * val(v.x) + b * val(v.y) <= c,
    ensures
        ({
            let (sr, cr) = (val(sc.0), val(sc.1));
            let (a1, b1) = (a * cr + b * sr, b * cr - a * sr);
            let off = a1 * val(o.x) + b1 * val(o.y) + (c - (a * val(o.x) + b * val(o.y)));
            let r = turned(v, (sc.0.negated(), sc.1), o);
            &&& beside(r, a1, b1, off + 512real * (eps() * m))
            &&& beside(r, 1real, 0real, 6real * m)
            &&& beside(r, -1real, 0real, 6real * m)
            &&& beside(r, 0real, 1real, 6real * m)
            &&& beside(r, 0real, -1real, 6real * m)
            &&& abs(a1) <= 2real
            &&& abs(b1) <= 2real
        }),
{
    lemma_eps();
    let e = eps();
    let em = e * m;
    crate::near::lemma_negated_val(sc.0);
    lemma_turned_val(v, (sc.0.negated(), sc.1), o, m);
    let r = turned(v, (sc.0.negated(), sc.1), o);
    let (s, k) = (val(sc.0), val(sc.1));
    let (x, y) = (val(v.x) - val(o.x), val(v.y) - val(o.y));
    let (a1, b1) = (a * k + b * s, b * k - a * s);
    assert((-s) * y == -(s * y) && (-s) * x == -(s * x)) by (nonlinear_arith);
    let (p, q) = (k * x + s * y, k * y - s * x);
    let (dx, dy) = (val(r.x) - val(o.x) - p, val(r.y) - val(o.y) - q);
    lemma_shrink(k, x);
    lemma_shrink(s, y);
    lemma_shrink(k, y);
    lemma_shrink(s, x);
    lemma_into_exact(a, b, k, s, x, y, dx, dy, e, m);
    lemma_dist(p + dx, val(o.x), a1);
    lemma_dist(q + dy, val(o.y), b1);
    assert(val(r.x) == p + dx + val(o.x) && val(r.y) == q + dy + val(o.y));
    lemma_dist(val(v.x), val(o.x), a);
    lemma_dist(val(v.y), val(o.y), b);
    lemma_assoc(0x20000000000000real, e, m);
    assert(em * 0x20000000000000real == m);
    assert(0real * val(r.x) == 0real && 0real * val(r.y) == 0real && 1real * val(r.x) == val(r.x) && 1real
        * val(r.y) == val(r.y) && -1real * val(r.x) == -val(r.x) && -1real * val(r.y) == -val(r.y));
}

/// A factor of at most one makes no number greater.
proof fn lemma_shrink(a: real, x: real)
    requires
        abs(a) <= 1real,
    ensures
        abs(a * x) <= abs(x),
{
    lemma_abs_mul(a, x);
    lemma_le(abs(a), 1real, abs(x));
    assert(1real * abs(x) == abs(x));
}

/// The side of a line on which a turned point is, with what it is off by.
proof fn lemma_into_exact(
    a: real,
    b: real,
    k: real,
    s: real,
    x: real,
    y: real,
    dx: real,
    dy: real,
    e: real,
    m: real,
)
    requires
        abs(a) <= 1real,
        abs(b) <= 1real,
        abs(k) <= 1real,
        abs(s) <= 1real,
        abs(k * k + s * s - 1real) <= 8real * e,
        0real < e,
        1real <= m,
        abs(x) <= 2real * m,
        abs(y) <= 2real * m,
        abs(dx) <= 64real * (e * m),
        abs(dy) <= 64real * (e * m),
    ensures
        ({
            let (a1, b1) = (a * k + b * s, b * k - a * s);
            &&& a1 * (k * x + s * y + dx) + b1 * (k * y - s * x + dy) <= a * x + b * y + 512real * (e * m)
            &&& abs(a1) <= 2real
            &&& abs(b1) <= 2real
        }),
{
    let em = e * m;
    let (a1, b1) = (a * k + b * s, b * k - a * s);
    lemma_shrink(a, k);
    lemma_shrink(b, s);
    lemma_shrink(b, k);
    lemma_shrink(a, s);
    let (p, q) = (k * x + s * y, k * y - s * x);
    let one = k * k + s * s;
    lemma_turn_dot(a, b, k, s, x, y);
    let d = a * x + b * y;
    let z = one - 1real;
    lemma_dist(z, 1real, d);
    assert(1real * d == d);
    lemma_shrink(a, x);
    lemma_shrink(b, y);
    assert(abs(z * d) <= 32real * em) by {
        lemma_abs_mul(z, d);
        lemma_le(abs(z), 8real * e, abs(d));
        lemma_le(abs(d), 4real * m, 8real * e);
        lemma_assoc(8real * e, 4real, m);
        lemma_assoc(8real, e, m);
    }
    lemma_dist(p, dx, a1);
    lemma_dist(q, dy, b1);
    assert(abs(a1 * dx) <= 128real * em) by {
        lemma_abs_mul(a1, dx);
        lemma_le(abs(a1), 2real, abs(dx));
    }
    assert(abs(b1 * dy) <= 128real * em) by {
        lemma_abs_mul(b1, dy);
        lemma_le(abs(b1), 2real, abs(dy));
    }
}

/// Turning a line and a point alike changes nothing, as far as the squares add up to one.
proof fn lemma_turn_dot(a: real, b: real, k: real, s: real, x: real, y: real)
    ensures
        (a * k + b * s) * (k * x + s * y) + (b * k - a * s) * (k * y - s * x) == (k * k + s * s) * (a * x + b
            * y),
{
    let (a1, b1) = (a * k + b * s, b * k - a * s);
    let one = k * k + s * s;
    lemma_dist(k * x, s * y, a1);
    lemma_assoc(a1, k, x);
    lemma_assoc(a1, s, y);
    lemma_dist(k * y, s * x, b1);
    lemma_assoc(b1, k, y);
    lemma_assoc(b1, s, x);
    lemma_dist(a1 * k, b1 * s, x);
    lemma_dist(a1 * s, b1 * k, y);
    lemma_dist(a * k, b * s, k);
    lemma_dist(a * k, b * s, s);
    lemma_dist(b * k, a * s, k);
    lemma_dist(b * k, a * s, s);
    lemma_assoc(a, k, k);
    lemma_assoc(b, s, k);
    lemma_assoc(b, k, s);
    lemma_assoc(a, s, s);
    lemma_assoc(a, k, s);
    lemma_assoc(b, s, s);
    lemma_assoc(b, k, k);
    lemma_assoc(a, s, k);
    lemma_assoc(s, k, 1real);
    lemma_dist(k * k, s * s, a);
    lemma_dist(k * k, s * s, b);
    assert(a1 * k - b1 * s == one * a);
    assert(a1 * s + b1 * k == one * b);
    lemma_dist(a * x, b * y, one);
    lemma_assoc(one, a, x);
    lemma_assoc(one, b, y);
}

/// A point of a cell, turned back, is beside the line.
pub proof fn lemma_back(w: Pt, sc: (Double, Double), o: Pt, a: real, b: real, c: real, m: real)
    requires
        point_within(w, 8real * m),
        point_within(o, m),
        unit(sc),
        1real <= m,
        1024real * m <= huge(),
        abs(a) <= 1real,
        abs(b) <= 1real,
        ({
            let (sr, cr) = (val(sc.0), val(sc.1));
            let (a1, b1) = (a * cr + b * sr, b * cr - a * sr);
            a1 * val(w.x) + b1 * val(w.y) <= a1 * val(o.x) + b1 * val(o.y) + (c - (a * val(o.x) + b * val(
                o.y,
            )))
        }),
    ensures
        beside(turned(w, sc, o), a, b, c + 1024real * (eps() * m)),
{
    let em = eps() * m;
    lemma_turned_val(w, sc, o, 8real * m);
    lemma_assoc(eps(), 8real, m);
    let r = turned(w, sc, o);
    let (s, k) = (val(sc.0), val(sc.1));
    let (p, q) = (val(w.x) - val(o.x), val(w.y) - val(o.y));
    let (a1, b1) = (a * k + b * s, b * k - a * s);
    let (x, y) = (k * p - s * q, s * p + k * q);
    let (dx, dy) = (val(r.x) - val(o.x) - x, val(r.y) - val(o.y) - y);
    assert(a * x + b * y == a1 * p + b1 * q) by {
        lemma_dist(k * p, s * q, a);
        lemma_dist(s * p, k * q, b);
        lemma_assoc(a, k, p);
        lemma_assoc(a, s, q);
        lemma_assoc(b, s, p);
        lemma_assoc(b, k, q);
        lemma_dist(a * k, b * s, p);
        lemma_dist(b * k, a * s, q);
    }
    lemma_dist(val(w.x), val(o.x), a1);
    lemma_dist(val(w.y), val(o.y), b1);
    lemma_dist(val(r.x), val(o.x), a);
    lemma_dist(val(r.y), val(o.y), b);
    lemma_dist(x, dx, a);
    lemma_dist(y, dy, b);
    assert(val(r.x) - val(o.x) == x + dx && val(r.y) - val(o.y) == y + dy);
    lemma_abs_mul(a, dx);
    lemma_abs_mul(b, dy);
    lemma_le(abs(a), 1real, abs(dx));
    lemma_le(abs(b), 1real, abs(dy));
}

/// All points of a polygon have coordinates of at most `m`.
pub open spec fn polygon_within(p: PolygonView, m: real) -> bool {
    &&& forall|i: int| 0 <= i < p.exterior.len() ==> point_within(#[trigger] p.exterior[i], m)
    &&& forall|k: int, i: int|
        0 <= k < p.interiors.len() && 0 <= i < p.interiors[k].len() ==> point_within(
            #[trigger] p.interiors[k][i],
            m,
        )
}

proof fn lemma_rot_beside(part: PolygonView, sc: (Double, Double), o: Pt, a: real, b: real, c: real, m: real)
    requires
        polygon_within(part, m),
        point_within(o, m),
        unit(sc),
        1real <= m,
        1024real * m <= huge(),
        abs(a) <= 1real,
        abs(b) <= 1real,
        all_beside(part, a, b, c),
    ensures
        ({
            let (sr, cr) = (val(sc.0), val(sc.1));
            let (a1, b1) = (a * cr + b * sr, b * cr - a * sr);
            let off = a1 * val(o.x) + b1 * val(o.y) + (c - (a * val(o.x) + b * val(o.y)));
            let rot = part.turned((sc.0.negated(), sc.1), o);
            &&& all_beside(rot, a1, b1, off + 512real * (eps() * m))
            &&& all_beside(rot, 1real, 0real, 6real * m)
            &&& all_beside(rot, -1real, 0real, 6real * m)
            &&& all_beside(rot, 0real, 1real, 6real * m)
            &&& all_beside(rot, 0real, -1real, 6real * m)
        }),
{
    let (sr, cr) = (val(sc.0), val(sc.1));
    let (a1, b1) = (a * cr + b * sr, b * cr - a * sr);
    let c1 = a1 * val(o.x) + b1 * val(o.y) + (c - (a * val(o.x) + b * val(o.y))) + 512real * (eps() * m);
    let rot = part.turned((sc.0.negated(), sc.1), o);
    assert forall|i: int| 0 <= i < rot.exterior.len() implies beside(#[trigger] rot.exterior[i], a1, b1, c1)
        && beside(rot.exterior[i], 1real, 0real, 6real * m) && beside(rot.exterior[i], -1real, 0real, 6real * m)
        && beside(rot.exterior[i], 0real, 1real, 6real * m) && beside(rot.exterior[i], 0real, -1real, 6real * m) by {
        let v = part.exterior[i];
        assert(point_within(part.exterior[i], m) && beside(part.exterior[i], a, b, c));
        lemma_into(v, sc, o, a, b, c, m);
    }
    assert forall|k: int, i: int| 0 <= k < rot.interiors.len() && 0 <= i < rot.interiors[k].len() implies beside(
        #[trigger] rot.interiors[k][i],
        a1,
        b1,
        c1,
    ) && beside(rot.interiors[k][i], 1real, 0real, 6real * m) && beside(
        rot.interiors[k][i],
        -1real,
        0real,
        6real * m,
    ) && beside(rot.interiors[k][i], 0real, 1real, 6real * m) && beside(
        rot.interiors[k][i],
        0real,
        -1real,
        6real * m,
    ) by {
        let v = part.interiors[k][i];
        assert(point_within(part.interiors[k][i], m) && beside(part.interiors[k][i], a, b, c));
        lemma_into(v, sc, o, a, b, c, m);
    }
}

/// The cells of a part lie where the part lies. Whatever line all points of the part are beside,
/// the points of every cell are beside it too, but for rounding and for what clipping and joining
/// are off by: turning into the frame of the sweep and turning back undo each other. The sine
/// changes its sign with the angle, the cosine does not.
pub proof fn law_cells_lie_in_the_part(
    mean: Meaning,
    part: PolygonView,
    sweep_deg: Double,
    least: Double,
    i: int,
    j: int,
    a: real,
    b: real,
    c: real,
    m: real,
    tol: real,
)
    requires
        sweep_deg.finite(),
        unit((mean.sin_cos)(radians(sweep_deg))),
        (mean.sin_cos)(radians(sweep_deg).negated()) == (
            (mean.sin_cos)(radians(sweep_deg)).0.negated(),
            (mean.sin_cos)(radians(sweep_deg)).1,
        ),
        clips_within(mean.clip, tol),
        joins_within(mean.union, tol),
        polygon_within(part, m),
        point_within(part.centroid(), m),
        1real <= m,
        1024real * m <= huge(),
        frame_cells(mean, part, sweep_deg).len() <= usize::MAX,
        tol >= 0real,
        ((frame_cells(mean, part, sweep_deg).len() + 1) as real) * tol <= m,
        abs(a) <= 1real,
        abs(b) <= 1real,
        all_beside(part, a, b, c),
        0 <= i < cells_of(mean, part, sweep_deg, least).len(),
        0 <= j < cells_of(mean, part, sweep_deg, least)[i].parts.len(),
    ensures
        all_beside(
            cells_of(mean, part, sweep_deg, least)[i].parts[j],
            a,
            b,
            c + 1536real * (eps() * m) + ((frame_cells(mean, part, sweep_deg).len() + 1) as real) * tol,
        ),
{
    let o = part.centroid();
    let sc = (mean.sin_cos)(radians(sweep_deg));
    lemma_radians_back(sweep_deg);
    let into = (mean.sin_cos)(radians(sweep_deg.negated()));
    assert(into == (sc.0.negated(), sc.1));
    let rot = part.turned(into, o);
    let (sr, cr) = (val(sc.0), val(sc.1));
    let (a1, b1) = (a * cr + b * sr, b * cr - a * sr);
    let off = a1 * val(o.x) + b1 * val(o.y) + (c - (a * val(o.x) + b * val(o.y)));
    let c1 = off + 512real * (eps() * m);
    lemma_rot_beside(part, sc, o, a, b, c, m);
    lemma_abs_mul(a, cr);
    lemma_abs_mul(b, sr);
    lemma_abs_mul(b, cr);
    lemma_abs_mul(a, sr);
    lemma_le(abs(a), 1real, abs(cr));
    lemma_le(abs(b), 1real, abs(sr));
    lemma_le(abs(b), 1real, abs(cr));
    lemma_le(abs(a), 1real, abs(sr));
    lemma_framed(mean.clip, mean.union, rot, a1, b1, c1, 6real * m, tol);
    let q = framed_within(a1, b1, c1, 6real * m, tol);
    let w = law_cells_are_cut_from_the_part(mean, part, sweep_deg, least, q, i, j);
    let n = frame_cells(mean, part, sweep_deg).len() as int;
    let d = slack(n, tol);
    assert(q(n, w));
    let cell = cells_of(mean, part, sweep_deg, least)[i].parts[j];
    let bound = c + 1536real * (eps() * m) + d;
    let c2 = c + 512real * (eps() * m) + d;
    assert forall|x: int| 0 <= x < cell.exterior.len() implies beside(#[trigger] cell.exterior[x], a, b, bound) by {
        let p = w.exterior[x];
        lemma_point_back(p, sc, o, a, b, c2, m, a1, b1, c1 + d, 6real * m + d, w, x, -1);
    }
    assert forall|k: int, x: int| 0 <= k < cell.interiors.len() && 0 <= x < cell.interiors[k].len() implies beside(
        #[trigger] cell.interiors[k][x],
        a,
        b,
        bound,
    ) by {
        let p = w.interiors[k][x];
        lemma_point_back(p, sc, o, a, b, c2, m, a1, b1, c1 + d, 6real * m + d, w, x, k);
    }
}

/// A point of a polygon in the frame, turned back: point `x` of the outer ring, or of hole `k`.
proof fn lemma_point_back(
    p: Pt,
    sc: (Double, Double),
    o: Pt,
    a: real,
    b: real,
    c: real,
    m: real,
    a1: real,
    b1: real,
    c1: real,
    sq: real,
    w: PolygonView,
    x: int,
    k: int,
)
    requires
        k < 0 ==> 0 <= x < w.exterior.len() && p == w.exterior[x],
        k >= 0 ==> k < w.interiors.len() && 0 <= x < w.interiors[k].len() && p == w.interiors[k][x],
        all_beside(w, a1, b1, c1),
        all_beside(w, 1real, 0real, sq),
        all_beside(w, -1real, 0real, sq),
        all_beside(w, 0real, 1real, sq),
        all_beside(w, 0real, -1real, sq),
        sq <= 8real * m,
        point_within(o, m),
        unit(sc),
        1real <= m,
        1024real * m <= huge(),
        abs(a) <= 1real,
        abs(b) <= 1real,
        a1 == a * val(sc.1) + b * val(sc.0),
        b1 == b * val(sc.1) - a * val(sc.0),
        c1 == a1 * val(o.x) + b1 * val(o.y) + (c - (a * val(o.x) + b * val(o.y))),
    ensures
        beside(turned(p, sc, o), a, b, c + 1024real * (eps() * m)),
{
    if k < 0 {
        assert(beside(w.exterior[x], a1, b1, c1));
        assert(beside(w.exterior[x], 1real, 0real, sq) && beside(w.exterior[x], -1real, 0real, sq));
        assert(beside(w.exterior[x], 0real, 1real, sq) && beside(w.exterior[x], 0real, -1real, sq));
    } else {
        assert(beside(w.interiors[k][x], a1, b1, c1));
        assert(beside(w.interiors[k][x], 1real, 0real, sq) && beside(w.interiors[k][x], -1real, 0real, sq));
        assert(beside(w.interiors[k][x], 0real, 1real, sq) && beside(w.interiors[k][x], 0real, -1real, sq));
    }
    assert(0real * val(p.x) == 0real && 0real * val(p.y) == 0real && 1real * val(p.x) == val(p.x) && 1real
        * val(p.y) == val(p.y) && -1real * val(p.x) == -val(p.x) && -1real * val(p.y) == -val(p.y));
    lemma_back(p, sc, o, a, b, c, m);
}

/// The numbers of a turned line.
pub proof fn lemma_turned_line(a: real, b: real, k: real, s: real)
    requires
        abs(a) <= 1real,
        abs(b) <= 1real,
        abs(k) <= 1real,
        abs(s) <= 1real,
    ensures
        abs(a * k + b * s) <= 2real,
        abs(b * k - a * s) <= 2real,
{
    lemma_shrink(a, k);
    lemma_shrink(b, s);
    lemma_shrink(b, k);
    lemma_shrink(a, s);
}

} // verus!
