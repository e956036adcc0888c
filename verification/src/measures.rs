//! Laws of measures: areas, and the field that coordinates give.
use vstd::prelude::*;

use crate::double::Double;
use crate::frames::{bounded, point_within, points_within};
use crate::geom::{cross, next_pt, ring_area, shoelace, GeomView, PolygonView, Pt};
use crate::ingest::{geom_in_feet, local_feet};
use crate::lines::{field_of, planned_lines};
use crate::near::{
    abs, eps, huge, lemma_abs_mul, lemma_assoc, lemma_dist, lemma_eps, lemma_le, lemma_near_add, lemma_near_div,
    lemma_near_mul, lemma_near_sub, lemma_negated_val, lemma_one, lemma_whole_val, lemma_zero, near, val,
};
use crate::params::acre_ft2;
use crate::tools::{GlobeMeaning, Meaning};

verus! {

// ---------------------------------------------------------------------------
// Areas
// ---------------------------------------------------------------------------

/// The point behind point `i` on a ring.
pub open spec fn behind(r: Seq<Pt>, i: int) -> Pt {
    if i + 1 < r.len() {
        r[i + 1]
    } else {
        r[0]
    }
}

/// Twice the areas, with sign, of the triangles from the origin over the first `n` edges of a
/// ring.
pub open spec fn fan(r: Seq<Pt>, n: int) -> real
    decreases n,
{
    if n <= 0 {
        0real
    } else {
        let (a, b) = (r[n - 1], behind(r, n - 1));
        fan(r, n - 1) + (val(a.x) * val(b.y) - val(b.x) * val(a.y))
    }
}

/// The area that a ring encloses.
pub open spec fn enclosed(r: Seq<Pt>) -> real {
    if r.len() < 3 {
        0real
    } else {
        abs(fan(r, r.len() as int)) / 2real
    }
}

pub proof fn lemma_behind(r: Seq<Pt>, i: int)
    requires
        0 <= i < r.len(),
    ensures
        next_pt(r, i) == behind(r, i),
{
    if i + 1 < r.len() {
        vstd::arithmetic::div_mod::lemma_small_mod((i + 1) as nat, r.len());
    } else {
        vstd::arithmetic::div_mod::lemma_mod_self_0(r.len() as int);
    }
}

/// A product of coordinates.
proof fn lemma_product(a: Double, b: Double, m: real, q: real)
    requires
        bounded(a, m),
        bounded(b, m),
        1real <= m,
        m * m <= q,
        64real * q <= huge(),
    ensures
        near(a.times(b), val(a) * val(b), 2real * (eps() * q)),
        -q <= val(a) * val(b) <= q,
        1real <= q,
{
    assert(1real <= m * m && (m + 0real) * m == m * m) by (nonlinear_arith)
        requires
            1real <= m,
    ;
    lemma_near_mul(a, val(a), 0real, b, val(b), 0real, m, m, q);
    assert(0real * m == 0real && m * 0real == 0real) by (nonlinear_arith);
    let (x, y) = (val(a), val(b));
    lemma_abs_mul(x, y);
    assert(abs(x) * abs(y) <= m * m) by (nonlinear_arith)
        requires
            0real <= abs(x) <= m,
            0real <= abs(y) <= m,
    ;
}

proof fn lemma_scale(q: real)
    requires
        1real <= q,
    ensures
        0real < eps() * q,
        eps() * q * 0x20000000000000real == q,
        eps() * (4real * q) == 4real * (eps() * q),
{
    lemma_eps();
    let e = eps();
    let eq = e * q;
    lemma_le(1real, q, e);
    lemma_assoc(0x20000000000000real, e, q);
    lemma_assoc(4real, e, q);
    lemma_assoc(e, 4real, q);
    assert(1real * e == e && 1real * q == q);
}

proof fn lemma_cross(a: Pt, b: Pt, m: real, q: real)
    requires
        point_within(a, m),
        point_within(b, m),
        1real <= m,
        m * m <= q,
        64real * q <= huge(),
    ensures
        near(cross(a, b), val(a.x) * val(b.y) - val(b.x) * val(a.y), 8real * (eps() * q)),
        -(2real * q) <= val(a.x) * val(b.y) - val(b.x) * val(a.y) <= 2real * q,
{
    lemma_product(a.x, b.y, m, q);
    lemma_product(b.x, a.y, m, q);
    lemma_scale(q);
    let eq = eps() * q;
    lemma_near_sub(
        a.x.times(b.y),
        val(a.x) * val(b.y),
        2real * eq,
        b.x.times(a.y),
        val(b.x) * val(a.y),
        2real * eq,
        4real * q,
    );
}

/// Rings are of moderate size: up to 2^20 points with coordinates of at most `m`, whose square
/// is at most `q`.
pub open spec fn moderate_ring(r: Seq<Pt>, m: real, q: real) -> bool {
    &&& r.len() <= 0x100000
    &&& points_within(r, m)
    &&& 1real <= m
    &&& m * m <= q
    &&& 0x1000000000000real * q <= huge()
}

proof fn lemma_shoelace(r: Seq<Pt>, n: int, m: real, q: real)
    requires
        moderate_ring(r, m, q),
        0 <= n <= r.len(),
    ensures
        near(shoelace(r, n), fan(r, n), 16real * ((n as real) * ((n as real) * (eps() * q)))),
        -(2real * ((n as real) * q)) <= fan(r, n) <= 2real * ((n as real) * q),
    decreases n,
{
    lemma_zero();
    lemma_eps();
    assert(1real <= q) by {
        assert(1real <= m * m) by (nonlinear_arith)
            requires
                1real <= m,
        ;
    }
    lemma_scale(q);
    let e = eps();
    let eq = e * q;
    let nr = n as real;
    if n > 0 {
        let k = nr - 1real;
        lemma_shoelace(r, n - 1, m, q);
        lemma_behind(r, n - 1);
        assert(point_within(r[n - 1], m));
        let b = behind(r, n - 1);
        assert(point_within(b, m)) by {
            if n < r.len() {
                assert(point_within(r[n - 1 + 1], m));
            } else {
                assert(point_within(r[0], m));
            }
        }
        lemma_cross(r[n - 1], b, m, q);
        let (kq, keq) = (k * q, k * eq);
        let kke = k * keq;
        lemma_le(k, 0x100000real, q);
        lemma_le(k, 0x100000real, eq);
        lemma_le(0real, k, q);
        lemma_le(0real, k, eq);
        lemma_le(k, 0x100000real, keq);
        lemma_le(0real, k, keq);
        assert(0real * q == 0real && 0real * eq == 0real && 0real * keq == 0real);
        let l = 4real * kq + 8real * q;
        lemma_near_add(
            shoelace(r, n - 1),
            fan(r, n - 1),
            16real * kke,
            cross(r[n - 1], b),
            val(r[n - 1].x) * val(b.y) - val(b.x) * val(r[n - 1].y),
            8real * eq,
            l,
        );
        lemma_dist(4real * kq, 8real * q, e);
        lemma_assoc(e, 4real, kq);
        lemma_assoc(e, 8real, q);
        lemma_assoc(e, k, q);
        lemma_dist(k, 1real, q);
        lemma_dist(k, 1real, eq);
        lemma_dist(k, 1real, keq + eq);
        lemma_dist(keq, eq, k);
        assert(1real * q == q && 1real * eq == eq && 1real * (keq + eq) == keq + eq);
    } else {
        assert(0real * q == 0real && 0real * eq == 0real && 0real * 0real == 0real);
    }
}

/// The area of a ring is what it encloses, but for rounding.
pub proof fn law_ring_area(r: Seq<Pt>, m: real, q: real)
    requires
        moderate_ring(r, m, q),
    ensures
        near(
            ring_area(r),
            enclosed(r),
            16real * ((r.len() as real) * ((r.len() as real) * (eps() * q))),
        ),
        0real <= enclosed(r) <= (r.len() as real) * q,
{
    let n = r.len() as real;
    lemma_zero();
    lemma_one();
    lemma_whole_val(2);
    lemma_shoelace(r, r.len() as int, m, q);
    assert(1real <= q) by {
        assert(1real <= m * m) by (nonlinear_arith)
            requires
                1real <= m,
        ;
    }
    lemma_scale(q);
    let e = eps();
    let eq = e * q;
    let s = shoelace(r, r.len() as int);
    let f = fan(r, r.len() as int);
    let (nq, neq) = (n * q, n * eq);
    let nne = n * neq;
    lemma_le(0real, n, eq);
    lemma_le(0real, n, q);
    lemma_le(0real, n, neq);
    assert(0real * q == 0real && 0real * eq == 0real && 0real * neq == 0real);
    if r.len() >= 3 {
        lemma_negated_val(s);
        lemma_le(3real, n, eq);
        lemma_le(3real, n, neq);
        lemma_le(3real, n, q);
        lemma_le(n, 0x100000real, q);
        lemma_le(n, 0x100000real, eq);
        lemma_le(n, 0x100000real, neq);
        assert(near(s.abs(), abs(f), 16real * nne));
        assert(abs(abs(f)) + 16real * nne <= 4real * nq);
        lemma_near_div(s.abs(), abs(f), 16real * nne, Double::of_int(2), 2real * nq);
        lemma_assoc(e, 2real, nq);
        lemma_assoc(e, n, q);
    }
}

/// What the first `n` of several rings enclose, added up.
pub open spec fn enclosed_by(rings: Seq<Seq<Pt>>, n: int) -> real
    decreases n,
{
    if n <= 0 {
        0real
    } else {
        enclosed_by(rings, n - 1) + enclosed(rings[n - 1])
    }
}

/// A polygon is of moderate size: its rings are, `n` bounds the number of their points, and `d`
/// is that times the number of rings, up to 2^20.
pub open spec fn moderate_polygon(p: PolygonView, m: real, q: real, n: real, d: real) -> bool {
    &&& moderate_ring(p.exterior, m, q)
    &&& p.exterior.len() as real <= n
    &&& forall|i: int|
        0 <= i < p.interiors.len() ==> moderate_ring(#[trigger] p.interiors[i], m, q)
            && p.interiors[i].len() as real <= n
    &&& 1real <= n
    &&& ((p.interiors.len() + 1) as real) * n <= d
    &&& d <= 0x100000real
}

proof fn lemma_area_less(p: PolygonView, k: int, m: real, q: real, n: real, d: real)
    requires
        moderate_polygon(p, m, q, n, d),
        0 <= k <= p.interiors.len(),
    ensures
        near(
            p.area_less(k),
            enclosed(p.exterior) - enclosed_by(p.interiors, k),
            32real * (((k + 1) as real) * (d * (n * (eps() * q)))),
        ),
        -(((k + 1) as real) * (n * q)) <= enclosed(p.exterior) - enclosed_by(p.interiors, k)
            <= ((k + 1) as real) * (n * q),
    decreases k,
{
    lemma_eps();
    lemma_one();
    assert(1real <= q) by {
        assert(1real <= m * m) by (nonlinear_arith)
            requires
                1real <= m,
        ;
    }
    lemma_scale(q);
    let e = eps();
    let eq = e * q;
    let (nq, neq) = (n * q, n * eq);
    let dne = d * neq;
    let kr = k as real;
    lemma_le(1real, n, eq);
    lemma_le(1real, n, q);
    assert(1real * eq == eq && 1real * q == q && 1real * n == n);
    lemma_le(kr + 1real, (p.interiors.len() + 1) as real, n);
    lemma_le(1real, kr + 1real, n);
    lemma_le(1real, d, neq);
    lemma_le(n, d, neq);
    assert(1real * neq == neq);
    if k == 0 {
        let r = p.exterior;
        law_ring_area(r, m, q);
        let l = r.len() as real;
        lemma_fewer(l, n, eq, q);
        assert(1real * dne == dne && 1real * nq == nq);
        lemma_assoc(n, n, eq);
    } else {
        lemma_area_less(p, k - 1, m, q, n, d);
        let r = p.interiors[k - 1];
        assert(moderate_ring(p.interiors[k - 1], m, q) && p.interiors[k - 1].len() as real <= n);
        law_ring_area(r, m, q);
        let l = r.len() as real;
        lemma_fewer(l, n, eq, q);
        let big = 2real * ((kr + 1real) * nq);
        lemma_dist(kr, 1real, nq);
        lemma_dist(kr, 1real, dne);
        lemma_dist(kr, 1real, neq);
        assert(1real * dne == dne && 1real * nq == nq);
        lemma_le(1real, n, kr + 1real);
        assert((kr + 1real) * 1real == kr + 1real);
        assert(kr <= 0x100000real);
        lemma_le(kr, 0x100000real, dne);
        lemma_le(0real, kr, dne);
        lemma_le(d, 0x100000real, neq);
        lemma_assoc(0x20000000000000real, n, eq);
        lemma_le(0real, kr, nq);
        assert(0real * dne == 0real && 0real * nq == 0real);
        lemma_assoc(kr + 1real, n, q);
        lemma_le((kr + 1real) * n, d, q);
        lemma_le(d, 0x100000real, q);
        lemma_near_sub(
            p.area_less(k - 1),
            enclosed(p.exterior) - enclosed_by(p.interiors, k - 1),
            32real * (kr * dne),
            ring_area(r),
            enclosed(r),
            16real * dne,
            big,
        );
        lemma_assoc(e, 2real, (kr + 1real) * nq);
        lemma_assoc(e, kr + 1real, nq);
        lemma_assoc(e, n, q);
        lemma_le(kr + 1real, d, neq);
    }
}

proof fn lemma_fewer(l: real, n: real, eq: real, q: real)
    requires
        0real <= l <= n,
        eq > 0real,
        q >= 1real,
    ensures
        l * (l * eq) <= n * (n * eq),
        l * q <= n * q,
{
    lemma_le(l, n, eq);
    lemma_le(l, n, q);
    lemma_le(0real, l, eq);
    assert(0real * eq == 0real);
    lemma_le(l, n, l * eq);
    lemma_le(l * eq, n * eq, n);
}

/// The area of a polygon is what its outer ring encloses less what the rings of all its holes
/// enclose, but for rounding.
pub proof fn law_polygon_area(p: PolygonView, m: real, q: real, n: real, d: real)
    requires
        moderate_polygon(p, m, q, n, d),
    ensures
        near(
            p.area(),
            enclosed(p.exterior) - enclosed_by(p.interiors, p.interiors.len() as int),
            32real * (d * (d * (eps() * q))),
        ),
        -(d * q) <= enclosed(p.exterior) - enclosed_by(p.interiors, p.interiors.len() as int) <= d * q,
{
    let k = p.interiors.len() as int;
    lemma_area_less(p, k, m, q, n, d);
    lemma_eps();
    assert(1real <= q) by {
        assert(1real <= m * m) by (nonlinear_arith)
            requires
                1real <= m,
        ;
    }
    lemma_scale(q);
    let eq = eps() * q;
    let kr = (k + 1) as real;
    let neq = n * eq;
    lemma_assoc(kr, d, neq);
    lemma_assoc(kr, n, eq);
    lemma_assoc(kr, n, q);
    lemma_le(kr * n, d, eq);
    lemma_le(kr * n, d, q);
    lemma_le(1real, kr, n);
    assert(1real * n == n);
    lemma_le(kr * n * eq, d * eq, d);
}

// ---------------------------------------------------------------------------
// The field that coordinates give
// ---------------------------------------------------------------------------

/// A ring holds the points that coordinates give, in their order: all of them, or all but a last
/// one at the place of the first.
pub open spec fn given_by(r: Seq<Pt>, c: Seq<(Double, Double)>) -> bool {
    &&& r.len() <= c.len()
    &&& forall|i: int| 0 <= i < r.len() ==> (#[trigger] r[i]).x == c[i].0 && r[i].y == c[i].1
    &&& if c.len() >= 2 && c[0].0.same(c.last().0) && c[0].1.same(c.last().1) {
        r.len() == c.len() - 1
    } else {
        r.len() == c.len()
    }
}

/// The field that coordinates give is one polygon. Its outer ring is the given one, it has as many
/// holes as are given, and each is the ring of its coordinates.
pub proof fn law_field_has_its_holes(
    exterior: Seq<(Double, Double)>,
    holes: Seq<Seq<(Double, Double)>>,
)
    ensures
        ({
            let f = field_of(exterior, holes);
            &&& f.parts.len() == 1
            &&& given_by(f.parts[0].exterior, exterior)
            &&& f.parts[0].interiors.len() == holes.len()
            &&& forall|k: int|
                0 <= k < holes.len() ==> given_by(#[trigger] f.parts[0].interiors[k], holes[k])
        }),
{
}

/// A ring of coordinates in feet about a centre, point by point.
pub open spec fn feet_of(m: Meaning, g: GlobeMeaning, r: Seq<Pt>, center: Pt) -> Seq<Pt> {
    Seq::new(r.len(), |i: int| local_feet(m.sin_cos, g.inverse, r[i], center))
}

/// The area that is told of a field is, in acres, what its outer ring encloses less what the rings
/// of all given holes enclose, in feet about its centroid, but for rounding.
pub proof fn law_acres_without_holes(
    m: Meaning,
    g: GlobeMeaning,
    exterior: Seq<(Double, Double)>,
    holes: Seq<Seq<(Double, Double)>>,
    swath_ft: Double,
    trailer: Option<(Double, Double)>,
    gpa: Option<Double>,
    outer: Seq<Pt>,
    inner: Seq<Seq<Pt>>,
    b: real,
    q: real,
    n: real,
    d: real,
)
    requires
        given_by(outer, exterior),
        inner.len() == holes.len(),
        forall|k: int| 0 <= k < holes.len() ==> given_by(#[trigger] inner[k], holes[k]),
        planned_lines(m, g, field_of(exterior, holes), swath_ft, trailer, gpa) is Some,
        ({
            let c = field_of(exterior, holes).centroid();
            moderate_polygon(
                PolygonView {
                    exterior: feet_of(m, g, outer, c),
                    interiors: Seq::new(inner.len(), |k: int| feet_of(m, g, inner[k], c)),
                },
                b,
                q,
                n,
                d,
            )
        }),
    ensures
        ({
            let c = field_of(exterior, holes).centroid();
            let l = planned_lines(m, g, field_of(exterior, holes), swath_ft, trailer, gpa)->0;
            let net = enclosed(feet_of(m, g, outer, c)) - enclosed_by(
                Seq::new(inner.len(), |k: int| feet_of(m, g, inner[k], c)),
                holes.len() as int,
            );
            near(l.field_area_acres, net / 43560real, 64real * (d * (d * (eps() * q))))
        }),
{
    let f = field_of(exterior, holes);
    let c = f.centroid();
    law_field_has_its_holes(exterior, holes);
    let p = PolygonView {
        exterior: feet_of(m, g, outer, c),
        interiors: Seq::new(inner.len(), |k: int| feet_of(m, g, inner[k], c)),
    };
    let feet = geom_in_feet(m.sin_cos, g.inverse, f, c);
    lemma_given(outer, f.parts[0].exterior, exterior);
    assert forall|k: int| 0 <= k < holes.len() implies #[trigger] inner[k] == f.parts[0].interiors[k] by {
        lemma_given(inner[k], f.parts[0].interiors[k], holes[k]);
    }
    assert(feet.parts[0].exterior =~= p.exterior);
    assert forall|k: int| 0 <= k < holes.len() implies #[trigger] feet.parts[0].interiors[k]
        =~= p.interiors[k] by {
        assert(inner[k] == f.parts[0].interiors[k]);
    }
    assert(feet.parts[0].interiors =~= p.interiors);
    assert(feet.parts[0] == p);
    law_polygon_area(p, b, q, n, d);
    let r = enclosed(p.exterior) - enclosed_by(p.interiors, p.interiors.len() as int);
    lemma_zero();
    lemma_one();
    lemma_eps();
    assert(1real <= q) by {
        assert(1real <= b * b) by (nonlinear_arith)
            requires
                1real <= b,
        ;
    }
    lemma_scale(q);
    let e = eps();
    let eq = e * q;
    let (dq, deq) = (d * q, d * eq);
    let dde = d * deq;
    let kr = (p.interiors.len() + 1) as real;
    lemma_le(1real, kr, n);
    assert(1real * n == n && 1real * eq == eq && 1real * deq == deq && 1real * q == q);
    lemma_le(1real, d, eq);
    lemma_le(1real, d, deq);
    lemma_le(1real, d, q);
    lemma_le(d, 0x100000real, eq);
    lemma_le(d, 0x100000real, deq);
    lemma_le(d, 0x100000real, q);
    lemma_assoc(e, 2real, dq);
    lemma_assoc(e, d, q);
    // One part, added to nothing.
    reveal_with_fuel(GeomView::area_to, 2);
    lemma_near_add(
        Double::negative_zero(),
        0real,
        0real,
        p.area(),
        r,
        32real * dde,
        2real * dq,
    );
    assert(feet.area() == Double::negative_zero().plus(p.area()));
    lemma_whole_val(43560);
    lemma_near_div(feet.area(), 0real + r, 34real * dde, acre_ft2(), 2real * dq);
}

/// Coordinates give one ring.
proof fn lemma_given(a: Seq<Pt>, b: Seq<Pt>, c: Seq<(Double, Double)>)
    requires
        given_by(a, c),
        given_by(b, c),
    ensures
        a == b,
{
    assert forall|i: int| 0 <= i < a.len() implies a[i] == b[i] by {
        assert(a[i].x == c[i].0 && b[i].x == c[i].0);
        assert(a[i].y == c[i].1 && b[i].y == c[i].1);
    }
    assert(a =~= b);
}

} // verus!
