//! Laws of frames: heights over a direction, and what is turned there and back.
use vstd::prelude::*;

use crate::double::Double;
use crate::geom::{turned, Pt};
use crate::near::{
    abs, eps, huge, lemma_abs_mul, lemma_ceil_val, lemma_eps, lemma_near_add, lemma_near_div, lemma_near_mul,
    lemma_near_sub, lemma_negated_val, lemma_one, lemma_val_order, lemma_whole_val, lemma_zero, near, val,
};
use crate::params::AircraftParams;
use crate::search::{extent, score, scores, to_radians};
use crate::tools::Trig;

verus! {

/// A finite number of at most `m`, either way.
pub open spec fn bounded(x: Double, m: real) -> bool {
    x.finite() && -m <= val(x) <= m
}

/// A point with coordinates of at most `m`.
pub open spec fn point_within(p: Pt, m: real) -> bool {
    bounded(p.x, m) && bounded(p.y, m)
}

/// A sine and a cosine: neither is over one.
pub open spec fn circular(sc: (Double, Double)) -> bool {
    bounded(sc.0, 1real) && bounded(sc.1, 1real)
}

/// A product by a sine or a cosine.
proof fn lemma_part(x: Double, c: Double, m: real)
    requires
        bounded(x, m),
        bounded(c, 1real),
        1real <= m,
        64real * m <= huge(),
    ensures
        near(x.times(c), val(x) * val(c), 2real * (eps() * m)),
        near(c.times(x), val(x) * val(c), 2real * (eps() * m)),
        -m <= val(x) * val(c) <= m,
{
    let (a, b) = (val(x), val(c));
    assert((m + 0real) * 1real == m && (1real + 0real) * m == m) by (nonlinear_arith);
    lemma_near_mul(x, a, 0real, c, b, 0real, m, 1real, m);
    lemma_near_mul(c, b, 0real, x, a, 0real, 1real, m, m);
    assert(0real * 1real == 0real && m * 0real == 0real && 0real * m == 0real && 1real * 0real == 0real)
        by (nonlinear_arith);
    assert(a * b == b * a) by (nonlinear_arith);
    lemma_abs_mul(a, b);
    assert(abs(a) * abs(b) <= m * 1real) by (nonlinear_arith)
        requires
            0real <= abs(a) <= m,
            0real <= abs(b) <= 1real,
    ;
}

proof fn lemma_step(m: real)
    requires
        1real <= m,
    ensures
        0real < eps() * m,
        eps() * m * 0x10000000000000real <= m,
        eps() * (4real * m) == 4real * (eps() * m),
        eps() * (8real * m) == 8real * (eps() * m),
        eps() * (16real * m) == 16real * (eps() * m),
{
    lemma_eps();
    let e = eps();
    let em = e * m;
    assert(0real < em) by (nonlinear_arith)
        requires
            em == e * m,
            e > 0real,
            m >= 1real,
    ;
    assert(em * 0x20000000000000real == m) by (nonlinear_arith)
        requires
            em == e * m,
            e * 0x20000000000000real == 1real,
    ;
    assert(e * (4real * m) == 4real * em && e * (8real * m) == 8real * em && e * (16real * m) == 16real
        * em) by (nonlinear_arith)
        requires
            em == e * m,
    ;
}

/// A turned point is where it goes exactly, but for a 2^46th of the greatest coordinate.
pub proof fn lemma_turned_val(p: Pt, sc: (Double, Double), o: Pt, m: real)
    requires
        point_within(p, m),
        point_within(o, m),
        circular(sc),
        1real <= m,
        64real * m <= huge(),
    ensures
        ({
            let (s, c) = (val(sc.0), val(sc.1));
            let (a, b) = (val(p.x) - val(o.x), val(p.y) - val(o.y));
            let r = turned(p, sc, o);
            &&& near(r.x, val(o.x) + (c * a - s * b), 64real * (eps() * m))
            &&& near(r.y, val(o.y) + (s * a + c * b), 64real * (eps() * m))
        }),
{
    let (s, c) = (sc.0, sc.1);
    let em = eps() * m;
    lemma_step(m);
    lemma_part(p.x, c, m);
    lemma_part(p.y, s, m);
    lemma_part(p.x, s, m);
    lemma_part(p.y, c, m);
    lemma_part(o.x, c, m);
    lemma_part(o.y, s, m);
    lemma_part(o.x, s, m);
    lemma_part(o.y, c, m);
    let (x, y, u, v) = (val(p.x), val(p.y), val(o.x), val(o.y));
    let (sr, cr) = (val(s), val(c));
    let (t1, t2, t3, t4) = (c.times(p.x), s.times(p.y), o.x.times(c), o.y.times(s));
    lemma_near_sub(t1, x * cr, 2real * em, t2, y * sr, 2real * em, 4real * m);
    lemma_near_sub(o.x, u, 0real, t3, u * cr, 2real * em, 4real * m);
    lemma_near_add(o.x.minus(t3), u - u * cr, 6real * em, t4, v * sr, 2real * em, 8real * m);
    lemma_near_add(
        t1.minus(t2),
        x * cr - y * sr,
        8real * em,
        o.x.minus(t3).plus(t4),
        u - u * cr + v * sr,
        16real * em,
        8real * m,
    );
    let (q1, q2, q3, q4) = (s.times(p.x), c.times(p.y), o.x.times(s), o.y.times(c));
    lemma_near_add(q1, x * sr, 2real * em, q2, y * cr, 2real * em, 4real * m);
    lemma_near_sub(o.y, v, 0real, q3, u * sr, 2real * em, 4real * m);
    lemma_near_sub(o.y.minus(q3), v - u * sr, 6real * em, q4, v * cr, 2real * em, 8real * m);
    lemma_near_add(
        q1.plus(q2),
        x * sr + y * cr,
        8real * em,
        o.y.minus(q3).minus(q4),
        v - u * sr - v * cr,
        16real * em,
        8real * m,
    );
    assert(cr * (x - u) == x * cr - u * cr && sr * (y - v) == y * sr - v * sr && sr * (x - u) == x * sr - u
        * sr && cr * (y - v) == y * cr - v * cr) by (nonlinear_arith);
}

// ---------------------------------------------------------------------------
// Heights over a direction
// ---------------------------------------------------------------------------

/// The height of a point over the direction with a sine and a cosine: how far it lies to the
/// left of the line through the origin in that direction.
pub open spec fn height(p: Pt, sc: (Double, Double)) -> real {
    val(p.y) * val(sc.1) - val(p.x) * val(sc.0)
}

/// Moving a point along a direction does not change its height over it.
pub proof fn law_height_along(p: Pt, q: Pt, sc: (Double, Double), d: real)
    requires
        val(q.x) == val(p.x) + d * val(sc.1),
        val(q.y) == val(p.y) + d * val(sc.0),
    ensures
        height(q, sc) == height(p, sc),
{
    let (s, c, x, y) = (val(sc.0), val(sc.1), val(p.x), val(p.y));
    assert((y + d * s) * c == y * c + d * s * c) by (nonlinear_arith);
    assert((x + d * c) * s == x * s + d * c * s) by (nonlinear_arith);
    assert(d * s * c == d * c * s) by (nonlinear_arith);
}

/// Points with coordinates of at most `m`.
pub open spec fn points_within(v: Seq<Pt>, m: real) -> bool {
    forall|i: int| 0 <= i < v.len() ==> point_within(#[trigger] v[i], m)
}

proof fn lemma_height(p: Pt, sc: (Double, Double), m: real)
    requires
        point_within(p, m),
        circular(sc),
        1real <= m,
        64real * m <= huge(),
    ensures
        near(
            p.x.times(sc.0.negated()).plus(p.y.times(sc.1)),
            height(p, sc),
            8real * (eps() * m),
        ),
        -(2real * m) <= height(p, sc) <= 2real * m,
{
    lemma_step(m);
    let em = eps() * m;
    lemma_negated_val(sc.0);
    lemma_part(p.x, sc.0.negated(), m);
    lemma_part(p.y, sc.1, m);
    let (x, s) = (val(p.x), val(sc.0));
    assert(x * (-s) == -(x * s)) by (nonlinear_arith);
    lemma_near_add(
        p.x.times(sc.0.negated()),
        -(x * s),
        2real * em,
        p.y.times(sc.1),
        val(p.y) * val(sc.1),
        2real * em,
        4real * m,
    );
}

/// The extent of points over a direction runs from their least height to their greatest, but
/// for rounding; `at` are points where it is reached.
pub proof fn law_extent(v: Seq<Pt>, sc: (Double, Double), n: int, m: real) -> (at: (int, int))
    requires
        points_within(v, m),
        circular(sc),
        1 <= n <= v.len(),
        1real <= m,
        64real * m <= huge(),
    ensures
        ({
            let (lo, hi) = extent(v, sc, n);
            let e = 8real * (eps() * m);
            &&& 0 <= at.0 < n && 0 <= at.1 < n
            &&& near(lo, height(v[at.0], sc), e)
            &&& near(hi, height(v[at.1], sc), e)
            &&& forall|i: int|
                0 <= i < n ==> val(lo) - e <= #[trigger] height(v[i], sc) <= val(hi) + e
        }),
    decreases n,
{
    let p = v[n - 1];
    assert(point_within(v[n - 1], m));
    lemma_height(p, sc, m);
    let h = p.x.times(sc.0.negated()).plus(p.y.times(sc.1));
    let (lo, hi) = extent(v, sc, n);
    if n == 1 {
        assert(extent(v, sc, 0) == (Double::infinity(), Double::infinity().negated()));
        assert(lo == h && hi == h);
        (0, 0)
    } else {
        let (a, b) = extent(v, sc, n - 1);
        let at = law_extent(v, sc, n - 1, m);
        lemma_val_order(h, a);
        lemma_val_order(b, h);
        (
            if h.lt(a) {
                n - 1
            } else {
                at.0
            },
            if b.lt(h) {
                n - 1
            } else {
                at.1
            },
        )
    }
}

// ---------------------------------------------------------------------------
// Scores
// ---------------------------------------------------------------------------

/// What a direction is scored by is of moderate size: `m` bounds coordinates, `w` is what
/// eight times that takes in passes, and `t` bounds the two times.
pub open spec fn scored(
    v: Seq<Pt>,
    area: Double,
    sc: (Double, Double),
    p: AircraftParams,
    m: real,
    w: real,
    t: real,
) -> bool {
    let (s, f) = (val(p.swath_ft), val(p.speed_fps));
    &&& v.len() > 0
    &&& points_within(v, m)
    &&& circular(sc)
    &&& 1real <= m
    &&& 64real * m <= huge()
    &&& p.swath_ft.finite() && s > 0real
    &&& p.speed_fps.finite() && f > 0real
    &&& w * s == 8real * m
    &&& 1real <= w <= 0x1000000000000real
    &&& area.finite() && val(area) >= 0real
    &&& p.t_turn_s.finite() && val(p.t_turn_s) >= 0real
    &&& 8real * (w * val(p.t_turn_s)) <= t
    &&& val(area) <= huge() * s
    &&& 1real <= val(area) / s
    &&& 2real * (val(area) / s) <= t * f
    &&& 1real <= t
    &&& 64real * t <= huge()
}

/// The score of a direction counts the passes that the extent across it needs: the least whole
/// number of swaths that is not below it, but for rounding. It is the time to spray the area
/// at full swath, and a turn from each pass to the next.
pub proof fn law_score(
    v: Seq<Pt>,
    area: Double,
    sc: (Double, Double),
    p: AircraftParams,
    m: real,
    w: real,
    t: real,
) -> (r: (int, int, int))
    requires
        scored(v, area, sc, p, m, w, t),
    ensures
        ({
            let (k, i, j) = r;
            let s = val(p.swath_ft);
            let e = 96real * (eps() * m);
            let turns = if k >= 1 {
                (k - 1) as real
            } else {
                0real
            };
            &&& 0 <= i < v.len() && 0 <= j < v.len()
            &&& ((k - 1) as real) * s <= height(v[j], sc) - height(v[i], sc) + e
            &&& forall|x: int, y: int|
                0 <= x < v.len() && 0 <= y < v.len() ==> #[trigger] height(v[y], sc)
                    - #[trigger] height(v[x], sc) - e <= (k as real) * s
            &&& near(
                score(v, area, sc, p),
                val(area) / s / val(p.speed_fps) + turns * val(p.t_turn_s),
                32real * (eps() * t),
            )
        }),
{
    lemma_step(m);
    lemma_step(t);
    lemma_step(w);
    lemma_eps();
    lemma_one();
    lemma_zero();
    lemma_whole_val(1);
    let e = eps();
    let (em, et, ew) = (e * m, e * t, e * w);
    let at = law_extent(v, sc, v.len() as int, m);
    let (lo, hi) = extent(v, sc, v.len() as int);
    let (i, j) = at;
    assert(point_within(v[i], m) && point_within(v[j], m));
    lemma_height(v[i], sc, m);
    lemma_height(v[j], sc, m);
    let (hl, hh) = (height(v[i], sc), height(v[j], sc));
    let s = val(p.swath_ft);
    // The extent across, and the passes.
    let width = hi.minus(lo);
    let r = hh - hl;
    lemma_near_sub(hi, hh, 8real * em, lo, hl, 8real * em, 8real * m);
    assert(near(width, r, 24real * em));
    let l = abs(r) + 24real * em;
    let ql = l / s;
    assert(ql * s == l) by (nonlinear_arith)
        requires
            ql == l / s,
            s > 0real,
    ;
    assert(ql <= w) by (nonlinear_arith)
        requires
            ql * s == l,
            l <= w * s,
            s > 0real,
    ;
    lemma_near_div(width, r, 24real * em, p.swath_ft, w);
    let q = width.over(p.swath_ft);
    let (rs, es) = (r / s, 24real * em / s);
    assert(rs * s == r && es * s == 24real * em) by (nonlinear_arith)
        requires
            rs == r / s,
            es == 24real * em / s,
            s > 0real,
    ;
    assert(abs(val(q)) <= 4real * w) by {
        assert(-w <= rs && rs <= w && 0real <= es && es <= w) by {
            assert(-w <= rs) by (nonlinear_arith)
                requires
                    rs * s == r,
                    -(8real * m) <= r,
                    8real * m <= w * s,
                    s > 0real,
            ;
            assert(rs <= w) by (nonlinear_arith)
                requires
                    rs * s == r,
                    r <= 8real * m,
                    8real * m <= w * s,
                    s > 0real,
            ;
            assert(es <= w) by (nonlinear_arith)
                requires
                    es * s == 24real * em,
                    24real * em <= 8real * m,
                    8real * m <= w * s,
                    s > 0real,
            ;
            assert(es >= 0real) by (nonlinear_arith)
                requires
                    es * s == 24real * em,
                    em > 0real,
                    s > 0real,
            ;
        }
    }
    let k = lemma_ceil_val(q);
    let kr = k as real;
    let n_pass = q.ceil();
    // Swaths by their number.
    let qr = val(q);
    let f1 = es + 2real * ew;
    assert(ew * s == 8real * em) by (nonlinear_arith)
        requires
            ew == e * w,
            w * s == 8real * m,
            em == e * m,
    ;
    assert(f1 * s == es * s + 2real * (ew * s)) by (nonlinear_arith)
        requires
            f1 == es + 2real * ew,
    ;
    assert(kr * s >= r - 40real * em) by (nonlinear_arith)
        requires
            kr >= rs - f1,
            rs * s == r,
            f1 * s == 40real * em,
            s > 0real,
    ;
    assert((kr - 1real) * s <= r + 40real * em) by (nonlinear_arith)
        requires
            kr - 1real <= rs + f1,
            rs * s == r,
            f1 * s == 40real * em,
            s > 0real,
    ;
    lemma_score_times(q, k, area, p, w, t);
    (k, i, j)
}

/// The times that a number of passes is scored by.
proof fn lemma_score_times(q: Double, k: int, area: Double, p: AircraftParams, w: real, t: real)
    requires
        q.ceil().finite(),
        val(q.ceil()) == k as real,
        abs(k as real) <= 5real * w,
        1real <= w <= 0x1000000000000real,
        p.swath_ft.finite() && val(p.swath_ft) > 0real,
        p.speed_fps.finite() && val(p.speed_fps) > 0real,
        area.finite() && val(area) >= 0real,
        p.t_turn_s.finite() && val(p.t_turn_s) >= 0real,
        8real * (w * val(p.t_turn_s)) <= t,
        val(area) <= huge() * val(p.swath_ft),
        1real <= val(area) / val(p.swath_ft),
        2real * (val(area) / val(p.swath_ft)) <= t * val(p.speed_fps),
        1real <= t,
        64real * t <= huge(),
    ensures
        ({
            let turns = if k >= 1 {
                (k - 1) as real
            } else {
                0real
            };
            near(
                area.over(p.swath_ft).over(p.speed_fps).plus(
                    q.ceil().minus(Double::of_int(1)).max(Double::zero()).times(p.t_turn_s),
                ),
                val(area) / val(p.swath_ft) / val(p.speed_fps) + turns * val(p.t_turn_s),
                32real * (eps() * t),
            )
        }),
{
    lemma_step(t);
    lemma_step(w);
    lemma_eps();
    lemma_one();
    lemma_zero();
    lemma_whole_val(1);
    let e = eps();
    let (et, ew) = (e * t, e * w);
    let (s, f) = (val(p.swath_ft), val(p.speed_fps));
    let a1 = area.over(p.swath_ft);
    let ar = val(area) / s;
    assert(ar * s == val(area)) by (nonlinear_arith)
        requires
            ar == val(area) / s,
            s > 0real,
    ;
    let hg = huge();
    assert(ar <= hg) by (nonlinear_arith)
        requires
            ar * s == val(area),
            val(area) <= hg * s,
            s > 0real,
    ;
    assert(abs(val(area)) + 0real == val(area));
    lemma_near_div(area, val(area), 0real, p.swath_ft, ar);
    assert(0real / s == 0real) by (nonlinear_arith)
        requires
            s > 0real,
    ;
    let ea = e * ar;
    assert(0real < ea && 2real * ea <= ar) by (nonlinear_arith)
        requires
            ea == e * ar,
            ar >= 1real,
            e * 0x20000000000000real == 1real,
    ;
    let l = abs(ar) + 2real * ea;
    let lf = l / f;
    assert(lf * f == l) by (nonlinear_arith)
        requires
            lf == l / f,
            f > 0real,
    ;
    assert(lf <= t) by (nonlinear_arith)
        requires
            lf * f == l,
            l <= t * f,
            f > 0real,
    ;
    lemma_near_div(a1, ar, 2real * ea, p.speed_fps, t);
    let a2 = a1.over(p.speed_fps);
    let x = ar / f;
    let g = 2real * ea / f;
    assert(g * f == 2real * ea && x * f == ar) by (nonlinear_arith)
        requires
            g == 2real * ea / f,
            x == ar / f,
            f > 0real,
    ;
    let tf = t * f;
    assert(e * (2real * ar) <= e * tf) by (nonlinear_arith)
        requires
            2real * ar <= tf,
            e > 0real,
    ;
    assert(et * f == e * tf) by (nonlinear_arith)
        requires
            et == e * t,
            tf == t * f,
    ;
    assert(e * (2real * ar) == 2real * ea) by (nonlinear_arith)
        requires
            ea == e * ar,
    ;
    assert(g <= et) by (nonlinear_arith)
        requires
            g * f <= et * f,
            f > 0real,
    ;
    assert(0real <= x && x <= t) by (nonlinear_arith)
        requires
            x * f == ar,
            0real <= 2real * ar,
            2real * ar <= t * f,
            f > 0real,
    ;
    assert(near(a2, x, 3real * et));
    // The turns.
    let c = q.ceil();
    let kr = k as real;
    let n1 = c.minus(Double::of_int(1));
    lemma_near_sub(c, kr, 0real, Double::of_int(1), 1real, 0real, 8real * w);
    let turns = if k >= 1 {
        kr - 1real
    } else {
        0real
    };
    let n2 = n1.max(Double::zero());
    lemma_val_order(n1, Double::zero());
    assert(near(n2, turns, 8real * ew));
    let tt = val(p.t_turn_s);
    let wt = w * tt;
    assert(8real * ew * tt <= w * tt && 0real <= w * tt) by (nonlinear_arith)
        requires
            8real * ew <= w,
            tt >= 0real,
            w >= 1real,
    ;
    assert((5real * w + 8real * ew) * tt == 5real * (w * tt) + 8real * ew * tt) by (nonlinear_arith);
    lemma_near_mul(n2, turns, 8real * ew, p.t_turn_s, tt, 0real, 5real * w, tt, t);
    assert(8real * ew * tt == 8real * (e * wt) && 5real * w * 0real == 0real) by (nonlinear_arith)
        requires
            ew == e * w,
            wt == w * tt,
    ;
    assert(e * (8real * wt) <= e * t) by (nonlinear_arith)
        requires
            8real * wt <= t,
            e > 0real,
    ;
    assert(e * (8real * wt) == 8real * (e * wt)) by (nonlinear_arith);
    assert(0real <= turns * tt && turns * tt <= t) by (nonlinear_arith)
        requires
            0real <= turns <= 5real * w,
            tt >= 0real,
            wt == w * tt,
            8real * wt <= t,
    ;
    lemma_near_add(a2, x, 3real * et, n2.times(p.t_turn_s), turns * tt, 3real * et, 4real * t);
}

/// The scores of a field and of the field lengthened along the direction, at the same area,
/// differ by no more than a pass that the extent across may just need or not.
pub proof fn law_score_along(
    v: Seq<Pt>,
    u: Seq<Pt>,
    along: spec_fn(int) -> real,
    area: Double,
    sc: (Double, Double),
    p: AircraftParams,
    m: real,
    w: real,
    t: real,
) -> (k: (int, int))
    requires
        scored(v, area, sc, p, m, w, t),
        scored(u, area, sc, p, m, w, t),
        v.len() == u.len(),
        forall|i: int|
            0 <= i < v.len() ==> val((#[trigger] u[i]).x) == val(v[i].x) + along(i) * val(sc.1)
                && val(u[i].y) == val(v[i].y) + along(i) * val(sc.0),
    ensures
        ({
            let e = 192real * (eps() * m);
            let d = (k.1 - k.0) as real;
            &&& (abs(d) - 1real) * val(p.swath_ft) <= e
            &&& abs(val(score(u, area, sc, p)) - val(score(v, area, sc, p))) <= abs(d) * val(
                p.t_turn_s,
            ) + 64real * (eps() * t)
        }),
{
    let (k, i, j) = law_score(v, area, sc, p, m, w, t);
    let (l, x, y) = law_score(u, area, sc, p, m, w, t);
    assert forall|n: int| 0 <= n < v.len() implies #[trigger] height(u[n], sc) == height(v[n], sc) by {
        law_height_along(v[n], u[n], sc, along(n));
    }
    assert(height(u[i], sc) == height(v[i], sc) && height(u[j], sc) == height(v[j], sc));
    assert(height(u[x], sc) == height(v[x], sc) && height(u[y], sc) == height(v[y], sc));
    let (kr, lr, s) = (k as real, l as real, val(p.swath_ft));
    let em = eps() * m;
    assert((kr - 1real) * s == kr * s - s && (lr - 1real) * s == lr * s - s) by (nonlinear_arith);
    let d = lr - kr;
    assert((d - 1real) * s == lr * s - kr * s - s && (-d - 1real) * s == kr * s - lr * s - s)
        by (nonlinear_arith)
        requires
            d == lr - kr,
    ;
    let (a, b) = (
        if k >= 1 {
            kr - 1real
        } else {
            0real
        },
        if l >= 1 {
            lr - 1real
        } else {
            0real
        },
    );
    let tt = val(p.t_turn_s);
    assert(abs(b - a) <= abs(d));
    assert(b * tt - a * tt == (b - a) * tt) by (nonlinear_arith);
    let g = abs(d);
    assert(-(g * tt) <= (b - a) * tt && (b - a) * tt <= g * tt) by (nonlinear_arith)
        requires
            -g <= b - a <= g,
            tt >= 0real,
    ;
    (k, l)
}

/// The estimate for each of several directions is the score of that direction.
pub proof fn law_scores(
    t: Trig,
    v: Seq<Pt>,
    area: Double,
    angles: Seq<Double>,
    p: AircraftParams,
    n: int,
    m: real,
    w: real,
    b: real,
) -> (k: (int, int, int))
    requires
        0 <= n < angles.len(),
        scored(v, area, t(to_radians(angles[n])), p, m, w, b),
    ensures
        scores(t, v, area, angles, p).len() == angles.len(),
        ({
            let sc = t(to_radians(angles[n]));
            let s = val(p.swath_ft);
            let e = 96real * (eps() * m);
            let turns = if k.0 >= 1 {
                (k.0 - 1) as real
            } else {
                0real
            };
            &&& 0 <= k.1 < v.len() && 0 <= k.2 < v.len()
            &&& ((k.0 - 1) as real) * s <= height(v[k.2], sc) - height(v[k.1], sc) + e
            &&& forall|x: int, y: int|
                0 <= x < v.len() && 0 <= y < v.len() ==> #[trigger] height(v[y], sc)
                    - #[trigger] height(v[x], sc) - e <= (k.0 as real) * s
            &&& near(
                scores(t, v, area, angles, p)[n],
                val(area) / s / val(p.speed_fps) + turns * val(p.t_turn_s),
                32real * (eps() * b),
            )
        }),
{
    law_score(v, area, t(to_radians(angles[n])), p, m, w, b)
}

} // verus!
