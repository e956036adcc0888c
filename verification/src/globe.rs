//! Laws of places: angles in degrees and in radians, and feet to the east and to the north.
use vstd::arithmetic::power2::*;
use vstd::prelude::*;

use crate::double::{lemma_magnitude_parts, Double, TWO52};
use crate::frames::circular;
use crate::geom::{radians, Pt};
use crate::ingest::{feet_away, local_feet, lonlat, m_per_ft, to_degrees};
use crate::near::{
    abs, eps, huge, lemma_assoc, lemma_eps, lemma_le, lemma_near_div, lemma_near_mul, lemma_one, lemma_ratio_val,
    lemma_whole_val, near, val,
};
use crate::search::to_radians;
use crate::tools::{Geodesic, GlobeMeaning, Hypot, Trig};
use crate::whole::one_units;

verus! {

/// Half a turn in radians, to fifteen places.
pub proof fn law_pi()
    ensures
        Double::pi().finite(),
        3_141592653589793real <= val(Double::pi()) * 1_000000000000000real,
        val(Double::pi()) * 1_000000000000000real < 3_141592653589794real,
{
    let m: nat = 0x1921FB54442D18;
    lemma_magnitude_parts(m, 1023);
    lemma_pow2_adds(1023, 51);
    lemma2_to64_rest();
    lemma_one();
    let x = Double::pi();
    assert(x.mag() == 1023 * TWO52 as nat + m);
    assert(x.units() == m * pow2(1023));
    let h = pow2(1023) as real;
    let w = one_units() as real;
    lemma_pow2_pos(1023);
    assert(w == h * 0x8000000000000real) by (nonlinear_arith)
        requires
            w == pow2(1074) as real,
            pow2(1074) == pow2(1023) * pow2(51),
            pow2(51) == 0x8000000000000,
            h == pow2(1023) as real,
    ;
    let n = x.units() as real;
    assert(n == 0x1921FB54442D18real * h) by (nonlinear_arith)
        requires
            n == (0x1921FB54442D18 * pow2(1023)) as real,
            h == pow2(1023) as real,
    ;
    let v = val(x);
    crate::near::lemma_val(x);
    assert(v * 0x8000000000000real == 0x1921FB54442D18real) by (nonlinear_arith)
        requires
            v * w == n,
            n == 0x1921FB54442D18real * h,
            w == h * 0x8000000000000real,
            h > 0real,
    ;
}

/// An angle in radians is the angle in degrees times half a turn, over 180, by either way to compute it,
/// but for rounding. `m` bounds the angle.
pub proof fn law_radians(deg: Double, m: real)
    requires
        deg.finite(),
        abs(val(deg)) <= m,
        1real <= m,
        64real * m <= huge(),
    ensures
        near(radians(deg), val(deg) * val(Double::pi()) / 180real, 8real * (eps() * m)),
        near(to_radians(deg), val(deg) * val(Double::pi()) / 180real, 8real * (eps() * m)),
{
    law_pi();
    lemma_eps();
    lemma_one();
    lemma_whole_val(180);
    let (pi, half) = (Double::pi(), Double::of_int(180));
    let (x, v) = (val(deg), val(pi));
    let e = eps();
    let em = e * m;
    lemma_le(1real, m, e);
    assert(e <= em && em <= m) by {
        lemma_le(e, 1real, m);
    }
    assert((m + 0real) * 4real == 4real * m);
    lemma_near_mul(deg, x, 0real, pi, v, 0real, m, 4real, 4real * m);
    assert(0real * 4real == 0real && m * 0real == 0real);
    lemma_assoc(e, 4real, m);
    assert(near(deg.times(pi), x * v, 8real * em));
    let r = x * v;
    assert(abs(r) <= 4real * m) by {
        crate::near::lemma_abs_mul(x, v);
        lemma_le(abs(x), m, abs(v));
        lemma_le(abs(v), 4real, m);
    }
    lemma_near_div(deg.times(pi), r, 8real * em, half, m);
    assert(8real * em / 180real <= em);
    let k = pi.over(half);
    let q = v / 180real;
    lemma_near_div(pi, v, 0real, half, 1real);
    assert(0real / 180real == 0real && e * 1real == e);
    assert((m + 0real) * 1real == m);
    lemma_near_mul(deg, x, 0real, k, q, 2real * e, m, 1real, m);
    assert(0real * 1real == 0real);
    lemma_assoc(m, 2real, e);
    assert(x * (v / 180real) == x * v / 180real) by (nonlinear_arith);
    assert(m * e == e * m) by (nonlinear_arith);
}

/// An angle in degrees is the angle in radians times 180, over half a turn, but for rounding.
pub proof fn law_degrees(rad: Double, m: real)
    requires
        rad.finite(),
        abs(val(rad)) <= m,
        1real <= m,
        64real * m <= huge(),
    ensures
        near(to_degrees(rad), val(rad) * (180real / val(Double::pi())), 512real * (eps() * m)),
{
    law_pi();
    lemma_eps();
    lemma_one();
    lemma_whole_val(180);
    let (pi, half) = (Double::pi(), Double::of_int(180));
    let v = val(pi);
    let e = eps();
    let k = half.over(pi);
    let q = 180real / v;
    assert(0real <= q && q <= 60real && 0real / v == 0real) by (nonlinear_arith)
        requires
            q == 180real / v,
            v >= 3real,
    ;
    lemma_near_div(half, 180real, 0real, pi, 60real);
    let ek = 2real * (e * 60real);
    assert((m + 0real) * 64real == 64real * m);
    lemma_near_mul(rad, val(rad), 0real, k, q, ek, m, 64real, 64real * m);
    assert(0real * 64real == 0real);
    lemma_assoc(e, 64real, m);
    assert(m * ek == 120real * (e * m)) by (nonlinear_arith)
        requires
            ek == 2real * (e * 60real),
    ;
    lemma_le(0real, e, m);
    assert(0real * m == 0real);
}

/// A foot is 0.3048 metres, but for rounding.
pub proof fn law_metres_in_a_foot()
    ensures
        near(m_per_ft(), 3048real / 10000real, eps()),
{
    lemma_ratio_val(3048, 10000);
    lemma_eps();
    let e = eps();
    let q = 3048real / 10000real;
    assert(e * q + e * e <= e) by (nonlinear_arith)
        requires
            q <= 1real / 2real,
            e <= 1real / 2real,
            e > 0real,
    ;
}

/// A place so many metres away, in a direction clockwise from north, lies to the east by that times the
/// sine and to the north by that times the cosine, both in feet, but for rounding.
pub proof fn law_feet_to_the_east_and_north(metres: Double, sc: (Double, Double), m: real)
    requires
        metres.finite(),
        abs(val(metres)) <= m,
        circular(sc),
        1real <= m,
        64real * m <= huge(),
    ensures
        near(
            feet_away(metres, sc).x,
            val(metres) * val(sc.0) / val(m_per_ft()),
            32real * (eps() * m),
        ),
        near(
            feet_away(metres, sc).y,
            val(metres) * val(sc.1) / val(m_per_ft()),
            32real * (eps() * m),
        ),
{
    lemma_in_feet(metres, sc.0, m);
    lemma_in_feet(metres, sc.1, m);
}

proof fn lemma_in_feet(metres: Double, s: Double, m: real)
    requires
        metres.finite(),
        abs(val(metres)) <= m,
        s.finite(),
        abs(val(s)) <= 1real,
        1real <= m,
        64real * m <= huge(),
    ensures
        near(
            metres.times(s).over(m_per_ft()),
            val(metres) * val(s) / val(m_per_ft()),
            32real * (eps() * m),
        ),
{
    law_metres_in_a_foot();
    lemma_eps();
    let e = eps();
    let em = e * m;
    let f = val(m_per_ft());
    assert(f > 1real / 4real);
    lemma_le(e, 1real, m);
    lemma_le(0real, e, m);
    assert(0real * m == 0real && 1real * m == m);
    assert((m + 0real) * 1real == m && 0real * 1real == 0real && m * 0real == 0real);
    lemma_near_mul(metres, val(metres), 0real, s, val(s), 0real, m, 1real, m);
    let r = val(metres) * val(s);
    assert(abs(r) <= m) by {
        crate::near::lemma_abs_mul(val(metres), val(s));
        lemma_le(abs(val(s)), 1real, abs(val(metres)));
    }
    let b = abs(r) + 2real * em;
    lemma_over_quarter(b, f, 3real * m);
    lemma_over_quarter(2real * em, f, 2real * em);
    lemma_near_div(metres.times(s), r, 2real * em, m_per_ft(), 12real * m);
    lemma_assoc(e, 12real, m);
}

proof fn lemma_over_quarter(x: real, f: real, b: real)
    requires
        0real <= x <= b,
        f > 1real / 4real,
    ensures
        x / f <= 4real * b,
{
    let q = x / f;
    assert(q * f == x) by (nonlinear_arith)
        requires
            q == x / f,
            f > 0real,
    ;
    assert(q <= 4real * b) by (nonlinear_arith)
        requires
            q * f == x,
            x <= b,
            0real <= x,
            f > 1real / 4real,
    ;
}

/// A place in feet about a centre lies as far to the east and to the north of it as the geodesic from the
/// latitude and longitude of the centre to those of the place leads, but for rounding.
pub proof fn law_place_in_feet(t: Trig, g: Geodesic, pt: Pt, center: Pt, metres: Double, azimuth: Double, m: real)
    requires
        g(center.y, center.x, pt.y, pt.x) == (metres, azimuth),
        metres.finite(),
        abs(val(metres)) <= m,
        circular(t(to_radians(azimuth))),
        1real <= m,
        64real * m <= huge(),
    ensures
        ({
            let r = local_feet(t, g, pt, center);
            let sc = t(to_radians(azimuth));
            &&& near(r.x, val(metres) * val(sc.0) / val(m_per_ft()), 32real * (eps() * m))
            &&& near(r.y, val(metres) * val(sc.1) / val(m_per_ft()), 32real * (eps() * m))
        }),
{
    law_feet_to_the_east_and_north(metres, t(to_radians(azimuth)), m);
}

/// The place of a point in feet is where the geodesic leads from the latitude and longitude of the centre:
/// in the direction whose tangent is the way to the east over that to the north, as far as the point is
/// from the centre, in degrees and in metres, but for rounding. `r` are the direction and the distance.
pub proof fn law_place_of_feet(h: Hypot, g: GlobeMeaning, pt: Pt, center: Pt, m: real) -> (r: (Double, Double))
    requires
        h(pt.x, pt.y).finite(),
        abs(val(h(pt.x, pt.y))) <= m,
        (g.atan2)(pt.x, pt.y).finite(),
        abs(val((g.atan2)(pt.x, pt.y))) <= 4real,
        1real <= m,
        64real * m <= huge(),
    ensures
        ({
            let place = lonlat(h, g, pt, center);
            &&& (g.direct)(center.y, center.x, r.0, r.1) == (place.y, place.x)
            &&& near(r.0, val((g.atan2)(pt.x, pt.y)) * (180real / val(Double::pi())), 2048real * eps())
            &&& near(r.1, val(h(pt.x, pt.y)) * val(m_per_ft()), 2real * (eps() * m))
        }),
{
    lemma_one();
    let rad = (g.atan2)(pt.x, pt.y);
    law_degrees(rad, 4real);
    law_metres_in_a_foot();
    lemma_eps();
    let d = h(pt.x, pt.y);
    assert((m + 0real) * 1real == m && 0real * 1real == 0real && m * 0real == 0real);
    lemma_near_mul(d, val(d), 0real, m_per_ft(), val(m_per_ft()), 0real, m, 1real, m);
    (to_degrees(rad), d.times(m_per_ft()))
}

} // verus!
