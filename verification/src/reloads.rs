//! Laws of reloads: where a pass is left for the trailer.
use vstd::prelude::*;

use crate::account::Event;
use crate::double::Double;
use crate::frames::{bounded, point_within};
use crate::geom::{dist_by, Pt};
use crate::near::{
    abs, eps, huge, lemma_abs_mul, lemma_assoc, lemma_dist, lemma_eps, lemma_le, lemma_minus_val, lemma_near_add,
    lemma_near_div, lemma_near_mul, lemma_one, lemma_val, lemma_val_order, lemma_zero, near, val,
};
use crate::plan::LinePart;
use crate::simulate::{gallons_per_ft, heading, no_length, Job, Leg, State};
use crate::spraying::{lemma_no_length, lemma_one_tank, lemma_sprayed_tank, many, moderate, tank_near};
use crate::whole::one_units;

verus! {

/// The feet that a log sprays before its event number `n`.
pub open spec fn feet_before(log: Seq<Event>, n: int) -> real
    decreases n,
{
    if n <= 0 {
        0real
    } else {
        feet_before(log, n - 1) + (match log[n - 1] {
            Event::Spray(d) => val(d),
            _ => 0real,
        })
    }
}

proof fn lemma_feet_add(a: Seq<Event>, b: Seq<Event>, n: int)
    requires
        0 <= n <= b.len(),
    ensures
        feet_before(a + b, a.len() + n) == feet_before(a, a.len() as int) + feet_before(b, n),
    decreases n,
{
    if n > 0 {
        lemma_feet_add(a, b, n - 1);
        assert((a + b)[a.len() + n - 1] == b[n - 1]);
    } else {
        lemma_feet_prefix(a + b, a, a.len() as int);
    }
}

proof fn lemma_feet_prefix(a: Seq<Event>, b: Seq<Event>, n: int)
    requires
        forall|i: int| 0 <= i < n ==> #[trigger] a[i] == b[i],
    ensures
        feet_before(a, n) == feet_before(b, n),
    decreases n,
{
    if n > 0 {
        lemma_feet_prefix(a, b, n - 1);
        assert(a[n - 1] == b[n - 1]);
    }
}

/// A part of a line: ends with coordinates of at most `m`, and a length of at most `z` that the
/// way between its ends, in either coordinate, is not more than twice of.
pub open spec fn measured_part(a: Pt, b: Pt, l: Double, z: real, m: real) -> bool {
    &&& point_within(a, m)
    &&& point_within(b, m)
    &&& l.finite()
    &&& 0real <= val(l) <= z
    &&& abs(val(b.x) - val(a.x)) <= 2real * val(l)
    &&& abs(val(b.y) - val(a.y)) <= 2real * val(l)
    &&& 1real <= m
    &&& z <= m
    &&& 0x100000real * m <= huge()
}

/// The way along one coordinate for each foot of a part.
proof fn lemma_slope(a: Double, b: Double, l: Double, m: real)
    requires
        bounded(a, m),
        bounded(b, m),
        l.finite(),
        val(l) > 0real,
        abs(val(b) - val(a)) <= 2real * val(l),
        1real <= m,
        64real * m <= huge(),
    ensures
        near(b.minus(a).over(l), (val(b) - val(a)) / val(l), 16real * eps()),
        abs((val(b) - val(a)) / val(l)) <= 2real,
{
    lemma_eps();
    lemma_one();
    let e = eps();
    let d = val(b) - val(a);
    let y = val(l);
    lemma_minus_val(b, a);
    let w = b.minus(a);
    let ed = e * abs(d);
    lemma_le(abs(d), 2real * y, e);
    lemma_assoc(e, 2real, y);
    let ey = e * y;
    assert(near(w, d, 2real * ey));
    let s = d / y;
    assert(s * y == d) by (nonlinear_arith)
        requires
            s == d / y,
            y > 0real,
    ;
    assert(s <= 2real) by (nonlinear_arith)
        requires
            s * y <= 2real * y,
            y > 0real,
    ;
    assert(s >= -2real) by (nonlinear_arith)
        requires
            s * y >= -(2real * y),
            y > 0real,
    ;
    lemma_le(0real, y, e);
    lemma_le(e, 1real, y);
    let t = (abs(d) + 2real * ey) / y;
    assert(t * y == abs(d) + 2real * ey) by (nonlinear_arith)
        requires
            t == (abs(d) + 2real * ey) / y,
            y > 0real,
    ;
    assert(t <= 4real) by (nonlinear_arith)
        requires
            t * y <= 4real * y,
            y > 0real,
    ;
    lemma_near_div(w, d, 2real * ey, l, 4real);
    let f = 2real * ey / y;
    assert(f * y == 2real * ey) by (nonlinear_arith)
        requires
            f == 2real * ey / y,
            y > 0real,
    ;
    assert(f == 2real * e) by (nonlinear_arith)
        requires
            f * y == 2real * ey,
            ey == e * y,
            y > 0real,
    ;
}

/// One coordinate of a place along a part after some more feet.
proof fn lemma_further(c: Double, g: real, u: Double, f: Double, x: real, feet: real, off: real, m: real)
    requires
        near(c, x + feet * g, off),
        near(u, g, 16real * eps()),
        abs(g) <= 2real,
        f.finite(),
        abs(val(f)) <= 4real * m,
        abs(feet) <= 4real * m,
        abs(x) <= m,
        0real <= off <= m,
        1real <= m,
        64real * m <= huge(),
    ensures
        near(c.plus(u.times(f)), x + (feet + val(f)) * g, off + 256real * (eps() * m)),
{
    lemma_eps();
    let e = eps();
    let em = e * m;
    let y = val(f);
    let bb = 4real * m;
    assert((2real + 16real * e) * bb <= 12real * m) by {
        lemma_dist(2real, 16real * e, bb);
        lemma_le(16real * e, 1real, bb);
        assert(2real * bb == 8real * m && 1real * bb == bb);
    }
    lemma_near_mul(u, g, 16real * e, f, y, 0real, 2real, bb, 12real * m);
    assert(2real * 0real == 0real);
    lemma_assoc(e, 12real, m);
    lemma_assoc(16real * e, 4real, m);
    lemma_assoc(16real, e, m);
    assert(16real * e * bb == 64real * em) by {
        assert(16real * e * bb == 4real * (16real * e * m));
        assert(16real * e * m == 16real * em);
    }
    let p = u.times(f);
    assert(near(p, g * y, 88real * em));
    lemma_abs_mul(g, y);
    lemma_abs_mul(feet, g);
    lemma_le(abs(g), 2real, abs(y));
    lemma_le(abs(g), 2real, abs(feet));
    lemma_le(1real, m, e);
    lemma_le(e, 1real / 0x1000real, m);
    lemma_near_add(c, x + feet * g, off, p, g * y, 88real * em, 24real * m);
    lemma_assoc(e, 24real, m);
    lemma_dist(feet, y, g);
}

/// What a pass is like after `k` tanks: where it is after some feet, and what is left of it.
spec fn under_way(leg: Leg, a: Pt, b: Pt, l: Double, feet: real, k: real, z: real, m: real) -> bool {
    let (gx, gy) = ((val(b.x) - val(a.x)) / val(l), (val(b.y) - val(a.y)) / val(l));
    let off = 256real * (k * (eps() * m));
    let ez = eps() * z;
    &&& near(leg.cur.x, val(a.x) + feet * gx, off)
    &&& near(leg.cur.y, val(a.y) + feet * gy, off)
    &&& leg.remaining.finite()
    &&& 0real <= val(leg.remaining)
    &&& val(leg.remaining) <= val(l) + 32real * (k * ez)
    &&& abs(val(leg.remaining) + feet - val(l)) <= 4real * (k * ez)
}

/// Doubles are ordered as their units.
proof fn lemma_units(x: Double, y: Double)
    ensures
        x.units() <= y.units() <==> val(x) <= val(y),
{
    lemma_one();
    lemma_val(x);
    lemma_val(y);
    let w = one_units() as real;
    let (a, b) = (val(x), val(y));
    assert(a <= b <==> a * w <= b * w) by (nonlinear_arith)
        requires
            w > 0real,
    ;
}

/// Bounds on what has been flown of a pass.
proof fn lemma_flown_feet(leg: Leg, a: Pt, b: Pt, l: Double, feet: real, k: real, z: real, m: real)
    requires
        measured_part(a, b, l, z, m),
        under_way(leg, a, b, l, feet, k, z, m),
        0real <= k <= 0x10000000000real,
    ensures
        val(leg.remaining) <= 2real * z,
        -z <= feet <= 2real * z,
        0real <= k * (eps() * z) <= z / 0x1000real,
        0real <= k * (eps() * m) <= m / 0x1000real,
{
    lemma_eps();
    let e = eps();
    lemma_le(k, 0x10000000000real, e * z);
    lemma_le(k, 0x10000000000real, e * m);
    lemma_le(0real, e, z);
    lemma_le(0real, e, m);
    lemma_le(0real, k, e * z);
    lemma_le(0real, k, e * m);
    lemma_assoc(0x20000000000000real, e, z);
    lemma_assoc(0x20000000000000real, e, m);
    assert(1real * z == z && 1real * m == m);
    assert(0real * (e * z) == 0real && 0real * (e * m) == 0real && 0real * z == 0real && 0real * m == 0real);
}

/// A tank further along a pass.
proof fn lemma_tank_further(
    job: Job,
    leg: Leg,
    a: Pt,
    b: Pt,
    l: Double,
    feet: real,
    k: real,
    units: int,
    z: real,
    m: real,
)
    requires
        Double::zero().lt(gallons_per_ft(job.p)),
        moderate(job, units),
        units as real == z * (one_units() as real),
        tank_near(job, leg.tank),
        measured_part(a, b, l, z, m),
        val(l) > 0real,
        under_way(leg, a, b, l, feet, k, z, m),
        0real <= k <= 0x10000000000real,
        no_length().lt(leg.remaining),
    ensures
        ({
            let next = job.sprayed(leg, heading(a, b, l));
            let d = val(job.reach(leg));
            &&& tank_near(job, next.tank)
            &&& under_way(next, a, b, l, feet + d, k + 1real, z, m)
        }),
{
    lemma_eps();
    lemma_one();
    lemma_zero();
    lemma_no_length();
    lemma_flown_feet(leg, a, b, l, feet, k, z, m);
    let e = eps();
    let (ez, em) = (e * z, e * m);
    let w = one_units() as real;
    let dir = heading(a, b, l);
    let rem = leg.remaining;
    let d = job.reach(leg);
    crate::order::law_keys_order_numbers(no_length(), rem);
    lemma_sprayed_tank(job, leg, dir, units);
    // What is left, in units, is not more than twice the bound.
    lemma_val(rem);
    lemma_le(val(rem), 2real * z, w);
    lemma_assoc(2real, z, w);
    assert(rem.units() as real <= 2real * (units as real));
    lemma_one_tank(job, leg, dir, units);
    lemma_units(d, rem);
    lemma_val(d);
    let y = val(d);
    assert(-z <= y * 0x2000000000000real) by (nonlinear_arith)
        requires
            y * w == d.units() as real,
            -(units as real) <= (d.units() as real) * 0x2000000000000real,
            units as real == z * w,
            w > 0real,
    ;
    lemma_assoc(0x20000000000000real, e, z);
    assert(ez * 0x20000000000000real == z);
    lemma_minus_val(rem, d);
    let next = job.sprayed(leg, dir);
    let nr = next.remaining;
    assert(nr == rem.minus(d));
    let r = val(rem) - y;
    lemma_le(abs(r), 3real * z, e);
    lemma_assoc(e, 3real, z);
    assert(near(nr, r, 3real * ez));
    lemma_units(Double::zero(), nr);
    assert(Double::zero().units() == 0) by {
        assert(crate::double::magnitude(0) == 0);
    }
    lemma_dist(k, 1real, ez);
    lemma_dist(k, 1real, em);
    assert(1real * ez == ez && 1real * em == em);
    // Where it is.
    lemma_val_order(Double::zero(), l);
    lemma_slope(a.x, b.x, l, m);
    lemma_slope(a.y, b.y, l, m);
    let (gx, gy) = ((val(b.x) - val(a.x)) / val(l), (val(b.y) - val(a.y)) / val(l));
    let off = 256real * (k * em);
    lemma_further(leg.cur.x, gx, dir.x, d, val(a.x), feet, off, m);
    lemma_further(leg.cur.y, gy, dir.y, d, val(a.y), feet, off, m);
}

/// A place lies along a part after some feet of it, but for `off`: as far from the start as
/// the feet are of the whole length.
pub open spec fn along_part(q: Pt, a: Pt, b: Pt, l: Double, feet: real, off: real) -> bool {
    &&& near(q.x, val(a.x) + feet * ((val(b.x) - val(a.x)) / val(l)), off)
    &&& near(q.y, val(a.y) + feet * ((val(b.y) - val(a.y)) / val(l)), off)
}

/// The load at place `i` of a log is flown for from a place along a part, after the feet sprayed
/// before it, and back to the same place.
pub open spec fn loads_along(
    job: Job,
    log: Seq<Event>,
    i: int,
    a: Pt,
    b: Pt,
    l: Double,
    feet: real,
    off: real,
) -> bool {
    &&& 0 < i < log.len() - 1
    &&& exists|q: Pt|
        #[trigger] along_part(q, a, b, l, feet, off) && log[i - 1] == Event::Ferry(
            dist_by(job.hypot, q, job.trailer),
        ) && log[i + 1] == Event::Ferry(dist_by(job.hypot, job.trailer, q))
}

proof fn lemma_reloads(
    job: Job,
    leg: Leg,
    a: Pt,
    b: Pt,
    l: Double,
    feet: real,
    k: int,
    units: int,
    z: real,
    m: real,
)
    requires
        Double::zero().lt(gallons_per_ft(job.p)),
        moderate(job, units),
        units as real == z * (one_units() as real),
        tank_near(job, leg.tank),
        measured_part(a, b, l, z, m),
        val(l) > 0real,
        under_way(leg, a, b, l, feet, k as real, z, m),
        0 <= k,
        k + job.leg_log(leg, heading(a, b, l)).len() <= many(),
    ensures
        ({
            let log = job.leg_log(leg, heading(a, b, l));
            forall|i: int|
                0 <= i < log.len() && log[i] is Load ==> #[trigger] loads_along(
                    job,
                    log,
                    i,
                    a,
                    b,
                    l,
                    feet + feet_before(log, i),
                    256real * (((k + i) as real) * (eps() * m)),
                ) && -z <= feet + feet_before(log, i) <= val(l) + 4real * (((k + i) as real) * (
                eps() * z))
        }),
    decreases
            (if leg.tank == job.p.tank_gal {
                0int
            } else {
                1int
            }),
            leg.remaining.key() + u64::MAX,
{
    let dir = heading(a, b, l);
    let log = job.leg_log(leg, dir);
    let next = job.sprayed(leg, dir);
    let d = job.reach(leg);
    let first = seq![Event::Spray(d)];
    if no_length().lt(leg.remaining) {
        lemma_tank_further(job, leg, a, b, l, feet, k as real, units, z, m);
        let f1 = feet + val(d);
        let k1 = k + 1;
        if no_length().lt(next.remaining) && !(leg.tank == job.p.tank_gal && !next.remaining.lt(
            leg.remaining,
        )) {
            let again = job.reloaded(next);
            let r = job.reload_log(next);
            let rest = job.leg_log(again, dir);
            let head = first + r;
            assert(log == head + rest);
            assert(head.len() == 4);
            lemma_zero();
            lemma_full_tank(job, units);
            lemma_reloads(job, again, a, b, l, f1, k1, units, z, m);
            assert(feet_before(head, 4) == val(d)) by {
                reveal_with_fuel(feet_before, 5);
            }
            assert forall|i: int| 0 <= i < log.len() && log[i] is Load implies #[trigger] loads_along(
                job,
                log,
                i,
                a,
                b,
                l,
                feet + feet_before(log, i),
                256real * (((k + i) as real) * (eps() * m)),
            ) && -z <= feet + feet_before(log, i) <= val(l) + 4real * (((k + i) as real) * (eps() * z)) by {
                if i < 4 {
                    assert(log[i] == head[i]);
                    assert(i == 2);
                    assert(feet_before(log, 2) == val(d)) by {
                        reveal_with_fuel(feet_before, 3);
                        assert(log[0] == head[0] && log[1] == head[1]);
                    }
                    lemma_flown_feet(next, a, b, l, f1, k1 as real, z, m);
                    lemma_eps();
                    lemma_le(0real, eps(), m);
                    lemma_le(0real, eps(), z);
                    assert(0real * m == 0real && 0real * z == 0real);
                    lemma_le(k1 as real, (k + 2) as real, eps() * m);
                    lemma_le(k1 as real, (k + 2) as real, eps() * z);
                    let q = next.cur;
                    assert(along_part(q, a, b, l, f1, 256real * (((k + 2) as real) * (eps() * m))));
                    assert(log[1] == head[1] && log[3] == head[3]);
                } else {
                    let j = i - 4;
                    assert(log[i] == rest[j]);
                    lemma_feet_add(head, rest, j);
                    assert(loads_along(
                        job,
                        rest,
                        j,
                        a,
                        b,
                        l,
                        f1 + feet_before(rest, j),
                        256real * (((k1 + j) as real) * (eps() * m)),
                    ));
                    let off = 256real * (((k1 + j) as real) * (eps() * m));
                    let wide = 256real * (((k + i) as real) * (eps() * m));
                    lemma_eps();
                    lemma_le(0real, eps(), m);
                    lemma_le(0real, eps(), z);
                    assert(0real * m == 0real && 0real * z == 0real);
                    lemma_le((k1 + j) as real, (k + i) as real, eps() * m);
                    lemma_le((k1 + j) as real, (k + i) as real, eps() * z);
                    let q = choose|q: Pt|
                        #[trigger] along_part(q, a, b, l, f1 + feet_before(rest, j), off) && rest[j
                            - 1] == Event::Ferry(dist_by(job.hypot, q, job.trailer)) && rest[j + 1]
                            == Event::Ferry(dist_by(job.hypot, job.trailer, q));
                    assert(feet + feet_before(log, i) == f1 + feet_before(rest, j));
                    assert(along_part(q, a, b, l, feet + feet_before(log, i), wide));
                    assert(log[i - 1] == rest[j - 1] && log[i + 1] == rest[j + 1]);
                }
            }
        } else {
            assert(log == first);
        }
    }
}

/// A full tank is near what it can hold.
proof fn lemma_full_tank(job: Job, units: int)
    requires
        Double::zero().lt(gallons_per_ft(job.p)),
        moderate(job, units),
    ensures
        tank_near(job, job.p.tank_gal),
{
}

/// Reloads happen on the part that is flown. The place from which the ferry of a reload goes, and
/// to which it comes back, lies on the way from the start of the part to its end, as far along
/// as the feet sprayed so far are of its length, in both coordinates; and these feet are no more
/// than the length. Rounding is a 2^45th of `m` for each event before.
pub proof fn law_reloads_on_the_part(job: Job, s: State, part: LinePart, units: int, z: real, m: real)
    requires
        moderate(job, units),
        units as real == z * (one_units() as real),
        Double::zero().lt(gallons_per_ft(job.p)) ==> tank_near(job, s.tank),
        measured_part(part.0, part.1, part.3, z, m),
        job.part_log(s, part).len() <= many(),
    ensures
        ({
            let (a, b, spray, l) = part;
            let log = job.part_log(s, part);
            forall|i: int|
                0 <= i < log.len() && log[i] is Load ==> #[trigger] loads_along(
                    job,
                    log,
                    i,
                    a,
                    b,
                    l,
                    feet_before(log, i),
                    256real * ((i as real) * (eps() * m)),
                ) && -z <= feet_before(log, i) <= val(l) + 4real * ((i as real) * (eps() * z))
        }),
{
    let (a, b, spray, l) = part;
    let log = job.part_log(s, part);
    lemma_no_length();
    lemma_zero();
    if spray {
        let leg = Leg { res: s.res, tank: s.tank, cur: a, remaining: l };
        if Double::zero().lt(gallons_per_ft(job.p)) {
            lemma_val_order(Double::zero(), l);
            if val(l) > 0real {
                let (gx, gy) = ((val(b.x) - val(a.x)) / val(l), (val(b.y) - val(a.y)) / val(l));
                assert(0real * (eps() * m) == 0real && 0real * (eps() * z) == 0real && 0real * gx == 0real
                    && 0real * gy == 0real);
                assert(under_way(leg, a, b, l, 0real, 0real, z, m));
                lemma_reloads(job, leg, a, b, l, 0real, 0, units, z, m);
                assert forall|i: int| 0 <= i < log.len() && log[i] is Load implies #[trigger] loads_along(
                    job,
                    log,
                    i,
                    a,
                    b,
                    l,
                    feet_before(log, i),
                    256real * ((i as real) * (eps() * m)),
                ) && -z <= feet_before(log, i) <= val(l) + 4real * ((i as real) * (eps() * z)) by {
                    assert(loads_along(
                        job,
                        log,
                        i,
                        a,
                        b,
                        l,
                        0real + feet_before(log, i),
                        256real * (((0 + i) as real) * (eps() * m)),
                    ));
                    assert(0real + feet_before(log, i) == feet_before(log, i));
                }
            } else {
                crate::order::law_keys_order_numbers(no_length(), l);
                lemma_units(l, Double::zero());
                assert(crate::double::magnitude(0) == 0);
                assert(log =~= seq![]);
            }
        } else {
            if no_length().lt(l) {
                assert(job.reach(leg) == l);
                assert(l.minus(l).mag() == 0) by {
                    reveal(Double::spec_plus);
                }
                assert(!no_length().lt(job.sprayed(leg, heading(a, b, l)).remaining)) by {
                    reveal(Double::spec_ratio);
                }
                assert(log =~= seq![Event::Spray(l)]);
            } else {
                assert(log =~= seq![]);
            }
        }
    } else {
        assert(log =~= seq![Event::Dead(l)]);
    }
}

} // verus!
