//! Laws of the simulated flight: how far its sums are off.
use vstd::arithmetic::div_mod::lemma_fundamental_div_mod;
use vstd::arithmetic::power2::*;
use vstd::prelude::*;

use crate::account::{
    each_over, exact_total, ferries, law_part_in_one_tank, law_part_sprayed, law_run_sprays_the_blocks,
    law_run_totals, lemma_exact_total_add, lemma_sprays_add, lemma_sprays_push, lemma_total_push, loads_in,
    sprays_in, times_over, total, Event,
};
use crate::arithmetic::{gap, law_product_nearest, law_rounding_error, law_rounding_finite, law_sum_nearest};
use crate::double::{magnitude, pack, round_bits, Double, TWO52, TWO53, UNIT_EXP};
use crate::geom::{dist_by, same_place, Pt};
use crate::order::law_keys_order_numbers;
use crate::plan::{LinePart, PlanView};
use crate::simulate::{gallons_per_ft, heading, no_length, Job, Leg, State};
use crate::traverse::{
    law_steps_are_parts, law_steps_weight, lines_weight, steps_of, steps_weight, turned_back, Config, Step,
};
use crate::turning::{lemma_difference_error, lemma_limits, lemma_negated, lemma_sum_error};
use crate::whole::one_units;

verus! {

/// The most terms of a sum whose bound is stated: 2^40.
pub open spec fn many() -> int {
    0x10000000000
}

// ---------------------------------------------------------------------------
// Products and quotients
// ---------------------------------------------------------------------------

/// The distance of a number from zero, in units of 2^-1074.
pub open spec fn far(x: Double) -> int {
    x.size() as int
}

/// What a rounded number with a sign is off by.
proof fn lemma_signed_error(neg: bool, p: nat, q: nat)
    requires
        q > 0,
        p <= TWO52 * pow2(2044) * q,
    ensures
        ({
            let r = pack(neg, p, q);
            let exact = if neg {
                -p
            } else {
                p as int
            };
            &&& r.finite()
            &&& gap(r.units() * q, exact) * TWO53 <= p + q * TWO52
        }),
{
    law_rounding_finite(neg, p, q);
    law_rounding_error(p, q);
    let r = pack(neg, p, q);
    let k = r.size() as int;
    assert(k == magnitude(round_bits(p, q)));
    assert((-k) * q == -(k * q)) by (nonlinear_arith);
}

/// What a quotient is off by, taken times the divisor.
proof fn lemma_quotient_error(a: Double, b: Double)
    requires
        a.finite(),
        b.finite(),
        b.units() > 0,
        far(a) * one_units() <= TWO52 * pow2(2044) * b.units(),
    ensures
        a.over(b).finite(),
        gap(a.over(b).units() * b.units(), a.units() * one_units()) * TWO53 <= far(a) * one_units()
            + b.units() * TWO52,
{
    reveal(Double::spec_over);
    assert(magnitude(0) == 0);
    assert(!b.neg());
    assert(b.mag() > 0);
    let (x, u) = (far(a), one_units() as int);
    assert(x * u >= 0) by (nonlinear_arith)
        requires
            x >= 0,
            u >= 0,
    ;
    assert((-x) * u == -(x * u)) by (nonlinear_arith);
    lemma_signed_error(a.neg(), a.size() * one_units(), b.size());
}

/// What a product is off by, taken times one.
proof fn lemma_times_error(a: Double, b: Double)
    requires
        a.finite(),
        b.finite(),
        b.units() > 0,
        far(a) * b.units() <= TWO52 * pow2(2044) * one_units(),
    ensures
        a.times(b).finite(),
        gap(a.times(b).units() * one_units(), a.units() * b.units()) * TWO53 <= far(a) * b.units()
            + one_units() * TWO52,
{
    reveal(Double::spec_times);
    lemma_pow2_pos(UNIT_EXP as nat);
    assert(!b.neg());
    let (x, y) = (far(a), b.units());
    assert(x * y >= 0) by (nonlinear_arith)
        requires
            x >= 0,
            y >= 0,
    ;
    assert((-x) * y == -(x * y)) by (nonlinear_arith);
    lemma_signed_error(a.neg(), a.size() * b.size(), one_units());
}

// ---------------------------------------------------------------------------
// Sums
// ---------------------------------------------------------------------------

/// Numbers are finite.
pub open spec fn all_finite(xs: Seq<Double>) -> bool {
    forall|i: int| 0 <= i < xs.len() ==> (#[trigger] xs[i]).finite()
}

/// The distances of numbers from zero, added up.
pub open spec fn far_total(xs: Seq<Double>) -> int
    decreases xs.len(),
{
    if xs.len() == 0 {
        0
    } else {
        far_total(xs.drop_last()) + far(xs.last())
    }
}

proof fn lemma_far_total(xs: Seq<Double>)
    ensures
        0 <= far_total(xs),
        -far_total(xs) <= exact_total(xs) <= far_total(xs),
    decreases xs.len(),
{
    if xs.len() > 0 {
        lemma_far_total(xs.drop_last());
    }
}

proof fn lemma_far_total_add(a: Seq<Double>, b: Seq<Double>)
    ensures
        far_total(a + b) == far_total(a) + far_total(b),
    decreases b.len(),
{
    if b.len() == 0 {
        assert(a + b =~= a);
    } else {
        assert((a + b).drop_last() =~= a + b.drop_last());
        lemma_far_total_add(a, b.drop_last());
    }
}

/// A sum of up to 2^40 numbers is off by a 2^52nd of their distances from zero, for
/// each of them.
pub proof fn law_total_near(xs: Seq<Double>, a: int)
    requires
        all_finite(xs),
        far_total(xs) <= a <= pow2(2088),
        xs.len() <= many(),
    ensures
        total(xs).finite(),
        gap(total(xs).units(), exact_total(xs)) * TWO53 <= 2 * (xs.len() * a),
    decreases xs.len(),
{
    assert(magnitude(0) == 0);
    if xs.len() == 0 {
        assert(Double::zero().units() == 0);
        assert(0 * a == 0);
    } else {
        let ys = xs.drop_last();
        let x = xs.last();
        let k = ys.len() as int;
        assert forall|i: int| 0 <= i < ys.len() implies (#[trigger] ys[i]).finite() by {
            assert(xs[i].finite());
        }
        assert(xs[k].finite());
        law_total_near(ys, a);
        lemma_far_total(ys);
        lemma_far_total(xs);
        let s = total(ys);
        assert((k + 1) * a == k * a + a) by (nonlinear_arith);
        assert(2 * (k * a) <= a * TWO53) by (nonlinear_arith)
            requires
                0 <= k <= 0x10000000000,
                a >= 0,
        ;
        lemma_sum_error(s, x, 2 * a, a);
    }
}

proof fn lemma_quotients(xs: Seq<Double>, v: Double)
    requires
        all_finite(xs),
        v.finite(),
        v.units() > 0,
        far_total(xs) * one_units() <= TWO52 * pow2(2044) * v.units(),
    ensures
        all_finite(each_over(xs, v)),
        ({
            let u = one_units() as int;
            let off = far_total(xs) * u + xs.len() * v.units() * TWO52;
            &&& gap(exact_total(each_over(xs, v)) * v.units(), exact_total(xs) * u) * TWO53 <= off
            &&& (far_total(each_over(xs, v)) * v.units() - far_total(xs) * u) * TWO53 <= off
        }),
    decreases xs.len(),
{
    let (u, w) = (one_units() as int, v.units());
    let qs = each_over(xs, v);
    lemma_pow2_pos(UNIT_EXP as nat);
    if xs.len() == 0 {
        assert(0 * w == 0 && 0 * u == 0 && 0 * w * TWO52 == 0);
    } else {
        let ys = xs.drop_last();
        let x = xs.last();
        let k = ys.len() as int;
        assert(each_over(ys, v) =~= qs.drop_last());
        assert forall|i: int| 0 <= i < ys.len() implies (#[trigger] ys[i]).finite() by {
            assert(xs[i].finite());
        }
        assert(xs[k].finite());
        lemma_far_total(ys);
        assert((far_total(ys) + far(x)) * u == far_total(ys) * u + far(x) * u) by (nonlinear_arith);
        assert(far_total(ys) * u >= 0 && far(x) * u >= 0) by (nonlinear_arith)
            requires
                far_total(ys) >= 0,
                far(x) >= 0,
                u > 0,
        ;
        lemma_quotients(ys, v);
        lemma_quotient_error(x, v);
        let q = x.over(v);
        assert(qs.last() == q);
        let (e, f) = (exact_total(each_over(ys, v)), far_total(each_over(ys, v)));
        assert((e + q.units()) * w == e * w + q.units() * w) by (nonlinear_arith);
        assert((f + far(q)) * w == f * w + far(q) * w) by (nonlinear_arith);
        assert((exact_total(ys) + x.units()) * u == exact_total(ys) * u + x.units() * u)
            by (nonlinear_arith);
        assert((k + 1) * w * TWO52 == k * w * TWO52 + w * TWO52) by (nonlinear_arith);
        assert((-far(q)) * w == -(far(q) * w)) by (nonlinear_arith);
        assert((-far(x)) * u == -(far(x) * u)) by (nonlinear_arith);
        assert(far(q) * w - far(x) * u <= gap(q.units() * w, x.units() * u)) by {
            assert(far(q) * w >= 0) by (nonlinear_arith)
                requires
                    far(q) >= 0,
                    w > 0,
            ;
        }
        assert forall|i: int| 0 <= i < qs.len() implies (#[trigger] qs[i]).finite() by {
            if i < k {
                assert(each_over(ys, v)[i].finite());
            }
        }
    }
}

/// Lengths of up to `a` units in all, and a speed, for which times are finite.
pub open spec fn timely(v: Double, a: int) -> bool {
    &&& v.finite()
    &&& v.units() > 0
    &&& v.units() * TWO53 <= a * one_units()
    &&& 4 * (a * one_units()) <= v.units() * pow2(2088)
}

/// The time of up to 2^40 lengths, times the speed, is off by a 2^49th of their
/// distances from zero, for each of them.
pub proof fn law_time_near(xs: Seq<Double>, v: Double, a: int)
    requires
        all_finite(xs),
        far_total(xs) <= a,
        xs.len() <= many(),
        timely(v, a),
    ensures
        total(each_over(xs, v)).finite(),
        gap(total(each_over(xs, v)).units() * v.units(), exact_total(xs) * one_units()) * TWO53 <= 8
            * (xs.len() * (a * one_units())),
{
    let (u, w) = (one_units() as int, v.units());
    let n = xs.len() as int;
    let qs = each_over(xs, v);
    lemma_pow2_pos(UNIT_EXP as nat);
    lemma_far_total(xs);
    lemma_limits(pow2(2088) as int);
    let c = pow2(2088) as int;
    let d = TWO52 * pow2(2044);
    assert(w * c <= d * w) by (nonlinear_arith)
        requires
            c <= d,
            w > 0,
    ;
    let au = a * u;
    assert(far_total(xs) * u <= au) by (nonlinear_arith)
        requires
            far_total(xs) <= a,
            au == a * u,
            u > 0,
    ;
    assert(au >= 0) by (nonlinear_arith)
        requires
            a >= 0,
            u > 0,
            au == a * u,
    ;
    lemma_quotients(xs, v);
    let off = far_total(xs) * u + n * w * TWO52;
    assert(2 * (n * w * TWO52) <= n * au) by (nonlinear_arith)
        requires
            w * TWO53 <= au,
            TWO53 == 2 * TWO52,
            n >= 0,
    ;
    assert(n * au <= au * many()) by (nonlinear_arith)
        requires
            n <= 0x10000000000,
            many() == 0x10000000000,
            au >= 0,
    ;
    // The quotients add up to no more than a number of units.
    let b = 2 * au / w + 1;
    lemma_fundamental_div_mod(2 * au, w);
    assert(2 * au <= b * w <= 2 * au + w) by (nonlinear_arith)
        requires
            b == 2 * au / w + 1,
            2 * au == w * (2 * au / w) + (2 * au) % w,
            0 <= (2 * au) % w < w,
    ;
    assert(far_total(qs) <= b) by (nonlinear_arith)
        requires
            far_total(qs) * w <= b * w,
            w > 0,
    ;
    assert(b <= c) by (nonlinear_arith)
        requires
            b * w <= c * w,
            w > 0,
    ;
    law_total_near(qs, b);
    let t = total(qs).units();
    let e = exact_total(qs);
    let g = gap(t, e);
    assert(gap(t * w, e * w) == g * w) by {
        assert(t * w - e * w == (t - e) * w) by (nonlinear_arith);
        assert((e - t) * w == -((t - e) * w)) by (nonlinear_arith);
        assert((t - e) * w >= 0 <==> t >= e) by (nonlinear_arith)
            requires
                w > 0,
        ;
    }
    assert(g * w * TWO53 <= 2 * (n * (b * w))) by (nonlinear_arith)
        requires
            g * TWO53 <= 2 * (n * b),
            w > 0,
    ;
    assert(n * (b * w) <= n * (3 * au)) by (nonlinear_arith)
        requires
            b * w <= 3 * au,
            n >= 0,
    ;
    assert(n * (3 * au) == 3 * (n * au)) by (nonlinear_arith);
    if n == 0 {
        assert(far_total(xs) == 0);
        assert(0 * u == 0 && 0 * w * TWO52 == 0);
    } else {
        assert(au <= n * au) by (nonlinear_arith)
            requires
                n >= 1,
                au >= 0,
        ;
    }
}

// ---------------------------------------------------------------------------
// The tank
// ---------------------------------------------------------------------------

/// A flight of moderate size: `z` units of 2^-1074 ft are no less than what a full
/// tank reaches and no more than 2^40 times that, and times are finite.
pub open spec fn moderate(job: Job, z: int) -> bool {
    let gal = gallons_per_ft(job.p);
    let (t, g, u) = (job.p.tank_gal.units(), gal.units(), one_units() as int);
    &&& TWO53 <= z <= pow2(2080)
    &&& timely(job.p.speed_fps, 2 * z)
    &&& Double::zero().lt(gal) ==> {
        &&& gal.finite()
        &&& job.p.tank_gal.finite()
        &&& TWO53 <= t <= pow2(2088)
        &&& g * TWO53 <= t * u
        &&& t * u <= z * g
        &&& z * g <= many() * (t * u)
    }
}

/// Rounding brings a tank below nothing by no more than a 2^50th of a full one.
pub open spec fn tank_near(job: Job, tank: Double) -> bool {
    &&& tank.finite()
    &&& -job.p.tank_gal.units() <= tank.units() * 0x4000000000000
    &&& tank.units() <= job.p.tank_gal.units()
}

/// How far a tank reaches.
proof fn lemma_can(job: Job, tank: Double, z: int)
    requires
        Double::zero().lt(gallons_per_ft(job.p)),
        moderate(job, z),
        tank_near(job, tank),
    ensures
        ({
            let gal = gallons_per_ft(job.p);
            let can = tank.over(gal);
            let (t, g, u) = (job.p.tank_gal.units(), gal.units(), one_units() as int);
            &&& can.finite()
            &&& g > 0
            &&& gap(can.units() * g, tank.units() * u) * TWO53 <= 2 * (t * u)
            &&& -z <= can.units() * 0x2000000000000
            &&& tank.units() >= 0 ==> can.units() >= 0
            &&& tank.units() == t ==> z <= can.units() * 0x20000000000
        }),
{
    let gal = gallons_per_ft(job.p);
    let (t, g, u) = (job.p.tank_gal.units(), gal.units(), one_units() as int);
    let a = tank.units();
    lemma_pow2_pos(UNIT_EXP as nat);
    assert(magnitude(0) == 0);
    law_keys_order_numbers(Double::zero(), gal);
    lemma_limits(pow2(2088) as int);
    lemma_pow2_strictly_increases(2080, 2088);
    let d = TWO52 * pow2(2044);
    let x = far(tank);
    assert(x * u <= t * u) by (nonlinear_arith)
        requires
            x <= t,
            u > 0,
    ;
    assert(z * g <= d * g) by (nonlinear_arith)
        requires
            z <= d,
            g > 0,
    ;
    lemma_quotient_error(tank, gal);
    let n = tank.over(gal).units();
    let tu = t * u;
    let e = gap(n * g, a * u);
    assert(e * TWO53 <= x * u + g * TWO52);
    assert(e * TWO53 <= 2 * tu);
    assert(-(2 * tu) <= a * u * 0x4000000000000 * 2) by (nonlinear_arith)
        requires
            -t <= a * 0x4000000000000,
            u > 0,
            tu == t * u,
    ;
    assert(-(z * g) <= n * g * 0x2000000000000);
    assert(-z <= n * 0x2000000000000) by (nonlinear_arith)
        requires
            -(z * g) <= n * g * 0x2000000000000,
            g > 0,
    ;
    if a >= 0 {
        assert(x == a);
        assert(a * u >= 0) by (nonlinear_arith)
            requires
                a >= 0,
                u > 0,
        ;
        assert(n * g * 2 >= -g);
        assert(n >= 0) by (nonlinear_arith)
            requires
                n * g * 2 >= -g,
                g > 0,
        ;
    }
    if a == t {
        assert(tu >= 0) by (nonlinear_arith)
            requires
                t >= 0,
                u > 0,
                tu == t * u,
        ;
        assert(n * g * 2 >= tu);
        assert(z <= n * 0x20000000000) by (nonlinear_arith)
            requires
                n * g * 2 >= tu,
                z * g <= 0x10000000000 * tu,
                g > 0,
        ;
    }
}

/// What a tank sprays, and what is then left in it.
pub proof fn lemma_sprayed_tank(job: Job, leg: Leg, dir: Pt, z: int)
    requires
        Double::zero().lt(gallons_per_ft(job.p)),
        moderate(job, z),
        tank_near(job, leg.tank),
        leg.remaining.finite(),
        leg.remaining.units() > 0,
    ensures
        tank_near(job, job.sprayed(leg, dir).tank),
        ({
            let d = job.reach(leg);
            &&& d.finite()
            &&& d.units() <= leg.remaining.units()
            &&& -z <= d.units() * 0x2000000000000
            &&& leg.tank.units() >= 0 ==> d.units() >= 0
            &&& leg.tank == job.p.tank_gal && d.units() < leg.remaining.units() ==> z <= d.units()
                * 0x20000000000
        }),
{
    let gal = gallons_per_ft(job.p);
    let (t, g, u) = (job.p.tank_gal.units(), gal.units(), one_units() as int);
    let (a, rem) = (leg.tank.units(), leg.remaining.units());
    lemma_can(job, leg.tank, z);
    let can = leg.tank.over(gal);
    let fly = job.reach(leg);
    law_keys_order_numbers(can, leg.remaining);
    let (n, f) = (can.units(), fly.units());
    lemma_pow2_pos(UNIT_EXP as nat);
    assert(f <= n && f <= rem && (f == n || f == rem));
    let tu = t * u;
    assert(tu >= 0) by (nonlinear_arith)
        requires
            t >= 0,
            u > 0,
            tu == t * u,
    ;
    assert(f * g <= n * g) by (nonlinear_arith)
        requires
            f <= n,
            g > 0,
    ;
    assert(a * u <= tu) by (nonlinear_arith)
        requires
            a <= t,
            u > 0,
            tu == t * u,
    ;
    assert(-tu <= a * u) by (nonlinear_arith)
        requires
            -t <= a,
            u > 0,
            tu == t * u,
    ;
    let x = far(fly);
    assert((-x) * g == -(x * g)) by (nonlinear_arith);
    assert(f == rem ==> f * g >= 0) by (nonlinear_arith)
        requires
            rem > 0,
            g > 0,
    ;
    assert(x * g <= 2 * tu);
    lemma_limits(t);
    let d = TWO52 * pow2(2044);
    assert(2 * tu <= d * u) by (nonlinear_arith)
        requires
            2 * t <= d,
            u > 0,
            tu == t * u,
    ;
    lemma_times_error(fly, gal);
    let used = fly.times(gal);
    let m = used.units();
    assert(u * TWO52 * 2 <= tu) by (nonlinear_arith)
        requires
            t >= TWO53,
            TWO53 == 2 * TWO52,
            u > 0,
            tu == t * u,
    ;
    assert(gap(m * u, f * g) * TWO53 <= 3 * tu);
    assert((m - a) * u == m * u - a * u) by (nonlinear_arith);
    assert((m - a) * u * TWO53 <= 5 * tu);
    assert((m - a) * TWO53 <= 5 * t) by (nonlinear_arith)
        requires
            (m - a) * u * TWO53 <= 5 * tu,
            tu == t * u,
            u > 0,
    ;
    if f == n {
        assert((a - m) * u == a * u - m * u) by (nonlinear_arith);
        assert((a - m) * u * TWO53 <= 5 * tu);
        assert((a - m) * TWO53 <= 5 * t) by (nonlinear_arith)
            requires
                (a - m) * u * TWO53 <= 5 * tu,
                tu == t * u,
                u > 0,
        ;
    } else {
        assert(magnitude(0) == 0);
        law_product_nearest(fly, gal, Double::zero());
        assert(0 * (u as int) == 0);
        assert(m * u >= 0);
        assert(m >= 0) by (nonlinear_arith)
            requires
                m * u >= 0,
                u > 0,
        ;
    }
    assert(-t <= a - m <= t);
    lemma_difference_error(leg.tank, used, t, t);
    lemma_negated(used);
    law_sum_nearest(leg.tank, used.negated(), job.p.tank_gal);
}

// ---------------------------------------------------------------------------
// A pass
// ---------------------------------------------------------------------------

pub proof fn lemma_no_length()
    ensures
        !no_length().nan(),
        no_length().units() >= 0,
{
    reveal(Double::spec_ratio);
}

/// What one tank leaves of a pass.
pub proof fn lemma_one_tank(job: Job, leg: Leg, dir: Pt, z: int)
    requires
        Double::zero().lt(gallons_per_ft(job.p)),
        moderate(job, z),
        tank_near(job, leg.tank),
        leg.remaining.finite(),
        no_length().lt(leg.remaining),
        leg.remaining.units() <= 2 * z,
    ensures
        ({
            let next = job.sprayed(leg, dir).remaining;
            let (l, d) = (leg.remaining.units(), job.reach(leg).units());
            &&& l > 0
            &&& next.finite()
            &&& next.units() >= 0
            &&& d >= 0 ==> next.units() <= l
            &&& gap(next.units(), l - d) * TWO53 <= l - d
            &&& leg.tank == job.p.tank_gal && no_length().lt(next) ==> next.lt(leg.remaining)
        }),
{
    let (l, d) = (leg.remaining, job.reach(leg));
    lemma_no_length();
    law_keys_order_numbers(no_length(), l);
    lemma_sprayed_tank(job, leg, dir, z);
    lemma_pow2_strictly_increases(2080, 2088);
    lemma_negated(d);
    lemma_difference_error(l, d, l.units() - d.units(), z);
    assert(magnitude(0) == 0);
    law_sum_nearest(l, d.negated(), l);
    law_sum_nearest(l, d.negated(), Double::zero());
    let next = job.sprayed(leg, dir).remaining;
    law_keys_order_numbers(next, l);
    law_keys_order_numbers(no_length(), next);
}

proof fn lemma_first_sprays(d: Double)
    ensures
        sprays_in(seq![Event::Spray(d)]) == seq![d],
        exact_total(seq![d]) == d.units(),
        far_total(seq![d]) == far(d),
        sprays_in(seq![]) == Seq::<Double>::empty(),
{
    let none = Seq::<Event>::empty();
    assert(seq![Event::Spray(d)] =~= none.push(Event::Spray(d)));
    lemma_sprays_push(none, Event::Spray(d));
    assert(sprays_in(none) =~= seq![]);
    assert(sprays_in(seq![Event::Spray(d)]) =~= seq![d]);
    assert(seq![d].drop_last() =~= seq![]);
    reveal_with_fuel(exact_total, 2);
    reveal_with_fuel(far_total, 2);
}

/// The feet sprayed by a pass with a reload after the first tank.
proof fn lemma_reloaded_sprays(job: Job, leg: Leg, dir: Pt)
    requires
        no_length().lt(leg.remaining),
        no_length().lt(job.sprayed(leg, dir).remaining),
        leg.tank == job.p.tank_gal ==> job.sprayed(leg, dir).remaining.lt(leg.remaining),
    ensures
        sprays_in(job.leg_log(leg, dir)) == seq![job.reach(leg)] + sprays_in(
            job.leg_log(job.reloaded(job.sprayed(leg, dir)), dir),
        ),
        job.flown(leg, dir) == job.flown(job.reloaded(job.sprayed(leg, dir)), dir),
{
    let next = job.sprayed(leg, dir);
    let d = job.reach(leg);
    let first = seq![Event::Spray(d)];
    let r = job.reload_log(next);
    let rest = job.leg_log(job.reloaded(next), dir);
    lemma_first_sprays(d);
    lemma_sprays_add(first + r, rest);
    let (x, y, z) = (r[0], r[1], r[2]);
    assert(first + r =~= first.push(x).push(y).push(z));
    lemma_sprays_push(first, x);
    lemma_sprays_push(first.push(x), y);
    lemma_sprays_push(first.push(x).push(y), z);
}

/// A pass that starts with no less than nothing in the tank.
proof fn lemma_full_leg(job: Job, leg: Leg, dir: Pt, z: int)
    requires
        Double::zero().lt(gallons_per_ft(job.p)),
        moderate(job, z),
        tank_near(job, leg.tank),
        leg.tank.units() >= 0,
        leg.remaining.finite(),
        0 <= leg.remaining.units() <= 2 * z,
    ensures
        ({
            let sprays = sprays_in(job.leg_log(leg, dir));
            let end = job.flown(leg, dir);
            let left = end.remaining.units();
            &&& all_finite(sprays)
            &&& tank_near(job, end.tank)
            &&& 0 <= left <= no_length().units()
            &&& gap(exact_total(sprays), leg.remaining.units() - left) * TWO53 <= sprays.len() * (2
                * z)
            &&& far_total(sprays) == exact_total(sprays)
        }),
    decreases
            (if leg.tank == job.p.tank_gal {
                0int
            } else {
                1int
            }),
            leg.remaining.key() + u64::MAX,
{
    let next = job.sprayed(leg, dir);
    let d = job.reach(leg);
    lemma_no_length();
    law_keys_order_numbers(no_length(), leg.remaining);
    law_keys_order_numbers(no_length(), next.remaining);
    lemma_first_sprays(d);
    if no_length().lt(leg.remaining) {
        lemma_one_tank(job, leg, dir, z);
        lemma_sprayed_tank(job, leg, dir, z);
        if no_length().lt(next.remaining) {
            let again = job.reloaded(next);
            lemma_full_leg(job, again, dir, z);
            lemma_reloaded_sprays(job, leg, dir);
            let rest = sprays_in(job.leg_log(again, dir));
            let sprays = sprays_in(job.leg_log(leg, dir));
            lemma_exact_total_add(seq![d], rest);
            lemma_far_total_add(seq![d], rest);
            let k = rest.len() as int;
            assert((k + 1) * (2 * z) == k * (2 * z) + 2 * z) by (nonlinear_arith);
            assert forall|i: int| 0 <= i < sprays.len() implies (#[trigger] sprays[i]).finite() by {
                if i > 0 {
                    assert(sprays[i] == rest[i - 1]);
                }
            }
        } else {
            assert(1 * (2 * z) == 2 * z);
        }
    } else {
        assert(0 * (2 * z) == 0);
    }
}

/// A pass that starts with a tank that rounding may have brought below nothing.
proof fn lemma_any_leg(job: Job, leg: Leg, dir: Pt, z: int)
    requires
        Double::zero().lt(gallons_per_ft(job.p)),
        moderate(job, z),
        tank_near(job, leg.tank),
        leg.remaining.finite(),
        0 <= leg.remaining.units() <= z,
    ensures
        ({
            let sprays = sprays_in(job.leg_log(leg, dir));
            let end = job.flown(leg, dir);
            let left = end.remaining.units();
            &&& all_finite(sprays)
            &&& tank_near(job, end.tank)
            &&& 0 <= left <= no_length().units()
            &&& gap(exact_total(sprays), leg.remaining.units() - left) * TWO53 <= sprays.len() * (2
                * z)
            &&& (far_total(sprays) - exact_total(sprays)) * 0x1000000000000 <= sprays.len() * z
        }),
{
    if leg.tank.units() >= 0 {
        lemma_full_leg(job, leg, dir, z);
        let n = sprays_in(job.leg_log(leg, dir)).len() as int;
        assert(n * z >= 0) by (nonlinear_arith)
            requires
                n >= 0,
                z >= 0,
        ;
    } else {
        let next = job.sprayed(leg, dir);
        let d = job.reach(leg);
        lemma_no_length();
        law_keys_order_numbers(no_length(), leg.remaining);
        law_keys_order_numbers(no_length(), next.remaining);
        lemma_first_sprays(d);
        if no_length().lt(leg.remaining) {
            lemma_one_tank(job, leg, dir, z);
            lemma_sprayed_tank(job, leg, dir, z);
            if no_length().lt(next.remaining) {
                let again = job.reloaded(next);
                lemma_full_leg(job, again, dir, z);
                lemma_reloaded_sprays(job, leg, dir);
                let rest = sprays_in(job.leg_log(again, dir));
                let sprays = sprays_in(job.leg_log(leg, dir));
                lemma_exact_total_add(seq![d], rest);
                lemma_far_total_add(seq![d], rest);
                let k = rest.len() as int;
                assert((k + 1) * (2 * z) == k * (2 * z) + 2 * z) by (nonlinear_arith);
                assert((k + 1) * z >= z) by (nonlinear_arith)
                    requires
                        k >= 0,
                        z >= 0,
                ;
                assert forall|i: int| 0 <= i < sprays.len() implies (
                #[trigger] sprays[i]).finite() by {
                    if i > 0 {
                        assert(sprays[i] == rest[i - 1]);
                    }
                }
            } else {
                assert(1 * (2 * z) == 2 * z);
                assert(1 * z == z);
            }
        } else {
            assert(0 * (2 * z) == 0);
            assert(0 * z == 0);
        }
    }
}

/// The feet sprayed along a part, however often the tank is filled, add up to its
/// length, but for the length below which nothing is left and a 2^52nd of `z` for each
/// tank; and the tank stays near what it can hold.
pub proof fn law_part_length_sprayed(job: Job, s: State, part: LinePart, z: int)
    requires
        moderate(job, z),
        Double::zero().lt(gallons_per_ft(job.p)) ==> tank_near(job, s.tank),
        part.2,
        part.3.finite(),
        0 <= part.3.units() <= z,
    ensures
        ({
            let sprays = sprays_in(job.part_log(s, part));
            let n = sprays.len() as int;
            &&& all_finite(sprays)
            &&& gap(exact_total(sprays), part.3.units()) * TWO53 <= n * (2 * z)
                + no_length().units() * TWO53
            &&& (exact_total(sprays) - part.3.units()) * TWO53 <= n * (2 * z)
            &&& (far_total(sprays) - exact_total(sprays)) * 0x1000000000000 <= n * z
            &&& Double::zero().lt(gallons_per_ft(job.p)) ==> tank_near(
                job,
                job.along(s, part).tank,
            )
        }),
{
    let (a, b, spray, l) = part;
    let leg = Leg { res: s.res, tank: s.tank, cur: a, remaining: l };
    lemma_no_length();
    if Double::zero().lt(gallons_per_ft(job.p)) {
        lemma_any_leg(job, leg, heading(a, b, l), z);
    } else {
        lemma_first_sprays(l);
        law_keys_order_numbers(no_length(), l);
        if no_length().lt(l) {
            law_part_in_one_tank(job, s, part);
            assert(1 * (2 * z) == 2 * z && 1 * z == z);
        } else {
            assert(0 * (2 * z) == 0 && 0 * z == 0);
        }
    }
}

// ---------------------------------------------------------------------------
// A flight
// ---------------------------------------------------------------------------

/// The length of a part that is sprayed, in units of 2^-1074 ft.
pub open spec fn spray_length() -> spec_fn(LinePart) -> int {
    |p: LinePart|
        if p.2 {
            p.3.units()
        } else {
            0
        }
}

/// One for a part that is sprayed.
pub open spec fn spray_count() -> spec_fn(LinePart) -> int {
    |p: LinePart|
        if p.2 {
            1
        } else {
            0
        }
}

/// The parts of lines have finite lengths of no less than nothing.
pub open spec fn measured(lines: Seq<Seq<LinePart>>) -> bool {
    forall|j: int, k: int|
        0 <= j < lines.len() && 0 <= k < lines[j].len() ==> (#[trigger] lines[j][k]).3.finite()
            && lines[j][k].3.units() >= 0
}

/// The parts flown in steps have finite lengths of no less than nothing.
spec fn steps_measured(steps: Seq<Step>) -> bool {
    forall|i: int| 0 <= i < steps.len() ==> (#[trigger] steps[i]).0.3.finite()
        && steps[i].0.3.units() >= 0
}

proof fn lemma_steps_measured(lines: Seq<Seq<LinePart>>, cfg: Config)
    requires
        measured(lines),
    ensures
        steps_measured(steps_of(lines, cfg)),
{
    let steps = steps_of(lines, cfg);
    assert forall|i: int| 0 <= i < steps.len() implies (#[trigger] steps[i]).0.3.finite()
        && steps[i].0.3.units() >= 0 by {
        law_steps_are_parts(lines, cfg, i);
        let part = steps[i].0;
        let (j, k) = choose|j: int, k: int|
            0 <= j < lines.len() && 0 <= k < lines[j].len() && (part == #[trigger] lines[j][k]
                || part == turned_back(lines[j][k]));
        assert(part.3 == lines[j][k].3);
    }
}

/// What is sprayed is near to a length: in `parts` parts, with a bound `z`.
spec fn near_length(sprays: Seq<Double>, length: int, parts: int, z: int) -> bool {
    let n = sprays.len() as int;
    &&& all_finite(sprays)
    &&& gap(exact_total(sprays), length) * TWO53 <= n * (2 * z) + parts * no_length().units()
        * TWO53
    &&& (exact_total(sprays) - length) * TWO53 <= n * (2 * z)
    &&& (far_total(sprays) - exact_total(sprays)) * 0x1000000000000 <= n * z
}

proof fn lemma_near_none(z: int)
    ensures
        near_length(seq![], 0, 0, z),
{
    assert(0 * (2 * z) == 0 && 0 * z == 0 && 0 * no_length().units() * TWO53 == 0);
}

proof fn lemma_near_add(
    a: Seq<Double>,
    b: Seq<Double>,
    l: int,
    m: int,
    p: int,
    q: int,
    z: int,
)
    requires
        near_length(a, l, p, z),
        near_length(b, m, q, z),
    ensures
        near_length(a + b, l + m, p + q, z),
{
    let (i, j) = (a.len() as int, b.len() as int);
    let e = no_length().units();
    lemma_exact_total_add(a, b);
    lemma_far_total_add(a, b);
    assert((i + j) * (2 * z) == i * (2 * z) + j * (2 * z)) by (nonlinear_arith);
    assert((i + j) * z == i * z + j * z) by (nonlinear_arith);
    assert((p + q) * e * TWO53 == p * e * TWO53 + q * e * TWO53) by (nonlinear_arith);
    let s = a + b;
    assert forall|k: int| 0 <= k < s.len() implies (#[trigger] s[k]).finite() by {
        if k < i {
            assert(s[k] == a[k]);
        } else {
            assert(s[k] == b[k - i]);
        }
    }
}

proof fn lemma_steps_near(job: Job, s: State, steps: Seq<Step>, n: int, z: int)
    requires
        moderate(job, z),
        Double::zero().lt(gallons_per_ft(job.p)) ==> tank_near(job, s.tank),
        steps_measured(steps),
        0 <= n <= steps.len(),
        steps_weight(steps, spray_length(), n) <= z,
    ensures
        near_length(
            job.steps_sprays(s, steps, n),
            steps_weight(steps, spray_length(), n),
            steps_weight(steps, spray_count(), n),
            z,
        ),
        steps_weight(steps, spray_length(), n) >= 0,
        Double::zero().lt(gallons_per_ft(job.p)) ==> tank_near(
            job,
            job.steps_flown(s, steps, n).tank,
        ),
    decreases n,
{
    if n > 0 {
        let part = steps[n - 1].0;
        lemma_steps_weight_positive(steps, n - 1);
        lemma_steps_near(job, s, steps, n - 1, z);
        let at = job.before_step(s, steps, n - 1);
        let sprays = sprays_in(job.part_log(at, part));
        assert(steps[n - 1].0.3.finite());
        assert(job.steps_flown(s, steps, n) == job.along(at, part));
        assert(at.tank == job.steps_flown(s, steps, n - 1).tank);
        let e = no_length().units();
        if part.2 {
            law_part_length_sprayed(job, at, part, z);
            assert(1 * e * TWO53 == e * TWO53);
        } else {
            law_part_sprayed(job, at, part);
            assert(sprays =~= seq![]);
            lemma_near_none(z);
        }
        let (l, c) = (spray_length()(part), spray_count()(part));
        assert(near_length(sprays, l, c, z));
        lemma_near_add(
            job.steps_sprays(s, steps, n - 1),
            sprays,
            steps_weight(steps, spray_length(), n - 1),
            l,
            steps_weight(steps, spray_count(), n - 1),
            c,
            z,
        );
    } else {
        lemma_near_none(z);
    }
}

proof fn lemma_steps_weight_positive(steps: Seq<Step>, n: int)
    requires
        steps_measured(steps),
        0 <= n <= steps.len(),
    ensures
        steps_weight(steps, spray_length(), n) >= 0,
    decreases n,
{
    if n > 0 {
        lemma_steps_weight_positive(steps, n - 1);
        assert(steps[n - 1].0.3.units() >= 0);
    }
}

/// What the lines of the first `n` blocks of an order weigh.
pub open spec fn order_weight(
    plans: Seq<PlanView>,
    order: Seq<(usize, Config)>,
    w: spec_fn(LinePart) -> int,
    n: int,
) -> int
    decreases n,
{
    if n <= 0 {
        0
    } else {
        let lines = plans[order[n - 1].0 as int].lines;
        order_weight(plans, order, w, n - 1) + lines_weight(lines, w, lines.len() as int)
    }
}

/// The blocks of an order are there, and their parts have finite lengths of no less
/// than nothing.
pub open spec fn order_measured(plans: Seq<PlanView>, order: Seq<(usize, Config)>) -> bool {
    forall|i: int|
        0 <= i < order.len() ==> (#[trigger] order[i]).0 < plans.len() && measured(
            plans[order[i].0 as int].lines,
        )
}

proof fn lemma_order_weight_positive(plans: Seq<PlanView>, order: Seq<(usize, Config)>, n: int)
    requires
        order_measured(plans, order),
        0 <= n <= order.len(),
    ensures
        order_weight(plans, order, spray_length(), n) >= 0,
    decreases n,
{
    if n > 0 {
        lemma_order_weight_positive(plans, order, n - 1);
        assert(order[n - 1].0 < plans.len());
        let lines = plans[order[n - 1].0 as int].lines;
        let cfg = order[n - 1].1;
        lemma_steps_measured(lines, cfg);
        law_steps_weight(lines, cfg, spray_length());
        lemma_steps_weight_positive(steps_of(lines, cfg), steps_of(lines, cfg).len() as int);
    }
}

proof fn lemma_blocks_near(
    job: Job,
    s: State,
    plans: Seq<PlanView>,
    order: Seq<(usize, Config)>,
    n: int,
    z: int,
)
    requires
        moderate(job, z),
        Double::zero().lt(gallons_per_ft(job.p)) ==> tank_near(job, s.tank),
        order_measured(plans, order),
        0 <= n <= order.len(),
        order_weight(plans, order, spray_length(), n) <= z,
    ensures
        near_length(
            job.blocks_sprays(s, plans, order, n),
            order_weight(plans, order, spray_length(), n),
            order_weight(plans, order, spray_count(), n),
            z,
        ),
        Double::zero().lt(gallons_per_ft(job.p)) ==> tank_near(
            job,
            job.blocks_flown(s, plans, order, n).tank,
        ),
    decreases n,
{
    if n > 0 {
        assert(order[n - 1].0 < plans.len());
        let (plan, cfg) = (plans[order[n - 1].0 as int], order[n - 1].1);
        let steps = steps_of(plan.lines, cfg);
        let k = steps.len() as int;
        lemma_order_weight_positive(plans, order, n - 1);
        lemma_steps_measured(plan.lines, cfg);
        law_steps_weight(plan.lines, cfg, spray_length());
        law_steps_weight(plan.lines, cfg, spray_count());
        lemma_steps_weight_positive(steps, k);
        lemma_blocks_near(job, s, plans, order, n - 1, z);
        let before = job.blocks_flown(s, plans, order, n - 1);
        let at = job.at_entry(before, plan, cfg);
        assert(at.tank == before.tank);
        lemma_steps_near(job, at, steps, k, z);
        lemma_near_add(
            job.blocks_sprays(s, plans, order, n - 1),
            job.steps_sprays(at, steps, k),
            order_weight(plans, order, spray_length(), n - 1),
            steps_weight(steps, spray_length(), k),
            order_weight(plans, order, spray_count(), n - 1),
            steps_weight(steps, spray_count(), k),
            z,
        );
    } else {
        lemma_near_none(z);
    }
}

impl Job {
    /// How many tanks and parts a flight sprays.
    pub open spec fn passes(
        self,
        plans: Seq<PlanView>,
        order: Seq<(usize, Config)>,
        setup_s: Double,
    ) -> int {
        self.blocks_sprays(self.start(setup_s), plans, order, order.len() as int).len() as int
    }
}

/// However many reloads there are, the spray time of a flight, times the speed, is the
/// total length of the parts of the listed blocks that are sprayed, but for a billionth
/// of a foot for each part and a 2^48th of `z` for each pass.
pub proof fn law_spray_time(
    job: Job,
    plans: Seq<PlanView>,
    order: Seq<(usize, Config)>,
    setup_s: Double,
    z: int,
)
    requires
        moderate(job, z),
        order_measured(plans, order),
        order_weight(plans, order, spray_length(), order.len() as int) <= z,
        job.passes(plans, order, setup_s) <= many(),
    ensures
        ({
            let r = job.run(plans, order, setup_s);
            let (u, v) = (one_units() as int, job.p.speed_fps.units());
            let length = order_weight(plans, order, spray_length(), order.len() as int);
            let parts = order_weight(plans, order, spray_count(), order.len() as int);
            let n = job.passes(plans, order, setup_s);
            &&& r.spray_s.finite()
            &&& gap(r.spray_s.units() * v, length * u) * 0x1000000000000 <= n * (z * u) + parts
                * no_length().units() * u * 0x1000000000000
        }),
{
    let start = job.start(setup_s);
    let k = order.len() as int;
    let v = job.p.speed_fps;
    let (u, w) = (one_units() as int, v.units());
    let length = order_weight(plans, order, spray_length(), k);
    let parts = order_weight(plans, order, spray_count(), k);
    let sprays = job.blocks_sprays(start, plans, order, k);
    let n = sprays.len() as int;
    let e = no_length().units();
    lemma_pow2_pos(UNIT_EXP as nat);
    lemma_blocks_near(job, start, plans, order, k, z);
    law_run_sprays_the_blocks(job, plans, order, setup_s);
    lemma_order_weight_positive(plans, order, k);
    lemma_feet(sprays, length, parts, z);
    law_time_near(sprays, v, 2 * z);
    let t = job.run(plans, order, setup_s).spray_s.units();
    let x = exact_total(sprays);
    let zu = z * u;
    assert(n * (2 * z * u) == 2 * (n * zu)) by (nonlinear_arith)
        requires
            zu == z * u,
    ;
    let g = gap(x, length);
    assert(gap(x * u, length * u) == g * u) by {
        assert(x * u - length * u == (x - length) * u) by (nonlinear_arith);
        assert((length - x) * u == -((x - length) * u)) by (nonlinear_arith);
        assert((x - length) * u >= 0 <==> x >= length) by (nonlinear_arith)
            requires
                u > 0,
        ;
    }
    assert(g * u * TWO53 <= 2 * (n * zu) + parts * e * u * TWO53) by (nonlinear_arith)
        requires
            g * TWO53 <= n * (2 * z) + parts * e * TWO53,
            zu == z * u,
            u > 0,
    ;
    let pu = parts * e * u;
    assert(gap(t * w, x * u) * TWO53 <= 16 * (n * zu));
    assert(gap(t * w, length * u) * TWO53 <= 18 * (n * zu) + pu * TWO53);
    assert(n * zu >= 0) by (nonlinear_arith)
        requires
            n >= 0,
            z >= 0,
            u > 0,
            zu == z * u,
    ;
}

/// The feet of a flight are no more than twice the bound.
proof fn lemma_feet(sprays: Seq<Double>, length: int, parts: int, z: int)
    requires
        near_length(sprays, length, parts, z),
        TWO53 <= z,
        0 <= length <= z,
        sprays.len() <= many(),
    ensures
        far_total(sprays) <= 2 * z,
{
    let n = sprays.len() as int;
    assert(n * z <= many() * z) by (nonlinear_arith)
        requires
            n <= many(),
            z >= 0,
    ;
    assert(n * (2 * z) == 2 * (n * z)) by (nonlinear_arith);
}

/// Along a flight rounding brings the tank below nothing by no more than a 2^50th of a
/// full one.
pub proof fn law_tank_stays_near(
    job: Job,
    plans: Seq<PlanView>,
    order: Seq<(usize, Config)>,
    setup_s: Double,
    n: int,
    z: int,
)
    requires
        moderate(job, z),
        Double::zero().lt(gallons_per_ft(job.p)),
        order_measured(plans, order),
        0 <= n <= order.len(),
        order_weight(plans, order, spray_length(), n) <= z,
    ensures
        tank_near(job, job.blocks_flown(job.start(setup_s), plans, order, n).tank),
{
    lemma_blocks_near(job, job.start(setup_s), plans, order, n, z);
}

/// The ferry time of a flight, times the speed of a ferry, is the ferry feet, but for a
/// 2^49th of all ferries for each.
pub proof fn law_ferry_time(
    job: Job,
    plans: Seq<PlanView>,
    order: Seq<(usize, Config)>,
    setup_s: Double,
    z: int,
)
    requires
        ({
            let ways = ferries(job.run_log(plans, order, setup_s));
            &&& all_finite(ways)
            &&& far_total(ways) <= z <= pow2(2088)
            &&& ways.len() <= many()
        }),
        timely(job.p.ferry_fps, z),
    ensures
        ({
            let r = job.run(plans, order, setup_s);
            let (u, v) = (one_units() as int, job.p.ferry_fps.units());
            let n = ferries(job.run_log(plans, order, setup_s)).len() as int;
            &&& r.ferry_ft.finite() && r.ferry_s.finite()
            &&& gap(r.ferry_s.units() * v, r.ferry_ft.units() * u) * TWO53 <= 10 * (n * (z * u))
        }),
{
    let ways = ferries(job.run_log(plans, order, setup_s));
    let r = job.run(plans, order, setup_s);
    law_run_totals(job, plans, order, setup_s);
    law_total_near(ways, z);
    law_time_near(ways, job.p.ferry_fps, z);
    lemma_pow2_pos(UNIT_EXP as nat);
    let u = one_units() as int;
    let n = ways.len() as int;
    lemma_scaled_gap(r.ferry_ft.units(), exact_total(ways), 2 * (n * z), u);
    assert(2 * (n * z) * u == 2 * (n * (z * u))) by (nonlinear_arith);
}

proof fn lemma_scaled_gap(x: int, y: int, b: int, u: int)
    requires
        u > 0,
        gap(x, y) * TWO53 <= b,
    ensures
        gap(x * u, y * u) * TWO53 <= b * u,
{
    let g = gap(x, y);
    assert(x * u - y * u == (x - y) * u) by (nonlinear_arith);
    assert((y - x) * u == -((x - y) * u)) by (nonlinear_arith);
    assert((x - y) * u >= 0 <==> x >= y) by (nonlinear_arith)
        requires
            u > 0,
    ;
    assert(g * u * TWO53 <= b * u) by (nonlinear_arith)
        requires
            g * TWO53 <= b,
            u > 0,
    ;
}

proof fn lemma_times_over(c: Double, n: nat)
    requires
        c.finite(),
    ensures
        all_finite(times_over(c, n)),
        exact_total(times_over(c, n)) == n * c.units(),
        far_total(times_over(c, n)) == n * far(c),
    decreases n,
{
    let all = times_over(c, n);
    if n > 0 {
        let k = (n - 1) as nat;
        lemma_times_over(c, k);
        assert(all.drop_last() =~= times_over(c, k));
        assert(n * c.units() == k * c.units() + c.units()) by (nonlinear_arith)
            requires
                n == k + 1,
        ;
        assert(n * far(c) == k * far(c) + far(c)) by (nonlinear_arith)
            requires
                n == k + 1,
        ;
    } else {
        assert(0 * c.units() == 0 && 0 * far(c) == 0);
    }
}

/// The load time of a flight is that of every load but the first, but for a 2^52nd of it
/// for each.
pub proof fn law_load_time(
    job: Job,
    plans: Seq<PlanView>,
    order: Seq<(usize, Config)>,
    setup_s: Double,
)
    requires
        ({
            let c = job.p.t_load_s.plus(job.p.t_cycle_s);
            let n = loads_in(job.run_log(plans, order, setup_s));
            &&& c.finite()
            &&& n <= many()
            &&& n * far(c) <= pow2(2088)
        }),
    ensures
        ({
            let r = job.run(plans, order, setup_s);
            let c = job.p.t_load_s.plus(job.p.t_cycle_s);
            let n = r.n_loads - 1;
            &&& n == loads_in(job.run_log(plans, order, setup_s))
            &&& r.load_s.finite()
            &&& gap(r.load_s.units(), n * c.units()) * TWO53 <= 2 * (n * (n * far(c)))
        }),
{
    let c = job.p.t_load_s.plus(job.p.t_cycle_s);
    let n = loads_in(job.run_log(plans, order, setup_s));
    law_run_totals(job, plans, order, setup_s);
    lemma_times_over(c, n);
    law_total_near(times_over(c, n), n * far(c));
}

// ---------------------------------------------------------------------------
// One block, entered anywhere
// ---------------------------------------------------------------------------

/// However a block is entered, alone on a flight, it takes the same spray time, but for
/// what the two times are off by.
pub proof fn law_entry_choices_spray_alike(
    job: Job,
    plans: Seq<PlanView>,
    block: usize,
    one: Config,
    other: Config,
    setup_s: Double,
    z: int,
)
    requires
        moderate(job, z),
        block < plans.len(),
        measured(plans[block as int].lines),
        ({
            let lines = plans[block as int].lines;
            lines_weight(lines, spray_length(), lines.len() as int) <= z
        }),
        job.passes(plans, seq![(block, one)], setup_s) <= many(),
        job.passes(plans, seq![(block, other)], setup_s) <= many(),
    ensures
        ({
            let r = job.run(plans, seq![(block, one)], setup_s);
            let q = job.run(plans, seq![(block, other)], setup_s);
            let (u, v) = (one_units() as int, job.p.speed_fps.units());
            let lines = plans[block as int].lines;
            let parts = lines_weight(lines, spray_count(), lines.len() as int);
            let n = job.passes(plans, seq![(block, one)], setup_s) + job.passes(
                plans,
                seq![(block, other)],
                setup_s,
            );
            &&& r.spray_s.finite() && q.spray_s.finite()
            &&& gap(r.spray_s.units() * v, q.spray_s.units() * v) * 0x1000000000000 <= n * (z * u)
                + 2 * (parts * no_length().units() * u * 0x1000000000000)
        }),
{
    let lines = plans[block as int].lines;
    let (a, b) = (seq![(block, one)], seq![(block, other)]);
    reveal_with_fuel(order_weight, 2);
    assert(a[0].0 == block && b[0].0 == block);
    law_spray_time(job, plans, a, setup_s, z);
    law_spray_time(job, plans, b, setup_s, z);
    let (n, m) = (job.passes(plans, a, setup_s), job.passes(plans, b, setup_s));
    let zu = z * one_units();
    assert((n + m) * zu == n * zu + m * zu) by (nonlinear_arith);
}

/// The lengths of the parts among the first `n` steps that are flown with the booms off.
pub open spec fn dead_lengths(steps: Seq<Step>, n: int) -> Seq<Double>
    decreases n,
{
    if n <= 0 {
        seq![]
    } else if steps[n - 1].0.2 {
        dead_lengths(steps, n - 1)
    } else {
        dead_lengths(steps, n - 1).push(steps[n - 1].0.3)
    }
}

/// The length of a part flown with the booms off, in units of 2^-1074 ft.
pub open spec fn dead_length() -> spec_fn(LinePart) -> int {
    |p: LinePart|
        if p.2 {
            0
        } else {
            p.3.units()
        }
}

/// One for a part flown with the booms off.
pub open spec fn dead_count() -> spec_fn(LinePart) -> int {
    |p: LinePart|
        if p.2 {
            0
        } else {
            1
        }
}

/// No line starts further than two swaths from the end of the one flown before.
pub open spec fn lines_close(job: Job, steps: Seq<Step>) -> bool {
    forall|i: int|
        0 < i < steps.len() && (#[trigger] steps[i]).1 != steps[i - 1].1 ==> !Double::zero().lt(
            dist_by(job.hypot, steps[i - 1].0.1, steps[i].0.0).minus(
                Double::of_int(2).times(job.p.swath_ft),
            ),
        )
}

proof fn lemma_leg_dead(job: Job, leg: Leg, dir: Pt)
    ensures
        job.flown(leg, dir).res.dead_ft == leg.res.dead_ft,
        job.flown(leg, dir).res.dead_s == leg.res.dead_s,
    decreases
            (if leg.tank == job.p.tank_gal {
                0int
            } else {
                1int
            }),
            leg.remaining.key() + u64::MAX,
{
    let next = job.sprayed(leg, dir);
    if no_length().lt(leg.remaining) && no_length().lt(next.remaining) && !(leg.tank
        == job.p.tank_gal && !next.remaining.lt(leg.remaining)) {
        lemma_leg_dead(job, job.reloaded(next), dir);
    }
}

proof fn lemma_steps_dead(job: Job, s: State, steps: Seq<Step>, n: int)
    requires
        0 <= n <= steps.len(),
        lines_close(job, steps),
        s.res.dead_ft == Double::zero(),
        s.res.dead_s == Double::zero(),
    ensures
        ({
            let end = job.steps_flown(s, steps, n);
            let deads = dead_lengths(steps, n);
            &&& end.res.dead_ft == total(deads)
            &&& end.res.dead_s == total(each_over(deads, job.p.dead_fps))
            &&& n > 0 ==> end.pos == steps[n - 1].0.1
        }),
    decreases n,
{
    if n > 0 {
        lemma_steps_dead(job, s, steps, n - 1);
        let before = dead_lengths(steps, n - 1);
        let at = job.before_step(s, steps, n - 1);
        let (a, b, spray, l) = steps[n - 1].0;
        assert(job.steps_flown(s, steps, n) == job.along(at, steps[n - 1].0));
        if n > 1 && steps[n - 1].1 != steps[n - 2].1 {
            assert(!Double::zero().lt(
                dist_by(job.hypot, steps[n - 2].0.1, steps[n - 1].0.0).minus(
                    Double::of_int(2).times(job.p.swath_ft),
                ),
            ));
        }
        if spray {
            lemma_leg_dead(
                job,
                Leg { res: at.res, tank: at.tank, cur: a, remaining: l },
                heading(a, b, l),
            );
        } else {
            let v = job.p.dead_fps;
            lemma_total_push(before, l);
            lemma_total_push(each_over(before, v), l.over(v));
            assert(each_over(before.push(l), v) =~= each_over(before, v).push(l.over(v)));
        }
    } else {
        assert(each_over(dead_lengths(steps, 0), job.p.dead_fps) =~= seq![]);
    }
}

proof fn lemma_dead_lengths(steps: Seq<Step>, n: int)
    requires
        steps_measured(steps),
        0 <= n <= steps.len(),
    ensures
        ({
            let deads = dead_lengths(steps, n);
            &&& all_finite(deads)
            &&& exact_total(deads) == steps_weight(steps, dead_length(), n)
            &&& far_total(deads) == exact_total(deads)
            &&& deads.len() == steps_weight(steps, dead_count(), n)
        }),
    decreases n,
{
    if n > 0 {
        lemma_dead_lengths(steps, n - 1);
        let part = steps[n - 1].0;
        assert(part.3.finite() && part.3.units() >= 0);
        let before = dead_lengths(steps, n - 1);
        assert(before.push(part.3).drop_last() =~= before);
        let deads = dead_lengths(steps, n);
        assert forall|i: int| 0 <= i < deads.len() implies (#[trigger] deads[i]).finite() by {
            if i < before.len() {
                assert(deads[i] == before[i]);
            }
        }
    }
}

/// A block alone on a flight, its lines close to each other: the feet with the booms off
/// are those of its parts, and the time is theirs.
pub proof fn law_dead_time(
    job: Job,
    plans: Seq<PlanView>,
    block: usize,
    cfg: Config,
    setup_s: Double,
    z: int,
)
    requires
        block < plans.len(),
        measured(plans[block as int].lines),
        lines_close(job, steps_of(plans[block as int].lines, cfg)),
        same_place(job.trailer, job.trailer),
        ({
            let lines = plans[block as int].lines;
            &&& lines_weight(lines, dead_length(), lines.len() as int) <= z <= pow2(2088)
            &&& lines_weight(lines, dead_count(), lines.len() as int) <= many()
        }),
        timely(job.p.dead_fps, z),
    ensures
        ({
            let r = job.run(plans, seq![(block, cfg)], setup_s);
            let lines = plans[block as int].lines;
            let (u, v) = (one_units() as int, job.p.dead_fps.units());
            let length = lines_weight(lines, dead_length(), lines.len() as int);
            let n = lines_weight(lines, dead_count(), lines.len() as int);
            &&& r.dead_ft.finite() && r.dead_s.finite()
            &&& gap(r.dead_ft.units(), length) * TWO53 <= 2 * (n * z)
            &&& gap(r.dead_s.units() * v, length * u) * TWO53 <= 8 * (n * (z * u))
        }),
{
    let plan = plans[block as int];
    let steps = steps_of(plan.lines, cfg);
    let k = steps.len() as int;
    let start = job.start(setup_s);
    let order = seq![(block, cfg)];
    reveal_with_fuel(Job::blocks_flown, 2);
    assert(job.blocks_flown(start, plans, order, 1) == job.block_flown(start, plan, cfg));
    lemma_steps_measured(plan.lines, cfg);
    lemma_dead_lengths(steps, k);
    law_steps_weight(plan.lines, cfg, dead_length());
    law_steps_weight(plan.lines, cfg, dead_count());
    let deads = dead_lengths(steps, k);
    let r = job.run(plans, order, setup_s);
    if k > 0 {
        lemma_steps_dead(job, job.at_entry(start, plan, cfg), steps, k);
    } else {
        assert(each_over(deads, job.p.dead_fps) =~= seq![]);
    }
    assert(r.dead_ft == total(deads));
    assert(r.dead_s == total(each_over(deads, job.p.dead_fps)));
    law_total_near(deads, z);
    law_time_near(deads, job.p.dead_fps, z);
}

/// However a block is entered, alone on a flight, it takes the same time with the booms
/// off, but for what the two times are off by, if its lines are flown close to each other
/// both ways.
pub proof fn law_entry_choices_dead_alike(
    job: Job,
    plans: Seq<PlanView>,
    block: usize,
    one: Config,
    other: Config,
    setup_s: Double,
    z: int,
)
    requires
        block < plans.len(),
        measured(plans[block as int].lines),
        lines_close(job, steps_of(plans[block as int].lines, one)),
        lines_close(job, steps_of(plans[block as int].lines, other)),
        same_place(job.trailer, job.trailer),
        ({
            let lines = plans[block as int].lines;
            &&& lines_weight(lines, dead_length(), lines.len() as int) <= z <= pow2(2088)
            &&& lines_weight(lines, dead_count(), lines.len() as int) <= many()
        }),
        timely(job.p.dead_fps, z),
    ensures
        ({
            let r = job.run(plans, seq![(block, one)], setup_s);
            let q = job.run(plans, seq![(block, other)], setup_s);
            let lines = plans[block as int].lines;
            let (u, v) = (one_units() as int, job.p.dead_fps.units());
            let n = lines_weight(lines, dead_count(), lines.len() as int);
            &&& gap(r.dead_ft.units(), q.dead_ft.units()) * TWO53 <= 4 * (n * z)
            &&& gap(r.dead_s.units() * v, q.dead_s.units() * v) * TWO53 <= 16 * (n * (z * u))
        }),
{
    law_dead_time(job, plans, block, one, setup_s, z);
    law_dead_time(job, plans, block, other, setup_s, z);
}

} // verus!
