//! Laws of times: what plans and jobs take.
use vstd::prelude::*;

use crate::cost::{area_sum, cost_sum, count_sum, job_time, turns_among};
use crate::double::{Double, TWO53};
use crate::geom::Pt;
use crate::lines::{lines_of_plans, spray_sum};
use crate::near::{
    abs, eps, huge, lemma_assoc, lemma_ceil_val, lemma_eps, lemma_le, lemma_near_add, lemma_near_div, lemma_near_mul,
    lemma_near_sub, lemma_one, lemma_val, lemma_val_order, lemma_whole_val, lemma_zero, near, val,
};
use crate::params::AircraftParams;
use crate::plan::{turns_between, PlanView};
use crate::tools::{GlobeMeaning, Hypot};
use crate::traverse::{lines_flown, step_length, steps_of, Config, Step};

verus! {

/// A finite number from zero to `b`.
pub open spec fn within(x: Double, b: real) -> bool {
    x.finite() && 0real <= val(x) <= b
}

// ---------------------------------------------------------------------------
// Sums
// ---------------------------------------------------------------------------

/// The numbers that the first `n` doubles stand for, added up.
pub open spec fn exact_sum(xs: Seq<Double>, n: int) -> real
    decreases n,
{
    if n <= 0 {
        0real
    } else {
        exact_sum(xs, n - 1) + val(xs[n - 1])
    }
}

/// The first `n` doubles added up from the negative zero.
spec fn folded(xs: Seq<Double>, n: int) -> Double
    decreases n,
{
    if n <= 0 {
        Double::negative_zero()
    } else {
        folded(xs, n - 1).plus(xs[n - 1])
    }
}

/// Doubles are finite and not below zero.
pub open spec fn none_negative(xs: Seq<Double>) -> bool {
    forall|i: int| 0 <= i < xs.len() ==> (#[trigger] xs[i]).finite() && val(xs[i]) >= 0real
}

/// The most terms of a sum: 2^40.
pub open spec fn most() -> int {
    0x10000000000
}

proof fn lemma_folded(xs: Seq<Double>, n: int, m: real)
    requires
        none_negative(xs),
        0 <= n <= xs.len(),
        n <= most(),
        exact_sum(xs, n) <= m,
        4real * m <= huge(),
    ensures
        near(folded(xs, n), exact_sum(xs, n), 2real * ((n as real) * (eps() * m))),
        exact_sum(xs, n) >= 0real,
    decreases n,
{
    lemma_eps();
    lemma_zero();
    lemma_one();
    let e = eps();
    if n > 0 {
        assert(xs[n - 1].finite() && val(xs[n - 1]) >= 0real);
        lemma_folded(xs, n - 1, m);
        let em = e * m;
        let k = (n - 1) as real;
        assert(0real <= k * em && k * em * 4real <= m) by (nonlinear_arith)
            requires
                0real <= k <= 0x10000000000real,
                em * 0x20000000000000real == m,
                m >= 0real,
        ;
        assert(e * (2real * m) == 2real * em) by (nonlinear_arith)
            requires
                em == e * m,
        ;
        assert((k + 1real) * em == k * em + em) by (nonlinear_arith);
        lemma_near_add(
            folded(xs, n - 1),
            exact_sum(xs, n - 1),
            2real * (k * em),
            xs[n - 1],
            val(xs[n - 1]),
            0real,
            2real * m,
        );
    } else {
        assert(0real * (e * m) == 0real) by (nonlinear_arith);
    }
}

/// The areas of plans.
pub open spec fn areas(plans: Seq<PlanView>) -> Seq<Double> {
    Seq::new(plans.len(), |i: int| plans[i].area_ac)
}

/// The costs of plans as blocks.
pub open spec fn block_costs(plans: Seq<PlanView>, p: AircraftParams) -> Seq<Double> {
    Seq::new(plans.len(), |i: int| plans[i].block_cost(p))
}

proof fn lemma_area_sum(plans: Seq<PlanView>, n: int)
    requires
        0 <= n <= plans.len(),
    ensures
        area_sum(plans, n) == folded(areas(plans), n),
    decreases n,
{
    if n > 0 {
        lemma_area_sum(plans, n - 1);
    }
}

proof fn lemma_cost_sum(plans: Seq<PlanView>, p: AircraftParams, n: int)
    requires
        0 <= n <= plans.len(),
    ensures
        cost_sum(plans, p, n) == folded(block_costs(plans, p), n),
    decreases n,
{
    if n > 0 {
        lemma_cost_sum(plans, p, n - 1);
    }
}

/// The areas of plans add up, but for a 2^52nd of all for each.
pub proof fn law_areas_add_up(plans: Seq<PlanView>, m: real)
    requires
        none_negative(areas(plans)),
        plans.len() <= most(),
        exact_sum(areas(plans), plans.len() as int) <= m,
        4real * m <= huge(),
    ensures
        near(
            area_sum(plans, plans.len() as int),
            exact_sum(areas(plans), plans.len() as int),
            2real * ((plans.len() as real) * (eps() * m)),
        ),
        exact_sum(areas(plans), plans.len() as int) >= 0real,
{
    lemma_area_sum(plans, plans.len() as int);
    lemma_folded(areas(plans), plans.len() as int, m);
}

/// The costs of blocks add up, but for a 2^52nd of all for each.
pub proof fn law_costs_add_up(plans: Seq<PlanView>, p: AircraftParams, m: real)
    requires
        none_negative(block_costs(plans, p)),
        plans.len() <= most(),
        exact_sum(block_costs(plans, p), plans.len() as int) <= m,
        4real * m <= huge(),
    ensures
        near(
            cost_sum(plans, p, plans.len() as int),
            exact_sum(block_costs(plans, p), plans.len() as int),
            2real * ((plans.len() as real) * (eps() * m)),
        ),
        exact_sum(block_costs(plans, p), plans.len() as int) >= 0real,
{
    lemma_cost_sum(plans, p, plans.len() as int);
    lemma_folded(block_costs(plans, p), plans.len() as int, m);
}

// ---------------------------------------------------------------------------
// Loads
// ---------------------------------------------------------------------------

/// Gallons for an area, and tanks to carry them: `g` bounds the gallons, `t` the tanks.
pub open spec fn carried(p: AircraftParams, area: real, g: real, t: real) -> bool {
    &&& within(p.gpa, g)
    &&& area * val(p.gpa) <= g
    &&& p.tank_gal.finite()
    &&& 0real < val(p.tank_gal) <= g
    &&& 1real <= g
    &&& 16real * g <= huge()
    &&& 8real * g <= t * val(p.tank_gal)
    &&& t <= 0x1000000000000real
}

/// The loads for an area that is off by a 2^52nd of `a`, `k` times.
proof fn lemma_loads(
    area: Double,
    exact: real,
    k: real,
    a: real,
    p: AircraftParams,
    g: real,
    t: real,
) -> (n: int)
    requires
        near(area, exact, 2real * (k * (eps() * a))),
        0real <= k <= 0x10000000000real,
        0real <= exact <= a,
        1real <= a,
        4real * a <= huge(),
        a * val(p.gpa) <= g,
        carried(p, a, g, t),
        val(area) >= 0real,
    ensures
        val(area.times(p.gpa).over(p.tank_gal).ceil()) == n as real,
        area.times(p.gpa).over(p.tank_gal).ceil().finite(),
        0 <= n,
        n as real <= t,
        exact * val(p.gpa) - 8real * ((k + 1real) * (eps() * g)) <= (n as real) * val(p.tank_gal),
        ((n as real) - 1real) * val(p.tank_gal) <= exact * val(p.gpa) + 8real * ((k + 1real) * (eps()
            * g)),
{
    lemma_eps();
    lemma_one();
    let e = eps();
    let (c, d) = (val(p.gpa), val(p.tank_gal));
    let ea = 2real * (k * (e * a));
    assert(0real <= ea && ea <= a) by (nonlinear_arith)
        requires
            ea == 2real * (k * (e * a)),
            0real <= k <= 0x10000000000real,
            e * 0x20000000000000real == 1real,
            a >= 1real,
    ;
    assert((a + ea) * c <= 2real * g) by (nonlinear_arith)
        requires
            0real <= ea <= a,
            a * c <= g,
            c >= 0real,
    ;
    lemma_near_mul(area, exact, ea, p.gpa, c, 0real, a, c, 2real * g);
    let gal = area.times(p.gpa);
    let eg = e * g;
    let er = ea * c + a * 0real + 2real * (e * (2real * g));
    let keg = k * eg;
    assert(ea * c <= 2real * keg) by (nonlinear_arith)
        requires
            ea == 2real * (k * (e * a)),
            a * c <= g,
            k >= 0real,
            e > 0real,
            keg == k * eg,
            eg == e * g,
    ;
    assert(a * 0real == 0real && e * (2real * g) == 2real * eg) by (nonlinear_arith)
        requires
            eg == e * g,
    ;
    assert(0real <= keg && keg * 0x1000real <= g && eg > 0real) by (nonlinear_arith)
        requires
            keg == k * eg,
            eg == e * g,
            0real <= k <= 0x10000000000real,
            e * 0x20000000000000real == 1real,
            g >= 1real,
    ;
    let ee = 2real * keg + 4real * eg;
    assert(er <= ee && ee <= g);
    let gr = exact * c;
    assert(0real <= gr <= g) by (nonlinear_arith)
        requires
            0real <= exact <= a,
            c >= 0real,
            a * c <= g,
            gr == exact * c,
    ;
    // Gallons by the tank.
    let ql = 2real * g / d;
    assert(ql * d == 2real * g) by (nonlinear_arith)
        requires
            ql == 2real * g / d,
            d > 0real,
    ;
    assert(1real <= ql && 4real * ql <= t) by (nonlinear_arith)
        requires
            ql * d == 2real * g,
            d <= g,
            d > 0real,
            8real * g <= t * d,
    ;
    assert((gr + ee) / d <= ql) by (nonlinear_arith)
        requires
            ql == 2real * g / d,
            gr + ee <= 2real * g,
            d > 0real,
    ;
    assert(near(gal, gr, ee));
    lemma_near_div(gal, gr, ee, p.tank_gal, ql);
    let q = gal.over(p.tank_gal);
    let (s, f) = (gr / d, ee / d);
    assert(s * d == gr && f * d == ee) by (nonlinear_arith)
        requires
            s == gr / d,
            f == ee / d,
            d > 0real,
    ;
    let fe = f + 2real * (e * ql);
    assert(fe * d == ee + 4real * eg) by (nonlinear_arith)
        requires
            fe == f + 2real * (e * ql),
            f * d == ee,
            ql * d == 2real * g,
            eg == e * g,
    ;
    assert(f + s <= ql && f >= 0real && s >= 0real) by (nonlinear_arith)
        requires
            s * d == gr,
            f * d == ee,
            ql * d == 2real * g,
            gr + ee <= 2real * g,
            gr >= 0real,
            ee >= 0real,
            d > 0real,
    ;
    assert(e * ql <= ql) by (nonlinear_arith)
        requires
            e < 1real,
            e > 0real,
            ql >= 1real,
    ;
    let n = lemma_ceil_val(q);
    let nr = n as real;
    // A quotient of two numbers that are not below zero is not below zero.
    assert(n >= 0) by {
        lemma_quotient_sign(area, p.gpa, p.tank_gal);
    }
    assert(nr * d >= gr - (ee + 4real * eg)) by (nonlinear_arith)
        requires
            nr >= s - fe,
            s * d == gr,
            fe * d == ee + 4real * eg,
            d > 0real,
    ;
    assert((nr - 1real) * d <= gr + (ee + 4real * eg)) by (nonlinear_arith)
        requires
            nr - 1real <= s + fe,
            s * d == gr,
            fe * d == ee + 4real * eg,
            d > 0real,
    ;
    assert((k + 1real) * eg == keg + eg) by (nonlinear_arith)
        requires
            keg == k * eg,
    ;
    n
}

/// A product and a quotient of numbers that are not below zero are not below zero.
proof fn lemma_quotient_sign(a: Double, b: Double, c: Double)
    requires
        a.finite(),
        b.finite(),
        c.finite(),
        val(a) >= 0real,
        val(b) >= 0real,
        val(c) > 0real,
        a.times(b).finite(),
        a.times(b).over(c).finite(),
    ensures
        val(a.times(b).over(c)) >= 0real,
{
    lemma_val(a);
    lemma_val(b);
    lemma_val(c);
    lemma_val(a.times(b));
    lemma_val(a.times(b).over(c));
    lemma_one();
    reveal(Double::spec_times);
    reveal(Double::spec_over);
    let w = crate::whole::one_units() as real;
    let (x, y, z) = (val(a), val(b), val(c));
    assert(x * w >= 0real && y * w >= 0real && z * w > 0real) by (nonlinear_arith)
        requires
            x >= 0real,
            y >= 0real,
            z > 0real,
            w > 0real,
    ;
    assert(crate::double::magnitude(0) == 0);
    let p = a.times(b);
    let q = p.over(c);
    assert(p.units() >= 0) by {
        if a.neg() || b.neg() {
            lemma_no_size(a);
            lemma_no_size(b);
            lemma_nothing_rounds();
            assert(a.size() * b.size() == 0) by (nonlinear_arith)
                requires
                    a.size() == 0 || b.size() == 0,
            ;
        }
    }
    lemma_no_size(p);
    lemma_no_size(c);
    if p.neg() != c.neg() && q.units() < 0 {
        lemma_nothing_rounds_by(c.size());
        assert(0 * crate::whole::one_units() == 0);
    }
    let v = val(q);
    assert(v >= 0real) by (nonlinear_arith)
        requires
            v * w >= 0real,
            w > 0real,
    ;
}

proof fn lemma_no_size(x: Double)
    ensures
        x.units() >= 0 && x.neg() ==> x.size() == 0,
{
}

proof fn lemma_nothing_rounds()
    ensures
        crate::double::round_bits(0, crate::whole::one_units()) == 0,
{
    lemma_one();
    lemma_nothing_rounds_by(crate::whole::one_units());
}

proof fn lemma_nothing_rounds_by(q: nat)
    requires
        q > 0,
    ensures
        crate::double::round_bits(0, q) == 0,
{
    assert(0 < TWO53 * q) by (nonlinear_arith)
        requires
            q > 0,
    ;
    assert(0nat / q == 0 && 0nat % q == 0) by (nonlinear_arith)
        requires
            q > 0,
    ;
}

// ---------------------------------------------------------------------------
// Blocks
// ---------------------------------------------------------------------------

/// A quotient of a length by a speed.
proof fn lemma_length_time(x: Double, v: Double, m: real)
    requires
        x.finite(),
        v.finite(),
        val(v) > 0real,
        val(x) >= 0real,
        val(x) / val(v) <= m,
        1real <= m <= huge(),
    ensures
        near(x.over(v), val(x) / val(v), 2real * (eps() * m)),
        val(x) / val(v) >= 0real,
{
    lemma_near_div(x, val(x), 0real, v, m);
    let d = val(v);
    let q = val(x) / d;
    assert(0real / d == 0real && q >= 0real) by (nonlinear_arith)
        requires
            q == val(x) / d,
            val(x) >= 0real,
            d > 0real,
    ;
}

/// A count of turns, each with its arc.
proof fn lemma_turn_times(n: i64, t: Double, arc: Double, v: Double, c: real, m: real)
    requires
        0 <= n < TWO53,
        within(t, c),
        within(arc, huge()),
        v.finite(),
        val(v) > 0real,
        val(t) + val(arc) / val(v) <= c,
        1real <= c,
        (n as real) * c <= m,
        c <= m,
        16real * m <= huge(),
    ensures
        near(
            Double::of_int(n).times(t.plus(arc.over(v))),
            (n as real) * (val(t) + val(arc) / val(v)),
            16real * (eps() * m),
        ),
        (n as real) * (val(t) + val(arc) / val(v)) >= 0real,
        (n as real) * (val(t) + val(arc) / val(v)) <= m,
{
    lemma_eps();
    lemma_one();
    let e = eps();
    let k = n as real;
    lemma_whole_val(n);
    let q = val(arc) / val(v);
    assert(q >= 0real) by (nonlinear_arith)
        requires
            q == val(arc) / val(v),
            val(arc) >= 0real,
            val(v) > 0real,
    ;
    lemma_length_time(arc, v, c);
    let ec = e * c;
    assert(0real < ec && ec <= c) by (nonlinear_arith)
        requires
            ec == e * c,
            0real < e < 1real,
            c >= 1real,
    ;
    assert(e * (4real * c) == 4real * ec) by (nonlinear_arith)
        requires
            ec == e * c,
    ;
    lemma_near_add(t, val(t), 0real, arc.over(v), q, 2real * ec, 4real * c);
    let one = t.plus(arc.over(v));
    let r = val(t) + q;
    assert(near(one, r, 6real * ec));
    let em = e * m;
    assert(k * ec <= em) by (nonlinear_arith)
        requires
            k * c <= m,
            ec == e * c,
            em == e * m,
            e > 0real,
    ;
    assert((k + 0real) * (r + 6real * ec) <= 2real * m) by (nonlinear_arith)
        requires
            k >= 0real,
            r <= c,
            k * c <= m,
            k * ec <= em,
            6real * em <= m,
    ;
    lemma_near_mul(Double::of_int(n), k, 0real, one, r, 6real * ec, k, r + 6real * ec, 2real * m);
    assert(0real * (r + 6real * ec) == 0real) by (nonlinear_arith);
    assert(k * (6real * ec) == 6real * (k * ec) && e * (2real * m) == 2real * em) by (nonlinear_arith)
        requires
            em == e * m,
    ;
    assert(0real <= k * r && k * r <= m) by (nonlinear_arith)
        requires
            k >= 0real,
            0real <= r <= c,
            k * c <= m,
    ;
}

/// The speeds of an aircraft are positive.
pub open spec fn speeds(p: AircraftParams) -> bool {
    &&& p.speed_fps.finite() && val(p.speed_fps) > 0real
    &&& p.dead_fps.finite() && val(p.dead_fps) > 0real
    &&& p.ferry_fps.finite() && val(p.ferry_fps) > 0real
}

/// The cost of a block is the time of what it sprays at the speed of spraying, of what it
/// flies with the booms off at the speed for that, and of a turn with its arc between one
/// run and the next and at every break. `c` bounds the time of a turn and `m` each of the
/// three; rounding is a 2^47th of `m`.
pub proof fn law_block_cost(plan: PlanView, p: AircraftParams, c: real, m: real)
    requires
        speeds(p),
        within(plan.spray_ft, huge()),
        within(plan.dead_ft, huge()),
        within(p.t_turn_s, c),
        within(p.arc_ft_per_turn, huge()),
        val(p.t_turn_s) + val(p.arc_ft_per_turn) / val(p.ferry_fps) <= c,
        1 <= plan.n_runs,
        0 <= plan.n_breaks,
        plan.n_runs + plan.n_breaks < TWO53,
        1real <= c <= m,
        ((plan.n_runs - 1 + plan.n_breaks) as real) * c <= m,
        val(plan.spray_ft) <= m * val(p.speed_fps),
        val(plan.dead_ft) <= m * val(p.dead_fps),
        16real * m <= huge(),
    ensures
        near(
            plan.block_cost(p),
            val(plan.spray_ft) / val(p.speed_fps) + val(plan.dead_ft) / val(p.dead_fps) + ((
            plan.n_runs - 1 + plan.n_breaks) as real) * (val(p.t_turn_s) + val(p.arc_ft_per_turn)
                / val(p.ferry_fps)),
            64real * (eps() * m),
        ),
{
    lemma_eps();
    lemma_one();
    let n = count_sum(turns_between(plan.n_runs), plan.n_breaks);
    assert(n == plan.n_runs - 1 + plan.n_breaks);
    let (x, y) = (val(plan.spray_ft) / val(p.speed_fps), val(plan.dead_ft) / val(p.dead_fps));
    lemma_at_most(val(plan.spray_ft), val(p.speed_fps), m);
    lemma_at_most(val(plan.dead_ft), val(p.dead_fps), m);
    lemma_length_time(plan.spray_ft, p.speed_fps, m);
    lemma_length_time(plan.dead_ft, p.dead_fps, m);
    lemma_turn_times(n, p.t_turn_s, p.arc_ft_per_turn, p.ferry_fps, c, m);
    let z = (n as real) * (val(p.t_turn_s) + val(p.arc_ft_per_turn) / val(p.ferry_fps));
    let (e, em) = (eps(), eps() * m);
    assert(0real < em && em * 0x10000000000000real <= m) by (nonlinear_arith)
        requires
            em == e * m,
            e * 0x20000000000000real == 1real,
            m >= 1real,
    ;
    assert(e * (4real * m) == 4real * em && e * (8real * m) == 8real * em) by (nonlinear_arith)
        requires
            em == e * m,
    ;
    let (a, b) = (plan.spray_ft.over(p.speed_fps), plan.dead_ft.over(p.dead_fps));
    lemma_near_add(a, x, 2real * em, b, y, 2real * em, 4real * m);
    lemma_near_add(
        a.plus(b),
        x + y,
        8real * em,
        Double::of_int(n).times(p.t_turn_s.plus(p.arc_ft_per_turn.over(p.ferry_fps))),
        z,
        16real * em,
        8real * m,
    );
}

/// A quotient is at most a bound.
proof fn lemma_at_most(x: real, v: real, m: real)
    requires
        x <= m * v,
        v > 0real,
    ensures
        x / v <= m,
{
    let q = x / v;
    assert(q * v == x) by (nonlinear_arith)
        requires
            q == x / v,
            v > 0real,
    ;
    assert(q <= m) by (nonlinear_arith)
        requires
            q * v == x,
            x <= m * v,
            v > 0real,
    ;
}

// ---------------------------------------------------------------------------
// Jobs
// ---------------------------------------------------------------------------

/// The time of `n` loads: `t` bounds their number, `c` a load's time.
proof fn lemma_load_times(n: Double, k: int, load: Double, cycle: Double, t: real, c: real, m: real)
    requires
        n.finite(),
        val(n) == k as real,
        0 <= k,
        k as real <= t,
        within(load, c),
        within(cycle, c),
        1real <= t,
        1real <= c,
        4real * (t * c) <= m,
        16real * m <= huge(),
    ensures
        near(
            n.times(load.plus(cycle)),
            (k as real) * (val(load) + val(cycle)),
            8real * (eps() * m),
        ),
        0real <= (k as real) * (val(load) + val(cycle)) <= m,
{
    lemma_eps();
    lemma_one();
    let e = eps();
    let kr = k as real;
    let r = val(load) + val(cycle);
    assert(1real <= t * c && c <= t * c) by (nonlinear_arith)
        requires
            1real <= t,
            1real <= c,
    ;
    lemma_near_add(load, val(load), 0real, cycle, val(cycle), 0real, 2real * c);
    let (ec, em) = (e * c, e * m);
    assert(e * (2real * c) == 2real * ec) by (nonlinear_arith)
        requires
            ec == e * c,
    ;
    assert(0real < ec && ec <= c) by (nonlinear_arith)
        requires
            ec == e * c,
            0real < e < 1real,
            c >= 1real,
    ;
    assert((kr + 0real) * (4real * c) <= m && kr * r >= 0real && kr * r <= m) by (nonlinear_arith)
        requires
            0real <= kr <= t,
            0real <= r <= 2real * c,
            4real * (t * c) <= m,
            c >= 1real,
    ;
    lemma_near_mul(n, kr, 0real, load.plus(cycle), r, 2real * ec, kr, 4real * c, m);
    assert(0real * (4real * c) == 0real) by (nonlinear_arith);
    assert(kr * (2real * ec) <= em) by (nonlinear_arith)
        requires
            0real <= kr <= t,
            4real * (t * c) <= m,
            ec == e * c,
            em == e * m,
            c >= 1real,
            e > 0real,
    ;
}

/// The time of `n` ferries out and back: `t` bounds their number, `f` the way.
proof fn lemma_ferry_times(n: Double, k: int, ft: Double, v: Double, t: real, f: real, m: real)
    requires
        n.finite(),
        val(n) == k as real,
        0 <= k,
        k as real <= t,
        within(ft, f),
        v.finite(),
        val(v) > 0real,
        1real <= t,
        1real <= f,
        8real * (t * f) <= m * val(v),
        64real * (t * f) <= huge(),
        1real <= m,
        16real * m <= huge(),
    ensures
        near(
            Double::of_int(2).times(n).times(ft).over(v),
            2real * (k as real) * val(ft) / val(v),
            8real * (eps() * m),
        ),
        0real <= 2real * (k as real) * val(ft) / val(v) <= m,
{
    lemma_eps();
    lemma_one();
    lemma_whole_val(2);
    let e = eps();
    let kr = k as real;
    let (x, d) = (val(ft), val(v));
    let two = Double::of_int(2);
    let (et, em) = (e * t, e * m);
    let tf = t * f;
    assert(t <= tf && f <= tf && 1real <= tf) by (nonlinear_arith)
        requires
            1real <= t,
            1real <= f,
            tf == t * f,
    ;
    lemma_near_mul(two, 2real, 0real, n, kr, 0real, 2real, t, 2real * t);
    assert(0real * t == 0real && 2real * 0real == 0real && e * (2real * t) == 2real * et)
        by (nonlinear_arith)
        requires
            et == e * t,
    ;
    let a = two.times(n);
    assert(0real < et && et <= t) by (nonlinear_arith)
        requires
            et == e * t,
            0real < e < 1real,
            1real <= t,
    ;
    assert(et * f <= t * f) by (nonlinear_arith)
        requires
            et <= t,
            f >= 1real,
    ;
    assert((2real * t + 4real * et) * f == 2real * (t * f) + 4real * (et * f)) by (nonlinear_arith);
    lemma_near_mul(a, 2real * kr, 4real * et, ft, x, 0real, 2real * t, f, 8real * tf);
    let b = a.times(ft);
    let r = 2real * kr * x;
    let etf = e * tf;
    assert(4real * et * f == 4real * etf && e * (8real * tf) == 8real * etf && 2real * t * 0real
        == 0real) by (nonlinear_arith)
        requires
            et == e * t,
            tf == t * f,
            etf == e * tf,
    ;
    assert(near(b, r, 20real * etf));
    assert(0real <= r && r <= 2real * tf) by (nonlinear_arith)
        requires
            0real <= kr <= t,
            0real <= x <= f,
            tf == t * f,
            r == 2real * kr * x,
    ;
    assert(0real < etf && etf * 0x1000real <= tf) by (nonlinear_arith)
        requires
            etf == e * tf,
            e * 0x20000000000000real == 1real,
            tf >= 1real,
    ;
    lemma_at_most(r + 20real * etf, d, m);
    lemma_near_div(b, r, 20real * etf, v, m);
    lemma_at_most(r, d, m);
    let md = m * d;
    assert(e * (8real * tf) <= e * md) by (nonlinear_arith)
        requires
            8real * tf <= md,
            e > 0real,
    ;
    assert(em * d == e * md) by (nonlinear_arith)
        requires
            em == e * m,
            md == m * d,
    ;
    assert(3real * em * d == 3real * (em * d)) by (nonlinear_arith);
    lemma_at_most(20real * etf, d, 3real * em);
    assert(r / d >= 0real) by (nonlinear_arith)
        requires
            r >= 0real,
            d > 0real,
    ;
}

/// The time of the turns among `k` blocks.
proof fn lemma_among(k: nat, p: AircraftParams, m: real)
    requires
        k <= most(),
        within(p.t_turn_s, m),
        1real <= m,
        ((k + 1) as real) * val(p.t_turn_s) <= m,
        16real * m <= huge(),
    ensures
        near(turns_among(k, p), ((k - 1) as real) * val(p.t_turn_s), 8real * (eps() * m)),
        -m <= ((k - 1) as real) * val(p.t_turn_s) <= m,
{
    lemma_eps();
    lemma_one();
    lemma_whole_val(1);
    let e = eps();
    let em = e * m;
    let x = val(p.t_turn_s);
    let n = k as i64;
    lemma_whole_val(n);
    assert(Double::spec_of_count(k) == Double::of_int(n)) by {
        reveal(Double::spec_of_count);
        reveal(Double::spec_of_int);
    }
    let kr = k as real;
    let c = kr + 1real;
    lemma_near_sub(Double::of_int(n), kr, 0real, Double::of_int(1), 1real, 0real, c);
    let a = Double::of_int(n).minus(Double::of_int(1));
    let ec = e * c;
    assert(0real < ec && ec <= c) by (nonlinear_arith)
        requires
            ec == e * c,
            0real < e < 1real,
            1real <= c,
    ;
    let r = kr - 1real;
    assert((c + ec) * x <= 2real * m) by (nonlinear_arith)
        requires
            ec <= c,
            c * x <= m,
            x >= 0real,
    ;
    lemma_near_mul(a, r, ec, p.t_turn_s, x, 0real, c, x, 2real * m);
    assert(ec * x <= em && c * 0real == 0real && e * (2real * m) == 2real * em) by (nonlinear_arith)
        requires
            ec == e * c,
            em == e * m,
            c * x <= m,
            e > 0real,
    ;
    assert(-m <= r * x && r * x <= m) by (nonlinear_arith)
        requires
            -c <= r <= c,
            x >= 0real,
            c * x <= m,
    ;
}

/// What a job is made up of is of moderate size: `a` bounds the acres, `g` the gallons, `t`
/// the loads, `c` the times of a load and of its approach, `f` the way of a ferry, and `m`
/// each of the times that the job adds up.
pub open spec fn moderate_job(
    plans: Seq<PlanView>,
    p: AircraftParams,
    extra_ft: Double,
    a: real,
    g: real,
    t: real,
    c: real,
    f: real,
    m: real,
) -> bool {
    let k = plans.len() as int;
    let v = val(p.ferry_fps);
    &&& k <= most()
    &&& none_negative(areas(plans))
    &&& none_negative(block_costs(plans, p))
    &&& exact_sum(areas(plans), k) <= a
    &&& exact_sum(block_costs(plans, p), k) <= m
    &&& 1real <= a
    &&& 4real * a <= huge()
    &&& carried(p, a, g, t)
    &&& 1real <= t
    &&& within(p.t_load_s, c) && within(p.t_cycle_s, c)
    &&& 1real <= c
    &&& 4real * (t * c) <= m
    &&& p.ferry_fps.finite() && v > 0real
    &&& within(p.ferry_ft, f)
    &&& 1real <= f
    &&& 8real * (t * f) <= m * v
    &&& 64real * (t * f) <= huge()
    &&& within(p.t_turn_s, m)
    &&& ((k + 1) as real) * val(p.t_turn_s) <= m
    &&& within(extra_ft, m * v)
    &&& 1real <= m
    &&& 64real * m <= huge()
}

/// The loads of a job carry what it sprays: their number is the least whole number of tanks
/// that hold the gallons for all acres, but for rounding. The time of the job is that of its
/// blocks, of a load with its approach and of a ferry out and back for each load, of a turn
/// from one block to the next, and of the extra way.
pub proof fn law_loads_carry(
    plans: Seq<PlanView>,
    p: AircraftParams,
    extra_ft: Double,
    a: real,
    g: real,
    t: real,
    c: real,
    f: real,
    m: real,
) -> (n: int)
    requires
        moderate_job(plans, p, extra_ft, a, g, t, c, f, m),
    ensures
        ({
            let k = plans.len() as int;
            let gallons = exact_sum(areas(plans), k) * val(p.gpa);
            let off = 8real * (((k + 1) as real) * (eps() * g));
            let nr = n as real;
            &&& 0 <= n
            &&& gallons - off <= nr * val(p.tank_gal)
            &&& (nr - 1real) * val(p.tank_gal) <= gallons + off
            &&& near(
                job_time(plans, p, extra_ft),
                exact_sum(block_costs(plans, p), k) + nr * (val(p.t_load_s) + val(p.t_cycle_s))
                    + 2real * nr * val(p.ferry_ft) / val(p.ferry_fps) + ((k - 1) as real) * val(
                    p.t_turn_s,
                ) + val(extra_ft) / val(p.ferry_fps),
                2real * (((k + 40) as real) * (eps() * m)),
            )
        }),
{
    lemma_eps();
    lemma_one();
    lemma_zero();
    let k = plans.len() as int;
    let kr = k as real;
    let e = eps();
    law_areas_add_up(plans, a);
    law_costs_add_up(plans, p, m);
    let area = area_sum(plans, k);
    let exact = exact_sum(areas(plans), k);
    lemma_val_order(Double::zero(), area);
    let (d, q) = (val(p.tank_gal), val(p.gpa));
    let eg = e * g;
    assert((kr + 1real) * eg >= 0real && kr * eg >= 0real) by (nonlinear_arith)
        requires
            kr >= 0real,
            eg == e * g,
            e > 0real,
            g >= 1real,
    ;
    let gr = exact * q;
    assert(gr >= 0real) by (nonlinear_arith)
        requires
            exact >= 0real,
            q >= 0real,
            gr == exact * q,
    ;
    let (loads, n): (Double, int) = if Double::zero().lt(area) {
        let n = lemma_loads(area, exact, kr, a, p, g, t);
        (area.times(p.gpa).over(p.tank_gal).ceil(), n)
    } else {
        assert(gr <= 2real * (kr * eg)) by (nonlinear_arith)
            requires
                gr == exact * q,
                exact <= 2real * (kr * (e * a)),
                a * q <= g,
                q >= 0real,
                kr >= 0real,
                e > 0real,
                eg == e * g,
        ;
        assert((kr + 1real) * eg == kr * eg + eg) by (nonlinear_arith);
        assert(0real * d == 0real && (0real - 1real) * d == -d) by (nonlinear_arith);
        (Double::zero(), 0)
    };
    let nr = n as real;
    let em = e * m;
    assert(0real < em && em * 0x10000000000000real <= m) by (nonlinear_arith)
        requires
            em == e * m,
            e * 0x20000000000000real == 1real,
            m >= 1real,
    ;
    lemma_load_times(loads, n, p.t_load_s, p.t_cycle_s, t, c, m);
    lemma_ferry_times(loads, n, p.ferry_ft, p.ferry_fps, t, f, m);
    lemma_among(plans.len(), p, m);
    lemma_at_most(val(extra_ft), val(p.ferry_fps), m);
    lemma_length_time(extra_ft, p.ferry_fps, m);
    let x0 = cost_sum(plans, p, k);
    let x1 = loads.times(p.t_load_s.plus(p.t_cycle_s));
    let x2 = Double::of_int(2).times(loads).times(p.ferry_ft).over(p.ferry_fps);
    let x3 = turns_among(plans.len(), p);
    let x4 = extra_ft.over(p.ferry_fps);
    let r0 = exact_sum(block_costs(plans, p), k);
    let r1 = nr * (val(p.t_load_s) + val(p.t_cycle_s));
    let r2 = 2real * nr * val(p.ferry_ft) / val(p.ferry_fps);
    let r3 = ((k - 1) as real) * val(p.t_turn_s);
    let r4 = val(extra_ft) / val(p.ferry_fps);
    let ke = 2real * (kr * em);
    assert(0real <= ke && ke <= m) by (nonlinear_arith)
        requires
            ke == 2real * (kr * em),
            0real <= kr <= 0x10000000000real,
            em * 0x10000000000000real <= m,
            em > 0real,
    ;
    assert(e * (8real * m) == 8real * em) by (nonlinear_arith)
        requires
            em == e * m,
    ;
    lemma_near_add(x0, r0, ke, x1, r1, 8real * em, 8real * m);
    lemma_near_add(x0.plus(x1), r0 + r1, ke + 16real * em, x2, r2, 8real * em, 8real * m);
    lemma_near_add(x0.plus(x1).plus(x2), r0 + r1 + r2, ke + 32real * em, x3, r3, 8real * em, 8real * m);
    lemma_near_add(
        x0.plus(x1).plus(x2).plus(x3),
        r0 + r1 + r2 + r3,
        ke + 48real * em,
        x4,
        r4,
        2real * em,
        8real * m,
    );
    assert(((k + 40) as real) * em == kr * em + 40real * em) by (nonlinear_arith)
        requires
            kr == k as real,
    ;
    n
}

/// More gallons on an acre take a load's and a ferry's time for every further load: the times
/// of two jobs that differ in gallons per acre alone differ by that, but for rounding.
pub proof fn law_gallons_take_loads(
    plans: Seq<PlanView>,
    p: AircraftParams,
    gpa: Double,
    extra_ft: Double,
    a: real,
    g: real,
    t: real,
    c: real,
    f: real,
    m: real,
) -> (n: (int, int))
    requires
        moderate_job(plans, p, extra_ft, a, g, t, c, f, m),
        moderate_job(plans, (AircraftParams { gpa, ..p }), extra_ft, a, g, t, c, f, m),
    ensures
        ({
            let k = plans.len() as int;
            let acres = exact_sum(areas(plans), k);
            let off = 8real * (((k + 1) as real) * (eps() * g));
            let further = (n.1 - n.0) as real;
            let d = val(p.tank_gal);
            &&& acres * val(p.gpa) - off <= (n.0 as real) * d
            &&& ((n.0 - 1) as real) * d <= acres * val(p.gpa) + off
            &&& acres * val(gpa) - off <= (n.1 as real) * d
            &&& ((n.1 - 1) as real) * d <= acres * val(gpa) + off
            &&& abs(
                val(job_time(plans, (AircraftParams { gpa, ..p }), extra_ft)) - val(
                    job_time(plans, p, extra_ft),
                ) - further * (val(p.t_load_s) + val(p.t_cycle_s) + 2real * val(p.ferry_ft) / val(
                    p.ferry_fps,
                )),
            ) <= 4real * (((k + 40) as real) * (eps() * m))
        }),
{
    let q = AircraftParams { gpa, ..p };
    assert(block_costs(plans, q) =~= block_costs(plans, p));
    let x = law_loads_carry(plans, p, extra_ft, a, g, t, c, f, m);
    let y = law_loads_carry(plans, q, extra_ft, a, g, t, c, f, m);
    let (xr, yr, w) = (x as real, y as real, (y - x) as real);
    let l = val(p.t_load_s) + val(p.t_cycle_s);
    let (s, v) = (val(p.ferry_ft), val(p.ferry_fps));
    let z = 2real * s / v;
    lemma_share(xr, s, v);
    lemma_share(yr, s, v);
    assert(w * (l + z) == w * l + w * z) by (nonlinear_arith);
    assert(w * l == yr * l - xr * l && w * z == yr * z - xr * z) by (nonlinear_arith)
        requires
            w == yr - xr,
    ;
    (x, y)
}

/// A multiple of a quotient.
proof fn lemma_share(n: real, s: real, v: real)
    requires
        v > 0real,
    ensures
        2real * n * s / v == n * (2real * s / v),
{
    let z = 2real * s / v;
    let y = 2real * n * s / v;
    assert(z * v == 2real * s && y * v == 2real * n * s) by (nonlinear_arith)
        requires
            z == 2real * s / v,
            y == 2real * n * s / v,
            v > 0real,
    ;
    assert(n * z * v == n * (z * v) && n * (2real * s) == 2real * n * s) by (nonlinear_arith);
    assert(y == n * z) by (nonlinear_arith)
        requires
            y * v == n * z * v,
            v > 0real,
    ;
}

// ---------------------------------------------------------------------------
// Plans
// ---------------------------------------------------------------------------

/// What a plan flown alone is made up of is of moderate size: `a` bounds the acres, `g` the gallons, `t`
/// the loads, `c` the times of a turn and of a load, `f` the way of a ferry, and `m` each of the times that
/// the plan adds up.
pub open spec fn moderate_plan(
    plan: PlanView,
    p: AircraftParams,
    a: real,
    g: real,
    t: real,
    c: real,
    f: real,
    m: real,
) -> bool {
    &&& speeds(p)
    &&& within(plan.spray_ft, huge()) && val(plan.spray_ft) <= m * val(p.speed_fps)
    &&& within(plan.dead_ft, huge()) && val(plan.dead_ft) <= m * val(p.dead_fps)
    &&& within(plan.area_ac, a)
    &&& 1 <= plan.n_runs < TWO53
    &&& 1real <= a
    &&& 4real * a <= huge()
    &&& carried(p, a, g, t)
    &&& 1real <= t
    &&& within(p.t_turn_s, c) && within(p.t_load_s, c)
    &&& 1real <= c
    &&& ((plan.n_runs - 1) as real) * c <= m
    &&& t * c <= m
    &&& within(p.ferry_ft, f)
    &&& 1real <= f
    &&& 8real * (t * f) <= m * val(p.ferry_fps)
    &&& 64real * (t * f) <= huge()
    &&& 1real <= m
    &&& 64real * m <= huge()
}

/// The time of a plan flown alone is that of what it sprays and of what it flies with the booms off, each
/// at its speed, of a turn from each run to the next, and of a load and a ferry out and back for as many
/// tanks as hold the gallons for its acres, but for rounding.
pub proof fn law_plan_time(
    plan: PlanView,
    p: AircraftParams,
    a: real,
    g: real,
    t: real,
    c: real,
    f: real,
    m: real,
) -> (n: int)
    requires
        moderate_plan(plan, p, a, g, t, c, f, m),
    ensures
        ({
            let gallons = val(plan.area_ac) * val(p.gpa);
            let off = 8real * (eps() * g);
            let nr = n as real;
            &&& 0 <= n
            &&& gallons - off <= nr * val(p.tank_gal)
            &&& (nr - 1real) * val(p.tank_gal) <= gallons + off
            &&& near(
                plan.time_s(p),
                val(plan.spray_ft) / val(p.speed_fps) + val(plan.dead_ft) / val(p.dead_fps) + ((plan.n_runs
                    - 1) as real) * val(p.t_turn_s) + nr * val(p.t_load_s) + 2real * nr * val(p.ferry_ft) / val(
                    p.ferry_fps,
                ),
                64real * (eps() * m),
            )
        }),
{
    lemma_eps();
    let e = eps();
    let em = e * m;
    assert(0real < em && em * 0x10000000000000real <= m) by (nonlinear_arith)
        requires
            em == e * m,
            e * 0x20000000000000real == 1real,
            m >= 1real,
    ;
    assert(0real * (e * a) == 0real && (0real + 1real) * (e * g) == e * g) by (nonlinear_arith);
    let n = lemma_loads(plan.area_ac, val(plan.area_ac), 0real, a, p, g, t);
    let nr = n as real;
    let loads = plan.area_ac.times(p.gpa).over(p.tank_gal).ceil();
    lemma_at_most(val(plan.spray_ft), val(p.speed_fps), m);
    lemma_at_most(val(plan.dead_ft), val(p.dead_fps), m);
    lemma_length_time(plan.spray_ft, p.speed_fps, m);
    lemma_length_time(plan.dead_ft, p.dead_fps, m);
    let k = turns_between(plan.n_runs);
    assert(k == plan.n_runs - 1);
    let kr = k as real;
    lemma_whole_val(k);
    lemma_multiple(Double::of_int(k), kr, p.t_turn_s, kr, c, m);
    lemma_multiple(loads, nr, p.t_load_s, t, c, m);
    lemma_ferry_times(loads, n, p.ferry_ft, p.ferry_fps, t, f, m);
    let (a0, a1) = (plan.spray_ft.over(p.speed_fps), plan.dead_ft.over(p.dead_fps));
    let (r0, r1) = (val(plan.spray_ft) / val(p.speed_fps), val(plan.dead_ft) / val(p.dead_fps));
    let (a2, r2) = (Double::of_int(k).times(p.t_turn_s), kr * val(p.t_turn_s));
    let (a3, r3) = (loads.times(p.t_load_s), nr * val(p.t_load_s));
    let (a4, r4) = (
        Double::of_int(2).times(loads).times(p.ferry_ft).over(p.ferry_fps),
        2real * nr * val(p.ferry_ft) / val(p.ferry_fps),
    );
    assert(e * (8real * m) == 8real * em) by (nonlinear_arith)
        requires
            em == e * m,
    ;
    lemma_near_add(a0, r0, 2real * em, a1, r1, 2real * em, 8real * m);
    lemma_near_add(a0.plus(a1), r0 + r1, 12real * em, a2, r2, 2real * em, 8real * m);
    lemma_near_add(a0.plus(a1).plus(a2), r0 + r1 + r2, 22real * em, a3, r3, 2real * em, 8real * m);
    lemma_near_add(a0.plus(a1).plus(a2).plus(a3), r0 + r1 + r2 + r3, 32real * em, a4, r4, 8real * em, 8real * m);
    n
}

/// A count times a time.
proof fn lemma_multiple(n: Double, k: real, x: Double, t: real, c: real, m: real)
    requires
        n.finite(),
        val(n) == k,
        0real <= k <= t,
        within(x, c),
        t * c <= m,
        1real <= m <= huge(),
    ensures
        near(n.times(x), k * val(x), 2real * (eps() * m)),
        0real <= k * val(x) <= m,
{
    assert(0real <= k * val(x) && k * val(x) <= t * c && k * val(x) <= m) by (nonlinear_arith)
        requires
            0real <= k <= t,
            0real <= val(x) <= c,
            t * c <= m,
    ;
    assert(0real * val(x) == 0real && k * 0real == 0real) by (nonlinear_arith);
    assert((k + 0real) * val(x) == k * val(x));
    lemma_near_mul(n, k, 0real, x, val(x), 0real, k, val(x), m);
}

/// The coverage of an area of at least a square foot is its share that strips of a swath along what is
/// sprayed would take, but for rounding: times the area it is the length times the swath.
pub proof fn law_coverage(plan: PlanView, area: Double, p: AircraftParams, l: real, m: real)
    requires
        within(plan.spray_ft, l),
        within(p.swath_ft, l),
        area.finite(),
        1real <= val(area),
        1real <= l,
        l * l <= m,
        4real * m <= huge(),
        1real <= m,
    ensures
        near(
            plan.coverage(area, p),
            val(plan.spray_ft) * val(p.swath_ft) / val(area),
            16real * (eps() * m),
        ),
{
    lemma_eps();
    lemma_whole_val(1);
    let d = val(area);
    lemma_val_order(area, Double::of_int(1));
    lemma_val_order(Double::of_int(1), area);
    let most = area.max(Double::of_int(1));
    assert(most.finite() && val(most) == d);
    let (x, y) = (val(plan.spray_ft), val(p.swath_ft));
    lemma_multiple(plan.spray_ft, x, p.swath_ft, l, l, m);
    let w = plan.spray_ft.times(p.swath_ft);
    let r = x * y;
    let (e, em) = (eps(), eps() * m);
    assert(0real < em && em <= m) by (nonlinear_arith)
        requires
            em == e * m,
            0real < e < 1real,
            1real <= m,
    ;
    let b = r + 2real * em;
    assert(b <= 4real * m * d) by (nonlinear_arith)
        requires
            b <= 4real * m,
            1real <= d,
            m >= 1real,
    ;
    lemma_at_most(b, d, 4real * m);
    assert(abs(r) == r);
    lemma_near_div(w, r, 2real * em, most, 4real * m);
    assert(2real * em <= 2real * em * d) by (nonlinear_arith)
        requires
            em > 0real,
            1real <= d,
    ;
    lemma_at_most(2real * em, d, 2real * em);
    assert(e * (4real * m) == 4real * em) by (nonlinear_arith)
        requires
            em == e * m,
    ;
}

/// The gap that is flown through: with the booms off it takes less time than the turns around it, but for
/// rounding. `c` bounds the speed, the time of a turn and the number of turns.
pub proof fn law_gap_threshold(p: AircraftParams, c: real, m: real)
    requires
        within(p.dead_fps, c),
        within(p.t_turn_s, c),
        within(p.gap_break_turns, c),
        1real <= c,
        2real * c * c * c <= m,
        4real * m <= huge(),
    ensures
        near(
            p.gap_threshold_ft(),
            val(p.dead_fps) * (val(p.gap_break_turns) * val(p.t_turn_s)),
            4real * (eps() * m),
        ),
{
    lemma_eps();
    let (x, y, z) = (val(p.dead_fps), val(p.t_turn_s), val(p.gap_break_turns));
    let (cc, ccc) = (c * c, c * c * c);
    assert(1real <= cc && cc <= ccc && 2real * c * c * c == 2real * ccc) by (nonlinear_arith)
        requires
            1real <= c,
            cc == c * c,
            ccc == c * c * c,
    ;
    lemma_multiple(p.dead_fps, x, p.t_turn_s, c, c, cc);
    let a = p.dead_fps.times(p.t_turn_s);
    let (e, ec) = (eps(), 2real * (eps() * cc));
    assert(0real < ec && ec <= cc) by (nonlinear_arith)
        requires
            ec == 2real * (e * cc),
            0real < e < 1real / 0x10000000000000real,
            1real <= cc,
    ;
    let r = x * y;
    assert((cc + ec) * c <= m) by (nonlinear_arith)
        requires
            ec <= cc,
            cc == c * c,
            ccc == c * c * c,
            2real * ccc <= m,
            1real <= c,
    ;
    lemma_near_mul(a, r, ec, p.gap_break_turns, z, 0real, cc, c, m);
    assert(ec * c == 2real * (e * ccc) && cc * 0real == 0real) by (nonlinear_arith)
        requires
            ec == 2real * (e * cc),
            cc == c * c,
            ccc == c * c * c,
    ;
    assert(2real * (e * ccc) <= e * m) by (nonlinear_arith)
        requires
            2real * ccc <= m,
            e > 0real,
    ;
    assert(r * z == x * (z * y)) by (nonlinear_arith)
        requires
            r == x * y,
    ;
}

/// The lengths of steps.
pub open spec fn step_lengths(s: Seq<Step>) -> Seq<Double> {
    Seq::new(s.len(), |i: int| s[i].0.3)
}

proof fn lemma_step_length(s: Seq<Step>, n: int)
    requires
        0 <= n <= s.len(),
    ensures
        step_length(s, n) == folded(step_lengths(s), n),
    decreases n,
{
    if n > 0 {
        lemma_step_length(s, n - 1);
    }
}

/// The time in a block, whichever way it is entered, is that of all its steps at the speed of spraying and of a turn
/// between one flown line and the next, but for rounding. `l` bounds the length, `m` both times.
pub proof fn law_time_in_block(plan: PlanView, cfg: Config, p: AircraftParams, l: real, c: real, m: real)
    requires
        ({
            let s = steps_of(plan.lines, cfg);
            let k = lines_flown(plan.lines, plan.lines.len() as int);
            &&& 0 < s.len() <= most()
            &&& none_negative(step_lengths(s))
            &&& exact_sum(step_lengths(s), s.len() as int) <= l
            &&& 0 < k <= most()
            &&& (k as real) * c <= m
        }),
        p.speed_fps.finite(),
        1real <= val(p.speed_fps),
        within(p.t_turn_s, c),
        1real <= l,
        2real * l <= m,
        16real * m <= huge(),
    ensures
        ({
            let s = steps_of(plan.lines, cfg);
            let k = lines_flown(plan.lines, plan.lines.len() as int);
            let n = s.len() as real;
            near(
                plan.stat(cfg, p).time,
                exact_sum(step_lengths(s), s.len() as int) / val(p.speed_fps) + ((k - 1) as real) * val(p.t_turn_s),
                n * (eps() * m) + 16real * (eps() * m),
            ) && plan.stat(cfg, p).n_turns == k - 1
        }),
{
    lemma_eps();
    let s = steps_of(plan.lines, cfg);
    let k = lines_flown(plan.lines, plan.lines.len() as int);
    let n = s.len() as int;
    let nr = n as real;
    let xs = step_lengths(s);
    lemma_step_length(s, n);
    lemma_folded(xs, n, l);
    let len = step_length(s, n);
    let r = exact_sum(xs, n);
    let e = eps();
    let (el, em) = (e * l, e * m);
    lemma_le(2real * l, m, e);
    lemma_assoc(e, 2real, l);
    assert(2real * el <= em);
    lemma_le(1real, m, e);
    assert(0real < em && em * 0x10000000000000real <= m) by (nonlinear_arith)
        requires
            em == e * m,
            e * 0x20000000000000real == 1real,
            m >= 1real,
    ;
    let off = 2real * (nr * el);
    assert(0real <= off && off <= nr * em) by (nonlinear_arith)
        requires
            off == 2real * (nr * el),
            2real * el <= em,
            0real <= nr,
            0real <= el,
    ;
    assert(nr * em <= m) by (nonlinear_arith)
        requires
            0real <= nr <= 0x10000000000real,
            em * 0x10000000000000real <= m,
            em > 0real,
    ;
    let v = val(p.speed_fps);
    let (q0, q1, q2) = ((abs(r) + off) / v, off / v, r / v);
    let b = abs(r) + off;
    assert(q0 <= b) by (nonlinear_arith)
        requires
            q0 == b / v,
            v >= 1real,
            b >= 0real,
    ;
    assert(q1 <= off) by (nonlinear_arith)
        requires
            q1 == off / v,
            v >= 1real,
            off >= 0real,
    ;
    assert(0real <= q2 && q2 <= r) by (nonlinear_arith)
        requires
            q2 == r / v,
            v >= 1real,
            r >= 0real,
    ;
    lemma_near_div(len, r, off, p.speed_fps, 2real * m);
    lemma_assoc(e, 2real, m);
    let t = (k - 1) as i64;
    assert(plan.stat(cfg, p).n_turns == t);
    lemma_whole_val(t);
    let kr = t as real;
    assert(kr * c <= m) by {
        lemma_le(kr, k as real, c);
    }
    lemma_multiple(Double::of_int(t), kr, p.t_turn_s, kr, c, m);
    lemma_assoc(e, 4real, m);
    lemma_near_add(
        len.over(p.speed_fps),
        q2,
        nr * em + 4real * em,
        Double::of_int(t).times(p.t_turn_s),
        kr * val(p.t_turn_s),
        2real * em,
        4real * m,
    );
}

/// The lengths that plans spray.
pub open spec fn spray_lengths(plans: Seq<PlanView>) -> Seq<Double> {
    Seq::new(plans.len(), |i: int| plans[i].spray_ft)
}

proof fn lemma_spray_sum(plans: Seq<PlanView>, n: int)
    requires
        0 <= n <= plans.len(),
    ensures
        spray_sum(plans, n) == folded(spray_lengths(plans), n),
    decreases n,
{
    if n > 0 {
        lemma_spray_sum(plans, n - 1);
    }
}

/// What is told of a field: the length sprayed is that of all its plans and the acres are its square feet over 43560,
/// but for rounding, and the bearing is that of the first plan.
pub proof fn law_figures_of_a_field(h: Hypot, g: GlobeMeaning, plans: Seq<PlanView>, area: Double, center: Pt, m: real)
    requires
        0 < plans.len() <= most(),
        none_negative(spray_lengths(plans)),
        exact_sum(spray_lengths(plans), plans.len() as int) <= m,
        within(area, m),
        1real <= m,
        4real * m <= huge(),
    ensures
        ({
            let f = lines_of_plans(h, g, plans, area, center);
            &&& near(
                f.total_spray_distance_ft,
                exact_sum(spray_lengths(plans), plans.len() as int),
                2real * ((plans.len() as real) * (eps() * m)),
            )
            &&& near(f.field_area_acres, val(area) / 43560real, 2real * (eps() * m))
            &&& f.bearing_deg == plans[0].angle_deg
        }),
{
    lemma_spray_sum(plans, plans.len() as int);
    lemma_folded(spray_lengths(plans), plans.len() as int, m);
    lemma_whole_val(43560);
    assert((abs(val(area)) + 0real) / 43560real <= m);
    lemma_near_div(area, val(area), 0real, Double::of_int(43560), m);
    assert(0real / 43560real == 0real);
}

} // verus!
