//! Laws of flights: the turns and ferries of a job, how blocks are entered, and where the trailer stands.
use vstd::prelude::*;

use crate::cost::count_sum;
use crate::double::{Double, TWO53};
use crate::geom::{dist_by, same_place, Pt};
use crate::near::{
    abs, eps, huge, lemma_assoc, lemma_dist, lemma_eps, lemma_le, lemma_near_add, lemma_near_div, lemma_near_mul,
    lemma_near_sub, lemma_val_order, lemma_whole_val, lemma_zero, near, val,
};
use crate::ordering::Flight;
use crate::params::{acre_ft2, AircraftParams};
use crate::plan::{LinePart, PlanView};
use crate::simulate::{
    corner, gallons_per_ft, heading, no_length, run_corner, setup_time, trailer_target, Job, Leg, SimResult, State,
};
use crate::timing::within;
use crate::traverse::{
    backwards_at, law_line_changes, line_at, line_changes, line_steps, lines_flown, steps_of, steps_to, Config, Step,
};

verus! {

// ---------------------------------------------------------------------------
// Turns and ferries
// ---------------------------------------------------------------------------

/// Where a block is entered in a configuration.
pub open spec fn entry_of(plan: PlanView, cfg: Config) -> Pt {
    steps_of(plan.lines, cfg)[0].0.0
}

/// Where a block is left in a configuration.
pub open spec fn exit_of(plan: PlanView, cfg: Config) -> Pt {
    steps_of(plan.lines, cfg).last().0.1
}

/// The turns of the first `n` blocks of an order: between the lines of each, at each of its breaks, and
/// from each block to the next.
pub open spec fn turns_in(plans: Seq<PlanView>, order: Seq<(usize, Config)>, n: int) -> int
    decreases n,
{
    if n <= 0 {
        0
    } else {
        let plan = plans[order[n - 1].0 as int];
        turns_in(plans, order, n - 1) + lines_flown(plan.lines, plan.lines.len() as int) - 1 + plan.n_breaks + (if n
            > 1 {
            1int
        } else {
            0
        })
    }
}

/// Block `i` of an order is there, has a part, and is not left at the trailer.
pub open spec fn apart_from_trailer(job: Job, plans: Seq<PlanView>, order: Seq<(usize, Config)>, i: int) -> bool {
    let plan = plans[order[i].0 as int];
    &&& order[i].0 < plans.len()
    &&& plan.lines.len() <= usize::MAX
    &&& lines_flown(plan.lines, plan.lines.len() as int) > 0
    &&& 0 <= plan.n_breaks
    &&& !same_place(exit_of(plan, order[i].1), job.trailer)
}

/// A pass takes no turn, and ferries only for a load.
proof fn lemma_leg(job: Job, leg: Leg, u: Pt)
    ensures
        ({
            let r = job.flown(leg, u).res;
            &&& r.n_turns == leg.res.n_turns
            &&& r.n_loads >= leg.res.n_loads
            &&& r.n_loads == leg.res.n_loads < i64::MAX ==> r.ferry_ft == leg.res.ferry_ft && r.ferry_s
                == leg.res.ferry_s
        }),
    decreases
            (if leg.tank == job.p.tank_gal {
                0int
            } else {
                1int
            }),
            leg.remaining.key() + u64::MAX,
{
    let next = job.sprayed(leg, u);
    if no_length().lt(leg.remaining) && no_length().lt(next.remaining) && !(leg.tank == job.p.tank_gal
        && !next.remaining.lt(leg.remaining)) {
        lemma_leg(job, job.reloaded(next), u);
    }
}

proof fn lemma_steps(job: Job, s: State, steps: Seq<Step>, n: int)
    requires
        0 <= n <= steps.len(),
    ensures
        ({
            let r = job.steps_flown(s, steps, n);
            &&& n > 0 ==> r.pos == steps[n - 1].0.1
            &&& r.res.n_loads >= s.res.n_loads
            &&& r.res.n_loads == s.res.n_loads < i64::MAX ==> r.res.ferry_ft == s.res.ferry_ft && r.res.ferry_s
                == s.res.ferry_s
            &&& 0 <= s.res.n_turns && s.res.n_turns + line_changes(steps, n) <= i64::MAX ==> r.res.n_turns
                == s.res.n_turns + line_changes(steps, n)
        }),
    decreases n,
{
    if n > 0 {
        lemma_steps(job, s, steps, n - 1);
        let before = job.steps_flown(s, steps, n - 1);
        let (a, b, spray, l) = steps[n - 1].0;
        let at = if n > 1 && steps[n - 1].1 != steps[n - 2].1 {
            job.turned_to(before, a)
        } else {
            before
        };
        if spray {
            lemma_leg(job, Leg { res: at.res, tank: at.tank, cur: a, remaining: l }, heading(a, b, l));
        }
    }
}

/// The number of turns in a first part of an order is not over that in the whole.
proof fn lemma_turns_grow(job: Job, plans: Seq<PlanView>, order: Seq<(usize, Config)>, n: int, k: int)
    requires
        0 <= n <= k <= order.len(),
        forall|i: int| 0 <= i < order.len() ==> #[trigger] apart_from_trailer(job, plans, order, i),
    ensures
        0 <= turns_in(plans, order, n) <= turns_in(plans, order, k),
    decreases k,
{
    if k > 0 {
        assert(apart_from_trailer(job, plans, order, k - 1));
        if n < k {
            lemma_turns_grow(job, plans, order, n, k - 1);
        } else {
            lemma_turns_grow(job, plans, order, k - 1, k - 1);
        }
    }
}

proof fn lemma_blocks(job: Job, plans: Seq<PlanView>, order: Seq<(usize, Config)>, setup_s: Double, n: int)
    requires
        0 <= n <= order.len(),
        forall|i: int| 0 <= i < order.len() ==> #[trigger] apart_from_trailer(job, plans, order, i),
        same_place(job.trailer, job.trailer),
        turns_in(plans, order, order.len() as int) <= i64::MAX,
    ensures
        ({
            let r = job.blocks_flown(job.start(setup_s), plans, order, n);
            let (first, last) = (plans[order[0].0 as int], plans[order[n - 1].0 as int]);
            let out = dist_by(job.hypot, job.trailer, entry_of(first, order[0].1));
            &&& n == 0 ==> r == job.start(setup_s)
            &&& n > 0 ==> r.pos == exit_of(last, order[n - 1].1)
            &&& r.res.n_turns == turns_in(plans, order, n)
            &&& r.res.n_loads >= 1
            &&& n > 0 && r.res.n_loads == 1 ==> r.res.ferry_ft == Double::zero().plus(out) && r.res.ferry_s
                == Double::zero().plus(out.over(job.p.ferry_fps))
        }),
    decreases n,
{
    if n > 0 {
        lemma_blocks(job, plans, order, setup_s, n - 1);
        lemma_turns_grow(job, plans, order, n - 1, n);
        lemma_turns_grow(job, plans, order, n, order.len() as int);
        let s = job.blocks_flown(job.start(setup_s), plans, order, n - 1);
        let (b, cfg) = order[n - 1];
        let plan = plans[b as int];
        assert(apart_from_trailer(job, plans, order, n - 1));
        if n > 1 {
            assert(apart_from_trailer(job, plans, order, n - 2));
        }
        law_line_changes(plan.lines, cfg);
        let steps = steps_of(plan.lines, cfg);
        let res = SimResult {
            turn_s: s.res.turn_s.plus(Double::of_int(plan.n_breaks).times(job.p.t_turn_s)),
            n_turns: count_sum(s.res.n_turns, plan.n_breaks),
            ..s.res
        };
        let at = job.entered(State { res, ..s }, steps[0].0.0);
        lemma_steps(job, at, steps, steps.len() as int);
    }
}

/// The turns of a flight are those between the lines of each block, at each break, and from one block to
/// the next. Where no load is taken but the first, it ferries from the trailer to the entry of the first
/// block and from the exit of the last one to the trailer, and nowhere else.
pub proof fn law_turns_and_ferries(job: Job, plans: Seq<PlanView>, order: Seq<(usize, Config)>, setup_s: Double)
    requires
        order.len() > 0,
        forall|i: int| 0 <= i < order.len() ==> #[trigger] apart_from_trailer(job, plans, order, i),
        !job.trailer.x.nan(),
        !job.trailer.y.nan(),
        turns_in(plans, order, order.len() as int) <= i64::MAX,
    ensures
        ({
            let r = job.run(plans, order, setup_s);
            let (first, last) = (plans[order[0].0 as int], plans[order.last().0 as int]);
            let out = dist_by(job.hypot, job.trailer, entry_of(first, order[0].1));
            let home = dist_by(job.hypot, exit_of(last, order.last().1), job.trailer);
            let v = job.p.ferry_fps;
            &&& r.n_turns == turns_in(plans, order, order.len() as int)
            &&& r.n_loads == 1 ==> r.ferry_ft == Double::zero().plus(out).plus(home) && r.ferry_s
                == Double::zero().plus(out.over(v)).plus(home.over(v))
        }),
{
    assert(same_place(job.trailer, job.trailer));
    lemma_blocks(job, plans, order, setup_s, order.len() as int);
}

// ---------------------------------------------------------------------------
// Entries and exits
// ---------------------------------------------------------------------------

/// The end of a line where flying it starts.
pub open spec fn line_start(line: Seq<LinePart>, backwards: bool) -> Pt {
    if backwards {
        line.last().1
    } else {
        line[0].0
    }
}

proof fn lemma_first_step(lines: Seq<Seq<LinePart>>, cfg: Config, m: int)
    requires
        1 <= m <= lines.len(),
        forall|i: int| 0 <= i < lines.len() ==> (#[trigger] lines[i]).len() > 0,
    ensures
        steps_to(lines, cfg, m).len() > 0,
        steps_to(lines, cfg, m)[0].0.0 == line_start(lines[line_at(lines.len() as int, cfg, 0)], cfg.1),
        steps_to(lines, cfg, m).last().0.1 == line_start(
            lines[line_at(lines.len() as int, cfg, m - 1)],
            !backwards_at(cfg, m - 1),
        ),
    decreases m,
{
    let li = line_at(lines.len() as int, cfg, m - 1);
    let before = steps_to(lines, cfg, m - 1);
    let more = line_steps(lines[li], li as usize, backwards_at(cfg, m - 1), lines[li].len() as int);
    assert(lines[li].len() > 0);
    assert(steps_to(lines, cfg, m) == before + more);
    assert((before + more).last() == more.last());
    if m > 1 {
        lemma_first_step(lines, cfg, m - 1);
        assert((before + more)[0] == before[0]);
    } else {
        assert(before.len() == 0);
        assert((before + more)[0] == more[0]);
    }
}

/// A block is entered at its first line, or at the last if lines are flown in reverse, at the start of that
/// line, or at its end if it is flown backwards. Lines are flown forwards and backwards by turns: a block with
/// an odd number of lines is left at the other end of its last flown line than it was entered on the first, one
/// with an even number at the same end.
pub proof fn law_entry_and_exit(plan: PlanView, reverse: bool, backwards: bool, p: AircraftParams)
    requires
        plan.lines.len() > 0,
        forall|i: int| 0 <= i < plan.lines.len() ==> (#[trigger] plan.lines[i]).len() > 0,
    ensures
        ({
            let stat = plan.stat((reverse, backwards), p);
            let n = plan.lines.len() as int;
            let (first, last) = if reverse {
                (n - 1, 0int)
            } else {
                (0int, n - 1)
            };
            &&& stat.entry == Some(
                if backwards {
                    plan.lines[first].last().1
                } else {
                    plan.lines[first][0].0
                },
            )
            &&& stat.exit == Some(
                if backwards == (n % 2 == 0) {
                    plan.lines[last].last().1
                } else {
                    plan.lines[last][0].0
                },
            )
            &&& stat.entry == Some(entry_of(plan, (reverse, backwards)))
            &&& stat.exit == Some(exit_of(plan, (reverse, backwards)))
        }),
{
    lemma_first_step(plan.lines, (reverse, backwards), plan.lines.len() as int);
}

// ---------------------------------------------------------------------------
// Where the trailer stands
// ---------------------------------------------------------------------------

/// Coordinates are finite.
pub open spec fn finite_runs(plans: Seq<PlanView>) -> bool {
    forall|i: int, k: int|
        0 <= i < plans.len() && 0 <= k < plans[i].runs.len() ==> {
            let (a, b, _) = #[trigger] plans[i].runs[k];
            a.x.finite() && a.y.finite() && b.x.finite() && b.y.finite()
        }
}

/// A coordinate so far, if there is one, is not over another.
spec fn not_over(c: Double, x: Double) -> bool {
    c.finite() && val(c) <= val(x)
}

proof fn lemma_min(c: Double, x: Double)
    requires
        c.finite() || c == Double::infinity(),
        x.finite(),
    ensures
        c.min(x).finite(),
        val(c.min(x)) <= val(x),
        c.finite() ==> val(c.min(x)) <= val(c),
        c.min(x) == c || c.min(x) == x,
{
    if c.finite() {
        lemma_val_order(c, x);
        lemma_val_order(x, c);
    }
}

proof fn lemma_run_corner(runs: Seq<(Pt, Pt, bool)>, from: Pt, n: int)
    requires
        0 <= n <= runs.len(),
        forall|k: int|
            0 <= k < runs.len() ==> {
                let (a, b, _) = #[trigger] runs[k];
                a.x.finite() && a.y.finite() && b.x.finite() && b.y.finite()
            },
        from.x.finite() && from.y.finite() || from.x == Double::infinity() && from.y == Double::infinity(),
    ensures
        ({
            let c = run_corner(runs, from, n);
            &&& n > 0 || from.x.finite() ==> c.x.finite() && c.y.finite()
            &&& n == 0 ==> c == from
            &&& from.x.finite() ==> val(c.x) <= val(from.x) && val(c.y) <= val(from.y)
            &&& forall|k: int|
                0 <= k < n ==> {
                    let (a, b, _) = #[trigger] runs[k];
                    not_over(c.x, a.x) && not_over(c.x, b.x) && not_over(c.y, a.y) && not_over(c.y, b.y)
                }
            &&& c.x == from.x || exists|k: int|
                0 <= k < n && ((#[trigger] runs[k]).0.x == c.x || runs[k].1.x == c.x)
            &&& c.y == from.y || exists|k: int|
                0 <= k < n && ((#[trigger] runs[k]).0.y == c.y || runs[k].1.y == c.y)
        }),
    decreases n,
{
    if n > 0 {
        lemma_run_corner(runs, from, n - 1);
        let c = run_corner(runs, from, n - 1);
        let (a, b, s) = runs[n - 1];
        assert(runs[n - 1] == (a, b, s));
        lemma_min(c.x, a.x);
        lemma_min(c.x.min(a.x), b.x);
        lemma_min(c.y, a.y);
        lemma_min(c.y.min(a.y), b.y);
    }
}

proof fn lemma_corner(plans: Seq<PlanView>, n: int)
    requires
        0 <= n <= plans.len(),
        finite_runs(plans),
    ensures
        ({
            let c = corner(plans, n);
            &&& c.x.finite() && c.y.finite() || c.x == Double::infinity() && c.y == Double::infinity()
            &&& forall|i: int, k: int|
                0 <= i < n && 0 <= k < plans[i].runs.len() ==> {
                    let (a, b, _) = #[trigger] plans[i].runs[k];
                    not_over(c.x, a.x) && not_over(c.x, b.x) && not_over(c.y, a.y) && not_over(c.y, b.y)
                }
            &&& c.x.finite() ==> exists|i: int, k: int|
                0 <= i < n && 0 <= k < plans[i].runs.len() && ((#[trigger] plans[i].runs[k]).0.x == c.x
                    || plans[i].runs[k].1.x == c.x)
            &&& c.y.finite() ==> exists|i: int, k: int|
                0 <= i < n && 0 <= k < plans[i].runs.len() && ((#[trigger] plans[i].runs[k]).0.y == c.y
                    || plans[i].runs[k].1.y == c.y)
        }),
    decreases n,
{
    if n > 0 {
        lemma_corner(plans, n - 1);
        let from = corner(plans, n - 1);
        let runs = plans[n - 1].runs;
        assert forall|k: int| 0 <= k < runs.len() implies {
            let (a, b, _) = #[trigger] runs[k];
            a.x.finite() && a.y.finite() && b.x.finite() && b.y.finite()
        } by {
            assert(plans[n - 1].runs[k] == runs[k]);
        }
        lemma_run_corner(runs, from, runs.len() as int);
        let c = corner(plans, n);
        assert forall|i: int, k: int| 0 <= i < n && 0 <= k < plans[i].runs.len() implies {
            let (a, b, _) = #[trigger] plans[i].runs[k];
            not_over(c.x, a.x) && not_over(c.x, b.x) && not_over(c.y, a.y) && not_over(c.y, b.y)
        } by {
            if i == n - 1 {
                assert(plans[i].runs[k] == runs[k]);
            }
        }
        if c.x.finite() {
            if exists|k: int| 0 <= k < runs.len() && ((#[trigger] runs[k]).0.x == c.x || runs[k].1.x == c.x) {
                let k = choose|k: int|
                    0 <= k < runs.len() && ((#[trigger] runs[k]).0.x == c.x || runs[k].1.x == c.x);
                assert(plans[n - 1].runs[k].0.x == c.x || plans[n - 1].runs[k].1.x == c.x);
            } else {
                let (i, k) = choose|i: int, k: int|
                    0 <= i < n - 1 && 0 <= k < plans[i].runs.len() && ((#[trigger] plans[i].runs[k]).0.x == from.x
                        || plans[i].runs[k].1.x == from.x);
                assert(plans[i].runs[k].0.x == c.x || plans[i].runs[k].1.x == c.x);
            }
        }
        if c.y.finite() {
            if exists|k: int| 0 <= k < runs.len() && ((#[trigger] runs[k]).0.y == c.y || runs[k].1.y == c.y) {
                let k = choose|k: int|
                    0 <= k < runs.len() && ((#[trigger] runs[k]).0.y == c.y || runs[k].1.y == c.y);
                assert(plans[n - 1].runs[k].0.y == c.y || plans[n - 1].runs[k].1.y == c.y);
            } else {
                let (i, k) = choose|i: int, k: int|
                    0 <= i < n - 1 && 0 <= k < plans[i].runs.len() && ((#[trigger] plans[i].runs[k]).0.y == from.y
                        || plans[i].runs[k].1.y == from.y);
                assert(plans[i].runs[k].0.y == c.y || plans[i].runs[k].1.y == c.y);
            }
        }
    }
}

/// The corner by which the trailer is placed is a foot to the left of and a foot below all runs, but for
/// rounding: `at` are runs, by plan and number, with the leftmost and with the lowest end.
pub proof fn law_corner_outside_all_runs(plans: Seq<PlanView>, i: int, k: int, m: real) -> (at: (
    (int, int),
    (int, int),
))
    requires
        finite_runs(plans),
        0 <= i < plans.len(),
        0 <= k < plans[i].runs.len(),
        forall|u: int, v: int|
            0 <= u < plans.len() && 0 <= v < plans[u].runs.len() ==> {
                let (a, b, _) = #[trigger] plans[u].runs[v];
                abs(val(a.x)) <= m && abs(val(a.y)) <= m && abs(val(b.x)) <= m && abs(val(b.y)) <= m
            },
        1real <= m,
        4real * m <= huge(),
    ensures
        ({
            let t = trailer_target(plans);
            let (a, b, _) = plans[i].runs[k];
            let e = 2real * (eps() * m);
            let ((ix, kx), (iy, ky)) = at;
            &&& 0 <= ix < plans.len() && 0 <= kx < plans[ix].runs.len()
            &&& 0 <= iy < plans.len() && 0 <= ky < plans[iy].runs.len()
            &&& t.x.finite() && t.y.finite()
            &&& val(t.x) <= val(a.x) - 1real + e && val(t.x) <= val(b.x) - 1real + e
            &&& val(t.y) <= val(a.y) - 1real + e && val(t.y) <= val(b.y) - 1real + e
            &&& near(t.x, val(plans[ix].runs[kx].0.x) - 1real, e) || near(t.x, val(plans[ix].runs[kx].1.x) - 1real, e)
            &&& near(t.y, val(plans[iy].runs[ky].0.y) - 1real, e) || near(t.y, val(plans[iy].runs[ky].1.y) - 1real, e)
        }),
{
    lemma_corner(plans, plans.len() as int);
    let c = corner(plans, plans.len() as int);
    let (a, b, s) = plans[i].runs[k];
    assert(not_over(c.x, a.x) && not_over(c.x, b.x) && not_over(c.y, a.y) && not_over(c.y, b.y));
    let n = plans.len() as int;
    let (ix, kx) = choose|u: int, v: int|
        0 <= u < n && 0 <= v < plans[u].runs.len() && ((#[trigger] plans[u].runs[v]).0.x == c.x
            || plans[u].runs[v].1.x == c.x);
    let (iy, ky) = choose|u: int, v: int|
        0 <= u < n && 0 <= v < plans[u].runs.len() && ((#[trigger] plans[u].runs[v]).0.y == c.y
            || plans[u].runs[v].1.y == c.y);
    let (ax, bx, sx) = plans[ix].runs[kx];
    let (ay, by, sy) = plans[iy].runs[ky];
    assert(abs(val(c.x)) <= m && abs(val(c.y)) <= m);
    lemma_whole_val(1);
    lemma_eps();
    lemma_near_sub(c.x, val(c.x), 0real, Double::of_int(1), 1real, 0real, 2real * m);
    lemma_near_sub(c.y, val(c.y), 0real, Double::of_int(1), 1real, 0real, 2real * m);
    lemma_assoc(eps(), 2real, m);
    ((ix, kx), (iy, ky))
}

// ---------------------------------------------------------------------------
// Times and gallons
// ---------------------------------------------------------------------------

/// The time before a flight is that of the set-up and of every survey, but for rounding.
pub proof fn law_setup_time(p: AircraftParams, n: i64, c: real, m: real)
    requires
        within(p.t_setup_s, m),
        within(p.t_survey_s, c),
        0 <= n < TWO53,
        (n as real) * c <= m,
        1real <= m,
        8real * m <= huge(),
    ensures
        near(
            setup_time(p, n),
            val(p.t_setup_s) + (n as real) * val(p.t_survey_s),
            8real * (eps() * m),
        ),
{
    lemma_eps();
    lemma_whole_val(n);
    let (k, x) = (n as real, val(p.t_survey_s));
    assert(0real <= k * x && k * x <= m) by (nonlinear_arith)
        requires
            0real <= k,
            0real <= x <= c,
            k * c <= m,
    ;
    assert((k + 0real) * x == k * x && 0real * x == 0real && k * 0real == 0real);
    lemma_near_mul(Double::of_int(n), k, 0real, p.t_survey_s, x, 0real, k, x, m);
    let em = eps() * m;
    lemma_le(eps(), 1real, m);
    lemma_le(0real, eps(), m);
    assert(0real * m == 0real);
    lemma_near_add(
        p.t_setup_s,
        val(p.t_setup_s),
        0real,
        Double::of_int(n).times(p.t_survey_s),
        k * x,
        2real * em,
        6real * m,
    );
    lemma_assoc(eps(), 6real, m);
}

/// All the time of a job is that of set-up, spraying, turns, dead air, ferries and loads, but for rounding.
pub proof fn law_total_time(r: SimResult, m: real)
    requires
        within(r.setup_s, m),
        within(r.spray_s, m),
        within(r.turn_s, m),
        within(r.dead_s, m),
        within(r.ferry_s, m),
        within(r.load_s, m),
        1real <= m,
        16real * m <= huge(),
    ensures
        near(
            r.total_s(),
            val(r.setup_s) + val(r.spray_s) + val(r.turn_s) + val(r.dead_s) + val(r.ferry_s) + val(r.load_s),
            40real * (eps() * m),
        ),
{
    lemma_eps();
    let em = eps() * m;
    lemma_assoc(eps(), 8real, m);
    lemma_assoc(0x20000000000000real, eps(), m);
    assert(em * 0x20000000000000real == m);
    let (a, b, c, d, e, f) = (
        val(r.setup_s),
        val(r.spray_s),
        val(r.turn_s),
        val(r.dead_s),
        val(r.ferry_s),
        val(r.load_s),
    );
    let s1 = r.setup_s.plus(r.spray_s);
    lemma_near_add(r.setup_s, a, 0real, r.spray_s, b, 0real, 8real * m);
    let s2 = s1.plus(r.turn_s);
    lemma_near_add(s1, a + b, 8real * em, r.turn_s, c, 0real, 8real * m);
    let s3 = s2.plus(r.dead_s);
    lemma_near_add(s2, a + b + c, 16real * em, r.dead_s, d, 0real, 8real * m);
    let s4 = s3.plus(r.ferry_s);
    lemma_near_add(s3, a + b + c + d, 24real * em, r.ferry_s, e, 0real, 8real * m);
    lemma_near_add(s4, a + b + c + d + e, 32real * em, r.load_s, f, 0real, 8real * m);
}

/// A foot of a pass takes the gallons for an acre by the share of an acre, of 43560 square feet, that a swath
/// covers on it, but for rounding.
pub proof fn law_gallons_on_an_acre(p: AircraftParams, c: real, m: real)
    requires
        within(p.swath_ft, c),
        within(p.gpa, c),
        1real <= c,
        c * c <= m,
        4real * m <= huge(),
    ensures
        near(gallons_per_ft(p), val(p.swath_ft) * val(p.gpa) / 43560real, 4real * (eps() * m)),
{
    lemma_eps();
    lemma_whole_val(43560);
    let (x, y) = (val(p.swath_ft), val(p.gpa));
    assert(0real <= x * y && x * y <= m && 1real <= m) by (nonlinear_arith)
        requires
            0real <= x <= c,
            0real <= y <= c,
            1real <= c,
            c * c <= m,
    ;
    assert((x + 0real) * y == x * y && 0real * y == 0real && x * 0real == 0real);
    lemma_near_mul(p.swath_ft, x, 0real, p.gpa, y, 0real, x, y, m);
    let em = eps() * m;
    lemma_le(eps(), 1real, m);
    lemma_le(0real, eps(), m);
    assert(0real * m == 0real);
    let r = x * y;
    assert((abs(r) + 2real * em) / 43560real <= m);
    lemma_near_div(p.swath_ft.times(p.gpa), r, 2real * em, acre_ft2(), m);
    assert(2real * em / 43560real <= em);
}

// ---------------------------------------------------------------------------
// Single moves
// ---------------------------------------------------------------------------

/// A time or a length has grown by an amount, but for rounding.
pub open spec fn grown_by(before: Double, after: Double, by: real, e: real) -> bool {
    near(after, val(before) + by, e)
}

/// What a job has taken so far is of moderate size.
pub open spec fn moderate(r: SimResult, m: real) -> bool {
    &&& within(r.turn_s, m) && within(r.dead_s, m) && within(r.ferry_s, m) && within(r.load_s, m)
    &&& within(r.dead_ft, m) && within(r.ferry_ft, m)
    &&& 0 <= r.n_turns < i64::MAX && 0 <= r.n_loads < i64::MAX
    &&& 1real <= m
    &&& 64real * m <= huge()
}

/// A speed of a foot per second and more.
pub open spec fn fast(v: Double) -> bool {
    v.finite() && 1real <= val(v)
}

/// A length at a speed.
proof fn lemma_time(d: Double, r: real, e: real, v: Double, m: real)
    requires
        near(d, r, e),
        fast(v),
        abs(r) + e <= m,
        0real <= e,
        1real <= m <= huge(),
    ensures
        near(d.over(v), r / val(v), e + 2real * (eps() * m)),
        abs(r / val(v)) <= m,
        r >= 0real ==> r / val(v) >= 0real,
{
    let y = val(v);
    let (q, u, w) = ((abs(r) + e) / y, e / y, r / y);
    let x = abs(r) + e;
    assert(q <= x) by (nonlinear_arith)
        requires
            q == x / y,
            1real <= y,
            x >= 0real,
    ;
    assert(u <= e) by (nonlinear_arith)
        requires
            u == e / y,
            1real <= y,
            e >= 0real,
    ;
    assert(w * y == r) by (nonlinear_arith)
        requires
            w == r / y,
            1real <= y,
    ;
    assert(abs(w) <= abs(r) && (r >= 0real ==> w >= 0real)) by (nonlinear_arith)
        requires
            w * y == r,
            1real <= y,
            abs(w) == (if w < 0real {
                -w
            } else {
                w
            }),
            abs(r) == (if r < 0real {
                -r
            } else {
                r
            }),
    ;
    lemma_near_div(d, r, e, v, m);
}

proof fn lemma_grows(x: Double, d: Double, r: real, e: real, m: real)
    requires
        within(x, m),
        near(d, r, e),
        abs(r) <= 4real * m,
        0real <= e <= m,
        1real <= m,
        64real * m <= huge(),
    ensures
        grown_by(x, x.plus(d), r, e + 8real * (eps() * m)),
{
    lemma_near_add(x, val(x), 0real, d, r, e, 8real * m);
    lemma_assoc(eps(), 8real, m);
}

proof fn lemma_step_size(m: real)
    requires
        1real <= m,
    ensures
        0real < eps() * m,
        eps() * m * 0x20000000000000real == m,
        eps() * (2real * m) == 2real * (eps() * m),
        eps() * (4real * m) == 4real * (eps() * m),
{
    lemma_eps();
    lemma_le(1real, m, eps());
    lemma_assoc(0x20000000000000real, eps(), m);
    assert(1real * m == m);
    lemma_assoc(eps(), 2real, m);
    lemma_assoc(eps(), 4real, m);
}

/// A turn onto another line takes the time of a turn and of its arc at the speed of a ferry. What the way
/// is longer than two swaths is flown in dead air, at the speed for that; a shorter way adds nothing. Nothing
/// else is taken.
pub proof fn law_turn(job: Job, s: State, a: Pt, m: real)
    requires
        moderate(s.res, m),
        within(dist_by(job.hypot, s.pos, a), m),
        within(job.p.swath_ft, m),
        within(job.p.t_turn_s, m),
        within(job.p.arc_ft_per_turn, m),
        fast(job.p.ferry_fps),
        fast(job.p.dead_fps),
    ensures
        ({
            let (r, q) = (s.res, job.turned_to(s, a).res);
            let p = job.p;
            let beyond = val(dist_by(job.hypot, s.pos, a)) - 2real * val(p.swath_ft);
            let extra = if beyond > 0real {
                beyond
            } else {
                0real
            };
            let e = 64real * (eps() * m);
            &&& grown_by(r.turn_s, q.turn_s, val(p.t_turn_s) + val(p.arc_ft_per_turn) / val(p.ferry_fps), e)
            &&& q.n_turns == r.n_turns + 1
            &&& grown_by(r.dead_ft, q.dead_ft, extra, e)
            &&& grown_by(r.dead_s, q.dead_s, extra / val(p.dead_fps), e)
            &&& (q.setup_s, q.spray_s, q.ferry_s, q.load_s, q.n_loads, q.ferry_ft) == (
                r.setup_s,
                r.spray_s,
                r.ferry_s,
                r.load_s,
                r.n_loads,
                r.ferry_ft,
            )
            &&& (job.turned_to(s, a).tank, job.turned_to(s, a).pos) == (s.tank, s.pos)
        }),
{
    lemma_step_size(m);
    lemma_zero();
    lemma_whole_val(2);
    let em = eps() * m;
    let p = job.p;
    let d = dist_by(job.hypot, s.pos, a);
    let w = Double::of_int(2).times(p.swath_ft);
    let x = val(p.swath_ft);
    assert(2real * m == (2real + 0real) * m && 0real * m == 0real);
    lemma_near_mul(Double::of_int(2), 2real, 0real, p.swath_ft, x, 0real, 2real, m, 2real * m);
    lemma_near_sub(d, val(d), 0real, w, 2real * x, 4real * em, 4real * m);
    let extra = d.minus(w);
    let beyond = val(d) - 2real * x;
    assert(near(extra, beyond, 8real * em));
    lemma_val_order(Double::zero(), extra);
    let r = if beyond > 0real {
        beyond
    } else {
        0real
    };
    let y = val(p.dead_fps);
    if Double::zero().lt(extra) {
        assert(near(extra, r, 8real * em));
        lemma_time(extra, r, 8real * em, p.dead_fps, 2real * m);
        lemma_grows(s.res.dead_ft, extra, r, 8real * em, m);
        lemma_grows(s.res.dead_s, extra.over(p.dead_fps), r / y, 16real * em, m);
    } else {
        assert(beyond <= 8real * em);
        assert(0real <= r && r <= 8real * em);
        let u = r / y;
        assert(0real <= u && u <= r) by (nonlinear_arith)
            requires
                u == r / y,
                1real <= y,
                0real <= r,
        ;
    }
    lemma_time(p.arc_ft_per_turn, val(p.arc_ft_per_turn), 0real, p.ferry_fps, m);
    let z = val(p.arc_ft_per_turn) / val(p.ferry_fps);
    lemma_near_add(p.t_turn_s, val(p.t_turn_s), 0real, p.arc_ft_per_turn.over(p.ferry_fps), z, 2real * em, 4real * m);
    lemma_grows(
        s.res.turn_s,
        p.t_turn_s.plus(p.arc_ft_per_turn.over(p.ferry_fps)),
        val(p.t_turn_s) + z,
        8real * em,
        m,
    );
}

/// The way to a block: from the trailer it is a ferry, at the speed for that. From elsewhere it is flown in dead
/// air, at the speed for that, and takes the time of a turn on top.
pub proof fn law_way_to_a_block(job: Job, s: State, entry: Pt, m: real)
    requires
        moderate(s.res, m),
        within(dist_by(job.hypot, s.pos, entry), m),
        within(job.p.t_turn_s, m),
        fast(job.p.ferry_fps),
        fast(job.p.dead_fps),
    ensures
        ({
            let (r, q) = (s.res, job.entered(s, entry).res);
            let p = job.p;
            let d = val(dist_by(job.hypot, s.pos, entry));
            let e = 64real * (eps() * m);
            &&& same_place(s.pos, job.trailer) ==> {
                &&& grown_by(r.ferry_ft, q.ferry_ft, d, e)
                &&& grown_by(r.ferry_s, q.ferry_s, d / val(p.ferry_fps), e)
                &&& (q.dead_ft, q.dead_s, q.n_turns) == (r.dead_ft, r.dead_s, r.n_turns)
            }
            &&& !same_place(s.pos, job.trailer) ==> {
                &&& grown_by(r.dead_ft, q.dead_ft, d, e)
                &&& grown_by(r.dead_s, q.dead_s, d / val(p.dead_fps) + val(p.t_turn_s), e)
                &&& q.n_turns == r.n_turns + 1
                &&& (q.ferry_ft, q.ferry_s) == (r.ferry_ft, r.ferry_s)
            }
            &&& (q.setup_s, q.spray_s, q.turn_s, q.load_s, q.n_loads) == (
                r.setup_s,
                r.spray_s,
                r.turn_s,
                r.load_s,
                r.n_loads,
            )
            &&& job.entered(s, entry).tank == s.tank
        }),
{
    lemma_step_size(m);
    let em = eps() * m;
    let p = job.p;
    let d = dist_by(job.hypot, s.pos, entry);
    lemma_time(d, val(d), 0real, p.ferry_fps, m);
    lemma_time(d, val(d), 0real, p.dead_fps, m);
    lemma_grows(s.res.ferry_ft, d, val(d), 0real, m);
    lemma_grows(s.res.ferry_s, d.over(p.ferry_fps), val(d) / val(p.ferry_fps), 2real * em, m);
    lemma_grows(s.res.dead_ft, d, val(d), 0real, m);
    let q = val(d) / val(p.dead_fps);
    lemma_near_add(d.over(p.dead_fps), q, 2real * em, p.t_turn_s, val(p.t_turn_s), 0real, 4real * m);
    lemma_grows(s.res.dead_s, d.over(p.dead_fps).plus(p.t_turn_s), q + val(p.t_turn_s), 8real * em, m);
}

/// A load takes the way to the trailer and back at the speed of a ferry, the time to load and that around it.
/// It fills the tank, and leaves the aircraft where it was, with as much to spray.
pub proof fn law_reload(job: Job, leg: Leg, m: real)
    requires
        moderate(leg.res, m),
        within(dist_by(job.hypot, leg.cur, job.trailer), m),
        within(dist_by(job.hypot, job.trailer, leg.cur), m),
        within(job.p.t_load_s, m),
        within(job.p.t_cycle_s, m),
        fast(job.p.ferry_fps),
    ensures
        ({
            let (r, q) = (leg.res, job.reloaded(leg).res);
            let p = job.p;
            let d = val(dist_by(job.hypot, leg.cur, job.trailer)) + val(
                dist_by(job.hypot, job.trailer, leg.cur),
            );
            let e = 64real * (eps() * m);
            &&& grown_by(r.ferry_ft, q.ferry_ft, d, e)
            &&& grown_by(r.ferry_s, q.ferry_s, d / val(p.ferry_fps), e)
            &&& grown_by(r.load_s, q.load_s, val(p.t_load_s) + val(p.t_cycle_s), e)
            &&& q.n_loads == r.n_loads + 1
            &&& (q.setup_s, q.spray_s, q.turn_s, q.dead_s, q.n_turns, q.dead_ft) == (
                r.setup_s,
                r.spray_s,
                r.turn_s,
                r.dead_s,
                r.n_turns,
                r.dead_ft,
            )
            &&& job.reloaded(leg).tank == p.tank_gal
            &&& (job.reloaded(leg).cur, job.reloaded(leg).remaining) == (leg.cur, leg.remaining)
        }),
{
    lemma_step_size(m);
    let em = eps() * m;
    let p = job.p;
    let (a, b) = (dist_by(job.hypot, leg.cur, job.trailer), dist_by(job.hypot, job.trailer, leg.cur));
    let v = val(p.ferry_fps);
    lemma_time(a, val(a), 0real, p.ferry_fps, m);
    lemma_time(b, val(b), 0real, p.ferry_fps, m);
    let (x, y) = (val(a) / v, val(b) / v);
    assert((val(a) + val(b)) / v == x + y) by (nonlinear_arith)
        requires
            x == val(a) / v,
            y == val(b) / v,
            v >= 1real,
    ;
    let r = leg.res;
    lemma_grows(r.ferry_ft, a, val(a), 0real, m);
    lemma_grows(r.ferry_s, a.over(p.ferry_fps), x, 2real * em, m);
    let f1 = r.ferry_ft.plus(a);
    let f2 = r.ferry_s.plus(a.over(p.ferry_fps));
    lemma_near_add(f1, val(r.ferry_ft) + val(a), 8real * em, b, val(b), 0real, 4real * m);
    lemma_near_add(f2, val(r.ferry_s) + x, 10real * em, b.over(p.ferry_fps), y, 2real * em, 4real * m);
    lemma_near_add(p.t_load_s, val(p.t_load_s), 0real, p.t_cycle_s, val(p.t_cycle_s), 0real, 4real * m);
    lemma_grows(r.load_s, p.t_load_s.plus(p.t_cycle_s), val(p.t_load_s) + val(p.t_cycle_s), 4real * em, m);
}

// ---------------------------------------------------------------------------
// What an order costs
// ---------------------------------------------------------------------------

/// The time between one block of an order and the next: the way at the speed of spraying, and a turn.
pub open spec fn hop_time(f: Flight, order: Seq<usize>, cfgs: Seq<int>, i: int) -> real {
    val(dist_by(f.hypot, f.exit(order[i - 1], cfgs[i - 1]), f.entry(order[i], cfgs[i]))) / val(f.p.speed_fps) + val(
        f.p.t_turn_s,
    )
}

/// The times of the first blocks of an order up to number `n`, and between them.
pub open spec fn times_to(f: Flight, order: Seq<usize>, cfgs: Seq<int>, n: int) -> real
    decreases n,
{
    if n <= 0 {
        val(f.time(order[0], cfgs[0]))
    } else {
        times_to(f, order, cfgs, n - 1) + hop_time(f, order, cfgs, n) + val(f.time(order[n], cfgs[n]))
    }
}

/// The ways and times of an order are at most `c`.
pub open spec fn short_hops(f: Flight, order: Seq<usize>, cfgs: Seq<int>, c: real) -> bool {
    let last = order.len() - 1;
    &&& within(dist_by(f.hypot, f.trailer, f.entry(order[0], cfgs[0])), c)
    &&& within(dist_by(f.hypot, f.exit(order[last], cfgs[last]), f.trailer), c)
    &&& forall|i: int| 0 <= i < order.len() ==> within(#[trigger] f.time(order[i], cfgs[i]), c)
    &&& forall|i: int|
        1 <= i < order.len() ==> within(
            dist_by(f.hypot, f.exit(order[i - 1], cfgs[i - 1]), #[trigger] f.entry(order[i], cfgs[i])),
            c,
        )
    &&& within(f.p.t_turn_s, c)
    &&& fast(f.p.ferry_fps) && fast(f.p.speed_fps)
    &&& 1real <= c
}

proof fn lemma_cost_to(f: Flight, order: Seq<usize>, cfgs: Seq<int>, n: int, c: real, m: real)
    requires
        short_hops(f, order, cfgs, c),
        0 <= n < order.len(),
        order.len() <= 0x10000000000,
        (order.len() as real) * (4real * c) + 8real * c <= m,
        64real * m <= huge(),
    ensures
        ({
            let out = val(dist_by(f.hypot, f.trailer, f.entry(order[0], cfgs[0]))) / val(f.p.ferry_fps);
            &&& near(
                f.cost_along(order, cfgs, n),
                out + times_to(f, order, cfgs, n),
                ((n + 1) as real) * (32real * (eps() * m)),
            )
            &&& 0real <= out + times_to(f, order, cfgs, n) <= ((n + 1) as real) * (4real * c)
        }),
    decreases n,
{
    let nr = order.len() as real;
    lemma_le(1real, nr, 4real * c);
    assert(1real * (4real * c) == 4real * c);
    lemma_step_size(m);
    let em = eps() * m;
    let e = 32real * em;
    let d0 = dist_by(f.hypot, f.trailer, f.entry(order[0], cfgs[0]));
    lemma_time(d0, val(d0), 0real, f.p.ferry_fps, c);
    lemma_le(c, m, eps());
    let q0 = val(d0) / val(f.p.ferry_fps);
    assert(f.out(order[0], cfgs[0]) == d0.over(f.p.ferry_fps));
    assert(abs(q0) <= c);
    if n == 0 {
        let t = f.time(order[0], cfgs[0]);
        assert(within(t, c));
        lemma_near_add(d0.over(f.p.ferry_fps), q0, 2real * em, t, val(t), 0real, 4real * m);
        assert(1real * e == e && 1real * (4real * c) == 4real * c);
    } else {
        lemma_cost_to(f, order, cfgs, n - 1, c, m);
        let k = n as real;
        let r = q0 + times_to(f, order, cfgs, n - 1);
        lemma_le(k, nr, 4real * c);
        lemma_dist(k, 1real, 4real * c);
        lemma_dist(k, 1real, e);
        assert(1real * e == e && 1real * (4real * c) == 4real * c);
        lemma_le(k, 0x10000000000real, e);
        let d = dist_by(f.hypot, f.exit(order[n - 1], cfgs[n - 1]), f.entry(order[n], cfgs[n]));
        assert(within(d, c));
        lemma_time(d, val(d), 0real, f.p.speed_fps, c);
        let q = val(d) / val(f.p.speed_fps);
        assert(f.hop(order[n - 1], cfgs[n - 1], order[n], cfgs[n]) == d.over(f.p.speed_fps));
        let w = f.p.t_turn_s;
        lemma_near_add(d.over(f.p.speed_fps), q, 2real * em, w, val(w), 0real, 4real * m);
        let hop = d.over(f.p.speed_fps).plus(w);
        let t = f.time(order[n], cfgs[n]);
        assert(within(t, c));
        let before = f.cost_along(order, cfgs, n - 1);
        lemma_near_add(before, r, k * e, hop, q + val(w), 6real * em, 4real * m);
        lemma_near_add(before.plus(hop), r + (q + val(w)), k * e + 10real * em, t, val(t), 0real, 4real * m);
    }
}

/// The cost of an order is the time of the ferry out, of each block, of the way at the speed of spraying and of a
/// turn from each block to the next, and of the ferry home, but for rounding.
pub proof fn law_order_adds_up(f: Flight, order: Seq<usize>, cfgs: Seq<int>, c: real, m: real)
    requires
        cfgs.len() == order.len(),
        order.len() > 0,
        short_hops(f, order, cfgs, c),
        order.len() <= 0x10000000000,
        (order.len() as real) * (4real * c) + 8real * c <= m,
        64real * m <= huge(),
    ensures
        ({
            let last = order.len() - 1;
            let v = val(f.p.ferry_fps);
            near(
                f.cost_under(order, cfgs),
                val(dist_by(f.hypot, f.trailer, f.entry(order[0], cfgs[0]))) / v + times_to(f, order, cfgs, last) + val(
                    dist_by(f.hypot, f.exit(order[last], cfgs[last]), f.trailer),
                ) / v,
                ((order.len() + 1) as real) * (32real * (eps() * m)),
            )
        }),
{
    let last = order.len() - 1;
    let nr = order.len() as real;
    lemma_le(1real, nr, 4real * c);
    assert(1real * (4real * c) == 4real * c);
    lemma_step_size(m);
    lemma_cost_to(f, order, cfgs, last, c, m);
    let em = eps() * m;
    let e = 32real * em;
    let d = dist_by(f.hypot, f.exit(order[last], cfgs[last]), f.trailer);
    lemma_time(d, val(d), 0real, f.p.ferry_fps, c);
    lemma_le(c, m, eps());
    lemma_dist(nr, 1real, e);
    assert(1real * e == e);
    lemma_le(nr, 0x10000000000real, e);
    assert(order.last() == order[last] && cfgs.last() == cfgs[last]);
    let r = val(dist_by(f.hypot, f.trailer, f.entry(order[0], cfgs[0]))) / val(f.p.ferry_fps) + times_to(
        f,
        order,
        cfgs,
        last,
    );
    lemma_near_add(
        f.cost_along(order, cfgs, last),
        r,
        nr * e,
        d.over(f.p.ferry_fps),
        val(d) / val(f.p.ferry_fps),
        2real * em,
        4real * m,
    );
}

proof fn lemma_picked_to(f: Flight, order: Seq<usize>, cfgs: Seq<int>, n: int, c: real, m: real)
    requires
        short_hops(f, order, cfgs, c),
        0 <= n < order.len(),
        order.len() <= 0x10000000000,
        (order.len() as real) * (4real * c) + 8real * c <= m,
        64real * m <= huge(),
    ensures
        ({
            let out = val(dist_by(f.hypot, f.trailer, f.entry(order[0], cfgs[0]))) / val(f.p.ferry_fps);
            &&& near(
                f.picked_along(order, cfgs, n),
                out + times_to(f, order, cfgs, n),
                ((n + 1) as real) * (32real * (eps() * m)),
            )
            &&& 0real <= out + times_to(f, order, cfgs, n) <= ((n + 1) as real) * (4real * c)
        }),
    decreases n,
{
    let nr = order.len() as real;
    lemma_le(1real, nr, 4real * c);
    assert(1real * (4real * c) == 4real * c);
    lemma_step_size(m);
    let em = eps() * m;
    let e = 32real * em;
    let d0 = dist_by(f.hypot, f.trailer, f.entry(order[0], cfgs[0]));
    lemma_time(d0, val(d0), 0real, f.p.ferry_fps, c);
    lemma_le(c, m, eps());
    let q0 = val(d0) / val(f.p.ferry_fps);
    assert(f.out(order[0], cfgs[0]) == d0.over(f.p.ferry_fps));
    assert(abs(q0) <= c);
    if n == 0 {
        let t = f.time(order[0], cfgs[0]);
        assert(within(t, c));
        lemma_near_add(d0.over(f.p.ferry_fps), q0, 2real * em, t, val(t), 0real, 4real * m);
        assert(1real * e == e && 1real * (4real * c) == 4real * c);
    } else {
        lemma_picked_to(f, order, cfgs, n - 1, c, m);
        let k = n as real;
        let r = q0 + times_to(f, order, cfgs, n - 1);
        lemma_le(k, nr, 4real * c);
        lemma_dist(k, 1real, 4real * c);
        lemma_dist(k, 1real, e);
        assert(1real * e == e && 1real * (4real * c) == 4real * c);
        lemma_le(k, 0x10000000000real, e);
        let d = dist_by(f.hypot, f.exit(order[n - 1], cfgs[n - 1]), f.entry(order[n], cfgs[n]));
        assert(within(d, c));
        lemma_time(d, val(d), 0real, f.p.speed_fps, c);
        let q = val(d) / val(f.p.speed_fps);
        assert(f.hop(order[n - 1], cfgs[n - 1], order[n], cfgs[n]) == d.over(f.p.speed_fps));
        let w = f.p.t_turn_s;
        let hop = d.over(f.p.speed_fps);
        let t = f.time(order[n], cfgs[n]);
        assert(within(t, c));
        let before = f.picked_along(order, cfgs, n - 1);
        lemma_near_add(before, r, k * e, hop, q, 2real * em, 4real * m);
        lemma_near_add(before.plus(hop), r + q, k * e + 6real * em, w, val(w), 0real, 4real * m);
        lemma_near_add(before.plus(hop).plus(w), r + q + val(w), k * e + 10real * em, t, val(t), 0real, 4real * m);
    }
}

/// The cost of an order, summed step by step, is the time of the ferry out, of each block, of the way at the speed
/// of spraying and of a turn from each block to the next, and of the ferry home, but for rounding.
pub proof fn law_picked_adds_up(f: Flight, order: Seq<usize>, cfgs: Seq<int>, c: real, m: real)
    requires
        cfgs.len() == order.len(),
        order.len() > 0,
        short_hops(f, order, cfgs, c),
        order.len() <= 0x10000000000,
        (order.len() as real) * (4real * c) + 8real * c <= m,
        64real * m <= huge(),
    ensures
        ({
            let last = order.len() - 1;
            let v = val(f.p.ferry_fps);
            near(
                f.picked_under(order, cfgs),
                val(dist_by(f.hypot, f.trailer, f.entry(order[0], cfgs[0]))) / v + times_to(f, order, cfgs, last) + val(
                    dist_by(f.hypot, f.exit(order[last], cfgs[last]), f.trailer),
                ) / v,
                ((order.len() + 1) as real) * (32real * (eps() * m)),
            )
        }),
{
    let last = order.len() - 1;
    let nr = order.len() as real;
    lemma_le(1real, nr, 4real * c);
    assert(1real * (4real * c) == 4real * c);
    lemma_step_size(m);
    lemma_picked_to(f, order, cfgs, last, c, m);
    let em = eps() * m;
    let e = 32real * em;
    let d = dist_by(f.hypot, f.exit(order[last], cfgs[last]), f.trailer);
    lemma_time(d, val(d), 0real, f.p.ferry_fps, c);
    lemma_le(c, m, eps());
    lemma_dist(nr, 1real, e);
    assert(1real * e == e);
    lemma_le(nr, 0x10000000000real, e);
    assert(order.last() == order[last] && cfgs.last() == cfgs[last]);
    let r = val(dist_by(f.hypot, f.trailer, f.entry(order[0], cfgs[0]))) / val(f.p.ferry_fps) + times_to(
        f,
        order,
        cfgs,
        last,
    );
    lemma_near_add(
        f.picked_along(order, cfgs, last),
        r,
        nr * e,
        d.over(f.p.ferry_fps),
        val(d) / val(f.p.ferry_fps),
        2real * em,
        4real * m,
    );
}

} // verus!
