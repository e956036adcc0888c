//! Laws of the simulated flight: what its totals are made up of.
use vstd::prelude::*;

use crate::cost::count_sum;
use crate::double::Double;
use crate::geom::{dist_by, same_place, Pt};
use crate::params::AircraftParams;
use crate::plan::{as_count, LinePart, PlanView};
use crate::simulate::{gallons_per_ft, heading, no_job, no_length, Job, Leg, SimResult, State};
use crate::traverse::{
    law_configs_fly_the_same_parts, law_line_changes, line_changes, parts_in, steps_of, Config, Step,
};

verus! {

/// What happens on a flight.
pub enum Event {
    /// A ferry of some feet.
    Ferry(Double),
    /// A load at the trailer.
    Load,
    /// Some feet sprayed.
    Spray(Double),
    /// Some feet flown with the booms off.
    Dead(Double),
    /// A turn onto another line.
    Turn,
    /// The turns of a block at its breaks.
    Breaks(i64),
    /// Some feet to another block, and a turn.
    Hop(Double),
}

/// What a job has taken after an event.
pub open spec fn noted(r: SimResult, e: Event, p: AircraftParams) -> SimResult {
    match e {
        Event::Ferry(d) => r.ferried(d, p),
        Event::Load => SimResult {
            load_s: r.load_s.plus(p.t_load_s.plus(p.t_cycle_s)),
            n_loads: count_sum(r.n_loads, 1),
            ..r
        },
        Event::Spray(d) => SimResult { spray_s: r.spray_s.plus(d.over(p.speed_fps)), ..r },
        Event::Dead(d) => r.idled(d, p),
        Event::Turn => SimResult {
            turn_s: r.turn_s.plus(p.t_turn_s.plus(p.arc_ft_per_turn.over(p.ferry_fps))),
            n_turns: count_sum(r.n_turns, 1),
            ..r
        },
        Event::Breaks(n) => SimResult {
            turn_s: r.turn_s.plus(Double::of_int(n).times(p.t_turn_s)),
            n_turns: count_sum(r.n_turns, n),
            ..r
        },
        Event::Hop(d) => SimResult {
            dead_ft: r.dead_ft.plus(d),
            dead_s: r.dead_s.plus(d.over(p.dead_fps).plus(p.t_turn_s)),
            n_turns: count_sum(r.n_turns, 1),
            ..r
        },
    }
}

/// What a job has taken after a log of events.
pub open spec fn all_noted(r: SimResult, log: Seq<Event>, p: AircraftParams) -> SimResult
    decreases log.len(),
{
    if log.len() == 0 {
        r
    } else {
        noted(all_noted(r, log.drop_last(), p), log.last(), p)
    }
}

proof fn lemma_noted_push(r: SimResult, log: Seq<Event>, e: Event, p: AircraftParams)
    ensures
        all_noted(r, log.push(e), p) == noted(all_noted(r, log, p), e, p),
{
    assert(log.push(e).drop_last() =~= log);
}

proof fn lemma_noted_add(r: SimResult, a: Seq<Event>, b: Seq<Event>, p: AircraftParams)
    ensures
        all_noted(r, a + b, p) == all_noted(all_noted(r, a, p), b, p),
    decreases b.len(),
{
    if b.len() == 0 {
        assert(a + b =~= a);
    } else {
        assert((a + b).drop_last() =~= a + b.drop_last());
        lemma_noted_add(r, a, b.drop_last(), p);
    }
}

proof fn lemma_noted_one(r: SimResult, e: Event, p: AircraftParams)
    ensures
        all_noted(r, seq![e], p) == noted(r, e, p),
{
    reveal_with_fuel(all_noted, 2);
    assert(seq![e].drop_last() =~= seq![]);
}

// ---------------------------------------------------------------------------
// The log of a flight
// ---------------------------------------------------------------------------

impl Job {
    /// How far the tank takes a pass.
    pub open spec fn reach(self, leg: Leg) -> Double {
        let gal = gallons_per_ft(self.p);
        leg.remaining.min(
            if Double::zero().lt(gal) {
                leg.tank.over(gal)
            } else {
                leg.remaining
            },
        )
    }

    /// What happens on a flight to the trailer for a full tank, and back.
    pub open spec fn reload_log(self, leg: Leg) -> Seq<Event> {
        seq![
            Event::Ferry(dist_by(self.hypot, leg.cur, self.trailer)),
            Event::Load,
            Event::Ferry(dist_by(self.hypot, self.trailer, leg.cur)),
        ]
    }

    /// What happens on a pass.
    pub open spec fn leg_log(self, leg: Leg, u: Pt) -> Seq<Event>
        decreases
                (if leg.tank == self.p.tank_gal {
                    0int
                } else {
                    1int
                }),
                leg.remaining.key() + u64::MAX,
    {
        let next = self.sprayed(leg, u);
        let first = seq![Event::Spray(self.reach(leg))];
        if !no_length().lt(leg.remaining) {
            seq![]
        } else if !no_length().lt(next.remaining) {
            first
        } else if leg.tank == self.p.tank_gal && !next.remaining.lt(leg.remaining) {
            first
        } else {
            first + self.reload_log(next) + self.leg_log(self.reloaded(next), u)
        }
    }

    /// What happens along a part of a line.
    pub open spec fn part_log(self, s: State, part: LinePart) -> Seq<Event> {
        let (a, b, spray, l) = part;
        if spray {
            self.leg_log(
                Leg { res: s.res, tank: s.tank, cur: a, remaining: l },
                heading(a, b, l),
            )
        } else {
            seq![Event::Dead(l)]
        }
    }

    /// What happens on a turn onto another line.
    pub open spec fn turn_log(self, s: State, a: Pt) -> Seq<Event> {
        let extra = dist_by(self.hypot, s.pos, a).minus(Double::of_int(2).times(self.p.swath_ft));
        if Double::zero().lt(extra) {
            seq![Event::Turn, Event::Dead(extra)]
        } else {
            seq![Event::Turn]
        }
    }

    /// The aircraft before step `n` of a block, on the line of that step.
    pub open spec fn before_step(self, s: State, steps: Seq<Step>, n: int) -> State {
        let before = self.steps_flown(s, steps, n);
        if n > 0 && steps[n].1 != steps[n - 1].1 {
            self.turned_to(before, steps[n].0.0)
        } else {
            before
        }
    }

    /// What happens along the first `n` steps of a block.
    pub open spec fn steps_log(self, s: State, steps: Seq<Step>, n: int) -> Seq<Event>
        decreases n,
    {
        if n <= 0 {
            seq![]
        } else {
            let turn = if n > 1 && steps[n - 1].1 != steps[n - 2].1 {
                self.turn_log(self.steps_flown(s, steps, n - 1), steps[n - 1].0.0)
            } else {
                seq![]
            };
            self.steps_log(s, steps, n - 1) + turn + self.part_log(
                self.before_step(s, steps, n - 1),
                steps[n - 1].0,
            )
        }
    }

    /// The aircraft at the entry of a block.
    pub open spec fn at_entry(self, s: State, plan: PlanView, cfg: Config) -> State {
        let res = SimResult {
            turn_s: s.res.turn_s.plus(Double::of_int(plan.n_breaks).times(self.p.t_turn_s)),
            n_turns: count_sum(s.res.n_turns, plan.n_breaks),
            ..s.res
        };
        self.entered(State { res, ..s }, steps_of(plan.lines, cfg)[0].0.0)
    }

    /// What happens on a block.
    pub open spec fn block_log(self, s: State, plan: PlanView, cfg: Config) -> Seq<Event> {
        let steps = steps_of(plan.lines, cfg);
        if steps.len() == 0 {
            seq![]
        } else {
            let d = dist_by(self.hypot, s.pos, steps[0].0.0);
            let way = if same_place(s.pos, self.trailer) {
                Event::Ferry(d)
            } else {
                Event::Hop(d)
            };
            seq![Event::Breaks(plan.n_breaks), way] + self.steps_log(
                self.at_entry(s, plan, cfg),
                steps,
                steps.len() as int,
            )
        }
    }

    /// What happens on the first `n` blocks of an order.
    pub open spec fn blocks_log(
        self,
        s: State,
        plans: Seq<PlanView>,
        order: Seq<(usize, Config)>,
        n: int,
    ) -> Seq<Event>
        decreases n,
    {
        if n <= 0 {
            seq![]
        } else {
            self.blocks_log(s, plans, order, n - 1) + self.block_log(
                self.blocks_flown(s, plans, order, n - 1),
                plans[order[n - 1].0 as int],
                order[n - 1].1,
            )
        }
    }

    /// What happens on a flight, from the trailer and back.
    pub open spec fn run_log(
        self,
        plans: Seq<PlanView>,
        order: Seq<(usize, Config)>,
        setup_s: Double,
    ) -> Seq<Event> {
        let n = order.len() as int;
        let start = self.start(setup_s);
        self.blocks_log(start, plans, order, n).push(
            Event::Ferry(
                dist_by(
                    self.hypot,
                    self.blocks_flown(start, plans, order, n).pos,
                    self.trailer,
                ),
            ),
        )
    }
}

proof fn lemma_leg_log(job: Job, leg: Leg, u: Pt)
    ensures
        job.flown(leg, u).res == all_noted(leg.res, job.leg_log(leg, u), job.p),
    decreases
            (if leg.tank == job.p.tank_gal {
                0int
            } else {
                1int
            }),
            leg.remaining.key() + u64::MAX,
{
    let next = job.sprayed(leg, u);
    let e = Event::Spray(job.reach(leg));
    lemma_noted_one(leg.res, e, job.p);
    if no_length().lt(leg.remaining) && no_length().lt(next.remaining) && !(leg.tank
        == job.p.tank_gal && !next.remaining.lt(leg.remaining)) {
        let r = job.reload_log(next);
        lemma_leg_log(job, job.reloaded(next), u);
        lemma_noted_add(
            leg.res,
            seq![e] + r,
            job.leg_log(job.reloaded(next), u),
            job.p,
        );
        lemma_noted_add(leg.res, seq![e], r, job.p);
        let (x, y, z) = (r[0], r[1], r[2]);
        assert(r =~= seq![x].push(y).push(z));
        lemma_noted_one(next.res, x, job.p);
        lemma_noted_push(next.res, seq![x], y, job.p);
        lemma_noted_push(next.res, seq![x].push(y), z, job.p);
    }
}

proof fn lemma_steps_log(job: Job, s: State, steps: Seq<Step>, n: int)
    ensures
        job.steps_flown(s, steps, n).res == all_noted(s.res, job.steps_log(s, steps, n), job.p),
    decreases n,
{
    if n > 0 {
        lemma_steps_log(job, s, steps, n - 1);
        let before = job.steps_flown(s, steps, n - 1);
        let (a, b, spray, l) = steps[n - 1].0;
        let turns = n > 1 && steps[n - 1].1 != steps[n - 2].1;
        let turn = if turns {
            job.turn_log(before, a)
        } else {
            seq![]
        };
        let log = job.steps_log(s, steps, n - 1);
        let at = job.before_step(s, steps, n - 1);
        let part = job.part_log(at, steps[n - 1].0);
        lemma_noted_add(s.res, log + turn, part, job.p);
        lemma_noted_add(s.res, log, turn, job.p);
        lemma_noted_one(before.res, Event::Turn, job.p);
        if turns && turn.len() == 2 {
            assert(turn =~= seq![Event::Turn].push(turn[1]));
            lemma_noted_push(before.res, seq![Event::Turn], turn[1], job.p);
        }
        if spray {
            lemma_leg_log(
                job,
                Leg { res: at.res, tank: at.tank, cur: a, remaining: l },
                heading(a, b, l),
            );
        } else {
            lemma_noted_one(at.res, Event::Dead(l), job.p);
        }
    }
}

proof fn lemma_block_log(job: Job, s: State, plan: PlanView, cfg: Config)
    ensures
        job.block_flown(s, plan, cfg).res == all_noted(
            s.res,
            job.block_log(s, plan, cfg),
            job.p,
        ),
{
    let steps = steps_of(plan.lines, cfg);
    if steps.len() > 0 {
        let at = job.at_entry(s, plan, cfg);
        let d = dist_by(job.hypot, s.pos, steps[0].0.0);
        let e = Event::Breaks(plan.n_breaks);
        let way = if same_place(s.pos, job.trailer) {
            Event::Ferry(d)
        } else {
            Event::Hop(d)
        };
        let n = steps.len() as int;
        lemma_steps_log(job, at, steps, n);
        lemma_noted_add(s.res, seq![e, way], job.steps_log(at, steps, n), job.p);
        assert(seq![e, way] =~= seq![e].push(way));
        lemma_noted_one(s.res, e, job.p);
        lemma_noted_push(s.res, seq![e], way, job.p);
    }
}

proof fn lemma_blocks_log(
    job: Job,
    s: State,
    plans: Seq<PlanView>,
    order: Seq<(usize, Config)>,
    n: int,
)
    ensures
        job.blocks_flown(s, plans, order, n).res == all_noted(
            s.res,
            job.blocks_log(s, plans, order, n),
            job.p,
        ),
    decreases n,
{
    if n > 0 {
        lemma_blocks_log(job, s, plans, order, n - 1);
        let before = job.blocks_flown(s, plans, order, n - 1);
        let (plan, cfg) = (plans[order[n - 1].0 as int], order[n - 1].1);
        lemma_block_log(job, before, plan, cfg);
        lemma_noted_add(
            s.res,
            job.blocks_log(s, plans, order, n - 1),
            job.block_log(before, plan, cfg),
            job.p,
        );
    }
}

/// What a flight takes is what its log adds up to.
pub proof fn law_run_is_its_log(
    job: Job,
    plans: Seq<PlanView>,
    order: Seq<(usize, Config)>,
    setup_s: Double,
)
    ensures
        job.run(plans, order, setup_s) == all_noted(
            job.start(setup_s).res,
            job.run_log(plans, order, setup_s),
            job.p,
        ),
{
    let n = order.len() as int;
    let start = job.start(setup_s);
    lemma_blocks_log(job, start, plans, order, n);
    let log = job.blocks_log(start, plans, order, n);
    lemma_noted_push(
        start.res,
        log,
        job.run_log(plans, order, setup_s).last(),
        job.p,
    );
}

// ---------------------------------------------------------------------------
// Totals
// ---------------------------------------------------------------------------

/// The feet of the ferries of a log.
pub open spec fn ferries(log: Seq<Event>) -> Seq<Double>
    decreases log.len(),
{
    if log.len() == 0 {
        seq![]
    } else {
        match log.last() {
            Event::Ferry(d) => ferries(log.drop_last()).push(d),
            _ => ferries(log.drop_last()),
        }
    }
}

/// The feet that a log sprays, tank by tank and part by part.
pub open spec fn sprays_in(log: Seq<Event>) -> Seq<Double>
    decreases log.len(),
{
    if log.len() == 0 {
        seq![]
    } else {
        match log.last() {
            Event::Spray(d) => sprays_in(log.drop_last()).push(d),
            _ => sprays_in(log.drop_last()),
        }
    }
}

/// How often a log loads.
pub open spec fn loads_in(log: Seq<Event>) -> nat
    decreases log.len(),
{
    if log.len() == 0 {
        0
    } else {
        loads_in(log.drop_last()) + (if log.last() is Load {
            1nat
        } else {
            0
        })
    }
}

/// A sum of numbers from zero.
pub open spec fn total(xs: Seq<Double>) -> Double
    decreases xs.len(),
{
    if xs.len() == 0 {
        Double::zero()
    } else {
        total(xs.drop_last()).plus(xs.last())
    }
}

/// Numbers by a divisor.
pub open spec fn each_over(xs: Seq<Double>, v: Double) -> Seq<Double> {
    Seq::new(xs.len(), |i: int| xs[i].over(v))
}

/// A number several times.
pub open spec fn times_over(x: Double, n: nat) -> Seq<Double> {
    Seq::new(n, |i: int| x)
}

pub proof fn lemma_total_push(xs: Seq<Double>, x: Double)
    ensures
        total(xs.push(x)) == total(xs).plus(x),
{
    assert(xs.push(x).drop_last() =~= xs);
}

proof fn lemma_log_totals(setup_s: Double, log: Seq<Event>, p: AircraftParams)
    ensures
        ({
            let start = SimResult { setup_s, n_loads: 1, ..no_job() };
            let r = all_noted(start, log, p);
            &&& r.setup_s == setup_s
            &&& r.ferry_ft == total(ferries(log))
            &&& r.ferry_s == total(each_over(ferries(log), p.ferry_fps))
            &&& r.spray_s == total(each_over(sprays_in(log), p.speed_fps))
            &&& r.load_s == total(times_over(p.t_load_s.plus(p.t_cycle_s), loads_in(log)))
            &&& r.n_loads == as_count(1 + loads_in(log) as int)
        }),
    decreases log.len(),
{
    let load = p.t_load_s.plus(p.t_cycle_s);
    if log.len() > 0 {
        let before = log.drop_last();
        lemma_log_totals(setup_s, before, p);
        match log.last() {
            Event::Ferry(d) => {
                lemma_total_push(ferries(before), d);
                lemma_total_push(each_over(ferries(before), p.ferry_fps), d.over(p.ferry_fps));
                assert(each_over(ferries(log), p.ferry_fps) =~= each_over(
                    ferries(before),
                    p.ferry_fps,
                ).push(d.over(p.ferry_fps)));
            },
            Event::Spray(d) => {
                lemma_total_push(each_over(sprays_in(before), p.speed_fps), d.over(p.speed_fps));
                assert(each_over(sprays_in(log), p.speed_fps) =~= each_over(
                    sprays_in(before),
                    p.speed_fps,
                ).push(d.over(p.speed_fps)));
            },
            Event::Load => {
                lemma_total_push(times_over(load, loads_in(before)), load);
                assert(times_over(load, loads_in(log)) =~= times_over(load, loads_in(before)).push(
                    load,
                ));
            },
            _ => {},
        }
    }
}

/// The totals of a flight: the set-up as it is given; ferry feet and ferry time
/// over the same ferries; load time for every load but the first; and the time of
/// the feet sprayed.
pub proof fn law_run_totals(
    job: Job,
    plans: Seq<PlanView>,
    order: Seq<(usize, Config)>,
    setup_s: Double,
)
    ensures
        ({
            let r = job.run(plans, order, setup_s);
            let log = job.run_log(plans, order, setup_s);
            let p = job.p;
            &&& r.setup_s == setup_s
            &&& r.ferry_ft == total(ferries(log))
            &&& r.ferry_s == total(each_over(ferries(log), p.ferry_fps))
            &&& r.spray_s == total(each_over(sprays_in(log), p.speed_fps))
            &&& r.load_s == total(times_over(p.t_load_s.plus(p.t_cycle_s), loads_in(log)))
            &&& r.n_loads == as_count(1 + loads_in(log) as int)
        }),
{
    law_run_is_its_log(job, plans, order, setup_s);
    lemma_log_totals(setup_s, job.run_log(plans, order, setup_s), job.p);
}

// ---------------------------------------------------------------------------
// What is sprayed
// ---------------------------------------------------------------------------

/// What is left of a length after some feet, one after another.
pub open spec fn left_of(l: Double, xs: Seq<Double>) -> Double
    decreases xs.len(),
{
    if xs.len() == 0 {
        l
    } else {
        left_of(l, xs.drop_last()).minus(xs.last())
    }
}

proof fn lemma_left_push(l: Double, xs: Seq<Double>, x: Double)
    ensures
        left_of(l, xs.push(x)) == left_of(l, xs).minus(x),
{
    assert(xs.push(x).drop_last() =~= xs);
}

proof fn lemma_left_add(l: Double, a: Seq<Double>, b: Seq<Double>)
    ensures
        left_of(l, a + b) == left_of(left_of(l, a), b),
    decreases b.len(),
{
    if b.len() == 0 {
        assert(a + b =~= a);
    } else {
        assert((a + b).drop_last() =~= a + b.drop_last());
        lemma_left_add(l, a, b.drop_last());
    }
}

pub proof fn lemma_sprays_push(log: Seq<Event>, e: Event)
    ensures
        sprays_in(log.push(e)) == (match e {
            Event::Spray(d) => sprays_in(log).push(d),
            _ => sprays_in(log),
        }),
{
    assert(log.push(e).drop_last() =~= log);
}

pub proof fn lemma_sprays_add(a: Seq<Event>, b: Seq<Event>)
    ensures
        sprays_in(a + b) == sprays_in(a) + sprays_in(b),
    decreases b.len(),
{
    if b.len() == 0 {
        assert(a + b =~= a);
        assert(sprays_in(b) =~= seq![]);
        assert(sprays_in(a) + sprays_in(b) =~= sprays_in(a));
    } else {
        assert((a + b).drop_last() =~= a + b.drop_last());
        lemma_sprays_add(a, b.drop_last());
        match b.last() {
            Event::Spray(d) => {
                assert(sprays_in(a) + sprays_in(b.drop_last()).push(d) =~= (sprays_in(a)
                    + sprays_in(b.drop_last())).push(d));
            },
            _ => {},
        }
    }
}

/// A pass is over: nothing to speak of is left, or a full tank brings its end no
/// nearer.
pub open spec fn pass_over(job: Job, end: Leg, u: Pt) -> bool {
    ||| !no_length().lt(end.remaining)
    ||| exists|leg: Leg|
        leg.tank == job.p.tank_gal && #[trigger] job.sprayed(leg, u) == end
            && !end.remaining.lt(leg.remaining)
}

proof fn lemma_leg_sprays(job: Job, leg: Leg, u: Pt)
    ensures
        job.flown(leg, u).remaining == left_of(leg.remaining, sprays_in(job.leg_log(leg, u))),
        pass_over(job, job.flown(leg, u), u),
    decreases
            (if leg.tank == job.p.tank_gal {
                0int
            } else {
                1int
            }),
            leg.remaining.key() + u64::MAX,
{
    let next = job.sprayed(leg, u);
    let d = job.reach(leg);
    let none = Seq::<Event>::empty();
    let first = seq![Event::Spray(d)];
    assert(first =~= none.push(Event::Spray(d)));
    lemma_sprays_push(none, Event::Spray(d));
    assert(sprays_in(none) =~= seq![]);
    lemma_left_push(leg.remaining, seq![], d);
    assert(left_of(leg.remaining, sprays_in(first)) == next.remaining);
    if no_length().lt(leg.remaining) && no_length().lt(next.remaining) && !(leg.tank
        == job.p.tank_gal && !next.remaining.lt(leg.remaining)) {
        let r = job.reload_log(next);
        let rest = job.leg_log(job.reloaded(next), u);
        lemma_leg_sprays(job, job.reloaded(next), u);
        lemma_sprays_add(first + r, rest);
        let (x, y, z) = (r[0], r[1], r[2]);
        assert(first + r =~= first.push(x).push(y).push(z));
        lemma_sprays_push(first, x);
        lemma_sprays_push(first.push(x), y);
        lemma_sprays_push(first.push(x).push(y), z);
        lemma_left_add(leg.remaining, sprays_in(first), sprays_in(rest));
    }
}

/// The feet sprayed along a part run down its length, to the end of the pass. A part
/// flown with the booms off sprays nothing.
pub proof fn law_part_sprayed(job: Job, s: State, part: LinePart)
    ensures
        ({
            let (a, b, spray, l) = part;
            let sprays = sprays_in(job.part_log(s, part));
            let u = heading(a, b, l);
            let leg = Leg { res: s.res, tank: s.tank, cur: a, remaining: l };
            &&& spray ==> job.flown(leg, u).remaining == left_of(l, sprays)
            &&& spray ==> pass_over(job, job.flown(leg, u), u)
            &&& !spray ==> sprays.len() == 0
        }),
{
    let (a, b, spray, l) = part;
    if spray {
        lemma_leg_sprays(
            job,
            Leg { res: s.res, tank: s.tank, cur: a, remaining: l },
            heading(a, b, l),
        );
    } else {
        let none = Seq::<Event>::empty();
        assert(seq![Event::Dead(l)] =~= none.push(Event::Dead(l)));
        lemma_sprays_push(none, Event::Dead(l));
        assert(sprays_in(none) =~= seq![]);
    }
}

/// A part for which the tank lasts is sprayed at its whole length.
pub proof fn law_part_in_one_tank(job: Job, s: State, part: LinePart)
    requires
        part.2,
        part.3.finite(),
        no_length().lt(part.3),
        ({
            let gal = gallons_per_ft(job.p);
            Double::zero().lt(gal) ==> part.3.le(s.tank.over(gal))
        }),
    ensures
        sprays_in(job.part_log(s, part)) == seq![part.3],
{
    let (a, b, spray, l) = part;
    let u = heading(a, b, l);
    let leg = Leg { res: s.res, tank: s.tank, cur: a, remaining: l };
    assert(job.reach(leg) == l);
    let next = job.sprayed(leg, u);
    assert(next.remaining == l.minus(l));
    assert(l.minus(l).mag() == 0) by {
        reveal(Double::spec_plus);
    }
    assert(!no_length().lt(next.remaining)) by {
        reveal(Double::spec_ratio);
    }
    let none = Seq::<Event>::empty();
    assert(seq![Event::Spray(l)] =~= none.push(Event::Spray(l)));
    lemma_sprays_push(none, Event::Spray(l));
    assert(sprays_in(none) =~= seq![]);
}

/// Numbers added up exactly, in units of 2^-1074.
pub open spec fn exact_total(xs: Seq<Double>) -> int
    decreases xs.len(),
{
    if xs.len() == 0 {
        0
    } else {
        exact_total(xs.drop_last()) + xs.last().units()
    }
}

pub proof fn lemma_exact_total_add(a: Seq<Double>, b: Seq<Double>)
    ensures
        exact_total(a + b) == exact_total(a) + exact_total(b),
    decreases b.len(),
{
    if b.len() == 0 {
        assert(a + b =~= a);
    } else {
        assert((a + b).drop_last() =~= a + b.drop_last());
        lemma_exact_total_add(a, b.drop_last());
    }
}

impl Job {
    /// The feet sprayed along the first `n` steps of a block, step by step.
    pub open spec fn steps_sprays(self, s: State, steps: Seq<Step>, n: int) -> Seq<Double>
        decreases n,
    {
        if n <= 0 {
            seq![]
        } else {
            self.steps_sprays(s, steps, n - 1) + sprays_in(
                self.part_log(self.before_step(s, steps, n - 1), steps[n - 1].0),
            )
        }
    }

    /// The feet sprayed on the first `n` blocks of an order, block by block.
    pub open spec fn blocks_sprays(
        self,
        s: State,
        plans: Seq<PlanView>,
        order: Seq<(usize, Config)>,
        n: int,
    ) -> Seq<Double>
        decreases n,
    {
        if n <= 0 {
            seq![]
        } else {
            let before = self.blocks_flown(s, plans, order, n - 1);
            let (plan, cfg) = (plans[order[n - 1].0 as int], order[n - 1].1);
            let steps = steps_of(plan.lines, cfg);
            self.blocks_sprays(s, plans, order, n - 1) + self.steps_sprays(
                self.at_entry(before, plan, cfg),
                steps,
                steps.len() as int,
            )
        }
    }
}

proof fn lemma_steps_sprays(job: Job, s: State, steps: Seq<Step>, n: int)
    ensures
        sprays_in(job.steps_log(s, steps, n)) == job.steps_sprays(s, steps, n),
    decreases n,
{
    if n > 0 {
        lemma_steps_sprays(job, s, steps, n - 1);
        let before = job.steps_flown(s, steps, n - 1);
        let turns = n > 1 && steps[n - 1].1 != steps[n - 2].1;
        let turn = if turns {
            job.turn_log(before, steps[n - 1].0.0)
        } else {
            seq![]
        };
        let log = job.steps_log(s, steps, n - 1);
        let part = job.part_log(job.before_step(s, steps, n - 1), steps[n - 1].0);
        lemma_sprays_add(log + turn, part);
        let none = Seq::<Event>::empty();
        assert(sprays_in(none) =~= seq![]);
        lemma_sprays_push(log, Event::Turn);
        if !turns {
            assert(log + turn =~= log);
        } else if turn.len() == 2 {
            assert(log + turn =~= log.push(Event::Turn).push(turn[1]));
            lemma_sprays_push(log.push(Event::Turn), turn[1]);
        } else {
            assert(log + turn =~= log.push(Event::Turn));
        }
    }
}

proof fn lemma_blocks_sprays(
    job: Job,
    s: State,
    plans: Seq<PlanView>,
    order: Seq<(usize, Config)>,
    n: int,
)
    ensures
        sprays_in(job.blocks_log(s, plans, order, n)) == job.blocks_sprays(s, plans, order, n),
    decreases n,
{
    if n > 0 {
        lemma_blocks_sprays(job, s, plans, order, n - 1);
        let before = job.blocks_flown(s, plans, order, n - 1);
        let (plan, cfg) = (plans[order[n - 1].0 as int], order[n - 1].1);
        let steps = steps_of(plan.lines, cfg);
        let log = job.blocks_log(s, plans, order, n - 1);
        let block = job.block_log(before, plan, cfg);
        lemma_sprays_add(log, block);
        if steps.len() > 0 {
            let at = job.at_entry(before, plan, cfg);
            let (x, y) = (block[0], block[1]);
            let none = Seq::<Event>::empty();
            assert(seq![x, y] =~= none.push(x).push(y));
            assert(sprays_in(none) =~= seq![]);
            lemma_sprays_push(none, x);
            lemma_sprays_push(none.push(x), y);
            assert(block =~= seq![x, y] + job.steps_log(at, steps, steps.len() as int));
            lemma_sprays_add(seq![x, y], job.steps_log(at, steps, steps.len() as int));
            lemma_steps_sprays(job, at, steps, steps.len() as int);
            assert(sprays_in(block) =~= job.steps_sprays(at, steps, steps.len() as int));
        } else {
            assert(block =~= seq![]);
        }
    }
}

/// The spray time of a flight is that of the feet sprayed along the parts of the
/// listed blocks, in the order in which they are flown.
pub proof fn law_run_sprays_the_blocks(
    job: Job,
    plans: Seq<PlanView>,
    order: Seq<(usize, Config)>,
    setup_s: Double,
)
    ensures
        job.run(plans, order, setup_s).spray_s == total(
            each_over(
                job.blocks_sprays(job.start(setup_s), plans, order, order.len() as int),
                job.p.speed_fps,
            ),
        ),
{
    let start = job.start(setup_s);
    let n = order.len() as int;
    law_run_totals(job, plans, order, setup_s);
    lemma_blocks_sprays(job, start, plans, order, n);
    lemma_sprays_push(
        job.blocks_log(start, plans, order, n),
        job.run_log(plans, order, setup_s).last(),
    );
}

// ---------------------------------------------------------------------------
// One block, entered anywhere
// ---------------------------------------------------------------------------

/// A sum that grows by a number several times.
pub open spec fn grown(x: Double, d: Double, n: int) -> Double
    decreases n,
{
    if n <= 0 {
        x
    } else {
        grown(x, d, n - 1).plus(d)
    }
}

/// A count that grows by one several times.
pub open spec fn counted(c: i64, n: int) -> i64
    decreases n,
{
    if n <= 0 {
        c
    } else {
        count_sum(counted(c, n - 1), 1)
    }
}

proof fn lemma_leg_turns(job: Job, leg: Leg, u: Pt)
    ensures
        job.flown(leg, u).res.turn_s == leg.res.turn_s,
        job.flown(leg, u).res.n_turns == leg.res.n_turns,
    decreases
            (if leg.tank == job.p.tank_gal {
                0int
            } else {
                1int
            }),
            leg.remaining.key() + u64::MAX,
{
    let next = job.sprayed(leg, u);
    if no_length().lt(leg.remaining) && no_length().lt(next.remaining) && !(leg.tank
        == job.p.tank_gal && !next.remaining.lt(leg.remaining)) {
        lemma_leg_turns(job, job.reloaded(next), u);
    }
}

proof fn lemma_steps_turns(job: Job, s: State, steps: Seq<Step>, n: int)
    ensures
        ({
            let r = job.steps_flown(s, steps, n).res;
            let k = line_changes(steps, n) as int;
            let turn_s = job.p.t_turn_s.plus(job.p.arc_ft_per_turn.over(job.p.ferry_fps));
            &&& r.turn_s == grown(s.res.turn_s, turn_s, k)
            &&& r.n_turns == counted(s.res.n_turns, k)
        }),
    decreases n,
{
    if n > 0 {
        lemma_steps_turns(job, s, steps, n - 1);
        let at = job.before_step(s, steps, n - 1);
        let (a, b, spray, l) = steps[n - 1].0;
        if spray {
            lemma_leg_turns(
                job,
                Leg { res: at.res, tank: at.tank, cur: a, remaining: l },
                heading(a, b, l),
            );
        }
    }
}

/// However a block is entered, alone on a flight, it takes the same turns and the
/// same time for them, and the same parts are flown, each one way or the other.
pub proof fn law_entry_choices(
    job: Job,
    plans: Seq<PlanView>,
    block: usize,
    one: Config,
    other: Config,
    setup_s: Double,
)
    requires
        block < plans.len(),
        plans[block as int].lines.len() <= usize::MAX,
    ensures
        ({
            let r = job.run(plans, seq![(block, one)], setup_s);
            let q = job.run(plans, seq![(block, other)], setup_s);
            let lines = plans[block as int].lines;
            &&& r.n_turns == q.n_turns
            &&& r.turn_s == q.turn_s
            &&& r.setup_s == q.setup_s
            &&& parts_in(steps_of(lines, one)) == parts_in(steps_of(lines, other))
        }),
{
    let lines = plans[block as int].lines;
    law_configs_fly_the_same_parts(lines, one, other);
    law_line_changes(lines, one);
    law_line_changes(lines, other);
    lemma_block_turns(job, plans, block, one, setup_s);
    lemma_block_turns(job, plans, block, other, setup_s);
    law_run_totals(job, plans, seq![(block, one)], setup_s);
    law_run_totals(job, plans, seq![(block, other)], setup_s);
}

proof fn lemma_block_turns(
    job: Job,
    plans: Seq<PlanView>,
    block: usize,
    cfg: Config,
    setup_s: Double,
)
    requires
        block < plans.len(),
    ensures
        ({
            let r = job.run(plans, seq![(block, cfg)], setup_s);
            let plan = plans[block as int];
            let steps = steps_of(plan.lines, cfg);
            let k = line_changes(steps, steps.len() as int) as int;
            let start = job.start(setup_s);
            let turn_s = job.p.t_turn_s.plus(job.p.arc_ft_per_turn.over(job.p.ferry_fps));
            let breaks = start.res.turn_s.plus(Double::of_int(plan.n_breaks).times(job.p.t_turn_s));
            let entered = if same_place(job.trailer, job.trailer) {
                count_sum(start.res.n_turns, plan.n_breaks)
            } else {
                count_sum(count_sum(start.res.n_turns, plan.n_breaks), 1)
            };
            &&& steps.len() == 0 ==> r.turn_s == start.res.turn_s && r.n_turns
                == start.res.n_turns
            &&& steps.len() > 0 ==> r.turn_s == grown(breaks, turn_s, k) && r.n_turns == counted(
                entered,
                k,
            )
        }),
{
    let plan = plans[block as int];
    let steps = steps_of(plan.lines, cfg);
    let start = job.start(setup_s);
    let order = seq![(block, cfg)];
    reveal_with_fuel(Job::blocks_flown, 2);
    assert(job.blocks_flown(start, plans, order, 1) == job.block_flown(start, plan, cfg));
    if steps.len() > 0 {
        lemma_steps_turns(job, job.at_entry(start, plan, cfg), steps, steps.len() as int);
    }
}

} // verus!
