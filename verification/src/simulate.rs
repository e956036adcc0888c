//! The flight of a job: reloads where the tank runs dry, ferries and turns.
use vstd::prelude::*;

use crate::cost::{add_counts, count_sum};
use crate::double::Double;
use crate::geom::{
    dist, dist_by, is_same_place, poly_distance, poly_distance_by, polygon_views, same_place, Polygon,
    PolygonView, Pt,
};
use crate::groups::{
    cluster, clusters, count_groups, group_count, lemma_cluster_labels, lemma_clusters_by_links,
    table_links, Links,
};
use crate::ordering::{config, law_order_rearranges, order_blocks, ordered};
use crate::params::{acre_ft2, AircraftParams};
use crate::perms::rearranged;
use crate::plan::{as_count, plan_views, to_count, LinePart, PlanResult, PlanView};
use crate::sorting::indices;
use crate::tools::{hypot_is, hypot_total, Hypot};
use crate::traverse::{steps_of, traverse, Config, Step};

verus! {

/// What a job takes.
#[derive(Clone, Copy, Debug)]
pub struct SimResult {
    pub setup_s: Double,
    pub spray_s: Double,
    pub turn_s: Double,
    pub dead_s: Double,
    pub ferry_s: Double,
    pub load_s: Double,
    pub n_loads: i64,
    pub n_turns: i64,
    pub dead_ft: Double,
    pub ferry_ft: Double,
}

/// A job that takes nothing.
pub open spec fn no_job() -> SimResult {
    SimResult {
        setup_s: Double::zero(),
        spray_s: Double::zero(),
        turn_s: Double::zero(),
        dead_s: Double::zero(),
        ferry_s: Double::zero(),
        load_s: Double::zero(),
        n_loads: 0,
        n_turns: 0,
        dead_ft: Double::zero(),
        ferry_ft: Double::zero(),
    }
}

impl Default for SimResult {
    fn default() -> (r: Self)
        ensures
            r == no_job(),
    {
        SimResult {
            setup_s: Double::zero(),
            spray_s: Double::zero(),
            turn_s: Double::zero(),
            dead_s: Double::zero(),
            ferry_s: Double::zero(),
            load_s: Double::zero(),
            n_loads: 0,
            n_turns: 0,
            dead_ft: Double::zero(),
            ferry_ft: Double::zero(),
        }
    }
}

impl SimResult {
    /// All the time of a job.
    pub open spec fn spec_total_s(&self) -> Double {
        self.setup_s.plus(self.spray_s).plus(self.turn_s).plus(self.dead_s).plus(self.ferry_s).plus(
            self.load_s,
        )
    }

    /// All the time of a job.
    #[verifier::when_used_as_spec(spec_total_s)]
    pub fn total_s(&self) -> (r: Double)
        ensures
            r == self.spec_total_s(),
    {
        self.setup_s.plus(self.spray_s).plus(self.turn_s).plus(self.dead_s).plus(self.ferry_s).plus(
            self.load_s,
        )
    }

    /// With a ferry of the given length.
    pub open spec fn ferried(self, d: Double, p: AircraftParams) -> SimResult {
        SimResult {
            ferry_ft: self.ferry_ft.plus(d),
            ferry_s: self.ferry_s.plus(d.over(p.ferry_fps)),
            ..self
        }
    }

    /// With a way of the given length, booms off.
    pub open spec fn idled(self, d: Double, p: AircraftParams) -> SimResult {
        SimResult {
            dead_ft: self.dead_ft.plus(d),
            dead_s: self.dead_s.plus(d.over(p.dead_fps)),
            ..self
        }
    }

    fn ferry(self, d: Double, p: &AircraftParams) -> (r: SimResult)
        ensures
            r == self.ferried(d, *p),
    {
        let mut r = self;
        r.ferry_ft = r.ferry_ft.plus(d);
        r.ferry_s = r.ferry_s.plus(d.over(p.ferry_fps));
        r
    }

    fn idle(self, d: Double, p: &AircraftParams) -> (r: SimResult)
        ensures
            r == self.idled(d, *p),
    {
        let mut r = self;
        r.dead_ft = r.dead_ft.plus(d);
        r.dead_s = r.dead_s.plus(d.over(p.dead_fps));
        r
    }
}

/// Below this length nothing is left of a pass.
pub open spec fn spec_no_length() -> Double {
    Double::ratio(1, 1_000_000_000)
}

/// Below this length nothing is left of a pass.
#[verifier::when_used_as_spec(spec_no_length)]
pub fn no_length() -> (r: Double)
    ensures
        r == spec_no_length(),
{
    Double::ratio(1, 1_000_000_000)
}

/// A pass in flight.
#[derive(Clone, Copy)]
pub struct Leg {
    /// What the job has taken so far.
    pub res: SimResult,
    /// The gallons in the tank.
    pub tank: Double,
    /// Where the aircraft is.
    pub cur: Pt,
    /// The length still to spray.
    pub remaining: Double,
}

/// An aircraft between passes.
#[derive(Clone, Copy)]
pub struct State {
    /// What the job has taken so far.
    pub res: SimResult,
    /// The gallons in the tank.
    pub tank: Double,
    /// Where the aircraft is.
    pub pos: Pt,
}

/// What a job is flown under.
pub struct Job {
    pub hypot: Hypot,
    pub p: AircraftParams,
    pub trailer: Pt,
}

/// Gallons sprayed per foot.
pub open spec fn gallons_per_ft(p: AircraftParams) -> Double {
    p.swath_ft.times(p.gpa).over(acre_ft2())
}

/// The direction from one end of a part to the other, per foot of its length.
pub open spec fn heading(a: Pt, b: Pt, l: Double) -> Pt {
    if Double::zero().lt(l) {
        Pt { x: b.x.minus(a.x).over(l), y: b.y.minus(a.y).over(l) }
    } else {
        Pt { x: Double::zero(), y: Double::zero() }
    }
}

impl Job {
    /// A pass after the tank has been sprayed as far as it goes.
    pub open spec fn sprayed(self, leg: Leg, u: Pt) -> Leg {
        let gal = gallons_per_ft(self.p);
        let can_ft = if Double::zero().lt(gal) {
            leg.tank.over(gal)
        } else {
            leg.remaining
        };
        let fly = leg.remaining.min(can_ft);
        Leg {
            res: SimResult {
                spray_s: leg.res.spray_s.plus(fly.over(self.p.speed_fps)),
                ..leg.res
            },
            tank: leg.tank.minus(fly.times(gal)),
            cur: Pt { x: leg.cur.x.plus(u.x.times(fly)), y: leg.cur.y.plus(u.y.times(fly)) },
            remaining: leg.remaining.minus(fly),
        }
    }

    /// A pass after a flight to the trailer for a full tank, and back.
    pub open spec fn reloaded(self, leg: Leg) -> Leg {
        let out = leg.res.ferried(dist_by(self.hypot, leg.cur, self.trailer), self.p);
        let loaded = SimResult {
            load_s: out.load_s.plus(self.p.t_load_s.plus(self.p.t_cycle_s)),
            n_loads: count_sum(out.n_loads, 1),
            ..out
        };
        Leg {
            res: loaded.ferried(dist_by(self.hypot, self.trailer, leg.cur), self.p),
            tank: self.p.tank_gal,
            ..leg
        }
    }

    /// A pass flown to its end, with a reload wherever the tank runs dry. A full
    /// tank that brings the end no nearer is the last.
    pub open spec fn flown(self, leg: Leg, u: Pt) -> Leg
        decreases
                (if leg.tank == self.p.tank_gal {
                    0int
                } else {
                    1int
                }),
                leg.remaining.key() + u64::MAX,
    {
        let next = self.sprayed(leg, u);
        if !no_length().lt(leg.remaining) {
            leg
        } else if !no_length().lt(next.remaining) {
            next
        } else if leg.tank == self.p.tank_gal && !next.remaining.lt(leg.remaining) {
            next
        } else {
            self.flown(self.reloaded(next), u)
        }
    }

    /// The turn onto another line, and the way to it beyond two swaths.
    pub open spec fn turned_to(self, s: State, a: Pt) -> State {
        let res = SimResult {
            turn_s: s.res.turn_s.plus(
                self.p.t_turn_s.plus(self.p.arc_ft_per_turn.over(self.p.ferry_fps)),
            ),
            n_turns: count_sum(s.res.n_turns, 1),
            ..s.res
        };
        let extra = dist_by(self.hypot, s.pos, a).minus(Double::of_int(2).times(self.p.swath_ft));
        State {
            res: if Double::zero().lt(extra) {
                res.idled(extra, self.p)
            } else {
                res
            },
            ..s
        }
    }

    /// A part of a line flown from its start.
    pub open spec fn along(self, s: State, part: LinePart) -> State {
        let (a, b, spray, l) = part;
        if spray {
            let leg = self.flown(
                Leg { res: s.res, tank: s.tank, cur: a, remaining: l },
                heading(a, b, l),
            );
            State { res: leg.res, tank: leg.tank, pos: b }
        } else {
            State { res: s.res.idled(l, self.p), pos: b, ..s }
        }
    }

    /// The first `n` steps of a block, from an entry on the line of the first.
    pub open spec fn steps_flown(self, s: State, steps: Seq<Step>, n: int) -> State
        decreases n,
    {
        if n <= 0 {
            s
        } else {
            let before = self.steps_flown(s, steps, n - 1);
            let at = if n > 1 && steps[n - 1].1 != steps[n - 2].1 {
                self.turned_to(before, steps[n - 1].0.0)
            } else {
                before
            };
            self.along(at, steps[n - 1].0)
        }
    }

    /// The way to the entry of a block: a ferry from the trailer, else a turn and
    /// a way with the booms off.
    pub open spec fn entered(self, s: State, entry: Pt) -> State {
        let d = dist_by(self.hypot, s.pos, entry);
        State {
            res: if same_place(s.pos, self.trailer) {
                s.res.ferried(d, self.p)
            } else {
                SimResult {
                    dead_ft: s.res.dead_ft.plus(d),
                    dead_s: s.res.dead_s.plus(d.over(self.p.dead_fps).plus(self.p.t_turn_s)),
                    n_turns: count_sum(s.res.n_turns, 1),
                    ..s.res
                }
            },
            ..s
        }
    }

    /// A block flown in a configuration. Each break of a line costs a turn on top
    /// of the one onto its next line.
    pub open spec fn block_flown(self, s: State, plan: PlanView, cfg: Config) -> State {
        let steps = steps_of(plan.lines, cfg);
        if steps.len() == 0 {
            s
        } else {
            let res = SimResult {
                turn_s: s.res.turn_s.plus(Double::of_int(plan.n_breaks).times(self.p.t_turn_s)),
                n_turns: count_sum(s.res.n_turns, plan.n_breaks),
                ..s.res
            };
            let at = self.entered(State { res, ..s }, steps[0].0.0);
            self.steps_flown(at, steps, steps.len() as int)
        }
    }

    /// The first `n` blocks of an order flown.
    pub open spec fn blocks_flown(
        self,
        s: State,
        plans: Seq<PlanView>,
        order: Seq<(usize, Config)>,
        n: int,
    ) -> State
        decreases n,
    {
        if n <= 0 {
            s
        } else {
            self.block_flown(
                self.blocks_flown(s, plans, order, n - 1),
                plans[order[n - 1].0 as int],
                order[n - 1].1,
            )
        }
    }

    /// The state at the trailer with the first load.
    pub open spec fn start(self, setup_s: Double) -> State {
        State {
            res: SimResult { setup_s, n_loads: 1, ..no_job() },
            tank: self.p.tank_gal,
            pos: self.trailer,
        }
    }

    /// What the flight of blocks in an order takes, from the trailer and back.
    pub open spec fn run(
        self,
        plans: Seq<PlanView>,
        order: Seq<(usize, Config)>,
        setup_s: Double,
    ) -> SimResult {
        let end = self.blocks_flown(self.start(setup_s), plans, order, order.len() as int);
        end.res.ferried(dist_by(self.hypot, end.pos, self.trailer), self.p)
    }
}

/// A pass flown to its end.
fn fly_leg<H: Fn(Double, Double) -> Double>(
    start: Leg,
    u: Pt,
    p: &AircraftParams,
    trailer: Pt,
    hypot: &H,
) -> (r: Leg)
    requires
        hypot_total(*hypot),
    ensures
        forall|h: Hypot| #[trigger]
            hypot_is(*hypot, h) ==> r == (Job { hypot: h, p: *p, trailer }).flown(start, u),
{
    let gal = p.swath_ft.times(p.gpa).over(acre_ft2());
    let mut leg = start;
    while no_length().lt(leg.remaining)
        invariant_except_break
            hypot_total(*hypot),
            gal == gallons_per_ft(*p),
            forall|h: Hypot| #[trigger]
                hypot_is(*hypot, h) ==> (Job { hypot: h, p: *p, trailer }).flown(leg, u) == (Job {
                    hypot: h,
                    p: *p,
                    trailer,
                }).flown(start, u),
        ensures
            forall|h: Hypot| #[trigger]
                hypot_is(*hypot, h) ==> leg == (Job { hypot: h, p: *p, trailer }).flown(start, u),
        decreases
                (if leg.tank == p.tank_gal {
                    0int
                } else {
                    1int
                }),
                leg.remaining.key() + u64::MAX,
    {
        let before = leg;
        let can_ft = if Double::zero().lt(gal) {
            leg.tank.over(gal)
        } else {
            leg.remaining
        };
        let fly = leg.remaining.min(can_ft);
        leg.res.spray_s = leg.res.spray_s.plus(fly.over(p.speed_fps));
        leg.tank = leg.tank.minus(fly.times(gal));
        leg.cur = Pt { x: leg.cur.x.plus(u.x.times(fly)), y: leg.cur.y.plus(u.y.times(fly)) };
        leg.remaining = leg.remaining.minus(fly);
        if !no_length().lt(leg.remaining) {
            break ;
        }
        if before.tank == p.tank_gal && !leg.remaining.lt(before.remaining) {
            break ;
        }
        leg.res = leg.res.ferry(dist(leg.cur, trailer, hypot), p);
        leg.res.load_s = leg.res.load_s.plus(p.t_load_s.plus(p.t_cycle_s));
        leg.res.n_loads = add_counts(leg.res.n_loads, 1);
        leg.tank = p.tank_gal;
        leg.res = leg.res.ferry(dist(trailer, leg.cur, hypot), p);
    }
    leg
}

/// A block flown in a configuration.
fn fly_block<H: Fn(Double, Double) -> Double>(
    start: State,
    plan: &PlanResult,
    cfg: Config,
    p: &AircraftParams,
    trailer: Pt,
    hypot: &H,
) -> (r: State)
    requires
        hypot_total(*hypot),
    ensures
        forall|h: Hypot| #[trigger]
            hypot_is(*hypot, h) ==> r == (Job { hypot: h, p: *p, trailer }).block_flown(
                start,
                plan@,
                cfg,
            ),
{
    let steps = traverse(plan, cfg.0, cfg.1);
    let mut s = start;
    if steps.len() == 0 {
        return s;
    }
    s.res.turn_s = s.res.turn_s.plus(Double::of_int(plan.n_breaks).times(p.t_turn_s));
    s.res.n_turns = add_counts(s.res.n_turns, plan.n_breaks);
    let d = dist(s.pos, steps[0].0.0, hypot);
    if is_same_place(s.pos, trailer) {
        s.res = s.res.ferry(d, p);
    } else {
        s.res.dead_ft = s.res.dead_ft.plus(d);
        s.res.dead_s = s.res.dead_s.plus(d.over(p.dead_fps).plus(p.t_turn_s));
        s.res.n_turns = add_counts(s.res.n_turns, 1);
    }
    let ghost at = s;
    let mut last_li = steps[0].1;
    for i in 0..steps.len()
        invariant
            hypot_total(*hypot),
            steps.len() == steps@.len(),
            i == 0 ==> last_li == steps@[0].1,
            i > 0 ==> last_li == steps@[i - 1].1,
            forall|h: Hypot| #[trigger]
                hypot_is(*hypot, h) ==> s == (Job { hypot: h, p: *p, trailer }).steps_flown(
                    at,
                    steps@,
                    i as int,
                ),
    {
        let (a, b, spray, l) = steps[i].0;
        if steps[i].1 != last_li {
            s.res.turn_s = s.res.turn_s.plus(p.t_turn_s.plus(p.arc_ft_per_turn.over(p.ferry_fps)));
            s.res.n_turns = add_counts(s.res.n_turns, 1);
            let extra = dist(s.pos, a, hypot).minus(Double::of_int(2).times(p.swath_ft));
            if Double::zero().lt(extra) {
                s.res = s.res.idle(extra, p);
            }
            last_li = steps[i].1;
        }
        if spray {
            let u = if Double::zero().lt(l) {
                Pt { x: b.x.minus(a.x).over(l), y: b.y.minus(a.y).over(l) }
            } else {
                Pt { x: Double::zero(), y: Double::zero() }
            };
            let leg = fly_leg(
                Leg { res: s.res, tank: s.tank, cur: a, remaining: l },
                u,
                p,
                trailer,
                hypot,
            );
            s = State { res: leg.res, tank: leg.tank, pos: b };
        } else {
            s.res = s.res.idle(l, p);
            s.pos = b;
        }
    }
    s
}

/// What the flight of blocks in an order takes, from the trailer and back.
pub fn run_sim<H: Fn(Double, Double) -> Double>(
    order: &Vec<(usize, Config)>,
    plans: &Vec<PlanResult>,
    p: &AircraftParams,
    trailer: Pt,
    setup_s: Double,
    hypot: &H,
) -> (r: SimResult)
    requires
        hypot_total(*hypot),
        forall|i: int| 0 <= i < order@.len() ==> (#[trigger] order@[i]).0 < plans@.len(),
    ensures
        forall|h: Hypot| #[trigger]
            hypot_is(*hypot, h) ==> r == (Job { hypot: h, p: *p, trailer }).run(
                plan_views(plans@),
                order@,
                setup_s,
            ),
{
    let mut res = SimResult::default();
    res.setup_s = setup_s;
    res.n_loads = 1;
    let mut s = State { res, tank: p.tank_gal, pos: trailer };
    let ghost at = s;
    for i in 0..order.len()
        invariant
            hypot_total(*hypot),
            forall|k: int| 0 <= k < order@.len() ==> (#[trigger] order@[k]).0 < plans@.len(),
            forall|h: Hypot| #[trigger]
                hypot_is(*hypot, h) ==> s == (Job { hypot: h, p: *p, trailer }).blocks_flown(
                    at,
                    plan_views(plans@),
                    order@,
                    i as int,
                ),
    {
        assert(order@[i as int].0 < plans@.len());
        s = fly_block(s, &plans[order[i].0], order[i].1, p, trailer, hypot);
    }
    s.res.ferry(dist(s.pos, trailer, hypot), p)
}

// ---------------------------------------------------------------------------
// Surveys
// ---------------------------------------------------------------------------

/// Which parts are within a distance of each other.
pub open spec fn near_parts(h: Hypot, parts: Seq<PolygonView>, link_ft: Double) -> Links {
    |i: int, j: int| poly_distance_by(h, parts[i], parts[j]).le(link_ft)
}

/// The number of groups of parts, a part being in the group of every part within
/// a distance of it.
pub open spec fn surveys(h: Hypot, parts: Seq<PolygonView>, link_ft: Double) -> i64 {
    as_count(group_count(clusters(near_parts(h, parts, link_ft), parts.len())) as int)
}

/// The number of groups of parts, a part being in the group of every part within
/// a distance of it: each group is surveyed once.
pub fn survey_groups<H: Fn(Double, Double) -> Double>(
    parts: &Vec<Polygon>,
    link_ft: Double,
    hypot: &H,
) -> (r: i64)
    requires
        hypot_total(*hypot),
    ensures
        forall|h: Hypot| #[trigger]
            hypot_is(*hypot, h) ==> r == surveys(h, polygon_views(parts@), link_ft),
{
    let n = parts.len();
    let mut table: Vec<Vec<bool>> = Vec::new();
    for i in 0..n
        invariant
            hypot_total(*hypot),
            n == parts@.len(),
            table@.len() == i,
            forall|x: int| 0 <= x < i ==> (#[trigger] table@[x])@.len() == n,
            forall|h: Hypot, x: int, y: int|
                #![trigger hypot_is(*hypot, h), table@[x]@[y]]
                hypot_is(*hypot, h) && 0 <= x < i && x < y < n ==> table@[x]@[y] == near_parts(
                    h,
                    polygon_views(parts@),
                    link_ft,
                )(x, y),
    {
        let mut row: Vec<bool> = Vec::new();
        for j in 0..n
            invariant
                hypot_total(*hypot),
                n == parts@.len(),
                i < n,
                row@.len() == j,
                forall|h: Hypot, y: int|
                    #![trigger hypot_is(*hypot, h), row@[y]]
                    hypot_is(*hypot, h) && i < y < j ==> row@[y] == near_parts(
                        h,
                        polygon_views(parts@),
                        link_ft,
                    )(i as int, y),
        {
            row.push(i < j && poly_distance(&parts[i], &parts[j], hypot).le(link_ft));
        }
        let ghost table0 = table@;
        table.push(row);
        assert forall|h: Hypot, x: int, y: int|
            #![trigger hypot_is(*hypot, h), table@[x]@[y]]
            hypot_is(*hypot, h) && 0 <= x < i + 1 && x < y < n implies table@[x]@[y] == near_parts(
            h,
            polygon_views(parts@),
            link_ft,
        )(x, y) by {
            if x < i {
                assert(table@[x]@[y] == table0[x]@[y]);
            } else {
                assert(table@[x]@[y] == row@[y]);
            }
        }
    }
    let labels = cluster(&table);
    proof {
        lemma_cluster_labels(table_links(table@), n as nat, n as int);
        assert forall|h: Hypot| #[trigger] hypot_is(*hypot, h) implies labels@ == clusters(
            near_parts(h, polygon_views(parts@), link_ft),
            n as nat,
        ) by {
            let links = near_parts(h, polygon_views(parts@), link_ft);
            assert forall|x: int, y: int| 0 <= x < y < n implies #[trigger] table_links(table@)(
                x,
                y,
            ) == links(x, y) by {
                assert(table@[x]@[y] == links(x, y));
            }
            lemma_clusters_by_links(table_links(table@), links, n as nat, n as int);
        }
    }
    to_count(count_groups(&labels))
}

// ---------------------------------------------------------------------------
// Where the trailer stands
// ---------------------------------------------------------------------------

/// The least coordinates of the ends of the first `n` runs, and of a point.
pub open spec fn run_corner(runs: Seq<(Pt, Pt, bool)>, from: Pt, n: int) -> Pt
    decreases n,
{
    if n <= 0 {
        from
    } else {
        let c = run_corner(runs, from, n - 1);
        let (a, b, _) = runs[n - 1];
        Pt { x: c.x.min(a.x).min(b.x), y: c.y.min(a.y).min(b.y) }
    }
}

/// The least coordinates of the ends of all runs of the first `n` plans.
pub open spec fn corner(plans: Seq<PlanView>, n: int) -> Pt
    decreases n,
{
    if n <= 0 {
        Pt { x: Double::infinity(), y: Double::infinity() }
    } else {
        run_corner(
            plans[n - 1].runs,
            corner(plans, n - 1),
            plans[n - 1].runs.len() as int,
        )
    }
}

/// The nearer of the nearest point so far and another.
pub open spec fn nearer(h: Hypot, target: Pt, best: (Pt, Double), c: Pt) -> (Pt, Double) {
    let d = dist_by(h, c, target);
    if d.lt(best.1) {
        (c, d)
    } else {
        best
    }
}

/// The nearest of a point and the ends of the first `n` parts of a line.
pub open spec fn nearest_on_line(
    h: Hypot,
    target: Pt,
    best: (Pt, Double),
    line: Seq<LinePart>,
    n: int,
) -> (Pt, Double)
    decreases n,
{
    if n <= 0 {
        best
    } else {
        nearer(
            h,
            target,
            nearer(h, target, nearest_on_line(h, target, best, line, n - 1), line[n - 1].0),
            line[n - 1].1,
        )
    }
}

/// The nearest of a point and the ends of the parts of the first `n` lines.
pub open spec fn nearest_on_lines(
    h: Hypot,
    target: Pt,
    best: (Pt, Double),
    lines: Seq<Seq<LinePart>>,
    n: int,
) -> (Pt, Double)
    decreases n,
{
    if n <= 0 {
        best
    } else {
        nearest_on_line(
            h,
            target,
            nearest_on_lines(h, target, best, lines, n - 1),
            lines[n - 1],
            lines[n - 1].len() as int,
        )
    }
}

/// The nearest end of a part of the first `n` plans; the origin where there is
/// none.
pub open spec fn nearest_end(h: Hypot, target: Pt, plans: Seq<PlanView>, n: int) -> (Pt, Double)
    decreases n,
{
    if n <= 0 {
        (Pt { x: Double::zero(), y: Double::zero() }, Double::infinity())
    } else {
        nearest_on_lines(
            h,
            target,
            nearest_end(h, target, plans, n - 1),
            plans[n - 1].lines,
            plans[n - 1].lines.len() as int,
        )
    }
}

/// The corner a foot outside all runs.
pub open spec fn trailer_target(plans: Seq<PlanView>) -> Pt {
    let c = corner(plans, plans.len() as int);
    Pt { x: c.x.minus(Double::of_int(1)), y: c.y.minus(Double::of_int(1)) }
}

/// The place next to the field where the trailer stands unless one is given: the
/// end of a part nearest to the corner a foot outside all runs.
pub open spec fn trailer_place(h: Hypot, plans: Seq<PlanView>) -> Pt {
    nearest_end(h, trailer_target(plans), plans, plans.len() as int).0
}

fn take_nearer<H: Fn(Double, Double) -> Double>(
    best: (Pt, Double),
    c: Pt,
    target: Pt,
    hypot: &H,
) -> (r: (Pt, Double))
    requires
        hypot_total(*hypot),
    ensures
        forall|h: Hypot| #[trigger] hypot_is(*hypot, h) ==> r == nearer(h, target, best, c),
{
    let d = dist(c, target, hypot);
    if d.lt(best.1) {
        (c, d)
    } else {
        best
    }
}

/// Where the trailer stands unless a place is given.
pub fn default_trailer<H: Fn(Double, Double) -> Double>(plans: &Vec<PlanResult>, hypot: &H) -> (r:
    Pt)
    requires
        hypot_total(*hypot),
    ensures
        forall|h: Hypot| #[trigger]
            hypot_is(*hypot, h) ==> r == trailer_place(h, plan_views(plans@)),
{
    let mut c = Pt { x: Double::infinity(), y: Double::infinity() };
    for i in 0..plans.len()
        invariant
            c == corner(plan_views(plans@), i as int),
    {
        let ghost from = c;
        let runs = &plans[i].runs;
        for j in 0..runs.len()
            invariant
                c == run_corner(runs@, from, j as int),
        {
            let (a, b, _) = runs[j];
            c = Pt { x: c.x.min(a.x).min(b.x), y: c.y.min(a.y).min(b.y) };
        }
    }
    let target = Pt { x: c.x.minus(Double::of_int(1)), y: c.y.minus(Double::of_int(1)) };
    let mut best = (Pt { x: Double::zero(), y: Double::zero() }, Double::infinity());
    for i in 0..plans.len()
        invariant
            hypot_total(*hypot),
            forall|h: Hypot| #[trigger]
                hypot_is(*hypot, h) ==> best == nearest_end(
                    h,
                    target,
                    plan_views(plans@),
                    i as int,
                ),
    {
        let ghost from = best;
        let lines = &plans[i].lines;
        for j in 0..lines.len()
            invariant
                hypot_total(*hypot),
                forall|h: Hypot| #[trigger]
                    hypot_is(*hypot, h) ==> best == nearest_on_lines(
                        h,
                        target,
                        from,
                        crate::plan::line_views(lines@),
                        j as int,
                    ),
        {
            let ghost from2 = best;
            let line = &lines[j];
            for k in 0..line.len()
                invariant
                    hypot_total(*hypot),
                    forall|h: Hypot| #[trigger]
                        hypot_is(*hypot, h) ==> best == nearest_on_line(
                            h,
                            target,
                            from2,
                            line@,
                            k as int,
                        ),
            {
                best = take_nearer(best, line[k].0, target, hypot);
                best = take_nearer(best, line[k].1, target, hypot);
            }
        }
    }
    best.0
}

// ---------------------------------------------------------------------------
// Configurations
// ---------------------------------------------------------------------------

/// How many ways there are to configure `k` blocks.
pub open spec fn ways(k: nat) -> nat
    decreases k,
{
    if k == 0 {
        1
    } else {
        4 * ways((k - 1) as nat)
    }
}

/// Way number `mask` to configure `k` blocks: its digits to base four, the least
/// first.
pub open spec fn way(mask: nat, k: nat) -> Seq<Config>
    decreases k,
{
    if k == 0 {
        Seq::empty()
    } else {
        seq![config((mask % 4) as usize)] + way(mask / 4, (k - 1) as nat)
    }
}

/// The blocks of an order, each with its configuration.
pub open spec fn with_configs(order: Seq<(usize, Config)>, cfgs: Seq<Config>) -> Seq<(usize, Config)> {
    Seq::new(order.len(), |i: int| (order[i].0, cfgs[i]))
}

impl Job {
    /// The time of a job whose blocks are configured in a way.
    pub open spec fn time_in_way(
        self,
        plans: Seq<PlanView>,
        order: Seq<(usize, Config)>,
        setup_s: Double,
        mask: nat,
    ) -> Double {
        self.run(plans, with_configs(order, way(mask, order.len())), setup_s).total_s()
    }

    /// The first of the shortest of the first `n` ways.
    pub open spec fn best_way(
        self,
        plans: Seq<PlanView>,
        order: Seq<(usize, Config)>,
        setup_s: Double,
        n: nat,
    ) -> nat
        decreases n,
    {
        if n <= 1 {
            0
        } else {
            let b = self.best_way(plans, order, setup_s, (n - 1) as nat);
            if self.time_in_way(plans, order, setup_s, (n - 1) as nat).lt(
                self.time_in_way(plans, order, setup_s, b),
            ) {
                (n - 1) as nat
            } else {
                b
            }
        }
    }

    /// An order as it is flown: for up to four blocks in the best of all ways to
    /// configure them, for more as it stands.
    pub open spec fn as_flown(
        self,
        plans: Seq<PlanView>,
        order: Seq<(usize, Config)>,
        setup_s: Double,
    ) -> Seq<(usize, Config)> {
        if 0 < order.len() <= 4 {
            let best = self.best_way(plans, order, setup_s, ways(order.len()));
            with_configs(order, way(best, order.len()))
        } else {
            order
        }
    }
}

/// The time of all set-up and surveys.
pub open spec fn setup_time(p: AircraftParams, n_surveys: i64) -> Double {
    p.t_setup_s.plus(Double::of_int(n_surveys).times(p.t_survey_s))
}

/// Where the trailer of a job stands.
pub open spec fn trailer_at(h: Hypot, plans: Seq<PlanView>, trailer: Option<Pt>) -> Pt {
    match trailer {
        Some(t) => t,
        None => trailer_place(h, plans),
    }
}

/// The blocks of a job as they are flown.
pub open spec fn flight_plan(
    h: Hypot,
    plans: Seq<PlanView>,
    p: AircraftParams,
    trailer: Option<Pt>,
    n_surveys: i64,
) -> Seq<(usize, Config)> {
    let at = trailer_at(h, plans, trailer);
    (Job { hypot: h, p, trailer: at }).as_flown(
        plans,
        ordered(h, plans, at, p, 6),
        setup_time(p, n_surveys),
    )
}

/// What a job takes.
pub open spec fn simulated(
    h: Hypot,
    plans: Seq<PlanView>,
    p: AircraftParams,
    trailer: Option<Pt>,
    n_surveys: i64,
) -> SimResult {
    (Job { hypot: h, p, trailer: trailer_at(h, plans, trailer) }).run(
        plans,
        flight_plan(h, plans, p, trailer, n_surveys),
        setup_time(p, n_surveys),
    )
}

/// The blocks of an order configured in a way.
fn in_way(order: &Vec<(usize, Config)>, mask: usize) -> (r: Vec<(usize, Config)>)
    ensures
        r@ == with_configs(order@, way(mask as nat, order@.len())),
{
    let mut out: Vec<(usize, Config)> = Vec::new();
    let mut m = mask;
    let ghost cfgs = way(mask as nat, order@.len());
    proof {
        lemma_way_len(mask as nat, order@.len());
        assert(cfgs.skip(0) =~= cfgs);
    }
    for i in 0..order.len()
        invariant
            cfgs.len() == order@.len(),
            cfgs.skip(i as int) == way(m as nat, (order@.len() - i) as nat),
            out@.len() == i,
            forall|k: int| 0 <= k < i ==> #[trigger] out@[k] == (order@[k].0, cfgs[k]),
    {
        proof {
            let rest = way(m as nat, (order@.len() - i) as nat);
            assert(cfgs[i as int] == cfgs.skip(i as int)[0]);
            assert(cfgs.skip(i + 1) =~= cfgs.skip(i as int).skip(1));
            assert(rest.skip(1) =~= way(m as nat / 4, (order@.len() - i - 1) as nat));
        }
        out.push((order[i].0, config(m % 4)));
        m = m / 4;
    }
    assert(out@ =~= with_configs(order@, cfgs));
    out
}

proof fn lemma_way_len(mask: nat, k: nat)
    ensures
        way(mask, k).len() == k,
    decreases k,
{
    if k > 0 {
        lemma_way_len(mask / 4, (k - 1) as nat);
    }
}

/// An order of up to four blocks in the best of all ways to configure them.
fn best_configs<H: Fn(Double, Double) -> Double>(
    order: &Vec<(usize, Config)>,
    plans: &Vec<PlanResult>,
    p: &AircraftParams,
    trailer: Pt,
    setup_s: Double,
    hypot: &H,
) -> (r: Vec<(usize, Config)>)
    requires
        hypot_total(*hypot),
        0 < order@.len() <= 4,
        forall|i: int| 0 <= i < order@.len() ==> (#[trigger] order@[i]).0 < plans@.len(),
    ensures
        r@.len() == order@.len(),
        forall|i: int| 0 <= i < r@.len() ==> (#[trigger] r@[i]).0 == order@[i].0,
        forall|h: Hypot| #[trigger]
            hypot_is(*hypot, h) ==> r@ == (Job { hypot: h, p: *p, trailer }).as_flown(
                plan_views(plans@),
                order@,
                setup_s,
            ),
{
    let k = order.len();
    let mut n: usize = 1;
    for i in 0..k
        invariant
            k <= 4,
            n == ways(i as nat),
            n >= 1,
            i == 0 ==> n <= 1,
            i == 1 ==> n <= 4,
            i == 2 ==> n <= 16,
            i == 3 ==> n <= 64,
            i == 4 ==> n <= 256,
    {
        n = 4 * n;
    }
    let mut best = in_way(order, 0);
    let mut best_s = run_sim(&best, plans, p, trailer, setup_s, hypot).total_s();
    for mask in 1..n
        invariant
            hypot_total(*hypot),
            forall|i: int| 0 <= i < order@.len() ==> (#[trigger] order@[i]).0 < plans@.len(),
            n >= 1,
            best@.len() == order@.len(),
            forall|i: int| 0 <= i < best@.len() ==> (#[trigger] best@[i]).0 == order@[i].0,
            forall|h: Hypot| #[trigger]
                hypot_is(*hypot, h) ==> ({
                    let job = Job { hypot: h, p: *p, trailer };
                    let b = job.best_way(plan_views(plans@), order@, setup_s, mask as nat);
                    &&& best@ == with_configs(order@, way(b, order@.len()))
                    &&& best_s == job.time_in_way(plan_views(plans@), order@, setup_s, b)
                }),
    {
        let tried = in_way(order, mask);
        let t = run_sim(&tried, plans, p, trailer, setup_s, hypot).total_s();
        if t.lt(best_s) {
            best_s = t;
            best = tried;
        }
    }
    best
}

/// The flight of a job from its trailer and back: what it takes, and where the
/// trailer stands.
pub fn simulate_job<H: Fn(Double, Double) -> Double>(
    plans: &Vec<PlanResult>,
    p: &AircraftParams,
    trailer: Option<Pt>,
    n_surveys: i64,
    hypot: &H,
) -> (r: (SimResult, Pt))
    requires
        hypot_total(*hypot),
        plans@.len() > 0,
    ensures
        forall|h: Hypot| #[trigger]
            hypot_is(*hypot, h) ==> r == (
                simulated(h, plan_views(plans@), *p, trailer, n_surveys),
                trailer_at(h, plan_views(plans@), trailer),
            ),
{
    let at = match trailer {
        Some(t) => t,
        None => default_trailer(plans, hypot),
    };
    let order = order_blocks(plans, at, p, 6, hypot);
    let setup_s = p.t_setup_s.plus(Double::of_int(n_surveys).times(p.t_survey_s));
    let flown = if order.len() <= 4 {
        best_configs(&order, plans, p, at, setup_s, hypot)
    } else {
        order
    };
    (run_sim(&flown, plans, p, at, setup_s, hypot), at)
}

// ---------------------------------------------------------------------------
// Laws
// ---------------------------------------------------------------------------

/// The number of a configuration.
spec fn number_of(c: Config) -> nat {
    match c {
        (false, false) => 0,
        (false, true) => 1,
        (true, false) => 2,
        (true, true) => 3,
    }
}

/// The number of a way to configure blocks.
spec fn mask_of(cfgs: Seq<Config>) -> nat
    decreases cfgs.len(),
{
    if cfgs.len() == 0 {
        0
    } else {
        number_of(cfgs[0]) + 4 * mask_of(cfgs.skip(1))
    }
}

proof fn lemma_mask(cfgs: Seq<Config>)
    ensures
        mask_of(cfgs) < ways(cfgs.len()),
        way(mask_of(cfgs), cfgs.len()) == cfgs,
    decreases cfgs.len(),
{
    if cfgs.len() > 0 {
        lemma_mask(cfgs.skip(1));
        assert(config(number_of(cfgs[0]) as usize) == cfgs[0]);
        assert(mask_of(cfgs) % 4 == number_of(cfgs[0]));
        assert(mask_of(cfgs) / 4 == mask_of(cfgs.skip(1)));
    }
    assert(way(mask_of(cfgs), cfgs.len()) =~= cfgs);
}

proof fn lemma_best_way(
    job: Job,
    plans: Seq<PlanView>,
    order: Seq<(usize, Config)>,
    setup_s: Double,
    n: nat,
    m: nat,
)
    requires
        m < n,
    ensures
        !job.time_in_way(plans, order, setup_s, m).lt(
            job.time_in_way(plans, order, setup_s, job.best_way(plans, order, setup_s, n)),
        ),
    decreases n,
{
    if n > 1 {
        if m < n - 1 {
            lemma_best_way(job, plans, order, setup_s, (n - 1) as nat, m);
        }
    }
}

/// No way to configure up to four blocks makes a job shorter than the way that
/// is flown.
pub proof fn law_no_way_is_shorter(
    job: Job,
    plans: Seq<PlanView>,
    order: Seq<(usize, Config)>,
    setup_s: Double,
    cfgs: Seq<Config>,
)
    requires
        0 < order.len() <= 4,
        cfgs.len() == order.len(),
    ensures
        !job.run(plans, with_configs(order, cfgs), setup_s).total_s().lt(
            job.run(plans, job.as_flown(plans, order, setup_s), setup_s).total_s(),
        ),
{
    lemma_mask(cfgs);
    lemma_best_way(job, plans, order, setup_s, ways(order.len()), mask_of(cfgs));
}

/// Every block is flown once.
pub proof fn law_each_block_flown(
    h: Hypot,
    plans: Seq<PlanView>,
    p: AircraftParams,
    trailer: Option<Pt>,
    n_surveys: i64,
)
    requires
        0 < plans.len() <= usize::MAX,
    ensures
        rearranged(
            indices(plans.len()),
            flight_plan(h, plans, p, trailer, n_surveys).map_values(|b: (usize, Config)| b.0),
        ),
{
    let at = trailer_at(h, plans, trailer);
    law_order_rearranges(h, plans, at, p, 6);
    assert(flight_plan(h, plans, p, trailer, n_surveys).map_values(|b: (usize, Config)| b.0)
        =~= ordered(h, plans, at, p, 6).map_values(|b: (usize, Config)| b.0));
}

proof fn lemma_leg_loads(job: Job, leg: Leg, u: Pt)
    ensures
        job.flown(leg, u).res.n_loads >= leg.res.n_loads,
    decreases
            (if leg.tank == job.p.tank_gal {
                0int
            } else {
                1int
            }),
            leg.remaining.key() + u64::MAX,
{
    let next = job.sprayed(leg, u);
    if !no_length().lt(leg.remaining) {
    } else if !no_length().lt(next.remaining) {
    } else if leg.tank == job.p.tank_gal && !next.remaining.lt(leg.remaining) {
    } else {
        lemma_leg_loads(job, job.reloaded(next), u);
    }
}

proof fn lemma_step_loads(job: Job, s: State, steps: Seq<Step>, n: int)
    ensures
        job.steps_flown(s, steps, n).res.n_loads >= s.res.n_loads,
    decreases n,
{
    if n > 0 {
        lemma_step_loads(job, s, steps, n - 1);
        let before = job.steps_flown(s, steps, n - 1);
        let (a, b, spray, l) = steps[n - 1].0;
        let at = if n > 1 && steps[n - 1].1 != steps[n - 2].1 {
            job.turned_to(before, a)
        } else {
            before
        };
        lemma_leg_loads(
            job,
            Leg { res: at.res, tank: at.tank, cur: a, remaining: l },
            heading(a, b, l),
        );
    }
}

proof fn lemma_block_loads(
    job: Job,
    s: State,
    plans: Seq<PlanView>,
    order: Seq<(usize, Config)>,
    n: int,
)
    ensures
        job.blocks_flown(s, plans, order, n).res.n_loads >= s.res.n_loads,
    decreases n,
{
    if n > 0 {
        lemma_block_loads(job, s, plans, order, n - 1);
        let before = job.blocks_flown(s, plans, order, n - 1);
        let plan = plans[order[n - 1].0 as int];
        let steps = steps_of(plan.lines, order[n - 1].1);
        let res = SimResult {
            turn_s: before.res.turn_s.plus(Double::of_int(plan.n_breaks).times(job.p.t_turn_s)),
            n_turns: count_sum(before.res.n_turns, plan.n_breaks),
            ..before.res
        };
        let at = job.entered(State { res, ..before }, steps[0].0.0);
        lemma_step_loads(job, at, steps, steps.len() as int);
    }
}

/// A job takes at least the load it starts with.
pub proof fn law_first_load(
    job: Job,
    plans: Seq<PlanView>,
    order: Seq<(usize, Config)>,
    setup_s: Double,
)
    ensures
        job.run(plans, order, setup_s).n_loads >= 1,
{
    lemma_block_loads(job, job.start(setup_s), plans, order, order.len() as int);
}

proof fn lemma_nearer(h: Hypot, target: Pt, best: (Pt, Double), c: Pt, e: Pt)
    requires
        !dist_by(h, e, target).lt(best.1) || e == c,
        !best.1.nan(),
    ensures
        !dist_by(h, e, target).lt(nearer(h, target, best, c).1),
        !nearer(h, target, best, c).1.nan(),
{
}

proof fn lemma_nearest_line(
    h: Hypot,
    target: Pt,
    best: (Pt, Double),
    line: Seq<LinePart>,
    n: int,
    e: Pt,
)
    requires
        !best.1.nan(),
    ensures
        !nearest_on_line(h, target, best, line, n).1.nan(),
        !dist_by(h, e, target).lt(best.1) || (exists|k: int|
            0 <= k < n && ((#[trigger] line[k]).0 == e || line[k].1 == e)) ==> !dist_by(
            h,
            e,
            target,
        ).lt(nearest_on_line(h, target, best, line, n).1),
    decreases n,
{
    if n > 0 {
        lemma_nearest_line(h, target, best, line, n - 1, e);
        let before = nearest_on_line(h, target, best, line, n - 1);
        let first = nearer(h, target, before, line[n - 1].0);
        if !dist_by(h, e, target).lt(best.1) || (exists|k: int|
            0 <= k < n && ((#[trigger] line[k]).0 == e || line[k].1 == e)) {
            if !dist_by(h, e, target).lt(before.1) {
                lemma_nearer(h, target, before, line[n - 1].0, e);
                lemma_nearer(h, target, first, line[n - 1].1, e);
            } else {
                let k = choose|k: int|
                    0 <= k < n && ((#[trigger] line[k]).0 == e || line[k].1 == e);
                assert(k == n - 1);
                if line[k].0 == e {
                    lemma_nearer(h, target, before, line[k].0, e);
                    lemma_nearer(h, target, first, line[k].1, e);
                } else {
                    lemma_nearer(h, target, first, line[k].1, e);
                }
            }
        }
    }
}

/// A point is an end of a part of one of the first `n` lines.
pub open spec fn ends_line(lines: Seq<Seq<LinePart>>, n: int, e: Pt) -> bool {
    exists|j: int, k: int|
        0 <= j < n && 0 <= k < lines[j].len() && ((#[trigger] lines[j][k]).0 == e || lines[j][k].1
            == e)
}

proof fn lemma_nearest_lines(
    h: Hypot,
    target: Pt,
    best: (Pt, Double),
    lines: Seq<Seq<LinePart>>,
    n: int,
    e: Pt,
)
    requires
        !best.1.nan(),
    ensures
        !nearest_on_lines(h, target, best, lines, n).1.nan(),
        !dist_by(h, e, target).lt(best.1) || ends_line(lines, n, e) ==> !dist_by(h, e, target).lt(
            nearest_on_lines(h, target, best, lines, n).1,
        ),
    decreases n,
{
    if n > 0 {
        lemma_nearest_lines(h, target, best, lines, n - 1, e);
        let before = nearest_on_lines(h, target, best, lines, n - 1);
        let line = lines[n - 1];
        lemma_nearest_line(h, target, before, line, line.len() as int, e);
        if ends_line(lines, n, e) && !ends_line(lines, n - 1, e) {
            let (j, k) = choose|j: int, k: int|
                0 <= j < n && 0 <= k < lines[j].len() && ((#[trigger] lines[j][k]).0 == e
                    || lines[j][k].1 == e);
            assert(j == n - 1);
            assert(line[k].0 == e || line[k].1 == e);
        }
    }
}

proof fn lemma_nearest_end(h: Hypot, target: Pt, plans: Seq<PlanView>, n: int, i: int, e: Pt)
    requires
        0 <= i < n,
        ends_line(plans[i].lines, plans[i].lines.len() as int, e),
    ensures
        !nearest_end(h, target, plans, n).1.nan(),
        !dist_by(h, e, target).lt(nearest_end(h, target, plans, n).1),
    decreases n,
{
    let lines = plans[n - 1].lines;
    lemma_nearest_number(h, target, plans, n - 1);
    if i < n - 1 {
        lemma_nearest_end(h, target, plans, n - 1, i, e);
    }
    lemma_nearest_lines(
        h,
        target,
        nearest_end(h, target, plans, n - 1),
        lines,
        lines.len() as int,
        e,
    );
}

proof fn lemma_nearest_number(h: Hypot, target: Pt, plans: Seq<PlanView>, n: int)
    ensures
        !nearest_end(h, target, plans, n).1.nan(),
    decreases n,
{
    if n > 0 {
        lemma_nearest_number(h, target, plans, n - 1);
        let lines = plans[n - 1].lines;
        lemma_nearest_lines(
            h,
            target,
            nearest_end(h, target, plans, n - 1),
            lines,
            lines.len() as int,
            target,
        );
    }
}

proof fn lemma_nearest_is_there(h: Hypot, target: Pt, plans: Seq<PlanView>, n: int)
    ensures
        nearest_end(h, target, plans, n).1 == Double::infinity() || nearest_end(
            h,
            target,
            plans,
            n,
        ).1 == dist_by(h, nearest_end(h, target, plans, n).0, target),
    decreases n,
{
    if n > 0 {
        lemma_nearest_is_there(h, target, plans, n - 1);
        let lines = plans[n - 1].lines;
        lemma_lines_there(
            h,
            target,
            nearest_end(h, target, plans, n - 1),
            lines,
            lines.len() as int,
        );
    }
}

/// The distance that goes with a point is its own, or that of no point.
spec fn own_distance(h: Hypot, target: Pt, best: (Pt, Double)) -> bool {
    best.1 == Double::infinity() || best.1 == dist_by(h, best.0, target)
}

proof fn lemma_line_there(h: Hypot, target: Pt, best: (Pt, Double), line: Seq<LinePart>, n: int)
    requires
        own_distance(h, target, best),
    ensures
        own_distance(h, target, nearest_on_line(h, target, best, line, n)),
    decreases n,
{
    if n > 0 {
        lemma_line_there(h, target, best, line, n - 1);
    }
}

proof fn lemma_lines_there(
    h: Hypot,
    target: Pt,
    best: (Pt, Double),
    lines: Seq<Seq<LinePart>>,
    n: int,
)
    requires
        own_distance(h, target, best),
    ensures
        own_distance(h, target, nearest_on_lines(h, target, best, lines, n)),
    decreases n,
{
    if n > 0 {
        lemma_lines_there(h, target, best, lines, n - 1);
        lemma_line_there(
            h,
            target,
            nearest_on_lines(h, target, best, lines, n - 1),
            lines[n - 1],
            lines[n - 1].len() as int,
        );
    }
}

proof fn lemma_line_end(h: Hypot, target: Pt, best: (Pt, Double), line: Seq<LinePart>, n: int)
    requires
        n <= line.len(),
    ensures
        ({
            let r = nearest_on_line(h, target, best, line, n);
            r == best || exists|k: int|
                0 <= k < line.len() && ((#[trigger] line[k]).0 == r.0 || line[k].1 == r.0)
        }),
    decreases n,
{
    if n > 0 {
        lemma_line_end(h, target, best, line, n - 1);
        let r = nearest_on_line(h, target, best, line, n);
        let before = nearest_on_line(h, target, best, line, n - 1);
        if r != before {
            assert(line[n - 1].0 == r.0 || line[n - 1].1 == r.0);
        }
    }
}

proof fn lemma_lines_end(
    h: Hypot,
    target: Pt,
    best: (Pt, Double),
    lines: Seq<Seq<LinePart>>,
    n: int,
)
    requires
        n <= lines.len(),
    ensures
        ({
            let r = nearest_on_lines(h, target, best, lines, n);
            r == best || ends_line(lines, lines.len() as int, r.0)
        }),
    decreases n,
{
    if n > 0 {
        lemma_lines_end(h, target, best, lines, n - 1);
        let before = nearest_on_lines(h, target, best, lines, n - 1);
        let line = lines[n - 1];
        lemma_line_end(h, target, before, line, line.len() as int);
        let r = nearest_on_lines(h, target, best, lines, n);
        if r != before {
            let k = choose|k: int|
                0 <= k < line.len() && ((#[trigger] line[k]).0 == r.0 || line[k].1 == r.0);
            assert(lines[n - 1][k].0 == r.0 || lines[n - 1][k].1 == r.0);
        }
    }
}

/// A point is an end of a part of a plan.
pub open spec fn ends_plan(plans: Seq<PlanView>, e: Pt) -> bool {
    exists|i: int|
        0 <= i < plans.len() && ends_line(
            (#[trigger] plans[i]).lines,
            plans[i].lines.len() as int,
            e,
        )
}

proof fn lemma_nearest_ends(h: Hypot, target: Pt, plans: Seq<PlanView>, n: int)
    requires
        n <= plans.len(),
    ensures
        nearest_end(h, target, plans, n).1 == Double::infinity() || ends_plan(
            plans,
            nearest_end(h, target, plans, n).0,
        ),
    decreases n,
{
    if n > 0 {
        lemma_nearest_ends(h, target, plans, n - 1);
        let lines = plans[n - 1].lines;
        lemma_lines_end(
            h,
            target,
            nearest_end(h, target, plans, n - 1),
            lines,
            lines.len() as int,
        );
        let r = nearest_end(h, target, plans, n);
        if r != nearest_end(h, target, plans, n - 1) {
            assert(ends_line(plans[n - 1].lines, plans[n - 1].lines.len() as int, r.0));
        }
    }
}

/// Where some end of a part is at a finite distance from the corner outside all runs,
/// the place of the trailer is an end of a part, and no end is nearer to the corner.
pub proof fn law_trailer_nearest(h: Hypot, plans: Seq<PlanView>, i: int, e: Pt)
    requires
        0 <= i < plans.len(),
        ends_line(plans[i].lines, plans[i].lines.len() as int, e),
        dist_by(h, e, trailer_target(plans)).lt(Double::infinity()),
    ensures
        ends_plan(plans, trailer_place(h, plans)),
        !dist_by(h, e, trailer_target(plans)).lt(
            dist_by(h, trailer_place(h, plans), trailer_target(plans)),
        ),
{
    let target = trailer_target(plans);
    lemma_nearest_end(h, target, plans, plans.len() as int, i, e);
    lemma_nearest_is_there(h, target, plans, plans.len() as int);
    lemma_nearest_ends(h, target, plans, plans.len() as int);
}

} // verus!
