//! What plans cost.
use vstd::prelude::*;

use crate::double::Double;
use crate::params::AircraftParams;
use crate::plan::{plan_views, turns_between, turns_of, PlanResult, PlanView};

verus! {

/// A sum of counts, as far as an `i64` goes.
pub open spec fn count_sum(a: i64, b: i64) -> i64 {
    if a + b > i64::MAX {
        i64::MAX
    } else if a + b < i64::MIN {
        i64::MIN
    } else {
        (a + b) as i64
    }
}

pub(crate) fn add_counts(a: i64, b: i64) -> (r: i64)
    ensures
        r == count_sum(a, b),
{
    let s: i128 = a as i128 + b as i128;
    if s > i64::MAX as i128 {
        i64::MAX
    } else if s < i64::MIN as i128 {
        i64::MIN
    } else {
        s as i64
    }
}

impl PlanView {
    /// The time in the air and in turns of a block. A break costs two turns,
    /// one of which its two runs already count. A turn takes its time and that
    /// of its arc outside the field.
    pub open spec fn block_cost(self, p: AircraftParams) -> Double {
        let n_turns = count_sum(turns_between(self.n_runs), self.n_breaks);
        self.spray_ft.over(p.speed_fps).plus(self.dead_ft.over(p.dead_fps)).plus(
            Double::of_int(n_turns).times(p.t_turn_s.plus(p.arc_ft_per_turn.over(p.ferry_fps))),
        )
    }
}

/// The time in the air and in turns of a block, without loads.
pub fn block_cost(plan: &PlanResult, p: &AircraftParams) -> (r: Double)
    ensures
        r == plan@.block_cost(*p),
{
    let n_turns = add_counts(turns_of(plan.n_runs), plan.n_breaks);
    plan.spray_ft.over(p.speed_fps).plus(plan.dead_ft.over(p.dead_fps)).plus(
        Double::of_int(n_turns).times(p.t_turn_s.plus(p.arc_ft_per_turn.over(p.ferry_fps))),
    )
}

/// The sum of the areas of the first `n` plans.
pub open spec fn area_sum(plans: Seq<PlanView>, n: int) -> Double
    decreases n,
{
    if n <= 0 {
        Double::negative_zero()
    } else {
        area_sum(plans, n - 1).plus(plans[n - 1].area_ac)
    }
}

/// The sum of the block costs of the first `n` plans.
pub open spec fn cost_sum(plans: Seq<PlanView>, p: AircraftParams, n: int) -> Double
    decreases n,
{
    if n <= 0 {
        Double::negative_zero()
    } else {
        cost_sum(plans, p, n - 1).plus(plans[n - 1].block_cost(p))
    }
}

/// A count less one, times the time of a turn: the turns between blocks.
pub open spec fn turns_among(n: nat, p: AircraftParams) -> Double {
    Double::spec_of_count(n).minus(Double::of_int(1)).times(p.t_turn_s)
}

/// The time of a job: its blocks, the loads for their area with a ferry out and
/// back each, a turn between one block and the next, and extra transit.
pub open spec fn job_time(plans: Seq<PlanView>, p: AircraftParams, extra_ft: Double) -> Double {
    let n = plans.len() as int;
    let area = area_sum(plans, n);
    let n_loads = if Double::zero().lt(area) {
        area.times(p.gpa).over(p.tank_gal).ceil()
    } else {
        Double::zero()
    };
    cost_sum(plans, p, n).plus(n_loads.times(p.t_load_s.plus(p.t_cycle_s))).plus(
        Double::of_int(2).times(n_loads).times(p.ferry_ft).over(p.ferry_fps),
    ).plus(turns_among(plans.len(), p)).plus(extra_ft.over(p.ferry_fps))
}

/// The sum of the block costs of plans.
pub fn sum_costs(plans: &Vec<PlanResult>, p: &AircraftParams) -> (r: Double)
    ensures
        r == cost_sum(plan_views(plans@), *p, plans@.len() as int),
{
    let mut cost = Double::negative_zero();
    for i in 0..plans.len()
        invariant
            cost == cost_sum(plan_views(plans@), *p, i as int),
    {
        cost = cost.plus(block_cost(&plans[i], p));
    }
    cost
}

/// The time of the turns between `n` blocks.
pub fn time_among(n: usize, p: &AircraftParams) -> (r: Double)
    ensures
        r == turns_among(n as nat, *p),
{
    Double::of_count(n).minus(Double::of_int(1)).times(p.t_turn_s)
}

/// The time of a job.
pub fn combined_time(
    plans: &Vec<PlanResult>,
    p: &AircraftParams,
    extra_transit_ft: Double,
) -> (r: Double)
    ensures
        r == job_time(plan_views(plans@), *p, extra_transit_ft),
{
    let mut area = Double::negative_zero();
    for i in 0..plans.len()
        invariant
            area == area_sum(plan_views(plans@), i as int),
    {
        area = area.plus(plans[i].area_ac);
    }
    let n_loads = if Double::zero().lt(area) {
        area.times(p.gpa).over(p.tank_gal).ceil()
    } else {
        Double::zero()
    };
    sum_costs(plans, p).plus(n_loads.times(p.t_load_s.plus(p.t_cycle_s))).plus(
        Double::of_int(2).times(n_loads).times(p.ferry_ft).over(p.ferry_fps),
    ).plus(time_among(plans.len(), p)).plus(extra_transit_ft.over(p.ferry_fps))
}

} // verus!
