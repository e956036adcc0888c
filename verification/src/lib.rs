//! Spray-line planning.
pub mod account;
pub mod arithmetic;
pub mod boundary;
pub mod cells;
pub mod cost;
pub mod decompose;
pub mod distances;
pub mod double;
pub mod exact;
pub mod field;
pub mod flights;
pub mod frames;
pub mod geom;
pub mod globe;
pub mod groups;
pub mod ingest;
pub mod keeping;
pub mod laying;
pub mod lines;
pub mod markup;
pub mod measures;
pub mod merge;
pub mod near;
pub mod order;
pub mod ordering;
pub mod overlaps;
pub mod params;
pub mod passes;
pub mod perms;
pub mod plan;
pub mod reloads;
pub mod rings;
pub mod rounding;
pub mod scanline;
pub mod search;
pub mod simulate;
pub mod sorting;
pub mod spraying;
pub mod sweeps;
pub mod tiling;
pub mod timing;
pub mod tools;
pub mod traverse;
pub mod turning;
pub mod whole;

use vstd::prelude::*;

use double::Double;
use field::{field_plan, has_large_part, plan_field};
use geom::{polygon_views, Geom, GeomView, Polygon, Pt};
use params::AircraftParams;
use plan::{plan_views, PlanResult, PlanView};
use simulate::{simulate_job, simulated, survey_groups, surveys, trailer_at, SimResult};
use tools::{Meaning, Tools};

verus! {

/// What a quote holds for a field that is planned under some constants and flown
/// under others: the plans, what the job takes, and where the trailer stands. None
/// where the field has no plans.
pub open spec fn quoted_for(
    m: Meaning,
    g: GeomView,
    planned: AircraftParams,
    flown: AircraftParams,
    trailer: Option<Pt>,
    step: Double,
) -> Option<(Seq<PlanView>, SimResult, Pt)> {
    let plans = field_plan(m, g, planned, step).0;
    if plans.len() == 0 {
        None
    } else {
        let n_surveys = surveys(m.hypot, g.parts, flown.survey_link_ft);
        Some(
            (
                plans,
                simulated(m.hypot, plans, flown, trailer, n_surveys),
                trailer_at(m.hypot, plans, trailer),
            ),
        )
    }
}

/// What a quote holds: the plans, what the job takes, and where the trailer
/// stands. None where the field has no plans.
pub open spec fn quoted(
    m: Meaning,
    g: GeomView,
    p: AircraftParams,
    trailer: Option<Pt>,
    step: Double,
) -> Option<(Seq<PlanView>, SimResult, Pt)> {
    quoted_for(m, g, p, p, trailer, step)
}

/// What a quote stands for in a specification.
pub open spec fn quote_view(r: Option<(Vec<PlanResult>, SimResult, Pt)>) -> Option<
    (Seq<PlanView>, SimResult, Pt),
> {
    match r {
        None => None,
        Some((plans, sim, at)) => Some((plan_views(plans@), sim, at)),
    }
}

/// The plans of a field, what the job takes, and where its trailer stands. None
/// where the field has no plans: that is never so if a part of it is larger than
/// a quarter of an acre.
pub fn quote<
    T: Fn(Double) -> (Double, Double),
    H: Fn(Double, Double) -> Double,
    U: Fn(&Vec<Polygon>) -> Vec<Polygon>,
    C: Fn(&Polygon, &Polygon) -> Vec<Polygon>,
>(
    geom: &Geom,
    p: &AircraftParams,
    trailer: Option<Pt>,
    step_deg: Double,
    tools: &Tools<T, H, U, C>,
) -> (r: Option<(Vec<PlanResult>, SimResult, Pt)>)
    requires
        tools.total(),
    ensures
        has_large_part(geom@) ==> r is Some,
        forall|m: Meaning| #[trigger]
            tools.computes(m) ==> quote_view(r) == quoted(m, geom@, *p, trailer, step_deg),
{
    quote_for(geom, p, p, trailer, step_deg, tools)
}

/// The plans of a field under some constants, what the job takes under others, and
/// where its trailer stands. None where the field has no plans.
pub fn quote_for<
    T: Fn(Double) -> (Double, Double),
    H: Fn(Double, Double) -> Double,
    U: Fn(&Vec<Polygon>) -> Vec<Polygon>,
    C: Fn(&Polygon, &Polygon) -> Vec<Polygon>,
>(
    geom: &Geom,
    planned: &AircraftParams,
    flown: &AircraftParams,
    trailer: Option<Pt>,
    step_deg: Double,
    tools: &Tools<T, H, U, C>,
) -> (r: Option<(Vec<PlanResult>, SimResult, Pt)>)
    requires
        tools.total(),
    ensures
        has_large_part(geom@) ==> r is Some,
        forall|m: Meaning| #[trigger]
            tools.computes(m) ==> quote_view(r) == quoted_for(
                m,
                geom@,
                *planned,
                *flown,
                trailer,
                step_deg,
            ),
{
    let (plans, _) = plan_field(geom, planned, step_deg, tools);
    assert(plan_views(plans@).len() == plans@.len());
    if plans.len() == 0 {
        return None;
    }
    let borrowed = geom.parts();
    let mut parts: Vec<Polygon> = Vec::new();
    for i in 0..borrowed.len()
        invariant
            borrowed@.len() == geom@.parts.len(),
            forall|k: int| 0 <= k < borrowed@.len() ==> (#[trigger] borrowed@[k])@ == geom@.parts[k],
            polygon_views(parts@) == geom@.parts.take(i as int),
    {
        let c = borrowed[i].clone();
        proof {
            geom::lemma_polygon_views_push(parts@, c);
            assert(geom@.parts.take(i as int).push(c@) =~= geom@.parts.take(i + 1));
        }
        parts.push(c);
    }
    assert(polygon_views(parts@) =~= geom@.parts);
    let n_surveys = survey_groups(&parts, flown.survey_link_ft, &tools.hypot);
    let (sim, at) = simulate_job(&plans, flown, trailer, n_surveys, &tools.hypot);
    Some((plans, sim, at))
}

} // verus!
