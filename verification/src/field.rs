//! Planning a field: as a whole in one direction, or part by part.
use vstd::prelude::*;

use crate::cost::{combined_time, job_time};
use crate::decompose::{bcd_plan, cell_by_cell};
use crate::double::Double;
use crate::geom::{
    lemma_polygon_views_push, poly_distance, poly_distance_by, polygon_views, Geom, GeomView, Polygon,
    PolygonView,
};
use crate::params::{acre_ft2, AircraftParams};
use crate::plan::{plan_views, PlanResult, PlanView};
use crate::search::{best_direction, best_single_direction};
use crate::sorting::{argsort, by_key, indices, sorted_by};
use crate::tools::{Hypot, Meaning, Tools};

verus! {

/// Parts up to this area are not planned by themselves: a quarter of an acre.
pub open spec fn spec_small_part() -> Double {
    Double::ratio(1, 4).times(acre_ft2())
}

/// Parts up to this area are not planned by themselves: a quarter of an acre.
#[verifier::when_used_as_spec(spec_small_part)]
pub fn small_part() -> (r: Double)
    ensures
        r == spec_small_part(),
{
    Double::ratio(1, 4).times(acre_ft2())
}

/// The parts among the first `n` that are planned by themselves.
pub open spec fn large_parts(parts: Seq<PolygonView>, n: int) -> Seq<PolygonView>
    decreases n,
{
    if n <= 0 {
        Seq::empty()
    } else if small_part().lt(parts[n - 1].area()) {
        large_parts(parts, n - 1).push(parts[n - 1])
    } else {
        large_parts(parts, n - 1)
    }
}

/// The areas of parts, negated.
pub open spec fn negated_areas(parts: Seq<PolygonView>) -> Seq<Double> {
    Seq::new(parts.len(), |i: int| parts[i].area().negated())
}

/// Parts by area, the largest first; parts of one area keep their order.
pub open spec fn by_area(parts: Seq<PolygonView>) -> Seq<PolygonView> {
    let at = sorted_by(indices(parts.len()), by_key(negated_areas(parts)));
    Seq::new(at.len(), |i: int| parts[at[i] as int])
}

/// The parts of a field that are planned by themselves, in their order.
pub open spec fn parts_to_plan(g: GeomView) -> Seq<PolygonView> {
    by_area(large_parts(g.parts, g.parts.len() as int))
}

/// The plans of the first `n` parts.
pub open spec fn part_plans(m: Meaning, parts: Seq<PolygonView>, p: AircraftParams, n: int) -> Seq<PlanView>
    decreases n,
{
    if n <= 0 {
        Seq::empty()
    } else {
        part_plans(m, parts, p, n - 1) + cell_by_cell(m, parts[n - 1], p, Double::of_int(4)).0
    }
}

/// The ways between the first `n` parts, each with a thousand feet for climb and
/// descent.
pub open spec fn transit(h: Hypot, parts: Seq<PolygonView>, n: int) -> Double
    decreases n,
{
    if n <= 1 {
        Double::zero()
    } else {
        transit(h, parts, n - 1).plus(
            poly_distance_by(h, parts[n - 2], parts[n - 1]).plus(Double::of_int(1000)),
        )
    }
}

/// A field planned as a whole, and its time.
pub open spec fn joint_plan(m: Meaning, g: GeomView, p: AircraftParams, step: Double) -> (
    Seq<PlanView>,
    Double,
) {
    let plans = seq![best_direction(m.sin_cos, g, p, step, 8)];
    (plans, job_time(plans, p, Double::zero()))
}

/// A field planned part by part, and its time.
pub open spec fn parted_plan(m: Meaning, g: GeomView, p: AircraftParams) -> (Seq<PlanView>, Double) {
    let parts = parts_to_plan(g);
    let n = parts.len() as int;
    let plans = part_plans(m, parts, p, n);
    (plans, job_time(plans, p, transit(m.hypot, parts, n)))
}

/// The plans of a field and its time: part by part where that takes less time
/// than as a whole.
pub open spec fn field_plan(m: Meaning, g: GeomView, p: AircraftParams, step: Double) -> (
    Seq<PlanView>,
    Double,
) {
    let joint = joint_plan(m, g, p, step);
    let parted = parted_plan(m, g, p);
    if parted.1.lt(joint.1) {
        parted
    } else {
        joint
    }
}

/// Whether a part of a field is planned by itself.
pub open spec fn has_large_part(g: GeomView) -> bool {
    exists|i: int| 0 <= i < g.parts.len() && small_part().lt((#[trigger] g.parts[i]).area())
}

proof fn lemma_large_parts(parts: Seq<PolygonView>, n: int, i: int)
    requires
        0 <= i < n,
        small_part().lt(parts[i].area()),
    ensures
        large_parts(parts, n).len() > 0,
    decreases n,
{
    if i < n - 1 {
        lemma_large_parts(parts, n - 1, i);
    }
}

/// The parts of a field that are planned by themselves, in their order.
fn choose_parts(geom: &Geom) -> (r: Vec<Polygon>)
    ensures
        polygon_views(r@) == parts_to_plan(geom@),
        has_large_part(geom@) ==> r@.len() > 0,
{
    let parts = geom.parts();
    let mut large: Vec<Polygon> = Vec::new();
    assert(polygon_views(large@) =~= Seq::empty());
    for i in 0..parts.len()
        invariant
            parts@.len() == geom@.parts.len(),
            forall|k: int| 0 <= k < parts@.len() ==> (#[trigger] parts@[k])@ == geom@.parts[k],
            polygon_views(large@) == large_parts(geom@.parts, i as int),
    {
        if small_part().lt(parts[i].area()) {
            let c = parts[i].clone();
            proof {
                lemma_polygon_views_push(large@, c);
            }
            large.push(c);
        }
    }
    let ghost all = polygon_views(large@);
    let mut keys: Vec<Double> = Vec::new();
    for i in 0..large.len()
        invariant
            all == polygon_views(large@),
            keys@ == negated_areas(all).take(i as int),
    {
        keys.push(large[i].area().negated());
        assert(keys@ =~= negated_areas(all).take(i + 1));
    }
    assert(keys@ =~= negated_areas(all));
    let at = argsort(&keys);
    let mut out: Vec<Polygon> = Vec::new();
    for i in 0..at.len()
        invariant
            all == polygon_views(large@),
            at@.len() == large@.len(),
            forall|k: int| 0 <= k < at@.len() ==> #[trigger] at@[k] < large@.len(),
            at@ == sorted_by(indices(all.len()), by_key(negated_areas(all))),
            polygon_views(out@) == by_area(all).take(i as int),
    {
        assert(at@[i as int] < large@.len());
        let c = large[at[i]].clone();
        proof {
            lemma_polygon_views_push(out@, c);
            assert(by_area(all).take(i as int).push(c@) =~= by_area(all).take(i + 1));
        }
        out.push(c);
    }
    assert(polygon_views(out@) =~= by_area(all));
    proof {
        if has_large_part(geom@) {
            let i = choose|i: int|
                0 <= i < geom@.parts.len() && small_part().lt((#[trigger] geom@.parts[i]).area());
            lemma_large_parts(geom@.parts, geom@.parts.len() as int, i);
        }
        assert(polygon_views(out@).len() == out@.len());
        assert(all.len() == large@.len());
    }
    out
}

/// The plans of a field and its time: part by part where that takes less time
/// than as a whole.
pub fn plan_field<
    T: Fn(Double) -> (Double, Double),
    H: Fn(Double, Double) -> Double,
    U: Fn(&Vec<Polygon>) -> Vec<Polygon>,
    C: Fn(&Polygon, &Polygon) -> Vec<Polygon>,
>(geom: &Geom, p: &AircraftParams, step_deg: Double, tools: &Tools<T, H, U, C>) -> (r: (
    Vec<PlanResult>,
    Double,
))
    requires
        tools.total(),
    ensures
        has_large_part(geom@) ==> r.0@.len() > 0,
        forall|m: Meaning| #[trigger]
            tools.computes(m) ==> (plan_views(r.0@), r.1) == field_plan(m, geom@, *p, step_deg),
{
    let joint = best_single_direction(geom, p, step_deg, 8, &tools.sin_cos);
    let mut best_plans: Vec<PlanResult> = Vec::new();
    let ghost joint_view = joint@;
    best_plans.push(joint);
    assert(plan_views(best_plans@) =~= seq![joint_view]);
    let best_t = combined_time(&best_plans, p, Double::zero());
    let parts = choose_parts(geom);
    let mut all_plans: Vec<PlanResult> = Vec::new();
    let mut transit_ft = Double::zero();
    assert(plan_views(all_plans@) =~= Seq::empty());
    for i in 0..parts.len()
        invariant
            tools.total(),
            i > 0 ==> all_plans@.len() > 0,
            forall|m: Meaning| #[trigger]
                tools.computes(m) ==> {
                    &&& plan_views(all_plans@) == part_plans(m, polygon_views(parts@), *p, i as int)
                    &&& transit_ft == transit(m.hypot, polygon_views(parts@), i as int)
                },
    {
        let (mut plans, _) = bcd_plan(&parts[i], p, Double::of_int(4), tools);
        let ghost (before, more) = (all_plans@, plans@);
        all_plans.append(&mut plans);
        assert(plan_views(all_plans@) =~= plan_views(before) + plan_views(more));
        if i > 0 {
            transit_ft = transit_ft.plus(
                poly_distance(&parts[i - 1], &parts[i], &tools.hypot).plus(Double::of_int(1000)),
            );
        }
    }
    let t = combined_time(&all_plans, p, transit_ft);
    if t.lt(best_t) {
        (all_plans, t)
    } else {
        (best_plans, best_t)
    }
}

/// The time of a field is not more than that of the field planned as a whole,
/// nor than that of the field planned part by part.
pub proof fn law_field_takes_the_better(m: Meaning, g: GeomView, p: AircraftParams, step: Double)
    ensures
        !joint_plan(m, g, p, step).1.lt(field_plan(m, g, p, step).1),
        !parted_plan(m, g, p).1.lt(field_plan(m, g, p, step).1),
{
}

} // verus!
