//! Planning a polygon cell by cell, and merging the cells.
use vstd::prelude::*;

use crate::boundary::{distinct_sorted, sort_distinct, tenth};
use crate::cells::{cells_of, decompose, lone};
use crate::cost::{block_cost, cost_sum, sum_costs, time_among, turns_among};
use crate::double::Double;
use crate::geom::{Geom, GeomView, Polygon, PolygonView};
use crate::groups::{cluster, clusters, lemma_clusters_by_links, table_links, Links};
use crate::merge::{
    block_views, is_mergeable, merge_blocks, merged, mergeable, offers, Block, BlockView, Effort,
};
use crate::params::{acre_ft2, AircraftParams};
use crate::plan::{plan_views, PlanResult, PlanView};
use crate::rings::{geom_views, union_at, union_geoms};
use crate::search::{best_direction, best_single_direction, refine, refined};
use crate::tools::{hypot_is, hypot_total, Hypot, Meaning, Tools};

verus! {

// ---------------------------------------------------------------------------
// One grid for neighbours
// ---------------------------------------------------------------------------

/// Whether two directions are within five degrees of each other.
pub open spec fn aligned(a: Double, b: Double) -> bool {
    let d = a.minus(b).rem_euclid(Double::of_int(180));
    d.min(Double::of_int(180).minus(d)).le(Double::of_int(5))
}

fn is_aligned(a: Double, b: Double) -> (r: bool)
    ensures
        r == aligned(a, b),
{
    let d = a.minus(b).rem_euclid(Double::of_int(180));
    d.min(Double::of_int(180).minus(d)).le(Double::of_int(5))
}

/// Which blocks lie on one grid: those of about one direction that can be flown
/// as one.
pub open spec fn on_grid(h: Hypot, blocks: Seq<BlockView>, p: AircraftParams) -> Links {
    |i: int, j: int|
        aligned(blocks[i].plan.angle_deg, blocks[j].plan.angle_deg) && mergeable(
            h,
            blocks[i].geom,
            blocks[j].geom,
            p,
        )
}

/// The numbers below `n` that have a label, ascending.
pub open spec fn members(labels: Seq<usize>, label: usize, n: int) -> Seq<usize>
    decreases n,
{
    if n <= 0 {
        Seq::empty()
    } else if labels[n - 1] == label {
        members(labels, label, n - 1).push((n - 1) as usize)
    } else {
        members(labels, label, n - 1)
    }
}

/// The place of the largest of the first `n` members, the last on a tie.
pub open spec fn leader(blocks: Seq<BlockView>, at: Seq<usize>, n: int) -> int
    decreases n,
{
    if n <= 1 {
        0
    } else {
        let k = leader(blocks, at, n - 1);
        if blocks[at[k] as int].geom.area().rank() <= blocks[at[n - 1] as int].geom.area().rank() {
            n - 1
        } else {
            k
        }
    }
}

/// The geometries of blocks.
pub open spec fn block_geoms(blocks: Seq<BlockView>) -> Seq<GeomView> {
    Seq::new(blocks.len(), |i: int| blocks[i].geom)
}

/// The plan of a group: that of the union of its members near the direction of
/// the largest.
pub open spec fn group_plan(m: Meaning, blocks: Seq<BlockView>, at: Seq<usize>, p: AircraftParams) -> PlanView {
    let lead = blocks[at[leader(blocks, at, at.len() as int)] as int];
    refined(m.sin_cos, union_at(m.union, block_geoms(blocks), at), lead.plan.angle_deg, p)
}

/// The plans of the groups with the first `n` labels.
pub open spec fn group_plans(
    m: Meaning,
    blocks: Seq<BlockView>,
    labels: Seq<usize>,
    p: AircraftParams,
    n: int,
) -> Seq<PlanView>
    decreases n,
{
    if n <= 0 {
        Seq::empty()
    } else {
        let before = group_plans(m, blocks, labels, p, n - 1);
        let at = members(labels, (n - 1) as usize, labels.len() as int);
        if at.len() == 0 {
            before
        } else {
            before.push(group_plan(m, blocks, at, p))
        }
    }
}

/// The plans of blocks once those on one grid are flown as one.
pub open spec fn gridded(m: Meaning, blocks: Seq<BlockView>, p: AircraftParams) -> Seq<PlanView> {
    group_plans(
        m,
        blocks,
        clusters(on_grid(m.hypot, blocks, p), blocks.len()),
        p,
        blocks.len() as int,
    )
}

proof fn lemma_members(labels: Seq<usize>, label: usize, n: int)
    requires
        n <= labels.len() <= usize::MAX,
    ensures
        forall|i: int|
            0 <= i < members(labels, label, n).len() ==> #[trigger] members(labels, label, n)[i] < n,
    decreases n,
{
    if n > 0 {
        lemma_members(labels, label, n - 1);
        let (now, before) = (members(labels, label, n), members(labels, label, n - 1));
        assert forall|i: int| 0 <= i < now.len() implies #[trigger] now[i] < n by {
            if i < before.len() {
                assert(now[i] == before[i]);
            }
        }
    }
}

fn members_of(labels: &Vec<usize>, label: usize) -> (r: Vec<usize>)
    ensures
        r@ == members(labels@, label, labels@.len() as int),
        forall|i: int| 0 <= i < r@.len() ==> #[trigger] r@[i] < labels@.len(),
{
    let mut out: Vec<usize> = Vec::new();
    for i in 0..labels.len()
        invariant
            out@ == members(labels@, label, i as int),
    {
        if labels[i] == label {
            out.push(i);
        }
    }
    assert(labels.len() == labels@.len());
    proof {
        lemma_members(labels@, label, labels@.len() as int);
    }
    out
}

/// The labels of the groups of blocks on one grid.
fn grid_labels<H: Fn(Double, Double) -> Double>(
    blocks: &Vec<Block>,
    p: &AircraftParams,
    hypot: &H,
) -> (r: Vec<usize>)
    requires
        hypot_total(*hypot),
    ensures
        r@.len() == blocks@.len(),
        forall|i: int| 0 <= i < r@.len() ==> #[trigger] r@[i] < r@.len(),
        forall|h: Hypot| #[trigger]
            hypot_is(*hypot, h) ==> r@ == clusters(
                on_grid(h, block_views(blocks@), *p),
                blocks@.len(),
            ),
{
    let n = blocks.len();
    let mut table: Vec<Vec<bool>> = Vec::new();
    for i in 0..n
        invariant
            hypot_total(*hypot),
            n == blocks@.len(),
            table@.len() == i,
            forall|x: int| 0 <= x < i ==> (#[trigger] table@[x])@.len() == n,
            forall|h: Hypot, x: int, y: int|
                #![trigger hypot_is(*hypot, h), table@[x]@[y]]
                hypot_is(*hypot, h) && 0 <= x < i && x < y < n ==> table@[x]@[y] == on_grid(
                    h,
                    block_views(blocks@),
                    *p,
                )(x, y),
    {
        let mut row: Vec<bool> = Vec::new();
        for j in 0..n
            invariant
                hypot_total(*hypot),
                n == blocks@.len(),
                i < n,
                row@.len() == j,
                forall|h: Hypot, y: int|
                    #![trigger hypot_is(*hypot, h), row@[y]]
                    hypot_is(*hypot, h) && i < y < j ==> row@[y] == on_grid(
                        h,
                        block_views(blocks@),
                        *p,
                    )(i as int, y),
        {
            row.push(
                i < j && is_aligned(blocks[i].plan.angle_deg, blocks[j].plan.angle_deg)
                    && is_mergeable(&blocks[i].geom, &blocks[j].geom, p, hypot),
            );
        }
        let ghost table0 = table@;
        table.push(row);
        assert forall|h: Hypot, x: int, y: int|
            #![trigger hypot_is(*hypot, h), table@[x]@[y]]
            hypot_is(*hypot, h) && 0 <= x < i + 1 && x < y < n implies table@[x]@[y] == on_grid(
            h,
            block_views(blocks@),
            *p,
        )(x, y) by {
            if x < i {
                assert(table@[x]@[y] == table0[x]@[y]);
            } else {
                assert(table@[x]@[y] == row@[y]);
            }
        }
    }
    let labels = cluster(&table);
    proof {
        crate::groups::lemma_cluster_labels(table_links(table@), n as nat, n as int);
        assert forall|h: Hypot| #[trigger] hypot_is(*hypot, h) implies labels@ == clusters(
            on_grid(h, block_views(blocks@), *p),
            n as nat,
        ) by {
            let links = on_grid(h, block_views(blocks@), *p);
            assert forall|x: int, y: int| 0 <= x < y < n implies #[trigger] table_links(table@)(
                x,
                y,
            ) == links(x, y) by {
                assert(table@[x]@[y] == links(x, y));
            }
            lemma_clusters_by_links(table_links(table@), links, n as nat, n as int);
        }
    }
    labels
}

/// The plan of a group.
fn plan_group<
    T: Fn(Double) -> (Double, Double),
    H: Fn(Double, Double) -> Double,
    U: Fn(&Vec<Polygon>) -> Vec<Polygon>,
    C: Fn(&Polygon, &Polygon) -> Vec<Polygon>,
>(
    blocks: &Vec<Block>,
    geoms: &Vec<Geom>,
    at: &Vec<usize>,
    p: &AircraftParams,
    tools: &Tools<T, H, U, C>,
) -> (r: PlanResult)
    requires
        tools.total(),
        at@.len() > 0,
        geom_views(geoms@) == block_geoms(block_views(blocks@)),
        geoms@.len() == blocks@.len(),
        forall|i: int| 0 <= i < at@.len() ==> #[trigger] at@[i] < blocks@.len(),
    ensures
        forall|m: Meaning| #[trigger]
            tools.computes(m) ==> r@ == group_plan(m, block_views(blocks@), at@, *p),
{
    let u = union_geoms(geoms, at, &tools.union);
    let mut lead: usize = 0;
    let mut area = blocks[at[0]].geom.area();
    for k in 1..at.len()
        invariant
            forall|i: int| 0 <= i < at@.len() ==> #[trigger] at@[i] < blocks@.len(),
            lead < at@.len(),
            lead == leader(block_views(blocks@), at@, k as int),
            area == block_views(blocks@)[at@[lead as int] as int].geom.area(),
    {
        assert(at@[k as int] < blocks@.len());
        let a = blocks[at[k]].geom.area();
        if area.sorts_before(a) {
            lead = k;
            area = a;
        }
    }
    assert(at@[lead as int] < blocks@.len());
    refine(&u, blocks[at[lead]].plan.angle_deg, p, &tools.sin_cos)
}

/// The plans of blocks once those on one grid are flown as one.
pub fn plan_on_grids<
    T: Fn(Double) -> (Double, Double),
    H: Fn(Double, Double) -> Double,
    U: Fn(&Vec<Polygon>) -> Vec<Polygon>,
    C: Fn(&Polygon, &Polygon) -> Vec<Polygon>,
>(blocks: &Vec<Block>, p: &AircraftParams, tools: &Tools<T, H, U, C>) -> (r: Vec<PlanResult>)
    requires
        tools.total(),
    ensures
        blocks@.len() > 0 ==> r@.len() > 0,
        forall|m: Meaning| #[trigger]
            tools.computes(m) ==> plan_views(r@) == gridded(m, block_views(blocks@), *p),
{
    let n = blocks.len();
    let labels = grid_labels(blocks, p, &tools.hypot);
    let mut geoms: Vec<Geom> = Vec::new();
    for i in 0..n
        invariant
            n == blocks@.len(),
            geom_views(geoms@) == block_geoms(block_views(blocks@)).take(i as int),
    {
        let g = blocks[i].geom.clone();
        let ghost before = geoms@;
        geoms.push(g);
        assert(geom_views(geoms@) =~= geom_views(before).push(g@));
        assert(geom_views(geoms@) =~= block_geoms(block_views(blocks@)).take(i + 1));
    }
    assert(geom_views(geoms@) =~= block_geoms(block_views(blocks@)));
    let mut out: Vec<PlanResult> = Vec::new();
    assert(plan_views(out@) =~= Seq::empty());
    for l in 0..n
        invariant
            tools.total(),
            n == blocks@.len(),
            labels@.len() == n,
            n > 0 && l > labels@[0] ==> out@.len() > 0,
            geoms@.len() == n,
            geom_views(geoms@) == block_geoms(block_views(blocks@)),
            forall|m: Meaning| #[trigger]
                tools.computes(m) ==> plan_views(out@) == group_plans(
                    m,
                    block_views(blocks@),
                    labels@,
                    *p,
                    l as int,
                ),
    {
        let at = members_of(&labels, l);
        proof {
            if labels@[0] == l {
                lemma_member(labels@, l, n as int, 0);
            }
        }
        if at.len() > 0 {
            let plan = plan_group(blocks, &geoms, &at, p, tools);
            let ghost before = out@;
            out.push(plan);
            assert(plan_views(out@) =~= plan_views(before).push(plan@));
        }
    }
    out
}

// ---------------------------------------------------------------------------
// Cells, merged
// ---------------------------------------------------------------------------

/// Each cell as a block with its best plan.
pub open spec fn cell_blocks(m: Meaning, cells: Seq<GeomView>, p: AircraftParams, step: Double) -> Seq<
    BlockView,
> {
    Seq::new(
        cells.len(),
        |i: int|
            BlockView {
                geom: cells[i],
                plan: best_direction(m.sin_cos, cells[i], p, step, 8),
            },
    )
}

/// The plans of cells: merged first by quick offers, then by full ones, then by
/// grids.
#[verifier::opaque]
pub open spec fn cell_plans(m: Meaning, cells: Seq<GeomView>, p: AircraftParams, step: Double) -> Seq<
    PlanView,
> {
    let quick = merged(offers(m, Effort::Quick, p), cell_blocks(m, cells, p, step));
    gridded(m, merged(offers(m, Effort::Full(step), p), quick), p)
}

/// The cost of plans as the blocks of one polygon.
pub open spec fn plans_cost(plans: Seq<PlanView>, p: AircraftParams) -> Double {
    cost_sum(plans, p, plans.len() as int).plus(turns_among(plans.len(), p))
}

/// The least area of a cell: half an acre.
pub open spec fn spec_least_cell() -> Double {
    Double::ratio(1, 2).times(acre_ft2())
}

/// The least area of a cell: half an acre.
#[verifier::when_used_as_spec(spec_least_cell)]
pub fn least_cell() -> (r: Double)
    ensures
        r == spec_least_cell(),
{
    Double::ratio(1, 2).times(acre_ft2())
}

/// The best plans so far and their cost, or those of the cells of a sweep if
/// there are several cells and they cost less.
pub open spec fn with_sweep(
    m: Meaning,
    part: PolygonView,
    best: (Seq<PlanView>, Double),
    sweep_deg: Double,
    p: AircraftParams,
    step: Double,
) -> (Seq<PlanView>, Double) {
    let cells = cells_of(m, part, sweep_deg, least_cell());
    let plans = cell_plans(m, cells, p, step);
    if cells.len() > 1 && plans_cost(plans, p).lt(best.1) {
        (plans, plans_cost(plans, p))
    } else {
        best
    }
}

/// The best plans after the first `n` sweeps.
pub open spec fn swept(
    m: Meaning,
    part: PolygonView,
    base: (Seq<PlanView>, Double),
    sweeps: Seq<Double>,
    p: AircraftParams,
    step: Double,
    n: int,
) -> (Seq<PlanView>, Double)
    decreases n,
{
    if n <= 0 {
        base
    } else {
        with_sweep(m, part, swept(m, part, base, sweeps, p, step, n - 1), sweeps[n - 1], p, step)
    }
}

/// The plan of a polygon in one direction.
pub open spec fn base_plan(m: Meaning, part: PolygonView, p: AircraftParams, step: Double) -> PlanView {
    let g = lone(part);
    refined(m.sin_cos, g, best_direction(m.sin_cos, g, p, step, 8).angle_deg, p)
}

/// The sweeps that are tried: at 0 and 90 degrees, and in a direction to a tenth.
pub open spec fn sweeps_for(angle_deg: Double) -> Seq<Double> {
    distinct_sorted(
        seq![
            Double::zero(),
            Double::of_int(90),
            tenth(angle_deg.rem_euclid(Double::of_int(180))),
        ],
    )
}

/// The plans of a polygon and their cost: in one direction, or cell by cell where
/// that costs less.
#[verifier::opaque]
pub open spec fn cell_by_cell(m: Meaning, part: PolygonView, p: AircraftParams, step: Double) -> (
    Seq<PlanView>,
    Double,
) {
    let base = base_plan(m, part, p, step);
    let sweeps = sweeps_for(base.angle_deg);
    swept(m, part, (seq![base], base.block_cost(p)), sweeps, p, step, sweeps.len() as int)
}

/// The plans of cells.
fn plan_cells<
    T: Fn(Double) -> (Double, Double),
    H: Fn(Double, Double) -> Double,
    U: Fn(&Vec<Polygon>) -> Vec<Polygon>,
    C: Fn(&Polygon, &Polygon) -> Vec<Polygon>,
>(
    cells: Vec<Geom>,
    p: &AircraftParams,
    step: Double,
    tools: &Tools<T, H, U, C>,
) -> (r: Vec<PlanResult>)
    requires
        tools.total(),
    ensures
        cells@.len() > 0 ==> r@.len() > 0,
        forall|m: Meaning| #[trigger]
            tools.computes(m) ==> plan_views(r@) == cell_plans(m, geom_views(cells@), *p, step),
{
    reveal(cell_plans);
    let mut blocks: Vec<Block> = Vec::new();
    for i in 0..cells.len()
        invariant
            tools.total(),
            blocks@.len() == i,
            forall|m: Meaning, k: int|
                #![trigger tools.computes(m), blocks@[k]]
                tools.computes(m) && 0 <= k < i ==> blocks@[k]@ == cell_blocks(
                    m,
                    geom_views(cells@),
                    *p,
                    step,
                )[k],
    {
        let geom = cells[i].clone();
        let plan = best_single_direction(&geom, p, step, 8, &tools.sin_cos);
        blocks.push(Block { geom, plan });
    }
    assert forall|m: Meaning| #[trigger] tools.computes(m) implies block_views(blocks@)
        == cell_blocks(m, geom_views(cells@), *p, step) by {
        assert(block_views(blocks@) =~= cell_blocks(m, geom_views(cells@), *p, step));
    }
    let quick = merge_blocks(blocks, Effort::Quick, p, tools);
    let full = merge_blocks(quick, Effort::Full(step), p, tools);
    plan_on_grids(&full, p, tools)
}

/// The plans of a polygon and their cost: in one direction, or cell by cell where
/// that costs less.
pub fn bcd_plan<
    T: Fn(Double) -> (Double, Double),
    H: Fn(Double, Double) -> Double,
    U: Fn(&Vec<Polygon>) -> Vec<Polygon>,
    C: Fn(&Polygon, &Polygon) -> Vec<Polygon>,
>(part: &Polygon, p: &AircraftParams, coarse_deg: Double, tools: &Tools<T, H, U, C>) -> (r: (
    Vec<PlanResult>,
    Double,
))
    requires
        tools.total(),
    ensures
        r.0@.len() > 0,
        forall|m: Meaning| #[trigger]
            tools.computes(m) ==> (plan_views(r.0@), r.1) == cell_by_cell(
                m,
                part@,
                *p,
                coarse_deg,
            ),
{
    reveal(cell_by_cell);
    let pg = Geom::Poly(part.clone());
    assert(pg@ == lone(part@));
    let base_angle = best_single_direction(&pg, p, coarse_deg, 8, &tools.sin_cos).angle_deg;
    let base = refine(&pg, base_angle, p, &tools.sin_cos);
    let mut best_cost = block_cost(&base, p);
    let mut tried: Vec<Double> = Vec::new();
    tried.push(Double::zero());
    tried.push(Double::of_int(90));
    tried.push(tenth(base.angle_deg.rem_euclid(Double::of_int(180))));
    assert(tried@ =~= seq![
        Double::zero(),
        Double::of_int(90),
        tenth(base@.angle_deg.rem_euclid(Double::of_int(180))),
    ]);
    let sweeps = sort_distinct(&tried);
    let ghost start = (seq![base@], best_cost);
    let mut best_plans: Vec<PlanResult> = Vec::new();
    best_plans.push(base);
    assert(plan_views(best_plans@) =~= start.0);
    for i in 0..sweeps.len()
        invariant
            tools.total(),
            best_plans@.len() > 0,
            forall|m: Meaning| #[trigger]
                tools.computes(m) ==> (plan_views(best_plans@), best_cost) == swept(
                    m,
                    part@,
                    start,
                    sweeps@,
                    *p,
                    coarse_deg,
                    i as int,
                ),
    {
        let cells = decompose(part, sweeps[i], least_cell(), tools);
        assert(geom_views(cells@).len() == cells@.len());
        if cells.len() > 1 {
            let plans = plan_cells(cells, p, coarse_deg, tools);
            assert(plan_views(plans@).len() == plans@.len());
            let cost = sum_costs(&plans, p).plus(time_among(plans.len(), p));
            if cost.lt(best_cost) {
                best_cost = cost;
                best_plans = plans;
            }
        }
    }
    (best_plans, best_cost)
}

proof fn lemma_swept(
    m: Meaning,
    part: PolygonView,
    base: (Seq<PlanView>, Double),
    sweeps: Seq<Double>,
    p: AircraftParams,
    step: Double,
    n: int,
)
    ensures
        swept(m, part, base, sweeps, p, step, n) == base || swept(
            m,
            part,
            base,
            sweeps,
            p,
            step,
            n,
        ).1.lt(base.1),
        swept(m, part, base, sweeps, p, step, n) == base || swept(
            m,
            part,
            base,
            sweeps,
            p,
            step,
            n,
        ).1 == plans_cost(swept(m, part, base, sweeps, p, step, n).0, p),
    decreases n,
{
    if n > 0 {
        lemma_swept(m, part, base, sweeps, p, step, n - 1);
    }
}

proof fn lemma_swept_least(
    m: Meaning,
    part: PolygonView,
    base: (Seq<PlanView>, Double),
    sweeps: Seq<Double>,
    p: AircraftParams,
    step: Double,
    n: int,
    i: int,
)
    requires
        0 <= i < n,
        cells_of(m, part, sweeps[i], least_cell()).len() > 1,
        !base.1.nan(),
    ensures
        !plans_cost(cell_plans(m, cells_of(m, part, sweeps[i], least_cell()), p, step), p).lt(
            swept(m, part, base, sweeps, p, step, n).1,
        ),
        !swept(m, part, base, sweeps, p, step, n).1.nan(),
    decreases n,
{
    lemma_swept(m, part, base, sweeps, p, step, n - 1);
    if i < n - 1 {
        lemma_swept_least(m, part, base, sweeps, p, step, n - 1, i);
    }
}

/// The cheapest plans are kept: no sweep that is tried, of those with more than one
/// cell, has plans that cost less than those of the polygon.
pub proof fn law_cheapest_plans_kept(
    m: Meaning,
    part: PolygonView,
    p: AircraftParams,
    step: Double,
    i: int,
)
    requires
        0 <= i < sweeps_for(base_plan(m, part, p, step).angle_deg).len(),
        cells_of(
            m,
            part,
            sweeps_for(base_plan(m, part, p, step).angle_deg)[i],
            least_cell(),
        ).len() > 1,
    ensures
        ({
            let sweep_deg = sweeps_for(base_plan(m, part, p, step).angle_deg)[i];
            let cells = cells_of(m, part, sweep_deg, least_cell());
            let cost = plans_cost(cell_plans(m, cells, p, step), p);
            !cost.lt(cell_by_cell(m, part, p, step).1)
        }),
{
    reveal(cell_by_cell);
    let base = base_plan(m, part, p, step);
    let sweeps = sweeps_for(base.angle_deg);
    let start = (seq![base], base.block_cost(p));
    let n = sweeps.len() as int;
    lemma_swept(m, part, start, sweeps, p, step, n);
    if !start.1.nan() {
        lemma_swept_least(m, part, start, sweeps, p, step, n, i);
    }
}

/// Planning a polygon cell by cell costs no more than planning it in one
/// direction, and the cost that is told is that of the plans.
pub proof fn law_cells_pay(m: Meaning, part: PolygonView, p: AircraftParams, step: Double)
    ensures
        cell_by_cell(m, part, p, step) == (
            seq![base_plan(m, part, p, step)],
            base_plan(m, part, p, step).block_cost(p),
        ) || (cell_by_cell(m, part, p, step).1.lt(base_plan(m, part, p, step).block_cost(p))
            && cell_by_cell(m, part, p, step).1 == plans_cost(
            cell_by_cell(m, part, p, step).0,
            p,
        )),
{
    reveal(cell_by_cell);
    let base = base_plan(m, part, p, step);
    let sweeps = sweeps_for(base.angle_deg);
    lemma_swept(m, part, (seq![base], base.block_cost(p)), sweeps, p, step, sweeps.len() as int);
}

proof fn lemma_member(labels: Seq<usize>, label: usize, n: int, k: int)
    requires
        0 <= k < n,
        labels[k] == label,
    ensures
        members(labels, label, n).len() > 0,
    decreases n,
{
    if k < n - 1 {
        lemma_member(labels, label, n - 1, k);
    }
}

} // verus!
