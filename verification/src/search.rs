//! The search for the direction in which a geometry is best flown.
use vstd::prelude::*;

use crate::arithmetic::{law_whole_order, law_whole_quotient, law_whole_round, law_whole_sum};
use crate::cost::block_cost;
use crate::double::Double;
use crate::geom::{Geom, GeomView, Pt};
use crate::params::AircraftParams;
use crate::plan::{covers, plan_by, plan_single_direction, PlanResult, PlanView};
use crate::sorting::{argsort, by_key, indices, sorted_by};
use crate::tools::{trig_is, trig_total, Trig};

verus! {

/// What plans are compared by.
#[derive(Clone, Copy, Debug, PartialEq, Eq, Structural)]
pub enum Measure {
    /// The time of the plan flown alone.
    Alone,
    /// The cost of the plan as a block of a job.
    Block,
}

impl Measure {
    /// The measure of a plan.
    pub open spec fn spec_of(self, plan: PlanView, p: AircraftParams) -> Double {
        match self {
            Measure::Alone => plan.time_s(p),
            Measure::Block => plan.block_cost(p),
        }
    }

    /// The measure of a plan.
    pub fn of(self, plan: &PlanResult, p: &AircraftParams) -> (r: Double)
        ensures
            r == self.spec_of(plan@, *p),
    {
        match self {
            Measure::Alone => plan.time_s(p),
            Measure::Block => block_cost(plan, p),
        }
    }
}

/// What an optional plan holds.
pub open spec fn plan_option(r: Option<PlanResult>) -> Option<PlanView> {
    match r {
        Some(r) => Some(r@),
        None => None,
    }
}

/// The best of a plan so far and a new one: the new one counts only if it covers
/// the area, and replaces another only if it is strictly better.
pub open spec fn better(
    best: Option<PlanView>,
    r: PlanView,
    area: Double,
    measure: Measure,
    p: AircraftParams,
) -> Option<PlanView> {
    if !r.covers(area, p) {
        best
    } else {
        match best {
            None => Some(r),
            Some(b) => if measure.spec_of(r, p).lt(measure.spec_of(b, p)) {
                Some(r)
            } else {
                best
            },
        }
    }
}

/// The better of a plan so far and a new one.
pub fn keep_better(
    best: Option<PlanResult>,
    r: PlanResult,
    area: Double,
    measure: Measure,
    p: &AircraftParams,
) -> (out: Option<PlanResult>)
    ensures
        plan_option(out) == better(plan_option(best), r@, area, measure, *p),
{
    if !covers(&r, area, p) {
        return best;
    }
    match best {
        None => Some(r),
        Some(b) => {
            if measure.of(&r, p).lt(measure.of(&b, p)) {
                Some(r)
            } else {
                Some(b)
            }
        },
    }
}

/// The best plan in one of the first `n` directions, the first such on a tie.
pub open spec fn best_among(
    t: Trig,
    g: GeomView,
    angles: Seq<Double>,
    measure: Measure,
    p: AircraftParams,
    n: int,
) -> Option<PlanView>
    decreases n,
{
    if n <= 0 {
        None
    } else {
        better(
            best_among(t, g, angles, measure, p, n - 1),
            plan_by(t, g, angles[n - 1], p),
            g.area(),
            measure,
            p,
        )
    }
}

/// The best plan in one of the directions, if one covers the area.
pub fn pick_best<T: Fn(Double) -> (Double, Double)>(
    geom: &Geom,
    angles: &Vec<Double>,
    measure: Measure,
    p: &AircraftParams,
    sin_cos: &T,
) -> (r: Option<PlanResult>)
    requires
        trig_total(*sin_cos),
    ensures
        forall|t: Trig| #[trigger]
            trig_is(*sin_cos, t) ==> plan_option(r) == best_among(
                t,
                geom@,
                angles@,
                measure,
                *p,
                angles@.len() as int,
            ),
{
    let area = geom.area();
    let mut best: Option<PlanResult> = None;
    for i in 0..angles.len()
        invariant
            trig_total(*sin_cos),
            area == geom@.area(),
            forall|t: Trig| #[trigger]
                trig_is(*sin_cos, t) ==> plan_option(best) == best_among(
                    t,
                    geom@,
                    angles@,
                    measure,
                    *p,
                    i as int,
                ),
    {
        let r = plan_single_direction(geom, angles[i], p, sin_cos);
        best = keep_better(best, r, area, measure, p);
    }
    best
}

// ---------------------------------------------------------------------------
// Ranking directions without cutting
// ---------------------------------------------------------------------------

/// Degrees in radians, by one product.
pub open spec fn spec_to_radians(deg: Double) -> Double {
    deg.times(Double::pi().over(Double::of_int(180)))
}

/// Degrees in radians, by one product.
#[verifier::when_used_as_spec(spec_to_radians)]
pub fn to_radians(deg: Double) -> (r: Double)
    ensures
        r == spec_to_radians(deg),
{
    deg.times(Double::pi().over(Double::of_int(180)))
}

/// The least and greatest height of the first `n` points over the direction
/// whose sine and cosine are given.
pub open spec fn extent(v: Seq<Pt>, sc: (Double, Double), n: int) -> (Double, Double)
    decreases n,
{
    if n <= 0 {
        (Double::infinity(), Double::infinity().negated())
    } else {
        let (lo, hi) = extent(v, sc, n - 1);
        let h = v[n - 1].x.times(sc.0.negated()).plus(v[n - 1].y.times(sc.1));
        (lo.min(h), hi.max(h))
    }
}

/// An estimate of the time in the direction whose sine and cosine are given: the
/// area at full swath, and a turn between the passes that the width needs.
pub open spec fn score(v: Seq<Pt>, area: Double, sc: (Double, Double), p: AircraftParams) -> Double {
    let (lo, hi) = extent(v, sc, v.len() as int);
    let n_pass = hi.minus(lo).over(p.swath_ft).ceil();
    area.over(p.swath_ft).over(p.speed_fps).plus(
        n_pass.minus(Double::of_int(1)).max(Double::zero()).times(p.t_turn_s),
    )
}

/// An estimate of the time in the direction whose sine and cosine are given.
pub fn angle_score(v: &Vec<Pt>, area: Double, sc: (Double, Double), p: &AircraftParams) -> (r: Double)
    ensures
        r == score(v@, area, sc, *p),
{
    let mut lo = Double::infinity();
    let mut hi = Double::infinity().negated();
    for i in 0..v.len()
        invariant
            (lo, hi) == extent(v@, sc, i as int),
    {
        let h = v[i].x.times(sc.0.negated()).plus(v[i].y.times(sc.1));
        lo = lo.min(h);
        hi = hi.max(h);
    }
    let n_pass = hi.minus(lo).over(p.swath_ft).ceil();
    area.over(p.swath_ft).over(p.speed_fps).plus(
        n_pass.minus(Double::of_int(1)).max(Double::zero()).times(p.t_turn_s),
    )
}

/// The estimates for directions.
pub open spec fn scores(
    t: Trig,
    v: Seq<Pt>,
    area: Double,
    angles: Seq<Double>,
    p: AircraftParams,
) -> Seq<Double> {
    Seq::new(angles.len(), |i: int| score(v, area, t(to_radians(angles[i])), p))
}

/// The estimates for directions.
pub fn angle_scores<T: Fn(Double) -> (Double, Double)>(
    verts: &Vec<Pt>,
    area: Double,
    angles_deg: &Vec<Double>,
    p: &AircraftParams,
    sin_cos: &T,
) -> (r: Vec<Double>)
    requires
        trig_total(*sin_cos),
    ensures
        r@.len() == angles_deg@.len(),
        forall|t: Trig| #[trigger]
            trig_is(*sin_cos, t) ==> r@ == scores(t, verts@, area, angles_deg@, *p),
{
    let mut out: Vec<Double> = Vec::new();
    for i in 0..angles_deg.len()
        invariant
            trig_total(*sin_cos),
            out@.len() == i,
            forall|t: Trig| #[trigger]
                trig_is(*sin_cos, t) ==> out@ == scores(t, verts@, area, angles_deg@, *p).take(
                    i as int,
                ),
    {
        let s = angle_score(verts, area, sin_cos(to_radians(angles_deg[i])), p);
        out.push(s);
        assert forall|t: Trig| #[trigger] trig_is(*sin_cos, t) implies out@ == scores(
            t,
            verts@,
            area,
            angles_deg@,
            *p,
        ).take(i + 1) by {
            assert(out@ =~= scores(t, verts@, area, angles_deg@, *p).take(i + 1));
        }
    }
    assert forall|t: Trig| #[trigger] trig_is(*sin_cos, t) implies out@ == scores(
        t,
        verts@,
        area,
        angles_deg@,
        *p,
    ) by {
        assert(out@ =~= scores(t, verts@, area, angles_deg@, *p));
    }
    out
}

// ---------------------------------------------------------------------------
// Candidates
// ---------------------------------------------------------------------------

/// The directions from `a` below 180 degrees in steps of `step`. A step that
/// does not lead further is the last.
pub open spec fn sweep(a: Double, step: Double) -> Seq<Double>
    decreases (if a.lt(Double::of_int(180)) { Double::of_int(180).key() - a.key() } else { 0 }),
{
    if a.lt(Double::of_int(180)) {
        let next = a.plus(step);
        if a.lt(next) {
            seq![a] + sweep(next, step)
        } else {
            seq![a]
        }
    } else {
        seq![]
    }
}

/// The directions from 0 below 180 degrees in steps of `step`.
pub fn sweep_angles(step: Double) -> (r: Vec<Double>)
    ensures
        r@ == sweep(Double::zero(), step),
        r@.len() > 0,
{
    let mut out: Vec<Double> = Vec::new();
    let mut a = Double::zero();
    let half = Double::of_int(180);
    proof {
        lemma_zero_below_180();
    }
    assert(out@ + sweep(a, step) =~= sweep(Double::zero(), step));
    while a.lt(half)
        invariant
            half == Double::of_int(180),
            out@ + sweep(a, step) == sweep(Double::zero(), step),
            out@.len() > 0 || a == Double::zero(),
        decreases (if a.lt(half) { half.key() - a.key() } else { 0 }),
    {
        let next = a.plus(step);
        let ghost before = out@;
        out.push(a);
        if !a.lt(next) {
            assert(out@ =~= before + sweep(a, step));
            return out;
        }
        assert(before + (seq![a] + sweep(next, step)) =~= out@ + sweep(next, step));
        a = next;
    }
    assert(out@ =~= out@ + sweep(a, step));
    out
}

/// Zero is below 180.
proof fn lemma_zero_below_180()
    ensures
        Double::zero().lt(Double::of_int(180)),
{
    reveal(Double::spec_of_int);
    let n = 180 * vstd::arithmetic::power2::pow2(1074);
    vstd::arithmetic::power2::lemma_pow2_pos(1074);
    crate::double::lemma_round_bits_positive(n as nat, 1);
}

/// Two directions are at least 8 degrees apart.
pub open spec fn apart(a: Double, b: Double) -> bool {
    let d = a.minus(b).abs();
    Double::of_int(8).le(d.min(Double::of_int(180).minus(d)))
}

fn are_apart(a: Double, b: Double) -> (r: bool)
    ensures
        r == apart(a, b),
{
    let d = a.minus(b).abs();
    Double::of_int(8).le(d.min(Double::of_int(180).minus(d)))
}

/// A direction is apart from all chosen ones.
pub open spec fn apart_from_all(a: Double, angles: Seq<Double>, chosen: Seq<usize>) -> bool {
    forall|i: int| 0 <= i < chosen.len() ==> apart(a, angles[#[trigger] chosen[i] as int])
}

fn is_apart_from_all(a: Double, angles: &Vec<Double>, chosen: &Vec<usize>) -> (r: bool)
    requires
        forall|i: int| 0 <= i < chosen@.len() ==> #[trigger] chosen@[i] < angles@.len(),
    ensures
        r == apart_from_all(a, angles@, chosen@),
{
    for i in 0..chosen.len()
        invariant
            forall|k: int| 0 <= k < chosen@.len() ==> #[trigger] chosen@[k] < angles@.len(),
            forall|k: int| 0 <= k < i ==> apart(a, angles@[#[trigger] chosen@[k] as int]),
    {
        if !are_apart(a, angles[chosen[i]]) {
            assert(!apart(a, angles@[chosen@[i as int] as int]));
            return false;
        }
    }
    true
}

/// The directions chosen among the first `n` of a ranking: each that is apart
/// from those before it, until there are `top_k`.
pub open spec fn diversified(
    order: Seq<usize>,
    angles: Seq<Double>,
    top_k: usize,
    n: int,
) -> Seq<usize>
    decreases n,
{
    if n <= 0 {
        seq![]
    } else {
        let c = diversified(order, angles, top_k, n - 1);
        let i = order[n - 1];
        if n > 1 && c.len() >= top_k {
            c
        } else if apart_from_all(angles[i as int], angles, c) {
            c.push(i)
        } else {
            c
        }
    }
}

/// The index of a cardinal direction.
pub open spec fn cardinal(card: i64, step: Double, n: nat) -> usize {
    (Double::of_int(card).over(step).round().to_index() as int % n as int) as usize
}

/// An index added unless it is there.
pub open spec fn with_index(s: Seq<usize>, i: usize) -> Seq<usize> {
    if s.contains(i) { s } else { s.push(i) }
}

/// The indices of the directions that are cut: the best ranked, apart from each
/// other, and the two cardinal ones.
pub open spec fn candidates(keys: Seq<Double>, angles: Seq<Double>, step: Double, top_k: usize) -> Seq<
    usize,
> {
    let order = sorted_by(indices(keys.len()), by_key(keys));
    let c = diversified(order, angles, top_k, order.len() as int);
    with_index(
        with_index(c, cardinal(0, step, angles.len())),
        cardinal(90, step, angles.len()),
    )
}

/// Once there are enough, no more are chosen.
proof fn lemma_diversified_full(
    order: Seq<usize>,
    angles: Seq<Double>,
    top_k: usize,
    m: int,
    n: int,
)
    requires
        1 <= m <= n,
        diversified(order, angles, top_k, m).len() >= top_k,
    ensures
        diversified(order, angles, top_k, n) == diversified(order, angles, top_k, m),
    decreases n - m,
{
    if m < n {
        lemma_diversified_full(order, angles, top_k, m, n - 1);
    }
}

fn add_index(s: &mut Vec<usize>, i: usize)
    ensures
        final(s)@ == with_index(old(s)@, i),
{
    for k in 0..s.len()
        invariant
            s@ == old(s)@,
            forall|j: int| 0 <= j < k ==> s@[j] != i,
    {
        if s[k] == i {
            assert(s@[k as int] == i);
            return;
        }
    }
    s.push(i);
}

/// The indices of the directions that are cut.
pub fn choose_candidates(
    keys: &Vec<Double>,
    angles: &Vec<Double>,
    step: Double,
    top_k: usize,
) -> (r: Vec<usize>)
    requires
        keys@.len() == angles@.len(),
        angles@.len() > 0,
    ensures
        r@ == candidates(keys@, angles@, step, top_k),
        forall|i: int| 0 <= i < r@.len() ==> #[trigger] r@[i] < angles@.len(),
{
    let order = argsort(keys);
    let mut chosen: Vec<usize> = Vec::new();
    let mut n: usize = 0;
    let mut full = false;
    while n < order.len() && !full
        invariant
            n <= order@.len(),
            order@.len() == angles@.len(),
            forall|i: int| 0 <= i < order@.len() ==> #[trigger] order@[i] < angles@.len(),
            forall|i: int| 0 <= i < chosen@.len() ==> #[trigger] chosen@[i] < angles@.len(),
            chosen@ == diversified(order@, angles@, top_k, n as int),
            full ==> n >= 1 && chosen@.len() >= top_k,
            !full ==> n == 0 || chosen@.len() < top_k,
        decreases order@.len() - n,
    {
        let i = order[n];
        if is_apart_from_all(angles[i], angles, &chosen) {
            chosen.push(i);
        }
        n = n + 1;
        full = chosen.len() >= top_k;
    }
    proof {
        if full {
            lemma_diversified_full(order@, angles@, top_k, n as int, order@.len() as int);
        }
    }
    let len = angles.len();
    let zero = Double::of_int(0).over(step).round().to_index() % len;
    let ninety = Double::of_int(90).over(step).round().to_index() % len;
    add_index(&mut chosen, zero);
    add_index(&mut chosen, ninety);
    chosen
}

// ---------------------------------------------------------------------------
// The search
// ---------------------------------------------------------------------------

/// The angles at indices.
pub open spec fn angles_at(angles: Seq<Double>, at: Seq<usize>) -> Seq<Double> {
    Seq::new(at.len(), |i: int| angles[at[i] as int])
}

/// A plan, or the one a step away if that covers the area in less time.
pub open spec fn nudged(t: Trig, g: GeomView, best: PlanView, da: Double, p: AircraftParams) -> PlanView {
    let r = plan_by(t, g, best.angle_deg.plus(da).rem_euclid(Double::of_int(180)), p);
    if r.covers(g.area(), p) && r.time_s(p).lt(best.time_s(p)) { r } else { best }
}

/// The best plan in one direction: of the candidates, then of the neighbours of
/// the winner. If no candidate covers the area, the plan at 0 degrees.
pub open spec fn best_direction(
    t: Trig,
    g: GeomView,
    p: AircraftParams,
    step: Double,
    top_k: usize,
) -> PlanView {
    let angles = sweep(Double::zero(), step);
    let keys = scores(t, g.verts(), g.area(), angles, p);
    let at = angles_at(angles, candidates(keys, angles, step, top_k));
    match best_among(t, g, at, Measure::Alone, p, at.len() as int) {
        None => plan_by(t, g, Double::zero(), p),
        Some(b) => nudged(t, g, nudged(t, g, b, step.negated(), p), step, p),
    }
}

fn nudge<T: Fn(Double) -> (Double, Double)>(
    geom: &Geom,
    best: PlanResult,
    da: Double,
    p: &AircraftParams,
    sin_cos: &T,
) -> (r: PlanResult)
    requires
        trig_total(*sin_cos),
    ensures
        forall|t: Trig| #[trigger] trig_is(*sin_cos, t) ==> r@ == nudged(t, geom@, best@, da, *p),
{
    let angle = best.angle_deg.plus(da).rem_euclid(Double::of_int(180));
    let r = plan_single_direction(geom, angle, p, sin_cos);
    if covers(&r, geom.area(), p) && r.time_s(p).lt(best.time_s(p)) {
        r
    } else {
        best
    }
}

/// The best plan in one direction.
pub fn best_single_direction<T: Fn(Double) -> (Double, Double)>(
    geom: &Geom,
    p: &AircraftParams,
    step_deg: Double,
    top_k: usize,
    sin_cos: &T,
) -> (r: PlanResult)
    requires
        trig_total(*sin_cos),
    ensures
        forall|t: Trig| #[trigger]
            trig_is(*sin_cos, t) ==> r@ == best_direction(t, geom@, *p, step_deg, top_k),
{
    let angles = sweep_angles(step_deg);
    let verts = geom.exterior_verts();
    let keys = angle_scores(&verts, geom.area(), &angles, p, sin_cos);
    let chosen = choose_candidates(&keys, &angles, step_deg, top_k);
    let mut at: Vec<Double> = Vec::new();
    for i in 0..chosen.len()
        invariant
            forall|k: int| 0 <= k < chosen@.len() ==> #[trigger] chosen@[k] < angles@.len(),
            at@ == angles_at(angles@, chosen@).take(i as int),
    {
        at.push(angles[chosen[i]]);
        assert(at@ =~= angles_at(angles@, chosen@).take(i + 1));
    }
    assert(at@ =~= angles_at(angles@, chosen@));
    match pick_best(geom, &at, Measure::Alone, p, sin_cos) {
        None => plan_single_direction(geom, Double::zero(), p, sin_cos),
        Some(b) => {
            let down = nudge(geom, b, step_deg.negated(), p, sin_cos);
            nudge(geom, down, step_deg, p, sin_cos)
        },
    }
}

/// The directions within 4 whole degrees of `a0`.
pub open spec fn around(a0: Double) -> Seq<Double> {
    Seq::new(9, |i: int| a0.plus(Double::of_int((i - 4) as i64)).rem_euclid(Double::of_int(180)))
}

/// The best plan within 4 whole degrees of `a0`; the plan at `a0` if none of
/// them covers the area.
pub open spec fn refined(t: Trig, g: GeomView, a0: Double, p: AircraftParams) -> PlanView {
    match best_among(t, g, around(a0), Measure::Alone, p, 9) {
        Some(b) => b,
        None => plan_by(t, g, a0, p),
    }
}

/// The best plan within 4 whole degrees of `a0`.
pub fn refine<T: Fn(Double) -> (Double, Double)>(
    geom: &Geom,
    a0: Double,
    p: &AircraftParams,
    sin_cos: &T,
) -> (r: PlanResult)
    requires
        trig_total(*sin_cos),
    ensures
        forall|t: Trig| #[trigger] trig_is(*sin_cos, t) ==> r@ == refined(t, geom@, a0, *p),
{
    let mut angles: Vec<Double> = Vec::new();
    let mut da: i64 = -4;
    while da <= 4
        invariant
            -4 <= da <= 5,
            angles@ == around(a0).take(da + 4),
        decreases 5 - da,
    {
        angles.push(a0.plus(Double::of_int(da)).rem_euclid(Double::of_int(180)));
        assert(angles@ =~= around(a0).take(da + 5));
        da = da + 1;
    }
    assert(angles@ =~= around(a0));
    match pick_best(geom, &angles, Measure::Alone, p, sin_cos) {
        Some(b) => b,
        None => plan_single_direction(geom, a0, p, sin_cos),
    }
}

// ---------------------------------------------------------------------------
// Laws
// ---------------------------------------------------------------------------

/// The best plan in one of several directions covers the area, is the plan in one
/// of them, and none of the others that cover it measures less. There is none
/// only if no plan covers the area.
pub proof fn law_best_among(
    t: Trig,
    g: GeomView,
    angles: Seq<Double>,
    measure: Measure,
    p: AircraftParams,
    n: int,
    i: int,
)
    requires
        0 <= i < n,
    ensures
        match best_among(t, g, angles, measure, p, n) {
            None => !plan_by(t, g, angles[i], p).covers(g.area(), p),
            Some(b) => {
                &&& b.covers(g.area(), p)
                &&& exists|k: int| 0 <= k < n && b == plan_by(t, g, #[trigger] angles[k], p)
                &&& plan_by(t, g, angles[i], p).covers(g.area(), p) ==> !measure.spec_of(
                    plan_by(t, g, angles[i], p),
                    p,
                ).lt(measure.spec_of(b, p))
            },
        },
    decreases n,
{
    let last = plan_by(t, g, angles[n - 1], p);
    if n > 1 {
        law_best_among(t, g, angles, measure, p, n - 1, if i < n - 1 { i } else { 0 });
    } else {
        assert(best_among(t, g, angles, measure, p, 0) is None);
    }
    match best_among(t, g, angles, measure, p, n) {
        None => {},
        Some(b) => {
            if b == last {
                assert(b == plan_by(t, g, angles[n - 1], p));
            } else {
                let k = choose|k: int|
                    0 <= k < n - 1 && b == plan_by(t, g, #[trigger] angles[k], p);
                assert(b == plan_by(t, g, angles[k], p));
            }
        },
    }
}

/// The chosen directions are apart from each other, and not more than are asked
/// for, or one.
pub proof fn law_diversified(order: Seq<usize>, angles: Seq<Double>, top_k: usize, n: int)
    ensures
        diversified(order, angles, top_k, n).len() <= top_k || diversified(
            order,
            angles,
            top_k,
            n,
        ).len() <= 1,
        forall|i: int, j: int|
            0 <= i < j < diversified(order, angles, top_k, n).len() ==> apart(
                angles[#[trigger] diversified(order, angles, top_k, n)[j] as int],
                angles[#[trigger] diversified(order, angles, top_k, n)[i] as int],
            ),
    decreases n,
{
    if n > 0 {
        law_diversified(order, angles, top_k, n - 1);
        if n == 1 {
            assert(diversified(order, angles, top_k, 0).len() == 0);
        }
        let (now, before) = (
            diversified(order, angles, top_k, n),
            diversified(order, angles, top_k, n - 1),
        );
        assert forall|i: int, j: int| 0 <= i < j < now.len() implies apart(
            angles[#[trigger] now[j] as int],
            angles[#[trigger] now[i] as int],
        ) by {
            assert(now[i] == before[i]);
            if j < before.len() {
                assert(now[j] == before[j]);
            }
        }
    }
}

/// The two cardinal directions are among those that are cut.
pub proof fn law_cardinals_are_cut(keys: Seq<Double>, angles: Seq<Double>, step: Double, top_k: usize)
    ensures
        candidates(keys, angles, step, top_k).contains(cardinal(0, step, angles.len())),
        candidates(keys, angles, step, top_k).contains(cardinal(90, step, angles.len())),
{
    let order = sorted_by(indices(keys.len()), by_key(keys));
    let c = diversified(order, angles, top_k, order.len() as int);
    let (a, b) = (cardinal(0, step, angles.len()), cardinal(90, step, angles.len()));
    lemma_with_index(c, a);
    lemma_with_index(with_index(c, a), b);
    let d = with_index(c, a);
    let k = choose|k: int| 0 <= k < d.len() && d[k] == a;
    assert(with_index(d, b)[k] == a);
}

proof fn lemma_with_index(s: Seq<usize>, i: usize)
    ensures
        with_index(s, i).contains(i),
{
    if !s.contains(i) {
        assert(s.push(i)[s.len() as int] == i);
    }
}

/// The best plan within 4 degrees takes no longer than any plan there that covers
/// the area.
pub proof fn law_refined(t: Trig, g: GeomView, a0: Double, p: AircraftParams, i: int)
    requires
        0 <= i < 9,
        plan_by(t, g, around(a0)[i], p).covers(g.area(), p),
    ensures
        refined(t, g, a0, p).covers(g.area(), p),
        !plan_by(t, g, around(a0)[i], p).time_s(p).lt(refined(t, g, a0, p).time_s(p)),
{
    law_best_among(t, g, around(a0), Measure::Alone, p, 9, i);
}

/// The best plan in one direction takes no longer than the plan in any candidate
/// direction that covers the area.
pub proof fn law_best_direction(
    t: Trig,
    g: GeomView,
    p: AircraftParams,
    step: Double,
    top_k: usize,
    at: Seq<Double>,
    i: int,
)
    requires
        at == ({
            let angles = sweep(Double::zero(), step);
            let keys = scores(t, g.verts(), g.area(), angles, p);
            angles_at(angles, candidates(keys, angles, step, top_k))
        }),
        0 <= i < at.len(),
        plan_by(t, g, at[i], p).covers(g.area(), p),
    ensures
        best_direction(t, g, p, step, top_k).covers(g.area(), p),
        !plan_by(t, g, at[i], p).time_s(p).lt(best_direction(t, g, p, step, top_k).time_s(p)),
{
    law_best_among(t, g, at, Measure::Alone, p, at.len() as int, i);
}

/// `n` whole degrees from `a` on, in steps.
spec fn whole_degrees(a: int, step: int, n: nat) -> Seq<Double> {
    Seq::new(n, |i: int| Double::of_int((a + step * i) as i64))
}

/// Whole degrees from `a` on are `a` and those from the next one on.
proof fn lemma_whole_degrees(a: int, step: int, n: nat)
    ensures
        whole_degrees(a, step, n + 1) == seq![Double::of_int(a as i64)] + whole_degrees(
            a + step,
            step,
            n,
        ),
{
    let (all, rest) = (whole_degrees(a, step, n + 1), whole_degrees(a + step, step, n));
    let both = seq![Double::of_int(a as i64)] + rest;
    assert forall|i: int| 0 <= i < all.len() implies all[i] == both[i] by {
        if i > 0 {
            assert(a + step * i == a + step + step * (i - 1)) by (nonlinear_arith);
            assert(rest[i - 1] == Double::of_int((a + step + step * (i - 1)) as i64));
        } else {
            assert(step * 0 == 0);
        }
    }
    assert(all =~= both);
}

#[verifier::spinoff_prover]
proof fn lemma_sweep_whole(a: int, step: int, n: nat)
    requires
        step == 1 || step == 2,
        0 <= a,
        a + step * n == 180,
    ensures
        sweep(Double::of_int(a as i64), Double::of_int(step as i64)) == whole_degrees(a, step, n),
    decreases n,
{
    let (d, s) = (Double::of_int(a as i64), Double::of_int(step as i64));
    if n > 0 {
        let k = (n - 1) as nat;
        assert(step * n == step + step * k && step * k >= 0) by (nonlinear_arith)
            requires
                n == k + 1,
                step > 0,
                k >= 0,
        ;
        law_whole_order(a as i64, 180);
        law_whole_sum(a as i64, step as i64);
        law_whole_order(a as i64, (a + step) as i64);
        lemma_sweep_whole(a + step, step, k);
        lemma_whole_degrees(a, step, k);
        assert(d.plus(s) == Double::of_int((a + step) as i64));
        assert(sweep(d, s) == seq![d] + sweep(d.plus(s), s));
    } else {
        assert(step * 0 == 0);
        law_whole_order(180, 180);
        assert(sweep(d, s) == Seq::<Double>::empty());
        assert(whole_degrees(a, step, 0) =~= Seq::<Double>::empty());
    }
}

/// In steps of one or two degrees, the cardinal directions are 0 and 90 degrees.
pub proof fn law_cardinal_degrees(card: i64, step: i64)
    requires
        card == 0 || card == 90,
        step == 1 || step == 2,
    ensures
        ({
            let angles = sweep(Double::zero(), Double::of_int(step));
            let i = cardinal(card, Double::of_int(step), angles.len());
            i < angles.len() && angles[i as int] == Double::of_int(card)
        }),
{
    let angles = sweep(Double::zero(), Double::of_int(step));
    assert(Double::of_int(0) == Double::zero()) by {
        reveal(Double::spec_of_int);
        assert(0nat * crate::whole::one_units() == 0);
    }
    let n: nat = if step == 1 {
        180
    } else {
        90
    };
    lemma_sweep_whole(0, step as int, n);
    let k: i64 = if card == 0 {
        0
    } else if step == 1 {
        90
    } else {
        45
    };
    assert(k * step == card);
    law_whole_quotient(k, step);
    law_whole_round(k);
    assert(angles.len() == n);
    vstd::arithmetic::div_mod::lemma_small_mod(k as nat, angles.len());
    assert(angles[k as int] == Double::of_int((0 + step * k) as i64));
}

/// In steps of one or two degrees, the best plan in one direction takes no longer
/// than the plan at 0 degrees, or at 90, if that covers the area.
pub proof fn law_no_cardinal_is_faster(
    t: Trig,
    g: GeomView,
    p: AircraftParams,
    card: i64,
    step: i64,
    top_k: usize,
)
    requires
        card == 0 || card == 90,
        step == 1 || step == 2,
        plan_by(t, g, Double::of_int(card), p).covers(g.area(), p),
    ensures
        best_direction(t, g, p, Double::of_int(step), top_k).covers(g.area(), p),
        !plan_by(t, g, Double::of_int(card), p).time_s(p).lt(
            best_direction(t, g, p, Double::of_int(step), top_k).time_s(p),
        ),
{
    let by = Double::of_int(step);
    let angles = sweep(Double::zero(), by);
    let keys = scores(t, g.verts(), g.area(), angles, p);
    let c = candidates(keys, angles, by, top_k);
    let at = angles_at(angles, c);
    law_cardinal_degrees(card, step);
    law_cardinals_are_cut(keys, angles, by, top_k);
    let i = choose|i: int| 0 <= i < c.len() && c[i] == cardinal(card, by, angles.len());
    assert(at[i] == Double::of_int(card));
    law_best_direction(t, g, p, by, top_k, at, i);
}

} // verus!
