//! Merging blocks of a field as long as that saves time.
use vstd::prelude::*;

use crate::boundary::{
    distinct_sorted, geom_distance, geoms_apart, shared, shared_boundary_len, sort_distinct,
};
use crate::cost::block_cost;
use crate::double::Double;
use crate::geom::{Geom, GeomView, Polygon};
use crate::params::AircraftParams;
use crate::plan::{PlanResult, PlanView};
use crate::rings::{geom_views, union_at, union_geoms};
use crate::search::{
    best_among, best_direction, best_single_direction, pick_best, plan_option, Measure,
};
use crate::tools::{hypot_is, hypot_total, trig_is, trig_total, Hypot, Meaning, Tools, Trig};

verus! {

/// A block of a field and its plan.
pub struct Block {
    pub geom: Geom,
    pub plan: PlanResult,
}

/// What a [`Block`] holds.
#[verifier::ext_equal]
pub struct BlockView {
    pub geom: GeomView,
    pub plan: PlanView,
}

impl View for Block {
    type V = BlockView;

    open spec fn view(&self) -> BlockView {
        BlockView { geom: self.geom@, plan: self.plan@ }
    }
}

/// What blocks hold.
pub open spec fn block_views(v: Seq<Block>) -> Seq<BlockView> {
    Seq::new(v.len(), |i: int| v[i]@)
}

/// Whether two geometries can be flown as one: they share more than half a foot
/// of boundary, or the gap between them is no longer than the threshold for gaps.
pub open spec fn mergeable(h: Hypot, a: GeomView, b: GeomView, p: AircraftParams) -> bool {
    Double::ratio(1, 2).lt(shared(h, a, b)) || geoms_apart(h, a, b).le(p.gap_threshold_ft())
}

/// Whether two geometries can be flown as one.
pub fn is_mergeable<H: Fn(Double, Double) -> Double>(
    a: &Geom,
    b: &Geom,
    p: &AircraftParams,
    hypot: &H,
) -> (r: bool)
    requires
        hypot_total(*hypot),
    ensures
        forall|h: Hypot| #[trigger] hypot_is(*hypot, h) ==> r == mergeable(h, a@, b@, *p),
{
    Double::ratio(1, 2).lt(shared_boundary_len(a, b, hypot)) || geom_distance(a, b, hypot).le(
        p.gap_threshold_ft(),
    )
}

/// Directions modulo a half turn.
pub open spec fn half_turns(angles: Seq<Double>) -> Seq<Double> {
    Seq::new(angles.len(), |i: int| angles[i].rem_euclid(Double::of_int(180)))
}

/// The cheapest plan, as a block, in one of the directions, if one covers the
/// area.
pub open spec fn cheapest_in(t: Trig, g: GeomView, angles: Seq<Double>, p: AircraftParams) -> Option<
    PlanView,
> {
    best_among(t, g, half_turns(angles), Measure::Block, p, angles.len() as int)
}

/// The cheapest plan, as a block, in one of the directions, if one covers the
/// area.
pub fn union_plan<T: Fn(Double) -> (Double, Double)>(
    u: &Geom,
    angles: &Vec<Double>,
    p: &AircraftParams,
    sin_cos: &T,
) -> (r: Option<PlanResult>)
    requires
        trig_total(*sin_cos),
    ensures
        forall|t: Trig| #[trigger]
            trig_is(*sin_cos, t) ==> plan_option(r) == cheapest_in(t, u@, angles@, *p),
{
    let mut at: Vec<Double> = Vec::new();
    for i in 0..angles.len()
        invariant
            at@ == half_turns(angles@).take(i as int),
    {
        at.push(angles[i].rem_euclid(Double::of_int(180)));
        assert(at@ =~= half_turns(angles@).take(i + 1));
    }
    assert(at@ =~= half_turns(angles@));
    pick_best(u, &at, Measure::Block, p, sin_cos)
}

// ---------------------------------------------------------------------------
// What a merger saves
// ---------------------------------------------------------------------------

/// How the plan of a union is looked for.
#[derive(Clone, Copy, Debug, PartialEq, Eq, Structural)]
pub enum Effort {
    /// In the directions of the two blocks, at 0 and at 90 degrees.
    Quick,
    /// In all directions, by steps of the given degrees.
    Full(Double),
}

/// The directions in which the union of two blocks is quickly planned.
pub open spec fn quick_angles(a: PlanView, b: PlanView) -> Seq<Double> {
    distinct_sorted(seq![a.angle_deg, b.angle_deg, Double::zero(), Double::of_int(90)])
}

/// What a merger saves: the blocks and the turn between them, less the union.
pub open spec fn saving(a: PlanView, b: PlanView, whole: PlanView, p: AircraftParams) -> Double {
    a.block_cost(p).plus(b.block_cost(p)).plus(p.t_turn_s).minus(whole.block_cost(p))
}

/// What two blocks would be merged to, and what that saves; nothing where they
/// cannot be flown as one, or no plan covers their union.
#[verifier::opaque]
pub open spec fn offer(
    m: Meaning,
    a: BlockView,
    b: BlockView,
    effort: Effort,
    p: AircraftParams,
) -> Option<(Double, BlockView)> {
    if !mergeable(m.hypot, a.geom, b.geom, p) {
        None
    } else {
        let u = union_at(m.union, seq![a.geom, b.geom], seq![0usize, 1usize]);
        let plan = match effort {
            Effort::Quick => cheapest_in(m.sin_cos, u, quick_angles(a.plan, b.plan), p),
            Effort::Full(step) => Some(best_direction(m.sin_cos, u, p, step, 8)),
        };
        match plan {
            None => None,
            Some(pu) => Some(
                (saving(a.plan, b.plan, pu, p), BlockView { geom: u, plan: pu }),
            ),
        }
    }
}

/// What an offer holds.
pub open spec fn offer_view(o: Option<(Double, Block)>) -> Option<(Double, BlockView)> {
    match o {
        Some((gain, b)) => Some((gain, b@)),
        None => None,
    }
}

/// What two blocks would be merged to, and what that saves.
pub fn make_offer<
    T: Fn(Double) -> (Double, Double),
    H: Fn(Double, Double) -> Double,
    U: Fn(&Vec<Polygon>) -> Vec<Polygon>,
    C: Fn(&Polygon, &Polygon) -> Vec<Polygon>,
>(a: &Block, b: &Block, effort: Effort, p: &AircraftParams, tools: &Tools<T, H, U, C>) -> (r: Option<
    (Double, Block),
>)
    requires
        tools.total(),
    ensures
        forall|m: Meaning| #[trigger]
            tools.computes(m) ==> offer_view(r) == offer(m, a@, b@, effort, *p),
{
    reveal(offer);
    if !is_mergeable(&a.geom, &b.geom, p, &tools.hypot) {
        return None;
    }
    let mut both: Vec<Geom> = Vec::new();
    both.push(a.geom.clone());
    both.push(b.geom.clone());
    assert(geom_views(both@) =~= seq![a@.geom, b@.geom]);
    let mut at: Vec<usize> = Vec::new();
    at.push(0);
    at.push(1);
    assert(at@ =~= seq![0usize, 1usize]);
    let u = union_geoms(&both, &at, &tools.union);
    let plan = match effort {
        Effort::Quick => {
            let mut angles: Vec<Double> = Vec::new();
            angles.push(a.plan.angle_deg);
            angles.push(b.plan.angle_deg);
            angles.push(Double::zero());
            angles.push(Double::of_int(90));
            assert(angles@ =~= seq![
                a@.plan.angle_deg,
                b@.plan.angle_deg,
                Double::zero(),
                Double::of_int(90),
            ]);
            let once = sort_distinct(&angles);
            union_plan(&u, &once, p, &tools.sin_cos)
        },
        Effort::Full(step) => Some(best_single_direction(&u, p, step, 8, &tools.sin_cos)),
    };
    match plan {
        None => None,
        Some(pu) => {
            let gain = block_cost(&a.plan, p).plus(block_cost(&b.plan, p)).plus(p.t_turn_s).minus(
                block_cost(&pu, p),
            );
            Some((gain, Block { geom: u, plan: pu }))
        },
    }
}

// ---------------------------------------------------------------------------
// The best of all mergers
// ---------------------------------------------------------------------------

/// What any two blocks would be merged to.
pub type Offers = spec_fn(BlockView, BlockView) -> Option<(Double, BlockView)>;

/// Offers for pairs: entry `[j][i]` is that for numbers `i` and a greater `j`.
pub type Table = Seq<Seq<Option<(Double, BlockView)>>>;

/// The offers of an effort.
pub open spec fn offers(m: Meaning, effort: Effort, p: AircraftParams) -> Offers {
    |a: BlockView, b: BlockView| offer(m, a, b, effort, p)
}

/// The offers for all pairs of blocks.
pub open spec fn table_of(f: Offers, blocks: Seq<BlockView>) -> Table {
    Seq::new(blocks.len(), |j: int| Seq::new(j as nat, |i: int| f(blocks[i], blocks[j])))
}

/// The best pair so far and what it saves, or the pair `i` and `j` if that saves
/// something, and more.
pub open spec fn better_pair(
    best: Option<(int, int, Double)>,
    i: int,
    j: int,
    o: Option<(Double, BlockView)>,
) -> Option<(int, int, Double)> {
    match o {
        None => best,
        Some((gain, _)) => {
            let more = match best {
                None => true,
                Some((_, _, g)) => g.lt(gain),
            };
            if Double::zero().lt(gain) && more {
                Some((i, j, gain))
            } else {
                best
            }
        },
    }
}

/// The best pair after number `i` was held against the greater ones below `j`.
pub open spec fn row_best(
    t: Table,
    best: Option<(int, int, Double)>,
    i: int,
    j: int,
) -> Option<(int, int, Double)>
    decreases j - i,
{
    if j <= i + 1 {
        best
    } else {
        better_pair(row_best(t, best, i, j - 1), i, j - 1, t[j - 1][i])
    }
}

/// The pair that saves most among those with one of the first `n` numbers; on a
/// tie the one with the least numbers. None where no pair saves anything.
pub open spec fn best_pair(t: Table, n: int) -> Option<(int, int, Double)>
    decreases n,
{
    if n <= 0 {
        None
    } else {
        row_best(t, best_pair(t, n - 1), n - 1, t.len() as int)
    }
}

/// Blocks with the pair `i` and `j` replaced by one block at the end.
pub open spec fn with_merged(blocks: Seq<BlockView>, i: int, j: int, b: BlockView) -> Seq<BlockView> {
    blocks.remove(j).remove(i).push(b)
}

/// Blocks after the pair that saves most is merged, again and again, as long as
/// one saves anything.
pub open spec fn merged(f: Offers, blocks: Seq<BlockView>) -> Seq<BlockView>
    decreases blocks.len(),
{
    match best_pair(table_of(f, blocks), blocks.len() as int) {
        None => blocks,
        Some((i, j, _)) => {
            proof {
                lemma_best_pair(table_of(f, blocks), blocks.len() as int);
            }
            merged(f, with_merged(blocks, i, j, (f(blocks[i], blocks[j])->0).1))
        },
    }
}

/// `best` is a pair of numbers of the table, with an offer that saves something.
pub open spec fn fits_table(t: Table, best: Option<(int, int, Double)>) -> bool {
    match best {
        None => true,
        Some((i, j, gain)) => {
            &&& 0 <= i < j < t.len()
            &&& t[j][i] is Some
            &&& (t[j][i]->0).0 == gain
            &&& Double::zero().lt(gain)
        },
    }
}

proof fn lemma_row_best(t: Table, best: Option<(int, int, Double)>, i: int, j: int)
    requires
        fits_table(t, best),
        0 <= i,
        j <= t.len(),
    ensures
        fits_table(t, row_best(t, best, i, j)),
    decreases j - i,
{
    if j > i + 1 {
        lemma_row_best(t, best, i, j - 1);
    }
}

/// The best pair is one of the table that saves something.
pub proof fn lemma_best_pair(t: Table, n: int)
    ensures
        fits_table(t, best_pair(t, n)),
    decreases n,
{
    if n > 0 {
        lemma_best_pair(t, n - 1);
        lemma_row_best(t, best_pair(t, n - 1), n - 1, t.len() as int);
    }
}

/// A gain that is not beaten.
spec fn unbeaten(t: Table, best: Option<(int, int, Double)>, i: int, j: int) -> bool {
    t[j][i] is Some && Double::zero().lt((t[j][i]->0).0) ==> best is Some && !(best->0).2.lt(
        (t[j][i]->0).0,
    )
}

proof fn lemma_row_unbeaten(
    t: Table,
    best: Option<(int, int, Double)>,
    i: int,
    j: int,
    a: int,
    b: int,
)
    requires
        fits_table(t, best),
        0 <= i,
        j <= t.len(),
        unbeaten(t, best, a, b) || (a == i && i < b < j),
    ensures
        unbeaten(t, row_best(t, best, i, j), a, b),
    decreases j - i,
{
    if j > i + 1 {
        if a == i && b == j - 1 && !unbeaten(t, best, a, b) {
            lemma_row_best(t, best, i, j - 1);
        } else {
            lemma_row_unbeaten(t, best, i, j - 1, a, b);
            lemma_row_best(t, best, i, j - 1);
        }
    }
}

proof fn lemma_unbeaten(t: Table, n: int, a: int, b: int)
    requires
        0 <= a < n,
        a < b < t.len(),
    ensures
        unbeaten(t, best_pair(t, n), a, b),
    decreases n,
{
    lemma_best_pair(t, n - 1);
    if a < n - 1 {
        lemma_unbeaten(t, n - 1, a, b);
    }
    lemma_row_unbeaten(t, best_pair(t, n - 1), n - 1, t.len() as int, a, b);
}

/// Once merging stops, merging any two of the blocks would save nothing, and
/// there are no more blocks than before.
pub proof fn law_merged(f: Offers, blocks: Seq<BlockView>, i: int, j: int)
    requires
        0 <= i < j < merged(f, blocks).len(),
    ensures
        merged(f, blocks).len() <= blocks.len(),
        match f(merged(f, blocks)[i], merged(f, blocks)[j]) {
            None => true,
            Some((gain, _)) => !Double::zero().lt(gain),
        },
    decreases blocks.len(),
{
    let t = table_of(f, blocks);
    lemma_best_pair(t, blocks.len() as int);
    match best_pair(t, blocks.len() as int) {
        None => {
            lemma_unbeaten(t, blocks.len() as int, i, j);
            assert(t[j][i] == f(blocks[i], blocks[j]));
        },
        Some((a, b, _)) => {
            law_merged(f, with_merged(blocks, a, b, (f(blocks[a], blocks[b])->0).1), i, j);
        },
    }
}

/// What a table of offers holds.
pub open spec fn table_view(c: Seq<Vec<Option<(Double, Block)>>>) -> Table {
    Seq::new(c.len(), |j: int| Seq::new(c[j]@.len(), |i: int| offer_view(c[j]@[i])))
}

/// A table without number `r`.
spec fn shrunk(t: Table, r: int) -> Table {
    Seq::new(
        (t.len() - 1) as nat,
        |j: int|
            if j < r {
                t[j]
            } else {
                t[j + 1].remove(r)
            },
    )
}

proof fn lemma_shrunk(f: Offers, blocks: Seq<BlockView>, r: int)
    requires
        0 <= r < blocks.len(),
    ensures
        shrunk(table_of(f, blocks), r) == table_of(f, blocks.remove(r)),
{
    let t = table_of(f, blocks);
    let less = blocks.remove(r);
    assert forall|j: int| 0 <= j < less.len() implies shrunk(t, r)[j] == #[trigger] table_of(
        f,
        less,
    )[j] by {
        assert(shrunk(t, r)[j] =~= table_of(f, less)[j]);
    }
    assert(shrunk(t, r) =~= table_of(f, less));
}

/// Takes number `r` out of a table of offers.
fn forget(c: &mut Vec<Vec<Option<(Double, Block)>>>, r: usize)
    requires
        r < old(c)@.len(),
        forall|j: int| 0 <= j < old(c)@.len() ==> (#[trigger] old(c)@[j])@.len() == j,
    ensures
        final(c)@.len() == old(c)@.len() - 1,
        table_view(final(c)@) == shrunk(table_view(old(c)@), r as int),
        forall|j: int| 0 <= j < final(c)@.len() ==> (#[trigger] final(c)@[j])@.len() == j,
{
    let ghost t = table_view(c@);
    let _ = c.remove(r);
    let ghost gone = c@;
    let n = c.len();
    for b in r..n
        invariant
            r <= n,
            n == gone.len(),
            c@.len() == n,
            forall|j: int| 0 <= j < r ==> (#[trigger] gone[j])@.len() == j,
            forall|j: int| r <= j < gone.len() ==> (#[trigger] gone[j])@.len() == j + 1,
            forall|j: int| 0 <= j < r ==> #[trigger] c@[j] == gone[j],
            forall|j: int| r <= j < b ==> (#[trigger] c@[j])@ == gone[j]@.remove(r as int),
            forall|j: int| b <= j < c@.len() ==> #[trigger] c@[j] == gone[j],
    {
        assert(c@[b as int] == gone[b as int]);
        let _ = c[b].remove(r);
    }
    proof {
        assert forall|j: int| 0 <= j < c@.len() implies #[trigger] table_view(c@)[j] == shrunk(
            t,
            r as int,
        )[j] by {
            if j < r {
                assert(c@[j] == gone[j]);
            } else {
                assert(c@[j]@ == gone[j]@.remove(r as int));
            }
            assert(table_view(c@)[j] =~= shrunk(t, r as int)[j]);
        }
        assert(table_view(c@) =~= shrunk(t, r as int));
    }
}

/// Takes the numbers of a pair out of a table, and the block of its offer.
fn take_offer(c: &mut Vec<Vec<Option<(Double, Block)>>>, i: usize, j: usize) -> (r: Block)
    requires
        i < j < old(c)@.len(),
        forall|k: int| 0 <= k < old(c)@.len() ==> (#[trigger] old(c)@[k])@.len() == k,
        table_view(old(c)@)[j as int][i as int] is Some,
    ensures
        r@ == (table_view(old(c)@)[j as int][i as int]->0).1,
        final(c)@.len() == old(c)@.len() - 2,
        table_view(final(c)@) == shrunk(shrunk(table_view(old(c)@), j as int), i as int),
        forall|k: int| 0 <= k < final(c)@.len() ==> (#[trigger] final(c)@[k])@.len() == k,
{
    let ghost t = table_view(c@);
    let ghost before = c@;
    assert(c@[j as int]@.len() == j);
    assert(t[j as int][i as int] == offer_view(c@[j as int]@[i as int]));
    let chosen = c[j].remove(i);
    c[j].insert(i, None);
    let ghost t2 = table_view(c@);
    proof {
        assert forall|k: int| 0 <= k < t.len() && k != j implies t2[k] == t[k] by {
            assert(c@[k] == before[k]);
            assert(t2[k] =~= t[k]);
        }
        assert(shrunk(t2, j as int) =~= shrunk(t, j as int));
        assert forall|k: int| 0 <= k < c@.len() implies (#[trigger] c@[k])@.len() == k by {
            assert(before[k]@.len() == k);
        }
    }
    forget(c, j);
    forget(c, i);
    chosen.unwrap().1
}

/// A table for one more block.
proof fn lemma_table_push(
    f: Offers,
    rest: Seq<BlockView>,
    b: BlockView,
    c: Seq<Vec<Option<(Double, Block)>>>,
    row: Vec<Option<(Double, Block)>>,
)
    requires
        table_view(c) == table_of(f, rest),
        row@.len() == rest.len(),
        forall|a: int| 0 <= a < row@.len() ==> offer_view(#[trigger] row@[a]) == f(rest[a], b),
    ensures
        table_view(c.push(row)) == table_of(f, rest.push(b)),
{
    let (t, now) = (table_view(c.push(row)), rest.push(b));
    assert(table_view(c).len() == c.len());
    assert(table_of(f, rest).len() == rest.len());
    assert forall|k: int| 0 <= k < now.len() implies #[trigger] t[k] == table_of(f, now)[k] by {
        if k < rest.len() {
            assert(t[k] =~= table_view(c)[k]);
            assert(table_of(f, now)[k] =~= table_of(f, rest)[k]);
        } else {
            assert(t[k] =~= table_of(f, now)[k]);
        }
    }
    assert(t =~= table_of(f, now));
}

/// A step of merging.
proof fn lemma_step(
    f: Offers,
    all: Seq<BlockView>,
    i: int,
    j: int,
    t: Table,
    less: Seq<Vec<Option<(Double, Block)>>>,
    row: Vec<Option<(Double, Block)>>,
)
    requires
        t == table_of(f, all),
        best_pair(t, all.len() as int) is Some,
        (best_pair(t, all.len() as int)->0).0 == i,
        (best_pair(t, all.len() as int)->0).1 == j,
        table_view(less) == shrunk(shrunk(t, j), i),
        row@.len() == all.len() - 2,
        forall|a: int|
            0 <= a < row@.len() ==> offer_view(#[trigger] row@[a]) == f(
                all.remove(j).remove(i)[a],
                (t[j][i]->0).1,
            ),
    ensures
        table_view(less.push(row)) == table_of(f, with_merged(all, i, j, (t[j][i]->0).1)),
        merged(f, with_merged(all, i, j, (t[j][i]->0).1)) == merged(f, all),
{
    lemma_best_pair(t, all.len() as int);
    lemma_shrunk(f, all, j);
    lemma_shrunk(f, all.remove(j), i);
    lemma_table_push(f, all.remove(j).remove(i), (t[j][i]->0).1, less, row);
    assert(t[j][i] == f(all[i], all[j]));
}

/// What a pair of numbers stands for in a specification.
spec fn pair_view(best: Option<(usize, usize, Double)>) -> Option<(int, int, Double)> {
    match best {
        None => None,
        Some((i, j, gain)) => Some((i as int, j as int, gain)),
    }
}

/// The pair that saves most.
fn find_best_pair(c: &Vec<Vec<Option<(Double, Block)>>>) -> (r: Option<(usize, usize, Double)>)
    requires
        forall|j: int| 0 <= j < c@.len() ==> (#[trigger] c@[j])@.len() == j,
    ensures
        pair_view(r) == best_pair(table_view(c@), c@.len() as int),
{
    let n = c.len();
    let mut best: Option<(usize, usize, Double)> = None;
    let ghost t = table_view(c@);
    for i in 0..n
        invariant
            n == c@.len(),
            t == table_view(c@),
            forall|j: int| 0 <= j < c@.len() ==> (#[trigger] c@[j])@.len() == j,
            pair_view(best) == best_pair(t, i as int),
    {
        let ghost from = pair_view(best);
        for j in i + 1..n
            invariant
                i < n,
                n == c@.len(),
                t == table_view(c@),
                forall|j: int| 0 <= j < c@.len() ==> (#[trigger] c@[j])@.len() == j,
                pair_view(best) == row_best(t, from, i as int, j as int),
        {
            assert(c@[j as int]@.len() == j);
            assert(t[j as int][i as int] == offer_view(c@[j as int]@[i as int]));
            match &c[j][i] {
                None => {},
                Some((gain, _)) => {
                    let more = match best {
                        None => true,
                        Some((_, _, g)) => g.lt(*gain),
                    };
                    if Double::zero().lt(*gain) && more {
                        best = Some((i, j, *gain));
                    }
                },
            }
        }
    }
    best
}

/// The offers for the first `b` blocks with block `b`.
fn offer_row<
    T: Fn(Double) -> (Double, Double),
    H: Fn(Double, Double) -> Double,
    U: Fn(&Vec<Polygon>) -> Vec<Polygon>,
    C: Fn(&Polygon, &Polygon) -> Vec<Polygon>,
>(
    blocks: &Vec<Block>,
    b: usize,
    effort: Effort,
    p: &AircraftParams,
    tools: &Tools<T, H, U, C>,
) -> (r: Vec<Option<(Double, Block)>>)
    requires
        tools.total(),
        b < blocks@.len(),
    ensures
        r@.len() == b,
        forall|m: Meaning, a: int|
            #![trigger tools.computes(m), r@[a]]
            tools.computes(m) && 0 <= a < b ==> offer_view(r@[a]) == offers(m, effort, *p)(
                blocks@[a]@,
                blocks@[b as int]@,
            ),
{
    let mut row: Vec<Option<(Double, Block)>> = Vec::new();
    for a in 0..b
        invariant
            tools.total(),
            b < blocks@.len(),
            row@.len() == a,
            forall|m: Meaning, k: int|
                #![trigger tools.computes(m), row@[k]]
                tools.computes(m) && 0 <= k < a ==> offer_view(row@[k]) == offers(m, effort, *p)(
                    blocks@[k]@,
                    blocks@[b as int]@,
                ),
    {
        row.push(make_offer(&blocks[a], &blocks[b], effort, p, tools));
    }
    row
}

/// Blocks after the pair that saves most is merged, again and again.
pub fn merge_blocks<
    T: Fn(Double) -> (Double, Double),
    H: Fn(Double, Double) -> Double,
    U: Fn(&Vec<Polygon>) -> Vec<Polygon>,
    C: Fn(&Polygon, &Polygon) -> Vec<Polygon>,
>(given: Vec<Block>, effort: Effort, p: &AircraftParams, tools: &Tools<T, H, U, C>) -> (r: Vec<Block>)
    requires
        tools.total(),
    ensures
        given@.len() > 0 ==> r@.len() > 0,
        forall|m: Meaning| #[trigger]
            tools.computes(m) ==> block_views(r@) == merged(
                offers(m, effort, *p),
                block_views(given@),
            ),
{
    let mut blocks = given;
    let mut cache: Vec<Vec<Option<(Double, Block)>>> = Vec::new();
    for b in 0..blocks.len()
        invariant
            tools.total(),
            cache@.len() == b,
            forall|j: int| 0 <= j < cache@.len() ==> (#[trigger] cache@[j])@.len() == j,
            forall|m: Meaning, j: int, i: int|
                #![trigger tools.computes(m), cache@[j]@[i]]
                tools.computes(m) && 0 <= i < j < b ==> offer_view(cache@[j]@[i]) == offers(
                    m,
                    effort,
                    *p,
                )(blocks@[i]@, blocks@[j]@),
    {
        let row = offer_row(&blocks, b, effort, p, tools);
        let ghost before = cache@;
        cache.push(row);
        assert forall|m: Meaning, j: int, i: int|
            #![trigger tools.computes(m), cache@[j]@[i]]
            tools.computes(m) && 0 <= i < j < b + 1 implies offer_view(cache@[j]@[i]) == offers(
            m,
            effort,
            *p,
        )(blocks@[i]@, blocks@[j]@) by {
            if j < b {
                assert(cache@[j]@[i] == before[j]@[i]);
            } else {
                assert(cache@[j]@[i] == row@[i]);
            }
        }
    }
    assert forall|m: Meaning| #[trigger] tools.computes(m) implies table_view(cache@) == table_of(
        offers(m, effort, *p),
        block_views(blocks@),
    ) by {
        lemma_table(m, effort, *p, cache@, blocks@);
    }
    loop
        invariant_except_break
            tools.total(),
            given@.len() > 0 ==> blocks@.len() > 0,
            cache@.len() == blocks@.len(),
            forall|j: int| 0 <= j < cache@.len() ==> (#[trigger] cache@[j])@.len() == j,
            forall|m: Meaning| #[trigger]
                tools.computes(m) ==> table_view(cache@) == table_of(
                    offers(m, effort, *p),
                    block_views(blocks@),
                ),
            forall|m: Meaning| #[trigger]
                tools.computes(m) ==> merged(offers(m, effort, *p), block_views(blocks@)) == merged(
                    offers(m, effort, *p),
                    block_views(given@),
                ),
        ensures
            given@.len() > 0 ==> blocks@.len() > 0,
            forall|m: Meaning| #[trigger]
                tools.computes(m) ==> block_views(blocks@) == merged(
                    offers(m, effort, *p),
                    block_views(given@),
                ),
        decreases blocks@.len(),
    {
        let best = find_best_pair(&cache);
        match best {
            None => {
                break ;
            },
            Some((i, j, _)) => {
                proof {
                    lemma_best_pair(table_view(cache@), cache@.len() as int);
                }
                let ghost t = table_view(cache@);
                let ghost all = block_views(blocks@);
                let ghost whole = (t[j as int][i as int]->0).1;
                let block = take_offer(&mut cache, i, j);
                let _ = blocks.remove(j);
                let _ = blocks.remove(i);
                blocks.push(block);
                let last = blocks.len() - 1;
                let row = offer_row(&blocks, last, effort, p, tools);
                let ghost less = cache@;
                cache.push(row);
                proof {
                    let now = block_views(blocks@);
                    assert(now =~= with_merged(all, i as int, j as int, whole));
                    assert forall|m: Meaning| #[trigger] tools.computes(m) implies table_view(
                        cache@,
                    ) == table_of(offers(m, effort, *p), now) && merged(
                        offers(m, effort, *p),
                        now,
                    ) == merged(offers(m, effort, *p), block_views(given@)) by {
                        let f = offers(m, effort, *p);
                        lemma_step(f, all, i as int, j as int, t, less, row);
                    }
                }
            },
        }
    }
    blocks
}

proof fn lemma_table(
    m: Meaning,
    effort: Effort,
    p: AircraftParams,
    cache: Seq<Vec<Option<(Double, Block)>>>,
    blocks: Seq<Block>,
)
    requires
        cache.len() == blocks.len(),
        forall|j: int| 0 <= j < cache.len() ==> (#[trigger] cache[j])@.len() == j,
        forall|j: int, i: int|
            0 <= i < j < blocks.len() ==> offer_view(#[trigger] cache[j]@[i]) == offers(m, effort, p)(
                blocks[i]@,
                blocks[j]@,
            ),
    ensures
        table_view(cache) == table_of(offers(m, effort, p), block_views(blocks)),
{
    let f = offers(m, effort, p);
    assert forall|j: int| 0 <= j < cache.len() implies #[trigger] table_view(cache)[j] == table_of(
        f,
        block_views(blocks),
    )[j] by {
        assert(table_view(cache)[j] =~= table_of(f, block_views(blocks))[j]);
    }
    assert(table_view(cache) =~= table_of(f, block_views(blocks)));
}

} // verus!
