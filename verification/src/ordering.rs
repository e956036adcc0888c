//! The order in which blocks are flown, and how each is entered.
use vstd::prelude::*;

use crate::double::Double;
use crate::geom::{dist, dist_by, Pt};
use crate::params::AircraftParams;
use crate::perms::{copy_indices, index_views, law_lex_total, lex_before, permutations, rearranged};
use crate::plan::{plan_views, PlanResult, PlanView};
use crate::sorting::indices;
use crate::tools::{hypot_is, hypot_total, Hypot};
use crate::traverse::{block_stats, Config, Stat};

verus! {

/// The four ways to enter a block.
pub open spec fn spec_config(c: usize) -> Config {
    (c >= 2, c % 2 == 1)
}

/// The four ways to enter a block.
#[verifier::when_used_as_spec(spec_config)]
pub fn config(c: usize) -> (r: Config)
    ensures
        r == spec_config(c),
{
    (c >= 2, c % 2 == 1)
}

/// The figures of blocks, under the four configurations each.
pub open spec fn stat_table(plans: Seq<PlanView>, p: AircraftParams) -> Seq<Seq<Stat>> {
    Seq::new(plans.len(), |b: int| Seq::new(4, |c: int| plans[b].stat(config(c as usize), p)))
}

/// The rows of a table of figures.
pub open spec fn stat_views(v: Seq<Vec<Stat>>) -> Seq<Seq<Stat>> {
    Seq::new(v.len(), |i: int| v[i]@)
}

/// What the cost of an order depends on.
pub struct Flight {
    pub hypot: Hypot,
    pub stats: Seq<Seq<Stat>>,
    pub trailer: Pt,
    pub p: AircraftParams,
}

/// The point, or the origin if there is none.
pub open spec fn point_or_origin(o: Option<Pt>) -> Pt {
    match o {
        Some(p) => p,
        None => Pt { x: Double::zero(), y: Double::zero() },
    }
}

fn or_origin(o: Option<Pt>) -> (r: Pt)
    ensures
        r == point_or_origin(o),
{
    match o {
        Some(p) => p,
        None => Pt { x: Double::zero(), y: Double::zero() },
    }
}

impl Flight {
    pub open spec fn entry(self, b: usize, c: int) -> Pt {
        point_or_origin(self.stats[b as int][c].entry)
    }

    pub open spec fn exit(self, b: usize, c: int) -> Pt {
        point_or_origin(self.stats[b as int][c].exit)
    }

    pub open spec fn time(self, b: usize, c: int) -> Double {
        self.stats[b as int][c].time
    }

    /// The time of the ferry from the trailer to a block.
    pub open spec fn out(self, b: usize, c: int) -> Double {
        dist_by(self.hypot, self.trailer, self.entry(b, c)).over(self.p.ferry_fps)
    }

    /// The time of the ferry from a block to the trailer.
    pub open spec fn home(self, b: usize, c: int) -> Double {
        dist_by(self.hypot, self.exit(b, c), self.trailer).over(self.p.ferry_fps)
    }

    /// The time of the way from one block to the next.
    pub open spec fn hop(self, a: usize, c: int, b: usize, d: int) -> Double {
        dist_by(self.hypot, self.exit(a, c), self.entry(b, d)).over(self.p.speed_fps)
    }

    /// The least costs of a first block, by its configuration.
    pub open spec fn first_row(self, b: usize) -> Seq<Double> {
        Seq::new(4, |c: int| self.out(b, c).plus(self.time(b, c)))
    }

    /// The least of the costs of coming to block `b` from one of the first `n`
    /// configurations of block `a`.
    pub open spec fn cheapest(self, dp: Seq<Double>, a: usize, b: usize, d: int, n: int) -> Double
        decreases n,
    {
        if n <= 0 {
            Double::infinity()
        } else {
            self.cheapest(dp, a, b, d, n - 1).min(
                dp[n - 1].plus(self.hop(a, n - 1, b, d).plus(self.p.t_turn_s)),
            )
        }
    }

    /// The least costs up to block `b`, by its configuration, from those up to
    /// block `a` before it.
    pub open spec fn next_row(self, dp: Seq<Double>, a: usize, b: usize) -> Seq<Double> {
        Seq::new(4, |d: int| self.cheapest(dp, a, b, d, 4).plus(self.time(b, d)))
    }

    /// The least costs up to block number `m` of an order, by its configuration.
    pub open spec fn row(self, order: Seq<usize>, m: int) -> Seq<Double>
        decreases m,
    {
        if m <= 0 {
            self.first_row(order[0])
        } else {
            self.next_row(self.row(order, m - 1), order[m - 1], order[m])
        }
    }

    /// The least of the costs with the ferry home from one of the first `n`
    /// configurations of the last block.
    pub open spec fn ending(self, dp: Seq<Double>, last: usize, n: int) -> Double
        decreases n,
    {
        if n <= 0 {
            Double::infinity()
        } else {
            self.ending(dp, last, n - 1).min(dp[n - 1].plus(self.home(last, n - 1)))
        }
    }

    /// The cost of an order under the cheapest configurations.
    pub open spec fn order_cost(self, order: Seq<usize>) -> Double {
        self.ending(self.row(order, order.len() - 1), order.last(), 4)
    }

    /// An order is the best of all: the first, in lexicographic order, of the
    /// cheapest.
    pub open spec fn is_best_order(self, k: nat, w: Seq<usize>) -> bool {
        let given = indices(k);
        &&& rearranged(given, w)
        &&& forall|s: Seq<usize>| #[trigger]
            rearranged(given, s) ==> {
                &&& !self.order_cost(s).lt(self.order_cost(w))
                &&& lex_before(s, w) ==> !self.order_cost(s).le(self.order_cost(w))
            }
    }

    /// The best order.
    pub open spec fn best_order(self, k: nat) -> Seq<usize> {
        choose|w: Seq<usize>| self.is_best_order(k, w)
    }

    /// How near the entries of a block are.
    pub open spec fn nearness(self, pos: Pt, b: usize) -> Double {
        Double::infinity().min(dist_by(self.hypot, pos, self.entry(b, 0))).min(
            dist_by(self.hypot, pos, self.entry(b, 1)),
        ).min(dist_by(self.hypot, pos, self.entry(b, 2))).min(
            dist_by(self.hypot, pos, self.entry(b, 3)),
        )
    }

    /// The place of the nearest of the first `n` blocks, the first on a tie.
    pub open spec fn nearest(self, left: Seq<usize>, pos: Pt, n: int) -> int
        decreases n,
    {
        if n <= 1 {
            0
        } else {
            let k = self.nearest(left, pos, n - 1);
            if self.nearness(pos, left[n - 1]).rank() < self.nearness(pos, left[k]).rank() {
                n - 1
            } else {
                k
            }
        }
    }

    /// The order that goes to the nearest remaining block each time.
    pub open spec fn greedy(self, left: Seq<usize>, pos: Pt) -> Seq<usize>
        decreases left.len(),
    {
        if left.len() == 0 {
            seq![]
        } else {
            let k = self.nearest(left, pos, left.len() as int);
            if 0 <= k < left.len() {
                seq![left[k]] + self.greedy(left.remove(k), self.exit(left[k], 0))
            } else {
                seq![]
            }
        }
    }

    /// The order in which blocks are flown: the best of all for up to
    /// `max_exact` of them, else the greedy one.
    pub open spec fn order(self, k: nat, max_exact: nat) -> Seq<usize> {
        if k == 1 {
            indices(1)
        } else if k <= max_exact {
            self.best_order(k)
        } else {
            self.greedy(indices(k), self.trailer)
        }
    }

    /// The cheapest of the first `n` configurations of block `a` to come to
    /// block `b` from, the first on a tie, and the cost.
    pub open spec fn pick(self, dp: Seq<Double>, a: usize, b: usize, d: int, n: int) -> (Double, usize)
        decreases n,
    {
        if n <= 0 {
            (Double::infinity(), 0)
        } else {
            let best = self.pick(dp, a, b, d, n - 1);
            let v = dp[n - 1].plus(self.hop(a, n - 1, b, d)).plus(self.p.t_turn_s);
            if v.lt(best.0) { (v, (n - 1) as usize) } else { best }
        }
    }

    /// The costs up to block number `m` along the picked configurations.
    pub open spec fn picked_row(self, order: Seq<usize>, m: int) -> Seq<Double>
        decreases m,
    {
        if m <= 0 {
            self.first_row(order[0])
        } else {
            let dp = self.picked_row(order, m - 1);
            Seq::new(
                4,
                |d: int|
                    self.pick(dp, order[m - 1], order[m], d, 4).0.plus(self.time(order[m], d)),
            )
        }
    }

    /// The configuration of the block before number `m`, given that of number `m`.
    pub open spec fn came_from(self, order: Seq<usize>, m: int, d: int) -> usize {
        self.pick(self.picked_row(order, m - 1), order[m - 1], order[m], d, 4).1
    }

    /// The cheapest of the first `n` configurations of the last block to go home
    /// from, the first on a tie.
    pub open spec fn last_config(self, dp: Seq<Double>, last: usize, n: int) -> usize
        decreases n,
    {
        if n <= 1 {
            0
        } else {
            let c = self.last_config(dp, last, n - 1);
            if dp[n - 1].plus(self.home(last, n - 1)).rank() < dp[c as int].plus(
                self.home(last, c as int),
            ).rank() {
                (n - 1) as usize
            } else {
                c
            }
        }
    }

    /// The configuration of block number `l` of an order.
    pub open spec fn config_at(self, order: Seq<usize>, l: int) -> usize
        decreases order.len() - l,
    {
        if l >= order.len() - 1 {
            self.last_config(
                self.picked_row(order, order.len() - 1),
                order.last(),
                4,
            )
        } else {
            self.came_from(order, l + 1, self.config_at(order, l + 1) as int)
        }
    }

    /// The blocks of an order with their configurations.
    pub open spec fn configured(self, order: Seq<usize>) -> Seq<(usize, Config)> {
        Seq::new(order.len(), |l: int| (order[l], config(self.config_at(order, l))))
    }
}

/// What ordering plans depends on.
pub open spec fn flight_of(h: Hypot, plans: Seq<PlanView>, trailer: Pt, p: AircraftParams) -> Flight {
    Flight { hypot: h, stats: stat_table(plans, p), trailer, p }
}

/// The order of plans with their configurations.
pub open spec fn ordered(
    h: Hypot,
    plans: Seq<PlanView>,
    trailer: Pt,
    p: AircraftParams,
    max_exact: nat,
) -> Seq<(usize, Config)> {
    let f = flight_of(h, plans, trailer, p);
    f.configured(f.order(plans.len(), max_exact))
}

/// There is at most one best order.
pub proof fn law_best_order_unique(f: Flight, k: nat, v: Seq<usize>, w: Seq<usize>)
    requires
        f.is_best_order(k, v),
        f.is_best_order(k, w),
    ensures
        v == w,
{
    crate::perms::lemma_rearranged_len(indices(k), v);
    crate::perms::lemma_rearranged_len(indices(k), w);
    law_lex_total(v, w);
    let given = indices(k);
    assert(rearranged(given, v) && rearranged(given, w));
    lemma_ending_number(f, f.row(v, v.len() - 1), v.last(), 4);
    lemma_ending_number(f, f.row(w, w.len() - 1), w.last(), 4);
}

/// A table of the figures of plans.
fn stats_of(plans: &Vec<PlanResult>, p: &AircraftParams) -> (r: Vec<Vec<Stat>>)
    ensures
        stat_views(r@) == stat_table(plan_views(plans@), *p),
{
    let mut out: Vec<Vec<Stat>> = Vec::new();
    let ghost table = stat_table(plan_views(plans@), *p);
    for b in 0..plans.len()
        invariant
            table == stat_table(plan_views(plans@), *p),
            stat_views(out@) == table.take(b as int),
    {
        let mut row: Vec<Stat> = Vec::new();
        for c in 0..4usize
            invariant
                b < plans@.len(),
                table == stat_table(plan_views(plans@), *p),
                row@ == table[b as int].take(c as int),
        {
            row.push(block_stats(&plans[b], config(c), p));
            assert(row@ =~= table[b as int].take(c + 1));
        }
        assert(row@ =~= table[b as int]);
        let ghost before = out@;
        out.push(row);
        assert(stat_views(out@) =~= stat_views(before).push(row@));
        assert(stat_views(out@) =~= table.take(b + 1));
    }
    assert(stat_views(out@) =~= table);
    out
}

/// A table has four figures for each block of an order.
spec fn fits(stats: Seq<Vec<Stat>>, order: Seq<usize>) -> bool {
    &&& forall|b: int| 0 <= b < stats.len() ==> (#[trigger] stats[b])@.len() == 4
    &&& forall|i: int| 0 <= i < order.len() ==> #[trigger] order[i] < stats.len()
}

spec fn flight_by(h: Hypot, stats: Seq<Vec<Stat>>, trailer: Pt, p: AircraftParams) -> Flight {
    Flight { hypot: h, stats: stat_views(stats), trailer, p }
}

fn first_row<H: Fn(Double, Double) -> Double>(
    stats: &Vec<Vec<Stat>>,
    b: usize,
    trailer: Pt,
    p: &AircraftParams,
    hypot: &H,
) -> (r: Vec<Double>)
    requires
        hypot_total(*hypot),
        fits(stats@, seq![b]),
    ensures
        r@.len() == 4,
        forall|h: Hypot| #[trigger]
            hypot_is(*hypot, h) ==> r@ == flight_by(h, stats@, trailer, *p).first_row(b),
{
    let mut out: Vec<Double> = Vec::new();
    assert(seq![b][0] < stats@.len());
    for c in 0..4usize
        invariant
            hypot_total(*hypot),
            b < stats@.len(),
            stats@[b as int]@.len() == 4,
            out@.len() == c,
            forall|h: Hypot| #[trigger]
                hypot_is(*hypot, h) ==> out@ == flight_by(h, stats@, trailer, *p).first_row(
                    b,
                ).take(c as int),
    {
        let s = stats[b][c];
        let d = dist(trailer, or_origin(s.entry), hypot);
        out.push(d.over(p.ferry_fps).plus(s.time));
        assert forall|h: Hypot| #[trigger] hypot_is(*hypot, h) implies out@ == flight_by(
            h,
            stats@,
            trailer,
            *p,
        ).first_row(b).take(c + 1) by {
            assert(out@ =~= flight_by(h, stats@, trailer, *p).first_row(b).take(c + 1));
        }
    }
    assert forall|h: Hypot| #[trigger] hypot_is(*hypot, h) implies out@ == flight_by(
        h,
        stats@,
        trailer,
        *p,
    ).first_row(b) by {
        assert(out@ =~= flight_by(h, stats@, trailer, *p).first_row(b));
    }
    out
}

fn next_row<H: Fn(Double, Double) -> Double>(
    stats: &Vec<Vec<Stat>>,
    dp: &Vec<Double>,
    a: usize,
    b: usize,
    Ghost(trailer): Ghost<Pt>,
    p: &AircraftParams,
    hypot: &H,
) -> (r: Vec<Double>)
    requires
        hypot_total(*hypot),
        dp@.len() == 4,
        fits(stats@, seq![a, b]),
    ensures
        r@.len() == 4,
        forall|h: Hypot| #[trigger]
            hypot_is(*hypot, h) ==> r@ == flight_by(h, stats@, trailer, *p).next_row(dp@, a, b),
{
    let mut out: Vec<Double> = Vec::new();
    assert(seq![a, b][0] < stats@.len());
    assert(seq![a, b][1] < stats@.len());
    for d in 0..4usize
        invariant
            hypot_total(*hypot),
            dp@.len() == 4,
            a < stats@.len(),
            b < stats@.len(),
            stats@[a as int]@.len() == 4,
            stats@[b as int]@.len() == 4,
            out@.len() == d,
            forall|h: Hypot| #[trigger]
                hypot_is(*hypot, h) ==> out@ == flight_by(h, stats@, trailer, *p).next_row(
                    dp@,
                    a,
                    b,
                ).take(d as int),
    {
        let to = or_origin(stats[b][d].entry);
        let mut best = Double::infinity();
        for c in 0..4usize
            invariant
                hypot_total(*hypot),
                dp@.len() == 4,
                a < stats@.len(),
                b < stats@.len(),
                d < 4,
                stats@[a as int]@.len() == 4,
                to == point_or_origin(stats@[b as int]@[d as int].entry),
                forall|h: Hypot| #[trigger]
                    hypot_is(*hypot, h) ==> best == flight_by(h, stats@, trailer, *p).cheapest(
                        dp@,
                        a,
                        b,
                        d as int,
                        c as int,
                    ),
        {
            let way = dist(or_origin(stats[a][c].exit), to, hypot);
            best = best.min(dp[c].plus(way.over(p.speed_fps).plus(p.t_turn_s)));
        }
        out.push(best.plus(stats[b][d].time));
        assert forall|h: Hypot| #[trigger] hypot_is(*hypot, h) implies out@ == flight_by(
            h,
            stats@,
            trailer,
            *p,
        ).next_row(dp@, a, b).take(d + 1) by {
            assert(out@ =~= flight_by(h, stats@, trailer, *p).next_row(dp@, a, b).take(d + 1));
        }
    }
    assert forall|h: Hypot| #[trigger] hypot_is(*hypot, h) implies out@ == flight_by(
        h,
        stats@,
        trailer,
        *p,
    ).next_row(dp@, a, b) by {
        assert(out@ =~= flight_by(h, stats@, trailer, *p).next_row(dp@, a, b));
    }
    out
}

/// The cost of an order under the cheapest configurations.
fn order_cost<H: Fn(Double, Double) -> Double>(
    stats: &Vec<Vec<Stat>>,
    order: &Vec<usize>,
    trailer: Pt,
    p: &AircraftParams,
    hypot: &H,
) -> (r: Double)
    requires
        hypot_total(*hypot),
        order@.len() > 0,
        fits(stats@, order@),
    ensures
        forall|h: Hypot| #[trigger]
            hypot_is(*hypot, h) ==> r == flight_by(h, stats@, trailer, *p).order_cost(order@),
{
    assert(order@[0] < stats@.len());
    let mut dp = first_row(stats, order[0], trailer, p, hypot);
    for m in 1..order.len()
        invariant
            hypot_total(*hypot),
            fits(stats@, order@),
            dp@.len() == 4,
            order@.len() > 0,
            forall|h: Hypot| #[trigger]
                hypot_is(*hypot, h) ==> dp@ == flight_by(h, stats@, trailer, *p).row(
                    order@,
                    m - 1,
                ),
    {
        assert(order@[m - 1] < stats@.len() && order@[m as int] < stats@.len());
        dp = next_row(stats, &dp, order[m - 1], order[m], Ghost(trailer), p, hypot);
    }
    let last = order[order.len() - 1];
    assert(stats@[last as int]@.len() == 4);
    let mut best = Double::infinity();
    for c in 0..4usize
        invariant
            hypot_total(*hypot),
            dp@.len() == 4,
            last < stats@.len(),
            stats@[last as int]@.len() == 4,
            forall|h: Hypot| #[trigger]
                hypot_is(*hypot, h) ==> best == flight_by(h, stats@, trailer, *p).ending(
                    dp@,
                    last,
                    c as int,
                ),
    {
        let way = dist(or_origin(stats[last][c].exit), trailer, hypot);
        best = best.min(dp[c].plus(way.over(p.ferry_fps)));
    }
    best
}

/// The first, in lexicographic order, of the cheapest orders.
fn best_order<H: Fn(Double, Double) -> Double>(
    stats: &Vec<Vec<Stat>>,
    trailer: Pt,
    p: &AircraftParams,
    hypot: &H,
) -> (r: Vec<usize>)
    requires
        hypot_total(*hypot),
        stats@.len() > 0,
        fits(stats@, seq![]),
    ensures
        rearranged(indices(stats@.len()), r@),
        forall|h: Hypot| #[trigger]
            hypot_is(*hypot, h) ==> r@ == flight_by(h, stats@, trailer, *p).best_order(stats@.len()),
{
    let k = stats.len();
    let ghost given = indices(k as nat);
    let perms = permutations(k);
    let ghost all = index_views(perms@);
    proof {
        assert forall|i: int| 0 <= i < perms@.len() implies rearranged(
            given,
            (#[trigger] perms@[i])@,
        ) && fits(stats@, perms@[i]@) && perms@[i]@.len() == k by {
            assert(all[i] == perms@[i]@);
            assert(all.contains(perms@[i]@));
            crate::perms::lemma_rearranged_below(k as nat, perms@[i]@);
        }
    }
    let mut best: usize = 0;
    assert(rearranged(given, perms@[0]@));
    let mut best_cost = order_cost(stats, &perms[0], trailer, p, hypot);
    for n in 1..perms.len()
        invariant
            hypot_total(*hypot),
            k > 0,
            k == stats@.len(),
            given == indices(k as nat),
            perms@[0]@ == given,
            best < n <= perms@.len(),
            forall|i: int|
                0 <= i < perms@.len() ==> rearranged(given, (#[trigger] perms@[i])@) && fits(
                    stats@,
                    perms@[i]@,
                ) && perms@[i]@.len() == k,
            forall|h: Hypot| #[trigger]
                hypot_is(*hypot, h) ==> best_so_far(
                    flight_by(h, stats@, trailer, *p),
                    index_views(perms@),
                    best as int,
                    n as int,
                ) && best_cost == flight_by(h, stats@, trailer, *p).order_cost(
                    perms@[best as int]@,
                ),
    {
        assert(perms@[n as int]@.len() == k);
        let cost = order_cost(stats, &perms[n], trailer, p, hypot);
        if cost.lt(best_cost) {
            best = n;
            best_cost = cost;
        }
    }
    let out = copy_indices(&perms[best]);
    proof {
        assert(rearranged(given, perms@[best as int]@));
        assert forall|h: Hypot| #[trigger] hypot_is(*hypot, h) implies out@ == flight_by(
            h,
            stats@,
            trailer,
            *p,
        ).best_order(k as nat) by {
            let f = flight_by(h, stats@, trailer, *p);
            assert forall|s: Seq<usize>| #[trigger] rearranged(given, s) implies ({
                &&& !f.order_cost(s).lt(f.order_cost(out@))
                &&& lex_before(s, out@) ==> !f.order_cost(s).le(f.order_cost(out@))
            }) by {
                assert(all.contains(s));
                let i = choose|i: int| 0 <= i < all.len() && all[i] == s;
                assert(perms@[i]@ == s);
                if lex_before(s, out@) && i >= best {
                    crate::perms::lemma_rearranged_len(given, s);
                    law_lex_total(s, out@);
                    if i > best {
                        assert(lex_before(perms@[best as int]@, perms@[i]@));
                    }
                }
            }
            assert(f.is_best_order(k as nat, out@));
            law_best_order_unique(f, k as nat, out@, f.best_order(k as nat));
        }
    }
    out
}

/// Among the first `n` orders of a list, number `best` is the first of the
/// cheapest.
spec fn best_so_far(f: Flight, all: Seq<Seq<usize>>, best: int, n: int) -> bool {
    let w = f.order_cost(all[best]);
    &&& 0 <= best < n
    &&& (w.nan() || f.order_cost(all[0]).nan()) ==> best == 0
    &&& forall|i: int| 0 <= i < n ==> !f.order_cost(#[trigger] all[i]).lt(w)
    &&& forall|i: int| 0 <= i < best ==> !f.order_cost(#[trigger] all[i]).le(w)
}

fn nearness<H: Fn(Double, Double) -> Double>(
    stats: &Vec<Vec<Stat>>,
    pos: Pt,
    b: usize,
    Ghost(trailer): Ghost<Pt>,
    Ghost(p): Ghost<AircraftParams>,
    hypot: &H,
) -> (r: Double)
    requires
        hypot_total(*hypot),
        b < stats@.len(),
        fits(stats@, seq![]),
    ensures
        forall|h: Hypot| #[trigger]
            hypot_is(*hypot, h) ==> r == flight_by(h, stats@, trailer, p).nearness(pos, b),
{
    assert(stats@[b as int]@.len() == 4);
    let d0 = dist(pos, or_origin(stats[b][0].entry), hypot);
    let d1 = dist(pos, or_origin(stats[b][1].entry), hypot);
    let d2 = dist(pos, or_origin(stats[b][2].entry), hypot);
    let d3 = dist(pos, or_origin(stats[b][3].entry), hypot);
    Double::infinity().min(d0).min(d1).min(d2).min(d3)
}

/// The nearest block is one of those left.
proof fn lemma_nearest(f: Flight, left: Seq<usize>, pos: Pt, n: int)
    requires
        1 <= n,
    ensures
        0 <= f.nearest(left, pos, n) < n,
    decreases n,
{
    if n > 1 {
        lemma_nearest(f, left, pos, n - 1);
    }
}

/// The greedy order rearranges what is left.
pub proof fn law_greedy_rearranges(f: Flight, left: Seq<usize>, pos: Pt)
    ensures
        rearranged(left, f.greedy(left, pos)),
    decreases left.len(),
{
    if left.len() == 0 {
        assert(left =~= f.greedy(left, pos));
    } else {
        let n = left.len() as int;
        lemma_nearest(f, left, pos, n);
        let k = f.nearest(left, pos, n);
        let rest = left.remove(k);
        law_greedy_rearranges(f, rest, f.exit(left[k], 0));
        let tail = f.greedy(rest, f.exit(left[k], 0));
        broadcast use vstd::seq_lib::group_to_multiset_ensures;

        vstd::seq_lib::lemma_multiset_commutative(seq![left[k]], tail);
        assert(seq![left[k]] =~= Seq::<usize>::empty().push(left[k]));
        assert(seq![left[k]].to_multiset() =~= Seq::<usize>::empty().to_multiset().insert(left[k]));
        assert(rest.to_multiset() =~= left.to_multiset().remove(left[k]));
        assert(left.contains(left[k]));
        assert((seq![left[k]] + tail).to_multiset() =~= left.to_multiset());
    }
}

/// The order that goes to the nearest remaining block each time.
fn greedy_order<H: Fn(Double, Double) -> Double>(
    stats: &Vec<Vec<Stat>>,
    trailer: Pt,
    Ghost(p): Ghost<AircraftParams>,
    hypot: &H,
) -> (r: Vec<usize>)
    requires
        hypot_total(*hypot),
        fits(stats@, seq![]),
    ensures
        forall|i: int| 0 <= i < r@.len() ==> #[trigger] r@[i] < stats@.len(),
        r@.len() == stats@.len(),
        forall|h: Hypot| #[trigger]
            hypot_is(*hypot, h) ==> r@ == flight_by(h, stats@, trailer, p).greedy(
                indices(stats@.len()),
                trailer,
            ),
{
    let k = stats.len();
    let ghost given = indices(k as nat);
    let mut left: Vec<usize> = Vec::new();
    for i in 0..k
        invariant
            given == indices(k as nat),
            left@ == given.take(i as int),
    {
        left.push(i);
        assert(left@ =~= given.take(i + 1));
    }
    assert(left@ =~= given);
    let mut order: Vec<usize> = Vec::new();
    let mut pos = trailer;
    proof {
        assert forall|h: Hypot| #[trigger] hypot_is(*hypot, h) implies flight_by(
            h,
            stats@,
            trailer,
            p,
        ).greedy(given, trailer) == order@ + flight_by(h, stats@, trailer, p).greedy(left@, pos) by {
            assert(order@ + flight_by(h, stats@, trailer, p).greedy(left@, pos) =~= flight_by(
                h,
                stats@,
                trailer,
                p,
            ).greedy(given, trailer));
        }
    }
    while left.len() > 0
        invariant
            hypot_total(*hypot),
            fits(stats@, seq![]),
            k == stats@.len(),
            order@.len() + left@.len() == k,
            forall|i: int| 0 <= i < left@.len() ==> #[trigger] left@[i] < stats@.len(),
            forall|i: int| 0 <= i < order@.len() ==> #[trigger] order@[i] < stats@.len(),
            forall|h: Hypot| #[trigger]
                hypot_is(*hypot, h) ==> flight_by(h, stats@, trailer, p).greedy(given, trailer)
                    == order@ + flight_by(h, stats@, trailer, p).greedy(left@, pos),
        decreases left@.len(),
    {
        let mut at: usize = 0;
        let mut near = nearness(stats, pos, left[0], Ghost(trailer), Ghost(p), hypot);
        for n in 1..left.len()
            invariant
                hypot_total(*hypot),
                fits(stats@, seq![]),
                forall|i: int| 0 <= i < left@.len() ==> #[trigger] left@[i] < stats@.len(),
                at < n <= left@.len(),
                forall|h: Hypot| #[trigger]
                    hypot_is(*hypot, h) ==> at == flight_by(h, stats@, trailer, p).nearest(
                        left@,
                        pos,
                        n as int,
                    ) && near == flight_by(h, stats@, trailer, p).nearness(pos, left@[at as int]),
        {
            let d = nearness(stats, pos, left[n], Ghost(trailer), Ghost(p), hypot);
            if !near.sorts_before(d) {
                at = n;
                near = d;
            }
        }
        let ghost (order0, left0, pos0) = (order@, left@, pos);
        let next = left[at];
        assert(stats@[next as int]@.len() == 4);
        left.remove(at);
        order.push(next);
        pos = or_origin(stats[next][0].exit);
        proof {
            assert(left@ == left0.remove(at as int));
            assert forall|i: int| 0 <= i < left@.len() implies #[trigger] left@[i] < stats@.len() by {
                assert(left@[i] == left0[if i < at { i } else { i + 1 }]);
            }
            assert forall|h: Hypot| #[trigger] hypot_is(*hypot, h) implies flight_by(
                h,
                stats@,
                trailer,
                p,
            ).greedy(given, trailer) == order@ + flight_by(h, stats@, trailer, p).greedy(
                left@,
                pos,
            ) by {
                let f = flight_by(h, stats@, trailer, p);
                assert(pos == f.exit(next, 0));
                assert(f.greedy(left0, pos0) == seq![next] + f.greedy(left@, pos));
                assert(order0 + (seq![next] + f.greedy(left@, pos)) =~= order@ + f.greedy(
                    left@,
                    pos,
                ));
            }
        }
    }
    proof {
        assert forall|h: Hypot| #[trigger] hypot_is(*hypot, h) implies order@ == flight_by(
            h,
            stats@,
            trailer,
            p,
        ).greedy(given, trailer) by {
            assert(order@ =~= order@ + flight_by(h, stats@, trailer, p).greedy(left@, pos));
        }
    }
    order
}

/// The costs up to the next block of an order along the picked configurations,
/// and the configurations.
fn pick_row<H: Fn(Double, Double) -> Double>(
    stats: &Vec<Vec<Stat>>,
    dp: &Vec<Double>,
    a: usize,
    b: usize,
    Ghost(trailer): Ghost<Pt>,
    p: &AircraftParams,
    hypot: &H,
) -> (r: (Vec<Double>, Vec<usize>))
    requires
        hypot_total(*hypot),
        dp@.len() == 4,
        a < stats@.len(),
        b < stats@.len(),
        fits(stats@, seq![]),
    ensures
        r.0@.len() == 4,
        r.1@.len() == 4,
        forall|d: int| 0 <= d < 4 ==> #[trigger] r.1@[d] < 4,
        forall|h: Hypot, d: int|
            #![trigger hypot_is(*hypot, h), r.0@[d]]
            #![trigger hypot_is(*hypot, h), r.1@[d]]
            hypot_is(*hypot, h) && 0 <= d < 4 ==> {
                let f = flight_by(h, stats@, trailer, *p);
                &&& r.0@[d] == f.pick(dp@, a, b, d, 4).0.plus(f.time(b, d))
                &&& r.1@[d] == f.pick(dp@, a, b, d, 4).1
            },
{
    let mut row: Vec<Double> = Vec::new();
    let mut from: Vec<usize> = Vec::new();
    assert(stats@[a as int]@.len() == 4 && stats@[b as int]@.len() == 4);
    for d in 0..4usize
        invariant
            hypot_total(*hypot),
            dp@.len() == 4,
            a < stats@.len(),
            b < stats@.len(),
            stats@[a as int]@.len() == 4,
            stats@[b as int]@.len() == 4,
            row@.len() == d,
            from@.len() == d,
            forall|e: int| 0 <= e < d ==> #[trigger] from@[e] < 4,
            forall|h: Hypot, e: int|
                #![trigger hypot_is(*hypot, h), row@[e]]
                #![trigger hypot_is(*hypot, h), from@[e]]
                hypot_is(*hypot, h) && 0 <= e < d ==> {
                    let f = flight_by(h, stats@, trailer, *p);
                    &&& row@[e] == f.pick(dp@, a, b, e, 4).0.plus(f.time(b, e))
                    &&& from@[e] == f.pick(dp@, a, b, e, 4).1
                },
    {
        let to = or_origin(stats[b][d].entry);
        let mut best = Double::infinity();
        let mut at: usize = 0;
        for c in 0..4usize
            invariant
                hypot_total(*hypot),
                dp@.len() == 4,
                a < stats@.len(),
                b < stats@.len(),
                d < 4,
                at < 4,
                stats@[a as int]@.len() == 4,
                to == point_or_origin(stats@[b as int]@[d as int].entry),
                forall|h: Hypot| #[trigger]
                    hypot_is(*hypot, h) ==> (best, at) == flight_by(h, stats@, trailer, *p).pick(
                        dp@,
                        a,
                        b,
                        d as int,
                        c as int,
                    ),
        {
            let way = dist(or_origin(stats[a][c].exit), to, hypot);
            let v = dp[c].plus(way.over(p.speed_fps)).plus(p.t_turn_s);
            if v.lt(best) {
                best = v;
                at = c;
            }
        }
        let ghost (row0, from0) = (row@, from@);
        row.push(best.plus(stats[b][d].time));
        from.push(at);
        assert forall|h: Hypot, e: int|
            #![trigger hypot_is(*hypot, h), row@[e]]
            #![trigger hypot_is(*hypot, h), from@[e]]
            hypot_is(*hypot, h) && 0 <= e < d + 1 implies ({
            let f = flight_by(h, stats@, trailer, *p);
            &&& row@[e] == f.pick(dp@, a, b, e, 4).0.plus(f.time(b, e))
            &&& from@[e] == f.pick(dp@, a, b, e, 4).1
        }) by {
            if e < d {
                assert(row@[e] == row0[e] && from@[e] == from0[e]);
            }
        }
    }
    (row, from)
}

/// The configurations of the blocks of an order.
fn configure<H: Fn(Double, Double) -> Double>(
    stats: &Vec<Vec<Stat>>,
    order: &Vec<usize>,
    trailer: Pt,
    p: &AircraftParams,
    hypot: &H,
) -> (r: Vec<(usize, Config)>)
    requires
        hypot_total(*hypot),
        order@.len() > 0,
        fits(stats@, order@),
    ensures
        r@.len() == order@.len(),
        forall|i: int| 0 <= i < r@.len() ==> (#[trigger] r@[i]).0 == order@[i],
        forall|h: Hypot| #[trigger]
            hypot_is(*hypot, h) ==> r@ == flight_by(h, stats@, trailer, *p).configured(order@),
{
    let n = order.len();
    assert(order@[0] < stats@.len());
    let mut dp = first_row(stats, order[0], trailer, p, hypot);
    let mut back: Vec<Vec<usize>> = Vec::new();
    let mut m: usize = 1;
    while m < n
        invariant
            hypot_total(*hypot),
            n == order@.len(),
            1 <= m <= n,
            fits(stats@, order@),
            dp@.len() == 4,
            back@.len() == m - 1,
            forall|i: int| 0 <= i < back@.len() ==> (#[trigger] back@[i])@.len() == 4,
            forall|i: int, d: int|
                0 <= i < back@.len() && 0 <= d < 4 ==> #[trigger] back@[i]@[d] < 4,
            forall|h: Hypot| #[trigger]
                hypot_is(*hypot, h) ==> dp@ == flight_by(h, stats@, trailer, *p).picked_row(
                    order@,
                    m - 1,
                ),
            forall|h: Hypot, i: int, d: int|
                #![trigger hypot_is(*hypot, h), back@[i]@[d]]
                hypot_is(*hypot, h) && 0 <= i < back@.len() && 0 <= d < 4 ==> back@[i]@[d]
                    == flight_by(h, stats@, trailer, *p).came_from(order@, i + 1, d),
        decreases n - m,
    {
        assert(order@[m - 1] < stats@.len() && order@[m as int] < stats@.len());
        let (row, from) = pick_row(stats, &dp, order[m - 1], order[m], Ghost(trailer), p, hypot);
        let ghost (dp0, back0) = (dp@, back@);
        back.push(from);
        dp = row;
        proof {
            assert forall|i: int, d: int| 0 <= i < back@.len() && 0 <= d < 4 implies #[trigger] back@[i]@[d]
                < 4 by {
                if i < back0.len() {
                    assert(back@[i]@[d] == back0[i]@[d]);
                } else {
                    assert(back@[i]@[d] == from@[d]);
                }
            }
            assert forall|h: Hypot| #[trigger] hypot_is(*hypot, h) implies dp@ == flight_by(
                h,
                stats@,
                trailer,
                *p,
            ).picked_row(order@, m as int) by {
                assert(dp@ =~= flight_by(h, stats@, trailer, *p).picked_row(order@, m as int));
            }
            assert forall|h: Hypot, i: int, d: int|
                #![trigger hypot_is(*hypot, h), back@[i]@[d]]
                hypot_is(*hypot, h) && 0 <= i < back@.len() && 0 <= d < 4 implies back@[i]@[d]
                == flight_by(h, stats@, trailer, *p).came_from(order@, i + 1, d) by {
                if i < back0.len() {
                    assert(back@[i]@[d] == back0[i]@[d]);
                } else {
                    assert(back@[i]@[d] == from@[d]);
                }
            }
        }
        m = m + 1;
    }
    let last = order[n - 1];
    assert(stats@[last as int]@.len() == 4);
    let mut c: usize = 0;
    let mut cost = dp[0].plus(
        dist(or_origin(stats[last][0].exit), trailer, hypot).over(p.ferry_fps),
    );
    for e in 1..4usize
        invariant
            hypot_total(*hypot),
            dp@.len() == 4,
            last < stats@.len(),
            stats@[last as int]@.len() == 4,
            c < e <= 4,
            forall|h: Hypot| #[trigger]
                hypot_is(*hypot, h) ==> c == flight_by(h, stats@, trailer, *p).last_config(
                    dp@,
                    last,
                    e as int,
                ) && cost == dp@[c as int].plus(
                    flight_by(h, stats@, trailer, *p).home(last, c as int),
                ),
    {
        let v = dp[e].plus(dist(or_origin(stats[last][e].exit), trailer, hypot).over(p.ferry_fps));
        if !cost.sorts_before(v) {
            c = e;
            cost = v;
        }
    }
    let mut out: Vec<(usize, Config)> = Vec::new();
    for i in 0..n
        invariant
            n == order@.len(),
            out@.len() == i,
            forall|k: int| 0 <= k < i ==> (#[trigger] out@[k]).0 == order@[k],
    {
        out.push((order[i], config(0)));
    }
    let mut l: usize = n - 1;
    out.set(l, (order[l], config(c)));
    while l > 0
        invariant
            n == order@.len(),
            l < n,
            c < 4,
            back@.len() == n - 1,
            out@.len() == n,
            forall|k: int| 0 <= k < n ==> (#[trigger] out@[k]).0 == order@[k],
            forall|i: int| 0 <= i < back@.len() ==> (#[trigger] back@[i])@.len() == 4,
            forall|i: int, d: int|
                0 <= i < back@.len() && 0 <= d < 4 ==> #[trigger] back@[i]@[d] < 4,
            forall|h: Hypot, i: int, d: int|
                #![trigger hypot_is(*hypot, h), back@[i]@[d]]
                hypot_is(*hypot, h) && 0 <= i < back@.len() && 0 <= d < 4 ==> back@[i]@[d]
                    == flight_by(h, stats@, trailer, *p).came_from(order@, i + 1, d),
            forall|h: Hypot| #[trigger]
                hypot_is(*hypot, h) ==> c == flight_by(h, stats@, trailer, *p).config_at(
                    order@,
                    l as int,
                ),
            forall|h: Hypot, k: int|
                #![trigger hypot_is(*hypot, h), out@[k]]
                hypot_is(*hypot, h) && l <= k < n ==> out@[k] == flight_by(
                    h,
                    stats@,
                    trailer,
                    *p,
                ).configured(order@)[k],
        decreases l,
    {
        assert(back@[l - 1]@.len() == 4);
        assert(back@[l - 1]@[c as int] < 4);
        let ghost out0 = out@;
        c = back[l - 1][c];
        l = l - 1;
        out.set(l, (order[l], config(c)));
        assert forall|h: Hypot, k: int|
            #![trigger hypot_is(*hypot, h), out@[k]]
            hypot_is(*hypot, h) && l <= k < n implies out@[k] == flight_by(
            h,
            stats@,
            trailer,
            *p,
        ).configured(order@)[k] by {
            if k > l {
                assert(out@[k] == out0[k]);
            }
        }
    }
    assert forall|h: Hypot| #[trigger] hypot_is(*hypot, h) implies out@ == flight_by(
        h,
        stats@,
        trailer,
        *p,
    ).configured(order@) by {
        assert(out@ =~= flight_by(h, stats@, trailer, *p).configured(order@));
    }
    out
}

/// The order in which blocks are flown, each with its configuration: exact for
/// up to `max_exact` blocks, greedy for more.
pub fn order_blocks<H: Fn(Double, Double) -> Double>(
    plans: &Vec<PlanResult>,
    trailer: Pt,
    p: &AircraftParams,
    max_exact: usize,
    hypot: &H,
) -> (r: Vec<(usize, Config)>)
    requires
        hypot_total(*hypot),
        plans@.len() > 0,
    ensures
        r@.len() == plans@.len(),
        forall|i: int| 0 <= i < r@.len() ==> (#[trigger] r@[i]).0 < plans@.len(),
        forall|h: Hypot| #[trigger]
            hypot_is(*hypot, h) ==> r@ == ordered(
                h,
                plan_views(plans@),
                trailer,
                *p,
                max_exact as nat,
            ),
{
    let k = plans.len();
    let stats = stats_of(plans, p);
    proof {
        assert(stats@.len() == k) by {
            assert(stat_views(stats@).len() == stat_table(plan_views(plans@), *p).len());
        }
        assert forall|b: int| 0 <= b < stats@.len() implies (#[trigger] stats@[b])@.len() == 4 by {
            assert(stat_views(stats@)[b] == stat_table(plan_views(plans@), *p)[b]);
        }
    }
    let order: Vec<usize> = if k == 1 {
        let mut one: Vec<usize> = Vec::new();
        one.push(0);
        assert(one@ =~= indices(1));
        one
    } else if k <= max_exact {
        let best = best_order(&stats, trailer, p, hypot);
        proof {
            crate::perms::lemma_rearranged_below(k as nat, best@);
        }
        best
    } else {
        greedy_order(&stats, trailer, Ghost(*p), hypot)
    };
    let out = configure(&stats, &order, trailer, p, hypot);
    assert forall|i: int| 0 <= i < out@.len() implies (#[trigger] out@[i]).0 < plans@.len() by {
        assert(order@[i] < stats@.len());
    }
    out
}

/// There is a best order.
pub proof fn law_best_order_exists(f: Flight, k: nat)
    requires
        k <= usize::MAX,
    ensures
        f.is_best_order(k, f.best_order(k)),
{
    let w = lemma_descend(f, k, indices(k));
    assert(f.is_best_order(k, w));
}

/// From any order, a best order is reached by going to better ones.
proof fn lemma_descend(f: Flight, k: nat, w: Seq<usize>) -> (r: Seq<usize>)
    requires
        k <= usize::MAX,
        rearranged(indices(k), w),
    ensures
        f.is_best_order(k, r),
    decreases f.order_cost(w).key() + u64::MAX, crate::perms::reading(w, k),
{
    if f.is_best_order(k, w) {
        w
    } else {
        let s = choose|s: Seq<usize>| #[trigger]
            rearranged(indices(k), s) && (f.order_cost(s).lt(f.order_cost(w)) || (lex_before(s, w)
                && f.order_cost(s).le(f.order_cost(w))));
        if lex_before(s, w) {
            crate::perms::lemma_rearranged_below(k, s);
            crate::perms::lemma_reading_increases(s, w, k);
        }
        lemma_descend(f, k, s)
    }
}

// ---------------------------------------------------------------------------
// Exactness
// ---------------------------------------------------------------------------

impl Flight {
    /// The cost up to block number `m` of an order under given configurations.
    pub open spec fn cost_along(self, order: Seq<usize>, cfgs: Seq<int>, m: int) -> Double
        decreases m,
    {
        if m <= 0 {
            self.out(order[0], cfgs[0]).plus(self.time(order[0], cfgs[0]))
        } else {
            self.cost_along(order, cfgs, m - 1).plus(
                self.hop(order[m - 1], cfgs[m - 1], order[m], cfgs[m]).plus(self.p.t_turn_s),
            ).plus(self.time(order[m], cfgs[m]))
        }
    }

    /// The cost of an order under given configurations.
    pub open spec fn cost_under(self, order: Seq<usize>, cfgs: Seq<int>) -> Double {
        self.cost_along(order, cfgs, order.len() - 1).plus(self.home(order.last(), cfgs.last()))
    }
}

/// Numbers of configurations, one for each block of an order.
pub open spec fn are_configs(order: Seq<usize>, cfgs: Seq<int>) -> bool {
    &&& cfgs.len() == order.len()
    &&& forall|i: int| 0 <= i < cfgs.len() ==> 0 <= #[trigger] cfgs[i] < 4
}

proof fn lemma_cheapest(f: Flight, dp: Seq<Double>, a: usize, b: usize, d: int, n: int, c: int)
    requires
        0 <= c < n,
        !dp[c].plus(f.hop(a, c, b, d).plus(f.p.t_turn_s)).nan(),
    ensures
        f.cheapest(dp, a, b, d, n).le(dp[c].plus(f.hop(a, c, b, d).plus(f.p.t_turn_s))),
    decreases n,
{
    lemma_cheapest_number(f, dp, a, b, d, n - 1);
    if c < n - 1 {
        lemma_cheapest(f, dp, a, b, d, n - 1, c);
    }
}

proof fn lemma_cheapest_number(f: Flight, dp: Seq<Double>, a: usize, b: usize, d: int, n: int)
    ensures
        !f.cheapest(dp, a, b, d, n).nan(),
        f.cheapest(dp, a, b, d, n).le(Double::infinity()),
    decreases n,
{
    if n > 0 {
        lemma_cheapest_number(f, dp, a, b, d, n - 1);
    }
}

proof fn lemma_ending(f: Flight, dp: Seq<Double>, last: usize, n: int, c: int)
    requires
        0 <= c < n,
        !dp[c].plus(f.home(last, c)).nan(),
    ensures
        f.ending(dp, last, n).le(dp[c].plus(f.home(last, c))),
    decreases n,
{
    lemma_ending_number(f, dp, last, n - 1);
    if c < n - 1 {
        lemma_ending(f, dp, last, n - 1, c);
    }
}

proof fn lemma_ending_number(f: Flight, dp: Seq<Double>, last: usize, n: int)
    ensures
        !f.ending(dp, last, n).nan(),
        f.ending(dp, last, n).le(Double::infinity()),
    decreases n,
{
    if n > 0 {
        lemma_ending_number(f, dp, last, n - 1);
    }
}

/// Sums with what is not a number, and with infinity.
proof fn lemma_sum_kinds(a: Double, b: Double)
    ensures
        a.nan() || b.nan() ==> a.plus(b).nan(),
        a == Double::infinity() && !a.plus(b).nan() ==> a.plus(b) == Double::infinity(),
        b == Double::infinity() && !a.plus(b).nan() ==> a.plus(b) == Double::infinity(),
        !a.nan() && !b.nan() && a != Double::infinity() && b != Double::infinity() ==> !a.plus(
            b,
        ).nan(),
{
    reveal(Double::spec_plus);
    crate::arithmetic::lemma_pack_number(true, (-(a.units() + b.units())) as nat);
    crate::arithmetic::lemma_pack_number(false, (a.units() + b.units()) as nat);
}

/// Adding to something not greater, where the sum is below infinity.
proof fn lemma_sum_below(a: Double, b: Double, c: Double)
    requires
        a.le(b),
        !b.plus(c).nan(),
        b.plus(c) != Double::infinity(),
    ensures
        a.plus(c).le(b.plus(c)),
{
    lemma_sum_kinds(b, c);
    lemma_sum_kinds(a, c);
    crate::arithmetic::law_sums_keep_order(a, b, c);
}

proof fn lemma_row_least(f: Flight, order: Seq<usize>, cfgs: Seq<int>, m: int)
    requires
        are_configs(order, cfgs),
        0 <= m < order.len(),
        !f.cost_along(order, cfgs, m).nan(),
    ensures
        f.cost_along(order, cfgs, m) == Double::infinity() || f.row(order, m)[cfgs[m]].le(
            f.cost_along(order, cfgs, m),
        ),
    decreases m,
{
    assert(0 <= cfgs[m] < 4);
    if m > 0 {
        assert(0 <= cfgs[m - 1] < 4);
        let (a, b) = (order[m - 1], order[m]);
        let (c, d) = (cfgs[m - 1], cfgs[m]);
        let before = f.cost_along(order, cfgs, m - 1);
        let way = f.hop(a, c, b, d).plus(f.p.t_turn_s);
        let dp = f.row(order, m - 1);
        lemma_sum_kinds(before.plus(way), f.time(b, d));
        lemma_sum_kinds(before, way);
        lemma_row_least(f, order, cfgs, m - 1);
        if f.cost_along(order, cfgs, m) != Double::infinity() {
            lemma_sum_below(dp[c], before, way);
            lemma_cheapest(f, dp, a, b, d, 4, c);
            lemma_sum_below(f.cheapest(dp, a, b, d, 4), before.plus(way), f.time(b, d));
        }
    }
}

/// The cost of an order is the least over all configurations of its blocks.
pub proof fn law_order_cost_least(f: Flight, order: Seq<usize>, cfgs: Seq<int>)
    requires
        order.len() > 0,
        are_configs(order, cfgs),
    ensures
        !f.cost_under(order, cfgs).lt(f.order_cost(order)),
{
    let m = order.len() - 1;
    let (last, c) = (order.last(), cfgs.last());
    assert(0 <= cfgs[m] < 4);
    let along = f.cost_along(order, cfgs, m);
    let dp = f.row(order, m);
    lemma_ending_number(f, dp, last, 4);
    lemma_sum_kinds(along, f.home(last, c));
    if !f.cost_under(order, cfgs).nan() && f.cost_under(order, cfgs) != Double::infinity() {
        lemma_row_least(f, order, cfgs, m);
        lemma_sum_below(dp[c], along, f.home(last, c));
        lemma_ending(f, dp, last, 4, c);
    }
}

proof fn lemma_cheapest_from(f: Flight, dp: Seq<Double>, a: usize, b: usize, d: int, n: int) -> (c:
    int)
    requires
        0 <= n <= 4,
    ensures
        0 <= c < 4,
        f.cheapest(dp, a, b, d, n) == Double::infinity() || f.cheapest(dp, a, b, d, n)
            == dp[c].plus(f.hop(a, c, b, d).plus(f.p.t_turn_s)),
    decreases n,
{
    if n <= 0 {
        0
    } else {
        let c = lemma_cheapest_from(f, dp, a, b, d, n - 1);
        if f.cheapest(dp, a, b, d, n) == f.cheapest(dp, a, b, d, n - 1) {
            c
        } else {
            n - 1
        }
    }
}

proof fn lemma_ending_from(f: Flight, dp: Seq<Double>, last: usize, n: int) -> (c: int)
    requires
        0 <= n <= 4,
    ensures
        0 <= c < 4,
        f.ending(dp, last, n) == Double::infinity() || f.ending(dp, last, n) == dp[c].plus(
            f.home(last, c),
        ),
    decreases n,
{
    if n <= 0 {
        0
    } else {
        let c = lemma_ending_from(f, dp, last, n - 1);
        if f.ending(dp, last, n) == f.ending(dp, last, n - 1) {
            c
        } else {
            n - 1
        }
    }
}

proof fn lemma_along_prefix(f: Flight, order: Seq<usize>, u: Seq<int>, v: Seq<int>, m: int)
    requires
        0 <= m,
        forall|i: int| 0 <= i <= m ==> #[trigger] u[i] == v[i],
    ensures
        f.cost_along(order, u, m) == f.cost_along(order, v, m),
    decreases m,
{
    assert(u[m] == v[m]);
    if m > 0 {
        assert(u[m - 1] == v[m - 1]);
        lemma_along_prefix(f, order, u, v, m - 1);
    } else {
        assert(u[0] == v[0]);
    }
}

proof fn lemma_row_attained(f: Flight, order: Seq<usize>, m: int, c: int) -> (cfgs: Seq<int>)
    requires
        0 <= m < order.len(),
        0 <= c < 4,
    ensures
        are_configs(order, cfgs),
        cfgs[m] == c,
        f.row(order, m)[c] == Double::infinity() || f.row(order, m)[c].nan() || f.row(order, m)[c]
            == f.cost_along(order, cfgs, m),
    decreases m,
{
    if m == 0 {
        Seq::new(order.len(), |i: int| c)
    } else {
        let (a, b) = (order[m - 1], order[m]);
        let dp = f.row(order, m - 1);
        let from = lemma_cheapest_from(f, dp, a, b, c, 4);
        let before = lemma_row_attained(f, order, m - 1, from);
        let cfgs = before.update(m, c);
        lemma_along_prefix(f, order, before, cfgs, m - 1);
        let way = f.hop(a, from, b, c).plus(f.p.t_turn_s);
        lemma_cheapest_number(f, dp, a, b, c, 4);
        lemma_sum_kinds(dp[from], way);
        lemma_sum_kinds(f.cheapest(dp, a, b, c, 4), f.time(b, c));
        cfgs
    }
}

/// The cost of an order, unless it is infinite, is that under some configurations
/// of its blocks.
pub proof fn law_order_cost_attained(f: Flight, order: Seq<usize>) -> (cfgs: Seq<int>)
    requires
        order.len() > 0,
    ensures
        are_configs(order, cfgs),
        f.order_cost(order) == Double::infinity() || f.order_cost(order) == f.cost_under(
            order,
            cfgs,
        ),
{
    let m = order.len() - 1;
    let dp = f.row(order, m);
    let c = lemma_ending_from(f, dp, order.last(), 4);
    let cfgs = lemma_row_attained(f, order, m, c);
    lemma_ending_number(f, dp, order.last(), 4);
    lemma_sum_kinds(dp[c], f.home(order.last(), c));
    cfgs
}

/// No order of the blocks, however these are configured, costs less than the
/// best order.
pub proof fn law_best_order_exact(f: Flight, k: nat, order: Seq<usize>, cfgs: Seq<int>)
    requires
        0 < k <= usize::MAX,
        rearranged(indices(k), order),
        are_configs(order, cfgs),
    ensures
        !f.cost_under(order, cfgs).lt(f.order_cost(f.best_order(k))),
{
    let w = f.best_order(k);
    law_best_order_exists(f, k);
    crate::perms::lemma_rearranged_len(indices(k), order);
    law_order_cost_least(f, order, cfgs);
    lemma_ending_number(f, f.row(order, order.len() - 1), order.last(), 4);
    assert(!f.order_cost(order).lt(f.order_cost(w)));
}

impl Flight {
    /// The cost up to block number `m` of an order under given configurations, summed
    /// step by step.
    pub open spec fn picked_along(self, order: Seq<usize>, cfgs: Seq<int>, m: int) -> Double
        decreases m,
    {
        if m <= 0 {
            self.out(order[0], cfgs[0]).plus(self.time(order[0], cfgs[0]))
        } else {
            self.picked_along(order, cfgs, m - 1).plus(
                self.hop(order[m - 1], cfgs[m - 1], order[m], cfgs[m]),
            ).plus(self.p.t_turn_s).plus(self.time(order[m], cfgs[m]))
        }
    }

    /// The cost of an order under given configurations, summed step by step.
    pub open spec fn picked_under(self, order: Seq<usize>, cfgs: Seq<int>) -> Double {
        self.picked_along(order, cfgs, order.len() - 1).plus(self.home(order.last(), cfgs.last()))
    }

    /// The numbers of the configurations of the blocks of an order.
    pub open spec fn picked_configs(self, order: Seq<usize>) -> Seq<int> {
        Seq::new(order.len(), |l: int| self.config_at(order, l) as int)
    }
}

proof fn lemma_pick_number(f: Flight, dp: Seq<Double>, a: usize, b: usize, d: int, n: int)
    ensures
        !f.pick(dp, a, b, d, n).0.nan(),
        f.pick(dp, a, b, d, n).0.le(Double::infinity()),
    decreases n,
{
    if n > 0 {
        lemma_pick_number(f, dp, a, b, d, n - 1);
    }
}

proof fn lemma_pick_least(f: Flight, dp: Seq<Double>, a: usize, b: usize, d: int, n: int, c: int)
    requires
        0 <= c < n,
        !dp[c].plus(f.hop(a, c, b, d)).plus(f.p.t_turn_s).nan(),
    ensures
        f.pick(dp, a, b, d, n).0.le(dp[c].plus(f.hop(a, c, b, d)).plus(f.p.t_turn_s)),
    decreases n,
{
    lemma_pick_number(f, dp, a, b, d, n - 1);
    if c < n - 1 {
        lemma_pick_least(f, dp, a, b, d, n - 1, c);
    }
}

proof fn lemma_pick_from(f: Flight, dp: Seq<Double>, a: usize, b: usize, d: int, n: int)
    requires
        0 <= n <= 4,
    ensures
        ({
            let (v, c) = f.pick(dp, a, b, d, n);
            &&& c < 4
            &&& v == Double::infinity() || v == dp[c as int].plus(f.hop(a, c as int, b, d)).plus(
                f.p.t_turn_s,
            )
        }),
    decreases n,
{
    if n > 0 {
        lemma_pick_from(f, dp, a, b, d, n - 1);
    }
}

proof fn lemma_picked_least(f: Flight, order: Seq<usize>, cfgs: Seq<int>, m: int)
    requires
        are_configs(order, cfgs),
        0 <= m < order.len(),
        !f.picked_along(order, cfgs, m).nan(),
    ensures
        f.picked_along(order, cfgs, m) == Double::infinity() || f.picked_row(order, m)[cfgs[m]].le(
            f.picked_along(order, cfgs, m),
        ),
    decreases m,
{
    assert(0 <= cfgs[m] < 4);
    if m > 0 {
        assert(0 <= cfgs[m - 1] < 4);
        let (a, b) = (order[m - 1], order[m]);
        let (c, d) = (cfgs[m - 1], cfgs[m]);
        let along = f.picked_along(order, cfgs, m - 1);
        let hop = f.hop(a, c, b, d);
        let turn = f.p.t_turn_s;
        let dp = f.picked_row(order, m - 1);
        lemma_sum_kinds(along.plus(hop).plus(turn), f.time(b, d));
        lemma_sum_kinds(along.plus(hop), turn);
        lemma_sum_kinds(along, hop);
        lemma_picked_least(f, order, cfgs, m - 1);
        if f.picked_along(order, cfgs, m) != Double::infinity() {
            lemma_sum_below(dp[c], along, hop);
            lemma_sum_below(dp[c].plus(hop), along.plus(hop), turn);
            lemma_pick_least(f, dp, a, b, d, 4, c);
            lemma_sum_below(
                f.pick(dp, a, b, d, 4).0,
                along.plus(hop).plus(turn),
                f.time(b, d),
            );
        }
    }
}

proof fn lemma_last_config(f: Flight, dp: Seq<Double>, last: usize, n: int, c: int)
    requires
        0 <= c < n,
        n <= 4,
    ensures
        ({
            let d = f.last_config(dp, last, n);
            &&& d < n
            &&& dp[d as int].plus(f.home(last, d as int)).rank() <= dp[c].plus(
                f.home(last, c),
            ).rank()
        }),
    decreases n,
{
    if n > 1 {
        lemma_last_config(f, dp, last, n - 1, if c < n - 1 {
            c
        } else {
            0
        });
    }
}

proof fn lemma_config_at(f: Flight, order: Seq<usize>, l: int)
    requires
        order.len() > 0,
    ensures
        f.config_at(order, l) < 4,
    decreases order.len() - l,
{
    if l >= order.len() - 1 {
        lemma_last_config(f, f.picked_row(order, order.len() - 1), order.last(), 4, 0);
    } else {
        let d = f.config_at(order, l + 1) as int;
        lemma_pick_from(f, f.picked_row(order, l), order[l], order[l + 1], d, 4);
    }
}

proof fn lemma_picked_attained(f: Flight, order: Seq<usize>, m: int)
    requires
        0 <= m < order.len(),
    ensures
        ({
            let cfgs = f.picked_configs(order);
            let v = f.picked_row(order, m)[cfgs[m]];
            v == Double::infinity() || v.nan() || v == f.picked_along(order, cfgs, m)
        }),
    decreases m,
{
    let cfgs = f.picked_configs(order);
    lemma_config_at(f, order, m);
    if m > 0 {
        let (a, b) = (order[m - 1], order[m]);
        let (c, d) = (cfgs[m - 1], cfgs[m]);
        let dp = f.picked_row(order, m - 1);
        lemma_config_at(f, order, m - 1);
        lemma_picked_attained(f, order, m - 1);
        lemma_pick_from(f, dp, a, b, d, 4);
        lemma_pick_number(f, dp, a, b, d, 4);
        assert(c == f.pick(dp, a, b, d, 4).1);
        lemma_sum_kinds(f.pick(dp, a, b, d, 4).0, f.time(b, d));
        lemma_sum_kinds(dp[c].plus(f.hop(a, c, b, d)), f.p.t_turn_s);
        lemma_sum_kinds(dp[c], f.hop(a, c, b, d));
    }
}

/// The configurations that blocks are flown with cost no more than any others along
/// the same order.
pub proof fn law_configs_cheapest(f: Flight, order: Seq<usize>, cfgs: Seq<int>)
    requires
        order.len() > 0,
        are_configs(order, cfgs),
    ensures
        are_configs(order, f.picked_configs(order)),
        f.configured(order) == Seq::new(
            order.len(),
            |l: int| (order[l], config(f.picked_configs(order)[l] as usize)),
        ),
        !f.picked_under(order, cfgs).lt(f.picked_under(order, f.picked_configs(order))),
        f.picked_under(order, cfgs).lt(Double::infinity()) ==> f.picked_under(
            order,
            f.picked_configs(order),
        ).le(f.picked_under(order, cfgs)),
{
    let m = order.len() - 1;
    let chosen = f.picked_configs(order);
    assert forall|i: int| 0 <= i < chosen.len() implies 0 <= #[trigger] chosen[i] < 4 by {
        lemma_config_at(f, order, i);
    }
    assert(f.configured(order) =~= Seq::new(
        order.len(),
        |l: int| (order[l], config(f.picked_configs(order)[l] as usize)),
    ));
    let (last, c) = (order.last(), cfgs.last());
    assert(0 <= cfgs[m] < 4);
    let dp = f.picked_row(order, m);
    let along = f.picked_along(order, cfgs, m);
    lemma_sum_kinds(along, f.home(last, c));
    if f.picked_under(order, cfgs).lt(Double::infinity()) {
        lemma_picked_least(f, order, cfgs, m);
        lemma_sum_below(dp[c], along, f.home(last, c));
        lemma_last_config(f, dp, last, 4, c);
        lemma_picked_attained(f, order, m);
        let d = chosen[m];
        assert(d == f.last_config(dp, last, 4));
        lemma_sum_kinds(dp[d], f.home(last, d));
    }
}

/// Every block is flown once: the order rearranges the blocks.
pub proof fn law_order_rearranges(
    h: Hypot,
    plans: Seq<PlanView>,
    trailer: Pt,
    p: AircraftParams,
    max_exact: nat,
)
    requires
        0 < plans.len() <= usize::MAX,
    ensures
        ordered(h, plans, trailer, p, max_exact).len() == plans.len(),
        rearranged(
            indices(plans.len()),
            ordered(h, plans, trailer, p, max_exact).map_values(|b: (usize, Config)| b.0),
        ),
{
    let f = flight_of(h, plans, trailer, p);
    let order = f.order(plans.len(), max_exact);
    law_best_order_exists(f, plans.len());
    law_greedy_rearranges(f, indices(plans.len()), trailer);
    crate::perms::lemma_rearranged_len(indices(plans.len()), order);
    assert(ordered(h, plans, trailer, p, max_exact).map_values(|b: (usize, Config)| b.0) =~= order);
}

} // verus!
