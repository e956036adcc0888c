//! Laws of the order of blocks: how near it is to the cheapest.
use vstd::arithmetic::power2::*;
use vstd::prelude::*;

use crate::arithmetic::gap;
use crate::double::{Double, TWO53};
use crate::geom::Pt;
use crate::order::law_keys_order_numbers;
use crate::ordering::{
    are_configs, flight_of, law_best_order_exact, law_best_order_exists, law_configs_cheapest,
    law_order_cost_attained, law_order_cost_least, ordered, Flight,
};
use crate::params::AircraftParams;
use crate::perms::{lemma_rearranged_below, lemma_rearranged_len, rearranged};
use crate::plan::PlanView;
use crate::sorting::indices;
use crate::spraying::many;
use crate::tools::Hypot;
use crate::turning::lemma_sum_error;

verus! {

/// A finite number from zero to `b` units of 2^-1074.
pub open spec fn up_to(x: Double, b: int) -> bool {
    x.finite() && 0 <= x.units() <= b
}

/// All times that orders of `k` blocks are made up of are finite, from zero to `b` units
/// of 2^-1074 s.
pub open spec fn times_up_to(f: Flight, k: nat, b: int) -> bool {
    &&& up_to(f.p.t_turn_s, b)
    &&& forall|i: usize, c: int|
        i < k && 0 <= c < 4 ==> up_to(#[trigger] f.out(i, c), b) && up_to(f.time(i, c), b) && up_to(
            f.home(i, c),
            b,
        )
    &&& forall|i: usize, c: int, j: usize, d: int|
        i < k && 0 <= c < 4 && j < k && 0 <= d < 4 ==> up_to(#[trigger] f.hop(i, c, j, d), b)
}

/// A sum of times is near to the exact sum, and not below zero.
proof fn lemma_times_sum(a: Double, x: Double, l: int, m: int)
    requires
        a.finite(),
        x.finite(),
        0 <= a.units(),
        0 <= x.units(),
        a.units() + x.units() <= l,
        l <= m <= pow2(2088),
    ensures
        a.plus(x).finite(),
        gap(a.plus(x).units(), a.units() + x.units()) * TWO53 <= m,
        a.plus(x).units() >= 0,
{
    lemma_sum_error(a, x, a.units() + x.units(), m);
}

/// One more block, summed up in the two ways.
proof fn lemma_step_near(
    x: Double,
    y: Double,
    hop: Double,
    turn: Double,
    time: Double,
    l: int,
    b: int,
    big: int,
)
    requires
        up_to(x, l),
        up_to(y, l),
        up_to(hop, b),
        up_to(turn, b),
        up_to(time, b),
        l + 4 * b <= big <= pow2(2088),
        0 <= l,
        8 * big <= b * TWO53,
    ensures
        ({
            let (x1, y1) = (x.plus(hop.plus(turn)).plus(time), y.plus(hop).plus(turn).plus(time));
            &&& up_to(x1, l + 4 * b)
            &&& up_to(y1, l + 4 * b)
            &&& gap(x1.units(), y1.units()) * TWO53 <= gap(x.units(), y.units()) * TWO53 + 6 * big
        }),
{
    lemma_times_sum(hop, turn, 2 * b, big);
    let way = hop.plus(turn);
    lemma_times_sum(x, way, big, big);
    lemma_times_sum(x.plus(way), time, big, big);
    lemma_times_sum(y, hop, big, big);
    lemma_times_sum(y.plus(hop), turn, big, big);
    lemma_times_sum(y.plus(hop).plus(turn), time, big, big);
}

proof fn lemma_times(f: Flight, k: nat, i: usize, c: int, j: usize, d: int, b: int)
    requires
        times_up_to(f, k, b),
        i < k,
        j < k,
        0 <= c < 4,
        0 <= d < 4,
    ensures
        up_to(f.out(i, c), b),
        up_to(f.time(i, c), b),
        up_to(f.home(i, c), b),
        up_to(f.hop(i, c, j, d), b),
        up_to(f.p.t_turn_s, b),
{
}

/// The two ways to sum up the times along an order are near to each other.
proof fn lemma_along_near(
    f: Flight,
    k: nat,
    order: Seq<usize>,
    cfgs: Seq<int>,
    m: int,
    b: int,
    big: int,
)
    requires
        times_up_to(f, k, b),
        are_configs(order, cfgs),
        forall|i: int| 0 <= i < order.len() ==> #[trigger] order[i] < k,
        0 <= m < order.len(),
        0 <= b,
        8 * (order.len() * b) <= big <= pow2(2088),
        8 * big <= b * TWO53,
    ensures
        ({
            let (x, y) = (f.cost_along(order, cfgs, m), f.picked_along(order, cfgs, m));
            &&& up_to(x, 4 * (m * b) + 3 * b)
            &&& up_to(y, 4 * (m * b) + 3 * b)
            &&& gap(x.units(), y.units()) * TWO53 <= 6 * (m * big)
        }),
    decreases m,
{
    let n = order.len() as int;
    assert(m * b <= n * b - b && m * b >= 0) by (nonlinear_arith)
        requires
            0 <= m <= n - 1,
            b >= 0,
    ;
    assert(order[m] < k && 0 <= cfgs[m] < 4);
    lemma_times(f, k, order[m], cfgs[m], order[m], cfgs[m], b);
    let time = f.time(order[m], cfgs[m]);
    if m == 0 {
        lemma_times_sum(f.out(order[0], cfgs[0]), time, 2 * b, big);
        assert(0 * b == 0 && 0 * big == 0);
    } else {
        lemma_along_near(f, k, order, cfgs, m - 1, b, big);
        assert(order[m - 1] < k && 0 <= cfgs[m - 1] < 4);
        lemma_times(f, k, order[m - 1], cfgs[m - 1], order[m], cfgs[m], b);
        assert((m - 1) * b == m * b - b) by (nonlinear_arith);
        assert((m - 1) * big == m * big - big) by (nonlinear_arith);
        assert((m - 1) * b >= 0) by (nonlinear_arith)
            requires
                m >= 1,
                b >= 0,
        ;
        lemma_step_near(
            f.cost_along(order, cfgs, m - 1),
            f.picked_along(order, cfgs, m - 1),
            f.hop(order[m - 1], cfgs[m - 1], order[m], cfgs[m]),
            f.p.t_turn_s,
            time,
            4 * ((m - 1) * b) + 3 * b,
            b,
            big,
        );
    }
}

/// The two ways to sum up the times of an order are near to each other.
proof fn lemma_under_near(
    f: Flight,
    k: nat,
    order: Seq<usize>,
    cfgs: Seq<int>,
    b: int,
    big: int,
)
    requires
        times_up_to(f, k, b),
        are_configs(order, cfgs),
        forall|i: int| 0 <= i < order.len() ==> #[trigger] order[i] < k,
        0 < order.len(),
        0 <= b,
        8 * (order.len() * b) <= big <= pow2(2088),
        8 * big <= b * TWO53,
    ensures
        ({
            let (x, y) = (f.cost_under(order, cfgs), f.picked_under(order, cfgs));
            &&& x.finite() && y.finite()
            &&& gap(x.units(), y.units()) * TWO53 <= 6 * (order.len() * big)
        }),
{
    let n = order.len() as int;
    let m = n - 1;
    lemma_along_near(f, k, order, cfgs, m, b, big);
    assert((n - 1) * b == n * b - b && (n - 1) * big == n * big - big) by (nonlinear_arith);
    assert(order[m] < k && 0 <= cfgs[m] < 4);
    let home = f.home(order.last(), cfgs.last());
    lemma_times(f, k, order[m], cfgs[m], order[m], cfgs[m], b);
    assert(n * b >= b) by (nonlinear_arith)
        requires
            n >= 1,
            b >= 0,
    ;
    lemma_times_sum(f.cost_along(order, cfgs, m), home, big, big);
    lemma_times_sum(f.picked_along(order, cfgs, m), home, big, big);
}

/// The best order with the configurations that its blocks are flown with costs no more than
/// any order with any configurations, but for rounding: a 2^47th of the greatest time for
/// each pair of blocks.
pub proof fn law_choice_exact(f: Flight, k: nat, order: Seq<usize>, cfgs: Seq<int>, b: int)
    requires
        0 < k <= many(),
        k <= usize::MAX,
        rearranged(indices(k), order),
        are_configs(order, cfgs),
        times_up_to(f, k, b),
        0 <= b <= pow2(2000),
    ensures
        ({
            let best = f.best_order(k);
            let x = f.picked_under(best, f.picked_configs(best));
            let y = f.cost_under(order, cfgs);
            &&& x.finite() && y.finite()
            &&& (x.units() - y.units()) * 0x800000000000 <= k * (k * b)
        }),
{
    let best = f.best_order(k);
    law_best_order_exists(f, k);
    lemma_rearranged_len(indices(k), best);
    lemma_rearranged_len(indices(k), order);
    lemma_rearranged_below(k, best);
    lemma_rearranged_below(k, order);
    let big = 8 * (k * b);
    assert(k * b <= many() * b) by (nonlinear_arith)
        requires
            k <= many(),
            b >= 0,
    ;
    lemma_pow2_adds(88, 2000);
    lemma_pow2_strictly_increases(43, 88);
    lemma2_to64_rest();
    assert(0x80000000000 * b <= pow2(2088)) by (nonlinear_arith)
        requires
            0 <= b <= pow2(2000),
            pow2(88) >= 0x80000000000,
            pow2(2088) == pow2(88) * pow2(2000),
    ;
    let some = law_order_cost_attained(f, best);
    lemma_under_near(f, k, best, some, b, big);
    lemma_under_near(f, k, order, cfgs, b, big);
    law_order_cost_least(f, best, some);
    law_best_order_exact(f, k, order, cfgs);
    law_configs_cheapest(f, best, some);
    let chosen = f.picked_configs(best);
    lemma_under_near(f, k, best, chosen, b, big);
    let (x, y) = (f.picked_under(best, chosen), f.cost_under(order, cfgs));
    let (v, w) = (f.picked_under(best, some), f.cost_under(best, some));
    assert(w == f.order_cost(best));
    law_keys_order_numbers(x, v);
    law_keys_order_numbers(w, y);
    assert(x.units() <= v.units());
    assert(w.units() <= y.units());
    assert(k * (8 * (k * b)) == 8 * (k * (k * b))) by (nonlinear_arith);
}

/// Of up to `max_exact` blocks, the order and the configurations that are flown cost no more
/// than any others, but for rounding.
pub proof fn law_ordered_exact(
    h: Hypot,
    plans: Seq<PlanView>,
    trailer: Pt,
    p: AircraftParams,
    max_exact: nat,
    order: Seq<usize>,
    cfgs: Seq<int>,
    b: int,
)
    requires
        0 < plans.len() <= many(),
        plans.len() <= usize::MAX,
        plans.len() == 1 || plans.len() <= max_exact,
        rearranged(indices(plans.len()), order),
        are_configs(order, cfgs),
        times_up_to(flight_of(h, plans, trailer, p), plans.len(), b),
        0 <= b <= pow2(2000),
    ensures
        ({
            let f = flight_of(h, plans, trailer, p);
            let k = plans.len();
            let flown = f.order(k, max_exact);
            let x = f.picked_under(flown, f.picked_configs(flown));
            let y = f.cost_under(order, cfgs);
            &&& ordered(h, plans, trailer, p, max_exact) == f.configured(flown)
            &&& x.finite() && y.finite()
            &&& (x.units() - y.units()) * 0x800000000000 <= k * (k * b)
        }),
{
    let f = flight_of(h, plans, trailer, p);
    let k = plans.len();
    law_choice_exact(f, k, order, cfgs, b);
    if k == 1 {
        let w = f.best_order(1);
        law_best_order_exists(f, 1);
        lemma_rearranged_len(indices(1), w);
        lemma_rearranged_below(1, w);
        assert(w[0] < 1);
        assert(w =~= indices(1));
    }
}

} // verus!
