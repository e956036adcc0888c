//! Permutations, clusters, and the order in which blocks are flown.
use geofast::double::Double;
use geofast::geom::Pt;
use geofast::groups::{cluster, count_groups};
use geofast::ordering::{config, order_blocks};
use geofast::params::AircraftParams;
use geofast::perms::{next_permutation, permutations};
use geofast::plan::PlanResult;
use geofast::traverse::{block_stats, traverse};

fn d(x: f64) -> Double {
    Double::from_bits(x.to_bits())
}

fn f(x: Double) -> f64 {
    f64::from_bits(x.to_bits())
}

fn pt(x: f64, y: f64) -> Pt {
    Pt { x: d(x), y: d(y) }
}

fn hypot(a: Double, b: Double) -> Double {
    d(f(a).hypot(f(b)))
}

/// A plan of lines along x, each from `x0` to `x1`.
fn plan(x0: f64, x1: f64, ys: &[f64]) -> PlanResult {
    let mut p = PlanResult::default();
    for &y in ys {
        p.lines.push(vec![(pt(x0, y), pt(x1, y), true, d(x1 - x0))]);
        p.runs.push((pt(x0, y), pt(x1, y), true));
    }
    p.n_runs = ys.len() as i64;
    p.spray_ft = d((x1 - x0) * ys.len() as f64);
    p
}

#[test]
fn next_permutation_steps() {
    let mut a = [0usize, 1, 2];
    let mut seen = vec![a.to_vec()];
    while next_permutation(&mut a) {
        seen.push(a.to_vec());
    }
    assert_eq!(
        seen,
        vec![
            vec![0, 1, 2], vec![0, 2, 1], vec![1, 0, 2], vec![1, 2, 0], vec![2, 0, 1], vec![2, 1, 0]
        ]
    );
    assert_eq!(a, [2, 1, 0]);
    assert!(!next_permutation(&mut []));
    assert!(!next_permutation(&mut [7]));
    let mut b = [1usize, 3, 3, 2];
    assert!(next_permutation(&mut b));
    assert_eq!(b, [2, 1, 3, 3]);
}

#[test]
fn permutations_are_all_in_order() {
    assert_eq!(permutations(0), vec![Vec::<usize>::new()]);
    assert_eq!(permutations(1), vec![vec![0]]);
    let all = permutations(5);
    assert_eq!(all.len(), 120);
    assert_eq!(all[0], vec![0, 1, 2, 3, 4]);
    assert_eq!(all[119], vec![4, 3, 2, 1, 0]);
    for w in all.windows(2) {
        assert!(w[0] < w[1]);
    }
}

#[test]
fn clusters_join_over_links() {
    let n = 5;
    let mut t = vec![vec![false; n]; n];
    t[0][3] = true;
    t[3][4] = true;
    let labels = cluster(&t);
    assert_eq!(labels[0], labels[3]);
    assert_eq!(labels[3], labels[4]);
    assert_ne!(labels[0], labels[1]);
    assert_ne!(labels[1], labels[2]);
    assert_eq!(labels, vec![4, 1, 2, 4, 4]);
    assert_eq!(count_groups(&labels), 3);
    assert_eq!(count_groups(&cluster(&vec![])), 0);
}

#[test]
fn lines_are_flown_to_and_fro() {
    let p = plan(0.0, 100.0, &[0.0, 50.0, 100.0]);
    let s = traverse(&p, false, false);
    let ends: Vec<(f64, f64, usize)> = s.iter().map(|q| (f(q.0.0.x), f(q.0.1.x), q.1)).collect();
    assert_eq!(ends, vec![(0.0, 100.0, 0), (100.0, 0.0, 1), (0.0, 100.0, 2)]);
    let s = traverse(&p, true, true);
    let ends: Vec<(f64, f64, usize)> = s.iter().map(|q| (f(q.0.0.x), f(q.0.1.x), q.1)).collect();
    assert_eq!(ends, vec![(100.0, 0.0, 2), (0.0, 100.0, 1), (100.0, 0.0, 0)]);
    let mut two = PlanResult::default();
    two.lines.push(vec![
        (pt(0.0, 0.0), pt(10.0, 0.0), true, d(10.0)),
        (pt(10.0, 0.0), pt(15.0, 0.0), false, d(5.0)),
    ]);
    let s = traverse(&two, false, true);
    assert_eq!(s[0].0, (pt(15.0, 0.0), pt(10.0, 0.0), false, d(5.0)));
    assert_eq!(s[1].0, (pt(10.0, 0.0), pt(0.0, 0.0), true, d(10.0)));
}

#[test]
fn figures_of_a_block() {
    let p = AircraftParams::default();
    let s = block_stats(&plan(0.0, 100.0, &[0.0, 50.0, 100.0]), (false, true), &p);
    assert_eq!(s.n_turns, 2);
    assert_eq!(s.entry, Some(pt(100.0, 0.0)));
    assert_eq!(s.exit, Some(pt(0.0, 100.0)));
    assert_eq!(f(s.time), 300.0 / 83.3 + 2.0 * 10.0);
    let none = block_stats(&PlanResult::default(), (false, false), &p);
    assert_eq!((f(none.time), none.entry, none.exit, none.n_turns), (0.0, None, None, 0));
}

#[test]
fn configurations_are_four() {
    assert_eq!(config(0), (false, false));
    assert_eq!(config(1), (false, true));
    assert_eq!(config(2), (true, false));
    assert_eq!(config(3), (true, true));
}

fn blocks_in_a_row() -> Vec<PlanResult> {
    vec![
        plan(5000.0, 5100.0, &[0.0, 50.0]),
        plan(0.0, 100.0, &[0.0, 50.0]),
        plan(2000.0, 2100.0, &[0.0, 50.0]),
    ]
}

/// What an order costs under configurations, block by block.
fn cost(plans: &[PlanResult], order: &[(usize, (bool, bool))], trailer: Pt, p: &AircraftParams) -> f64 {
    let mut t = 0.0;
    let mut at = trailer;
    for (n, (b, c)) in order.iter().enumerate() {
        let s = block_stats(&plans[*b], *c, p);
        let e = s.entry.unwrap();
        let way = (f(at.x) - f(e.x)).hypot(f(at.y) - f(e.y));
        t += if n == 0 { way / f(p.ferry_fps) } else { way / f(p.speed_fps) + f(p.t_turn_s) };
        t += f(s.time);
        at = s.exit.unwrap();
    }
    t + (f(at.x) - f(trailer.x)).hypot(f(at.y) - f(trailer.y)) / f(p.ferry_fps)
}

#[test]
fn the_best_order_is_not_beaten() {
    let p = AircraftParams::default();
    let plans = blocks_in_a_row();
    let trailer = pt(-10.0, 0.0);
    let best = order_blocks(&plans, trailer, &p, 6, &hypot);
    let mut blocks: Vec<usize> = best.iter().map(|b| b.0).collect();
    let total = cost(&plans, &best, trailer, &p);
    for perm in permutations(3) {
        for mask in 0..64usize {
            let other: Vec<(usize, (bool, bool))> =
                perm.iter().enumerate().map(|(i, &b)| (b, config((mask >> (2 * i)) & 3))).collect();
            assert!(cost(&plans, &other, trailer, &p) >= total - 1e-9);
        }
    }
    blocks.sort();
    assert_eq!(blocks, vec![0, 1, 2]);
}

#[test]
fn many_blocks_are_flown_nearest_first() {
    let p = AircraftParams::default();
    let plans = blocks_in_a_row();
    let order = order_blocks(&plans, pt(-10.0, 0.0), &p, 2, &hypot);
    let blocks: Vec<usize> = order.iter().map(|b| b.0).collect();
    assert_eq!(blocks, vec![1, 2, 0]);
}

#[test]
fn one_block_is_entered_where_it_is_nearest() {
    let p = AircraftParams::default();
    let plans = vec![plan(0.0, 100.0, &[0.0, 50.0, 100.0, 150.0])];
    let order = order_blocks(&plans, pt(100.0, 150.0), &p, 6, &hypot);
    assert_eq!(order.len(), 1);
    assert_eq!(order[0].0, 0);
    let s = block_stats(&plans[0], order[0].1, &p);
    let (e, x) = (s.entry.unwrap(), s.exit.unwrap());
    let way = |q: Pt| (f(q.x) - 100.0).hypot(f(q.y) - 150.0);
    assert!(way(e) + way(x) <= 150.0 + 1e-9);
}

#[test]
fn every_way_through_a_block_flies_the_same_parts() {
    let p = plan(0.0, 900.0, &[0.0, 50.0, 400.0]);
    let mut seen: Vec<Vec<(u64, u64, u64, u64)>> = vec![];
    for (back, from) in [(false, false), (false, true), (true, false), (true, true)] {
        let mut parts = vec![];
        for (part, _) in traverse(&p, back, from) {
            let (a, b) = ((part.0.x.to_bits(), part.0.y.to_bits()), (part.1.x.to_bits(), part.1.y.to_bits()));
            let (a, b) = if a <= b { (a, b) } else { (b, a) };
            parts.push((a.0, a.1, b.0, b.1));
        }
        parts.sort();
        seen.push(parts);
    }
    assert_eq!(seen[0].len(), 3);
    for parts in &seen {
        assert_eq!(parts, &seen[0]);
    }
}

#[test]
fn no_configurations_of_an_order_are_cheaper() {
    let p = AircraftParams::default();
    let mut plans = blocks_in_a_row();
    plans.push(plan(700.0, 1900.0, &[900.0, 950.0, 1000.0]));
    let trailer = pt(-10.0, 320.0);
    // exact, and nearest first
    for max_exact in [6, 2] {
        let flown = order_blocks(&plans, trailer, &p, max_exact, &hypot);
        let total = cost(&plans, &flown, trailer, &p);
        for mask in 0..256usize {
            let other: Vec<(usize, (bool, bool))> =
                flown.iter().enumerate().map(|(i, b)| (b.0, config((mask >> (2 * i)) & 3))).collect();
            assert!(cost(&plans, &other, trailer, &p) >= total - 1e-9);
        }
    }
}
