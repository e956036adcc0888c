//! The simulated flight.
use geofast::double::Double;
use geofast::geom::{Polygon, Pt};
use geofast::ordering::{config, order_blocks};
use geofast::params::AircraftParams;
use geofast::plan::PlanResult;
use geofast::simulate::{default_trailer, run_sim, simulate_job, survey_groups, SimResult};

fn d(x: f64) -> Double {
    Double::from_bits(x.to_bits())
}

fn f(x: Double) -> f64 {
    f64::from_bits(x.to_bits())
}

fn pt(x: f64, y: f64) -> Pt {
    Pt { x: d(x), y: d(y) }
}

fn hypot(a: Double, b: Double) -> Double {
    d(f(a).hypot(f(b)))
}

fn plan(x0: f64, x1: f64, ys: &[f64]) -> PlanResult {
    let mut p = PlanResult::default();
    for &y in ys {
        p.lines.push(vec![(pt(x0, y), pt(x1, y), true, d(x1 - x0))]);
        p.runs.push((pt(x0, y), pt(x1, y), true));
    }
    p.n_runs = ys.len() as i64;
    p
}

fn rect(x0: f64, y0: f64, x1: f64, y1: f64) -> Polygon {
    Polygon { exterior: vec![pt(x0, y0), pt(x1, y0), pt(x1, y1), pt(x0, y1)], interiors: vec![] }
}

#[test]
fn one_pass() {
    let p = AircraftParams::default();
    let plans = vec![plan(0.0, 1000.0, &[0.0])];
    let r = run_sim(&vec![(0, (false, false))], &plans, &p, pt(0.0, 0.0), d(300.0), &hypot);
    assert_eq!(f(r.setup_s), 300.0);
    assert_eq!(f(r.spray_s), 1000.0 / 83.3);
    assert_eq!((f(r.turn_s), f(r.dead_s), f(r.load_s)), (0.0, 0.0, 0.0));
    assert_eq!((f(r.ferry_ft), f(r.ferry_s)), (1000.0, 1000.0 / 80.0));
    assert_eq!((r.n_loads, r.n_turns), (1, 0));
    assert_eq!(f(r.total_s()), 300.0 + 1000.0 / 83.3 + 0.0 + 0.0 + 12.5 + 0.0);
}

#[test]
fn turns_between_lines() {
    let p = AircraftParams::default();
    let plans = vec![plan(0.0, 1000.0, &[0.0, 50.0, 300.0])];
    let r = run_sim(&vec![(0, (false, false))], &plans, &p, pt(0.0, 0.0), d(0.0), &hypot);
    let turn = 10.0 + 150.0 / 80.0;
    assert_eq!(f(r.turn_s), turn + turn);
    assert_eq!(r.n_turns, 2);
    // the way to the third line is 250 ft, two swaths of it are in the turn
    assert_eq!((f(r.dead_ft), f(r.dead_s)), (150.0, 150.0 / 88.0));
}

#[test]
fn breaks_cost_another_turn() {
    let p = AircraftParams::default();
    let mut one = plan(0.0, 1000.0, &[0.0]);
    one.n_breaks = 3;
    let r = run_sim(&vec![(0, (false, false))], &vec![one], &p, pt(0.0, 0.0), d(0.0), &hypot);
    assert_eq!((f(r.turn_s), r.n_turns), (30.0, 3));
}

#[test]
fn dead_parts_are_not_sprayed() {
    let p = AircraftParams::default();
    let mut one = PlanResult::default();
    one.lines.push(vec![
        (pt(0.0, 0.0), pt(100.0, 0.0), true, d(100.0)),
        (pt(100.0, 0.0), pt(188.0, 0.0), false, d(88.0)),
        (pt(188.0, 0.0), pt(200.0, 0.0), true, d(12.0)),
    ]);
    let r = run_sim(&vec![(0, (false, false))], &vec![one], &p, pt(0.0, 0.0), d(0.0), &hypot);
    assert_eq!((f(r.dead_ft), f(r.dead_s)), (88.0, 1.0));
    assert_eq!(f(r.spray_s), 100.0 / 83.3 + 12.0 / 83.3);
}

#[test]
fn the_tank_is_filled_where_it_runs_dry() {
    let mut p = AircraftParams::default();
    p.swath_ft = d(43.56);
    p.gpa = d(1.0);
    p.tank_gal = d(0.5);
    let gal = 43.56 * 1.0 / 43560.0;
    let can = 0.5 / gal;
    let plans = vec![plan(0.0, 1200.0, &[0.0])];
    let r = run_sim(&vec![(0, (false, false))], &plans, &p, pt(0.0, 0.0), d(0.0), &hypot);
    assert_eq!(r.n_loads, 3);
    assert_eq!(f(r.load_s), 110.0 + 110.0);
    let rest = (1200.0 - can) - can;
    assert_eq!(f(r.spray_s), can / 83.3 + can / 83.3 + rest / 83.3);
    let x1 = 0.0 + 1.0 * can;
    let x2 = x1 + 1.0 * can;
    assert_eq!(f(r.ferry_ft), 0.0 + x1 + x1 + x2 + x2 + 1200.0);
}

#[test]
fn a_tank_that_holds_nothing_ends_a_pass() {
    let mut p = AircraftParams::default();
    p.tank_gal = d(0.0);
    let plans = vec![plan(0.0, 100.0, &[0.0])];
    let r = run_sim(&vec![(0, (false, false))], &plans, &p, pt(0.0, 0.0), d(0.0), &hypot);
    assert_eq!((f(r.spray_s), r.n_loads), (0.0, 1));
    // spraying nothing per foot needs no load
    p.gpa = d(0.0);
    let r = run_sim(&vec![(0, (false, false))], &plans, &p, pt(0.0, 0.0), d(0.0), &hypot);
    assert_eq!((f(r.spray_s), r.n_loads), (100.0 / 83.3, 1));
}

#[test]
fn between_blocks_the_booms_are_off() {
    let p = AircraftParams::default();
    let plans = vec![plan(0.0, 100.0, &[0.0]), plan(188.0, 300.0, &[0.0]), PlanResult::default()];
    let order = vec![(0, (false, false)), (2, (false, false)), (1, (false, false))];
    let r = run_sim(&order, &plans, &p, pt(0.0, 0.0), d(0.0), &hypot);
    assert_eq!((f(r.dead_ft), f(r.dead_s), r.n_turns), (88.0, 88.0 / 88.0 + 10.0, 1));
    assert_eq!(f(r.ferry_ft), 300.0);
}

#[test]
fn the_trailer_stands_at_the_near_corner() {
    let plans = vec![plan(100.0, 500.0, &[50.0, 100.0]), plan(80.0, 90.0, &[400.0])];
    let t = default_trailer(&plans, &hypot);
    assert_eq!((f(t.x), f(t.y)), (100.0, 50.0));
    let t = default_trailer(&vec![], &hypot);
    assert_eq!((f(t.x), f(t.y)), (0.0, 0.0));
}

#[test]
fn surveys_are_shared_by_neighbours() {
    let parts = vec![
        rect(0.0, 0.0, 10.0, 10.0),
        rect(5000.0, 0.0, 5010.0, 10.0),
        rect(1000.0, 0.0, 1010.0, 10.0),
        rect(2000.0, 0.0, 2010.0, 10.0),
    ];
    assert_eq!(survey_groups(&parts, d(1500.0), &hypot), 2);
    assert_eq!(survey_groups(&parts, d(100.0), &hypot), 4);
    assert_eq!(survey_groups(&parts, d(990.0), &hypot), 2);
    assert_eq!(survey_groups(&vec![], d(1.0), &hypot), 0);
}

#[test]
fn no_way_to_configure_is_shorter() {
    let p = AircraftParams::default();
    let plans = vec![plan(0.0, 900.0, &[0.0, 50.0]), plan(1500.0, 1700.0, &[100.0, 150.0, 200.0])];
    let trailer = pt(700.0, -300.0);
    let (best, at) = simulate_job(&plans, &p, Some(trailer), 2, &hypot);
    assert_eq!(at, trailer);
    assert_eq!(f(best.setup_s), 120.0 + 2.0 * 180.0);
    let order = order_blocks(&plans, trailer, &p, 6, &hypot);
    let mut least = f64::INFINITY;
    for mask in 0..16usize {
        let tried: Vec<(usize, (bool, bool))> =
            order.iter().enumerate().map(|(i, b)| (b.0, config((mask >> (2 * i)) & 3))).collect();
        let t = f(run_sim(&tried, &plans, &p, trailer, best.setup_s, &hypot).total_s());
        assert!(f(best.total_s()) <= t);
        least = least.min(t);
    }
    assert_eq!(f(best.total_s()), least);
}

#[test]
fn five_blocks_are_flown_as_ordered() {
    let p = AircraftParams::default();
    let plans: Vec<PlanResult> =
        (0..5).map(|i| plan(1000.0 * i as f64, 1000.0 * i as f64 + 400.0, &[0.0, 50.0])).collect();
    let (r, at) = simulate_job(&plans, &p, None, 1, &hypot);
    assert_eq!((f(at.x), f(at.y)), (0.0, 0.0));
    let order = order_blocks(&plans, at, &p, 6, &hypot);
    let same = run_sim(&order, &plans, &p, at, d(300.0), &hypot);
    assert_eq!(r.total_s(), same.total_s());
    assert!(r.n_loads >= 1);
}

#[test]
fn nothing_takes_no_time() {
    let r = SimResult::default();
    assert_eq!((f(r.total_s()), r.n_loads, r.n_turns), (0.0, 0, 0));
    let p = AircraftParams::default();
    let r = run_sim(&vec![], &vec![], &p, pt(3.0, 4.0), d(1.0), &hypot);
    assert_eq!((f(r.total_s()), r.n_loads, f(r.ferry_ft)), (1.0, 1, 0.0));
}

#[test]
fn totals_add_up_over_a_flight() {
    let mut p = AircraftParams::default();
    p.tank_gal = d(3.0);
    let plans = vec![plan(0.0, 1700.0, &[0.0, 50.0]), plan(2000.0, 2600.0, &[0.0])];
    let order = vec![(0, (false, false)), (1, (false, false))];
    let r = run_sim(&order, &plans, &p, pt(0.0, 0.0), d(777.5), &hypot);
    assert_eq!(f(r.setup_s), 777.5);
    assert_eq!(r.n_loads, 4);
    // every load but the first takes its time
    let mut load_s = 0.0;
    for _ in 1..r.n_loads {
        load_s += 110.0;
    }
    assert_eq!(f(r.load_s), load_s);
    // ferry time is that of the ferry feet, spray time that of the lengths
    assert!((f(r.ferry_s) - f(r.ferry_ft) / 80.0).abs() < 1e-9);
    assert!((f(r.spray_s) - (1700.0 + 1700.0 + 600.0) / 83.3).abs() < 1e-9);
}

#[test]
fn a_block_takes_the_same_turns_from_every_corner() {
    let p = AircraftParams::default();
    let mut one = plan(0.0, 900.0, &[0.0, 50.0, 400.0, 450.0]);
    one.n_breaks = 2;
    one.lines.push(vec![]);
    one.lines.push(vec![
        (pt(0.0, 500.0), pt(300.0, 500.0), true, d(300.0)),
        (pt(300.0, 500.0), pt(350.0, 500.0), false, d(50.0)),
        (pt(350.0, 500.0), pt(900.0, 500.0), true, d(550.0)),
    ]);
    let plans = vec![one];
    let turn = 10.0 + 150.0 / 80.0;
    for cfg in [(false, false), (false, true), (true, false), (true, true)] {
        let r = run_sim(&vec![(0, cfg)], &plans, &p, pt(-100.0, 70.0), d(300.0), &hypot);
        assert_eq!((r.n_turns, f(r.turn_s)), (6, 20.0 + turn + turn + turn + turn));
        assert_eq!(f(r.setup_s), 300.0);
        assert!((f(r.spray_s) - (4.0 * 900.0 + 850.0) / 83.3).abs() < 1e-9);
    }
}

#[test]
fn the_trailer_stands_at_the_end_of_a_part() {
    let plans = vec![plan(300.0, 900.0, &[40.0, 90.0]), plan(-200.0, 100.0, &[500.0])];
    let at = default_trailer(&plans, &hypot);
    let mut ends = vec![];
    for plan in &plans {
        for line in &plan.lines {
            for part in line {
                ends.push((f(part.0.x), f(part.0.y)));
                ends.push((f(part.1.x), f(part.1.y)));
            }
        }
    }
    assert!(ends.contains(&(f(at.x), f(at.y))));
}

#[test]
fn a_block_takes_the_same_time_from_every_corner() {
    let mut p = AircraftParams::default();
    p.tank_gal = d(1.7);
    let mut one = PlanResult::default();
    for i in 0..7 {
        let y = 50.0 * i as f64;
        one.lines.push(vec![
            (pt(0.0, y), pt(400.0, y), true, d(400.0)),
            (pt(400.0, y), pt(433.3, y), false, d(33.3)),
            (pt(433.3, y), pt(1000.0, y), true, d(566.7)),
        ]);
    }
    let plans = vec![one];
    for cfg in [(false, false), (false, true), (true, false), (true, true)] {
        let r = run_sim(&vec![(0, cfg)], &plans, &p, pt(-60.0, 70.0), d(0.0), &hypot);
        assert!(r.n_loads > 3);
        assert!((f(r.spray_s) - 7.0 * 966.7 / 83.3).abs() < 1e-7);
        assert!((f(r.dead_ft) - 7.0 * 33.3).abs() < 1e-9);
        assert!((f(r.dead_s) - 7.0 * 33.3 / 88.0).abs() < 1e-9);
        let loads = (r.n_loads - 1) as f64;
        assert!((f(r.load_s) - loads * 110.0).abs() < 1e-9);
        assert!((f(r.ferry_s) - f(r.ferry_ft) / 80.0).abs() < 1e-7);
    }
}
