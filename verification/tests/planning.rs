//! Scan lines, plans in one direction, and the search for the best.
use geofast::cost::{block_cost, combined_time};
use geofast::double::Double;
use geofast::geom::{Geom, Polygon, Pt};
use geofast::params::{acre_ft2, AircraftParams};
use geofast::plan::{coverage, covers, plan_in_frame, plan_single_direction, Part, PlanResult};
use geofast::scanline::{classify, climb, scanline_spans, segments_for_angle, segments_in_frame};
use geofast::search::{
    angle_score, angle_scores, best_single_direction, choose_candidates, pick_best, refine, sweep_angles,
    Measure,
};

fn d(x: f64) -> Double {
    Double::from_bits(x.to_bits())
}

fn f(x: Double) -> f64 {
    f64::from_bits(x.to_bits())
}

fn pt(x: f64, y: f64) -> Pt {
    Pt { x: d(x), y: d(y) }
}

fn ring(v: &[(f64, f64)]) -> Vec<Pt> {
    v.iter().map(|&(x, y)| pt(x, y)).collect()
}

fn rect(x0: f64, y0: f64, x1: f64, y1: f64) -> Polygon {
    Polygon { exterior: ring(&[(x0, y0), (x1, y0), (x1, y1), (x0, y1)]), interiors: vec![] }
}

fn sin_cos(x: Double) -> (Double, Double) {
    let (s, c) = f(x).sin_cos();
    (d(s), d(c))
}

fn spans(rings: &[Vec<Pt>], y: f64) -> Vec<(f64, f64)> {
    scanline_spans(&rings.to_vec(), d(y)).into_iter().map(|(a, b)| (f(a), f(b))).collect()
}

#[test]
fn spans_by_the_even_odd_rule() {
    let outer = ring(&[(0.0, 0.0), (10.0, 0.0), (10.0, 10.0), (0.0, 10.0)]);
    let hole = ring(&[(4.0, 4.0), (6.0, 4.0), (6.0, 6.0), (4.0, 6.0)]);
    assert_eq!(spans(&[outer.clone()], 5.0), vec![(0.0, 10.0)]);
    assert_eq!(spans(&[outer.clone(), hole.clone()], 5.0), vec![(0.0, 4.0), (6.0, 10.0)]);
    // a line through the lower ends is inside, one through the upper ends is not
    assert_eq!(spans(&[outer.clone()], 0.0), vec![(0.0, 10.0)]);
    assert_eq!(spans(&[outer.clone()], 10.0), vec![]);
    assert_eq!(spans(&[outer], 11.0), vec![]);
    // through a vertex at the side
    let diamond = ring(&[(0.0, 0.0), (5.0, -5.0), (10.0, 0.0), (5.0, 5.0)]);
    assert_eq!(spans(&[diamond.clone()], 0.0), vec![(0.0, 10.0)]);
    // a graze is dropped
    assert_eq!(spans(&[diamond], -5.0), vec![]);
    assert_eq!(spans(&[ring(&[(1.0, 1.0)])], 1.0), vec![]);
    // a ring run the other way crosses alike
    let zigzag = ring(&[(0.0, 0.0), (4.0, 4.0), (8.0, 2.0), (12.0, 4.0), (16.0, 0.0)]);
    let mut reversed = zigzag.clone();
    reversed.reverse();
    for y in [0.0, 1.0, 2.0, 3.0, 4.0] {
        assert_eq!(spans(&[zigzag.clone()], y), spans(&[reversed.clone()], y));
    }
    assert_eq!(spans(&[zigzag], 3.0), vec![(3.0, 6.0), (10.0, 13.0)]);
}

#[test]
fn gaps_are_flown_through_or_turned_at() {
    let s = vec![(d(0.0), d(10.0)), (d(30.0), d(40.0)), (d(100.0), d(120.0))];
    let parts = classify(&s, d(20.5));
    let kinds: Vec<Option<(f64, f64, bool)>> = parts
        .iter()
        .map(|p| match p {
            Part::Seg(a, b, s) => Some((f(*a), f(*b), *s)),
            Part::Break => None,
        })
        .collect();
    assert_eq!(
        kinds,
        vec![
            Some((0.0, 10.0, true)),
            Some((10.0, 30.0, false)),
            Some((30.0, 40.0, true)),
            None,
            Some((100.0, 120.0, true)),
        ]
    );
    assert!(classify(&vec![], d(1.0)).is_empty());
    // a gap as long as the threshold is not shorter
    let parts = classify(&s, d(20.0));
    assert_eq!(parts.len(), 5);
    assert!(matches!(parts[1], Part::Break) && matches!(parts[3], Part::Break));
}

#[test]
fn a_gap_as_long_as_the_threshold_breaks_the_line() {
    let p = AircraftParams::default();
    let g = Geom::Multi(vec![rect(0.0, 0.0, 100.0, 50.0), rect(1860.0, 0.0, 1960.0, 50.0)]);
    let (scan, _) = segments_for_angle(&g, d(0.0), &p, &sin_cos);
    assert_eq!(scan.len(), 1);
    assert_eq!(f(scan[0].0), 25.0);
    let kinds: Vec<Option<(f64, f64, bool)>> = scan[0]
        .1
        .iter()
        .map(|q| match q {
            Part::Seg(a, b, s) => Some((f(*a), f(*b), *s)),
            Part::Break => None,
        })
        .collect();
    assert_eq!(kinds, vec![Some((0.0, 100.0, true)), None, Some((1860.0, 1960.0, true))]);
    let r = plan_single_direction(&g, d(0.0), &p, &sin_cos);
    assert_eq!((r.n_runs, r.n_breaks, r.lines.len()), (2, 1, 2));
}

#[test]
fn heights_climb_by_the_swath() {
    let ys: Vec<f64> = climb(d(25.0), d(50.0), d(130.0)).into_iter().map(f).collect();
    assert_eq!(ys, vec![25.0, 75.0, 125.0]);
    assert_eq!(climb(d(25.0), d(50.0), d(25.0)).len(), 1);
    assert!(climb(d(26.0), d(50.0), d(25.0)).is_empty());
    // a step that does not advance ends the climb
    assert_eq!(climb(d(0.0), d(0.0), d(10.0)).len(), 1);
    assert!(climb(d(f64::NAN), d(1.0), d(10.0)).is_empty());
}

#[test]
fn a_rectangle_along_its_side() {
    let p = AircraftParams::default();
    let g = Geom::Poly(rect(0.0, 0.0, 1000.0, 500.0));
    let r = plan_single_direction(&g, d(0.0), &p, &sin_cos);
    assert_eq!(f(r.spray_ft), 10000.0);
    assert_eq!(f(r.dead_ft), 0.0);
    assert_eq!((r.n_runs, r.n_breaks), (10, 0));
    assert_eq!(r.lines.len(), 10);
    assert_eq!(r.runs.len(), 10);
    assert_eq!(r.lines[0], vec![(pt(0.0, 25.0), pt(1000.0, 25.0), true, d(1000.0))]);
    assert_eq!(f(r.area_ac), 500000.0 / 43560.0);
    assert_eq!(f(coverage(&r, d(500000.0), &p)), 1.0);
    assert!(covers(&r, d(500000.0), &p));
    assert!(!covers(&r, d(530000.0), &p));
    assert_eq!(f(coverage(&r, d(0.0), &p)), 500000.0);
    let t = 10000.0 / 83.3 + 0.0 / 88.0 + 9.0 * 10.0 + 1.0 * 100.0 + 2.0 * 1.0 * 2640.0 / 80.0;
    assert_eq!(f(r.time_s(&p)), t);
    assert_eq!(f(block_cost(&r, &p)), 10000.0 / 83.3 + 0.0 / 88.0 + 9.0 * (10.0 + 150.0 / 80.0));
    let (scan, c) = segments_for_angle(&g, d(0.0), &p, &sin_cos);
    assert_eq!(scan.len(), 10);
    assert_eq!((f(c.x), f(c.y)), (500.0, 250.0));
    let (scan, _) = segments_in_frame(&g, (d(0.0), d(1.0)), &p);
    assert_eq!(f(scan[3].0), 175.0);
    let q = plan_in_frame(&g, d(0.0), (d(-0.0), d(1.0)), (d(0.0), d(1.0)), &p);
    assert_eq!(q.lines, r.lines);
}

fn two_fields(gap: f64) -> Geom {
    Geom::Multi(vec![rect(0.0, 0.0, 500.0, 100.0), rect(500.0 + gap, 0.0, 1000.0 + gap, 100.0)])
}

#[test]
fn a_short_gap_is_flown_through() {
    let p = AircraftParams::default();
    assert_eq!(f(p.gap_threshold_ft()), 1760.0);
    let r = plan_single_direction(&two_fields(100.0), d(0.0), &p, &sin_cos);
    assert_eq!((f(r.spray_ft), f(r.dead_ft)), (2000.0, 200.0));
    assert_eq!((r.n_runs, r.n_breaks), (2, 0));
    assert_eq!(r.lines.len(), 2);
    assert_eq!(r.lines[0].len(), 3);
    assert_eq!(r.runs.len(), 6);
}

#[test]
fn a_long_gap_breaks_the_line() {
    let p = AircraftParams::default();
    let r = plan_single_direction(&two_fields(2000.0), d(0.0), &p, &sin_cos);
    assert_eq!((f(r.spray_ft), f(r.dead_ft)), (2000.0, 0.0));
    assert_eq!((r.n_runs, r.n_breaks), (4, 2));
    assert_eq!(r.lines.len(), 4);
    let drawn: Vec<(Pt, Pt, bool)> =
        r.lines.iter().flat_map(|l| l.iter().map(|q| (q.0, q.1, q.2))).collect();
    assert_eq!(drawn, r.runs);
    let sprayed: f64 = r.lines.iter().flatten().filter(|q| q.2).map(|q| f(q.3)).sum();
    assert_eq!(sprayed, f(r.spray_ft));
    assert_eq!(f(block_cost(&r, &p)), 2000.0 / 83.3 + 0.0 / 88.0 + 5.0 * (10.0 + 150.0 / 80.0));
}

#[test]
fn jobs_take_loads_and_turns() {
    let p = AircraftParams::default();
    let g = Geom::Poly(rect(0.0, 0.0, 1000.0, 500.0));
    let r = plan_single_direction(&g, d(0.0), &p, &sin_cos);
    let c = f(block_cost(&r, &p));
    let plans = vec![r.clone(), r];
    let t = c + c + 1.0 * (100.0 + 10.0) + 2.0 * 1.0 * 2640.0 / 80.0 + (2.0 - 1.0) * 10.0 + 400.0 / 80.0;
    assert_eq!(f(combined_time(&plans, &p, d(400.0))), t);
    assert_eq!(f(combined_time(&vec![], &p, d(0.0))), -10.0);
}

#[test]
fn directions_are_scored_by_width() {
    let p = AircraftParams::default();
    let v = ring(&[(0.0, 0.0), (1000.0, 0.0), (1000.0, 500.0), (0.0, 500.0)]);
    let s = f(angle_score(&v, d(500000.0), (d(0.0), d(1.0)), &p));
    assert_eq!(s, (500000.0 / 50.0) / 83.3 + 9.0 * 10.0);
    let s = f(angle_score(&v, d(500000.0), (d(1.0), d(0.0)), &p));
    assert_eq!(s, (500000.0 / 50.0) / 83.3 + 19.0 * 10.0);
    let all = angle_scores(&v, d(500000.0), &vec![d(0.0), d(90.0)], &p, &sin_cos);
    assert_eq!(all.len(), 2);
    assert!(all[0].lt(all[1]));
    assert!(angle_scores(&vec![], d(1.0), &vec![], &p, &sin_cos).is_empty());
}

#[test]
fn sweeps_stop_below_a_half_turn() {
    let a: Vec<f64> = sweep_angles(d(45.0)).into_iter().map(f).collect();
    assert_eq!(a, vec![0.0, 45.0, 90.0, 135.0]);
    assert_eq!(sweep_angles(d(2.0)).len(), 90);
    assert_eq!(sweep_angles(d(0.0)).len(), 1);
    assert_eq!(sweep_angles(d(f64::NAN)).len(), 1);
}

#[test]
fn candidates_lie_apart_and_hold_the_cardinals() {
    let angles = sweep_angles(d(2.0));
    let keys: Vec<Double> = (0..90).map(|i| d(((i * 37) % 90) as f64)).collect();
    let c = choose_candidates(&keys, &angles, d(2.0), 5);
    assert!(c.contains(&0) && c.contains(&45));
    assert!(c.len() >= 5 && c.len() <= 7);
    for i in 0..5 {
        for j in 0..i {
            let x = (f(angles[c[i]]) - f(angles[c[j]])).abs();
            assert!(x.min(180.0 - x) >= 8.0);
        }
    }
    assert_eq!(c[0], 0);
    // one is chosen though none is asked for
    let keys: Vec<Double> = (0..90).map(|i| d((90 - i) as f64)).collect();
    assert_eq!(choose_candidates(&keys, &angles, d(2.0), 0), vec![89, 0, 45]);
}

#[test]
fn a_long_field_is_flown_along() {
    let p = AircraftParams::default();
    let g = Geom::Poly(rect(0.0, 0.0, 3000.0, 400.0));
    let r = best_single_direction(&g, &p, d(2.0), 8, &sin_cos);
    assert_eq!(f(r.angle_deg), 0.0);
    assert_eq!(r.n_runs, 8);
    let tall = Geom::Poly(rect(0.0, 0.0, 400.0, 3000.0));
    let r = best_single_direction(&tall, &p, d(2.0), 8, &sin_cos);
    assert_eq!(f(r.angle_deg), 90.0);
    let r = refine(&g, d(3.0), &p, &sin_cos);
    assert_eq!(f(r.angle_deg), 0.0);
    let r = refine(&g, d(179.0), &p, &sin_cos);
    assert_eq!(f(r.angle_deg), 0.0);
}

#[test]
fn the_first_of_the_best_is_picked() {
    let p = AircraftParams::default();
    let g = Geom::Poly(rect(0.0, 0.0, 1000.0, 1000.0));
    let angles = vec![d(30.0), d(0.0), d(180.0)];
    let b = pick_best(&g, &angles, Measure::Block, &p, &sin_cos).unwrap();
    assert_eq!(f(b.angle_deg), 0.0);
    for a in angles {
        let r = plan_single_direction(&g, a, &p, &sin_cos);
        assert!(!block_cost(&r, &p).lt(block_cost(&b, &p)));
    }
    assert!(pick_best(&g, &vec![], Measure::Alone, &p, &sin_cos).is_none());
    // nothing covers a field smaller than a swath
    let thin = Geom::Poly(rect(0.0, 0.0, 10.0, 10.0));
    assert!(pick_best(&thin, &vec![d(0.0)], Measure::Alone, &p, &sin_cos).is_none());
    let r = best_single_direction(&thin, &p, d(45.0), 8, &sin_cos);
    assert_eq!(f(r.angle_deg), 0.0);
    assert!(r.lines.is_empty());
    let r = refine(&thin, d(7.0), &p, &sin_cos);
    assert_eq!(f(r.angle_deg), 7.0);
}

#[test]
fn defaults() {
    let p = AircraftParams::default();
    let all = [
        p.swath_ft, p.speed_fps, p.t_turn_s, p.tank_gal, p.gpa, p.t_load_s, p.t_cycle_s, p.arc_ft_per_turn,
        p.ferry_ft, p.ferry_fps, p.t_setup_s, p.t_survey_s, p.survey_link_ft, p.dead_fps, p.gap_break_turns,
    ];
    let v: Vec<f64> = all.iter().map(|&x| f(x)).collect();
    assert_eq!(
        v,
        vec![
            50.0, 83.3, 10.0, 75.0, 2.0, 100.0, 10.0, 150.0, 2640.0, 80.0, 120.0, 180.0, 1500.0, 88.0, 2.0
        ]
    );
    assert_eq!(f(acre_ft2()), 43560.0);
    let r = PlanResult::default();
    assert_eq!((r.n_runs, r.n_breaks, r.lines.len(), f(r.angle_deg)), (0, 0, 0, 0.0));
}

#[test]
fn no_cardinal_direction_is_faster() {
    let p = AircraftParams::default();
    let fields = [
        rect(0.0, 0.0, 3000.0, 400.0),
        rect(0.0, 0.0, 400.0, 3000.0),
        rect(0.0, 0.0, 1100.0, 1000.0),
        Polygon {
            exterior: ring(&[(0.0, 0.0), (1500.0, 300.0), (1700.0, 1900.0), (200.0, 1200.0)]),
            interiors: vec![ring(&[(600.0, 600.0), (900.0, 600.0), (900.0, 900.0), (600.0, 900.0)])],
        },
    ];
    for field in fields {
        let g = Geom::Poly(field);
        for step in [1.0, 2.0] {
            let best = best_single_direction(&g, &p, d(step), 8, &sin_cos);
            let t = best.time_s(&p);
            for card in [0.0, 90.0] {
                let r = plan_single_direction(&g, d(card), &p, &sin_cos);
                if covers(&r, g.area(), &p) {
                    assert!(!r.time_s(&p).lt(t));
                }
            }
        }
    }
}

#[test]
fn lines_are_counted() {
    let p = AircraftParams::default();
    let mut holed = rect(0.0, 0.0, 3000.0, 1000.0);
    holed.interiors.push(ring(&[(500.0, 300.0), (2500.0, 300.0), (2500.0, 700.0), (500.0, 700.0)]));
    let g = Geom::Poly(holed);
    let r = plan_single_direction(&g, d(0.0), &p, &sin_cos);
    // twenty scan lines, eight of them broken by the hole
    assert_eq!((r.n_runs, r.n_breaks, r.lines.len()), (28, 8, 28));
    assert_eq!(f(r.angle_deg), 0.0);
}
