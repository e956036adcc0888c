//! Fields planned with polygon unions and clips.
use geo::{BooleanOps, Coord, LineString};
use geofast::cells::{absorb_slivers, cut_cells, decompose, turn_geom};
use geofast::cost::{block_cost, combined_time, sum_costs, time_among};
use geofast::decompose::{bcd_plan, least_cell, plan_on_grids};
use geofast::double::Double;
use geofast::field::{plan_field, small_part};
use geofast::geom::{Geom, Polygon, Pt};
use geofast::lines::{draw_lines, params_for, plan_lines};
use geofast::merge::{is_mergeable, make_offer, merge_blocks, union_plan, Block, Effort};
use geofast::params::AircraftParams;
use geofast::plan::plan_single_direction;
use geofast::quote;
use geofast::rings::union_geoms;
use geofast::search::{best_single_direction, refine};
use geofast::tools::{Globe, Tools};
use geographiclib_rs::{DirectGeodesic, Geodesic, InverseGeodesic};

fn d(x: f64) -> Double {
    Double::from_bits(x.to_bits())
}

fn f(x: Double) -> f64 {
    f64::from_bits(x.to_bits())
}

fn pt(x: f64, y: f64) -> Pt {
    Pt { x: d(x), y: d(y) }
}

fn poly(v: &[(f64, f64)]) -> Polygon {
    Polygon { exterior: v.iter().map(|&(x, y)| pt(x, y)).collect(), interiors: vec![] }
}

fn rect(x0: f64, y0: f64, x1: f64, y1: f64) -> Polygon {
    poly(&[(x0, y0), (x1, y0), (x1, y1), (x0, y1)])
}

fn sin_cos(x: Double) -> (Double, Double) {
    let (s, c) = f(x).sin_cos();
    (d(s), d(c))
}

fn hypot(a: Double, b: Double) -> Double {
    d(f(a).hypot(f(b)))
}

fn out(p: &Polygon) -> geo::Polygon<f64> {
    let ring = |r: &Vec<Pt>| LineString::new(r.iter().map(|q| Coord { x: f(q.x), y: f(q.y) }).collect());
    geo::Polygon::new(ring(&p.exterior), p.interiors.iter().map(ring).collect())
}

fn back(p: &geo::Polygon<f64>) -> Polygon {
    let ring = |r: &LineString<f64>| r.0.iter().map(|c| pt(c.x, c.y)).collect::<Vec<Pt>>();
    Polygon { exterior: ring(p.exterior()), interiors: p.interiors().iter().map(ring).collect() }
}

fn union(v: &Vec<Polygon>) -> Vec<Polygon> {
    let polys: Vec<geo::Polygon<f64>> = v.iter().map(out).collect();
    geo::unary_union(polys.iter()).0.iter().map(back).collect()
}

fn clip(a: &Polygon, b: &Polygon) -> Vec<Polygon> {
    out(a).intersection(&out(b)).0.iter().map(back).collect()
}

type One = fn(Double) -> (Double, Double);
type Two = fn(Double, Double) -> Double;
type Join = fn(&Vec<Polygon>) -> Vec<Polygon>;
type Cut = fn(&Polygon, &Polygon) -> Vec<Polygon>;
type Four = fn(Double, Double, Double, Double) -> (Double, Double);

fn tools() -> Tools<One, Two, Join, Cut> {
    Tools { sin_cos, hypot, union, clip }
}

fn inverse(lat1: Double, lon1: Double, lat2: Double, lon2: Double) -> (Double, Double) {
    let (s, azi, _, _): (f64, f64, f64, f64) =
        Geodesic::wgs84().inverse(f(lat1), f(lon1), f(lat2), f(lon2));
    (d(s), d(azi))
}

fn direct(lat: Double, lon: Double, azi: Double, s: Double) -> (Double, Double) {
    let (lat2, lon2): (f64, f64) = Geodesic::wgs84().direct(f(lat), f(lon), f(azi), f(s));
    (d(lat2), d(lon2))
}

fn atan2(y: Double, x: Double) -> Double {
    d(f(y).atan2(f(x)))
}

fn globe() -> Globe<Four, Four, Two> {
    Globe { inverse, direct, atan2 }
}

/// A field around a notch.
fn notched(scale: f64) -> Polygon {
    let v = [
        (0.0, 0.0), (300.0, 0.0), (300.0, 300.0), (200.0, 300.0), (200.0, 100.0), (100.0, 100.0),
        (100.0, 300.0), (0.0, 300.0),
    ];
    poly(&v.map(|(x, y)| (x * scale, y * scale)))
}

fn areas(v: &[Geom]) -> Vec<f64> {
    v.iter().map(|g| f(g.area())).collect()
}

#[test]
fn cells_lie_between_events() {
    let cells = decompose(&notched(1.0), d(0.0), d(0.0), &tools());
    let a = areas(&cells);
    assert_eq!(a.len(), 3);
    assert!((a[0] - 30000.0).abs() < 1e-3 && (a[1] - 10000.0).abs() < 1e-3 && (a[2] - 30000.0).abs() < 1e-3);
    // across: one cell below, two above; events are to a tenth of a foot
    let cells = decompose(&notched(1.0), d(90.0), d(0.0), &tools());
    let mut a = areas(&cells);
    a.sort_by(|x, y| x.partial_cmp(y).unwrap());
    assert_eq!(a.len(), 3);
    assert!((a[0] - 20000.0).abs() < 30.0 && (a[1] - 20000.0).abs() < 30.0 && (a[2] - 30000.0).abs() < 30.0);
}

#[test]
fn a_sliver_joins_its_first_best_neighbour() {
    let cells = decompose(&notched(1.0), d(0.0), least_cell(), &tools());
    let a = areas(&cells);
    assert_eq!(a.len(), 2);
    assert!((a[0] - 40000.0).abs() < 1e-3 && (a[1] - 30000.0).abs() < 1e-3);
    assert_eq!(f(least_cell()), 21780.0);
}

#[test]
fn a_sliver_without_neighbour_stays() {
    let cells = vec![Geom::Poly(rect(0.0, 0.0, 10.0, 10.0)), Geom::Poly(rect(20.0, 0.0, 520.0, 500.0))];
    let left = absorb_slivers(cells, d(1000.0), &tools());
    assert_eq!(areas(&left), vec![100.0, 250000.0]);
}

#[test]
fn narrow_slabs_and_crumbs_are_dropped() {
    let square = rect(0.0, 0.0, 100.0, 100.0);
    let whole = |xs: &[f64]| {
        let xs: Vec<Double> = xs.iter().map(|&x| d(x)).collect();
        areas(&cut_cells(&square, &xs, &clip))
    };
    assert_eq!(whole(&[0.0, 0.5, 50.0, 100.0]), vec![4950.0, 5000.0]);
    assert_eq!(whole(&[0.0]), Vec::<f64>::new());
    assert_eq!(whole(&[]), Vec::<f64>::new());
    let crumbs = |_: &Polygon, _: &Polygon| vec![rect(0.0, 0.0, 1.0, 1.0), rect(0.0, 0.0, 2.0, 1.0)];
    let cells = cut_cells(&square, &vec![d(0.0), d(9.0)], &crumbs);
    assert_eq!(areas(&cells), vec![2.0]);
}

#[test]
fn geometries_turn_part_by_part() {
    let g = Geom::Multi(vec![rect(0.0, 0.0, 2.0, 1.0), rect(4.0, 0.0, 5.0, 1.0)]);
    let t = turn_geom(&g, (d(1.0), d(0.0)), pt(0.0, 0.0));
    assert!(t.is_multi());
    assert_eq!(t.parts()[1].exterior[1], pt(0.0, 5.0));
}

#[test]
fn unions_of_neighbours_are_one() {
    let geoms = vec![
        Geom::Poly(rect(0.0, 0.0, 100.0, 100.0)),
        Geom::Poly(rect(500.0, 0.0, 600.0, 100.0)),
        Geom::Poly(rect(100.0, 0.0, 200.0, 100.0)),
    ];
    let u = union_geoms(&geoms, &vec![0, 2], &union);
    assert!(!u.is_multi());
    assert!((f(u.area()) - 20000.0).abs() < 1e-6);
    let u = union_geoms(&geoms, &vec![0, 1], &union);
    assert!(u.is_multi());
    assert_eq!(u.parts().len(), 2);
}

fn block(g: Polygon, p: &AircraftParams) -> Block {
    let geom = Geom::Poly(g);
    let plan = best_single_direction(&geom, p, d(4.0), 8, &sin_cos);
    Block { geom, plan }
}

#[test]
fn neighbours_are_worth_merging() {
    let p = AircraftParams::default();
    let a = block(rect(0.0, 0.0, 1000.0, 500.0), &p);
    let b = block(rect(1000.0, 0.0, 2000.0, 500.0), &p);
    assert!(is_mergeable(&a.geom, &b.geom, &p, &hypot));
    let (gain, whole) = make_offer(&a, &b, Effort::Quick, &p, &tools()).unwrap();
    let saved = f(block_cost(&a.plan, &p)) + f(block_cost(&b.plan, &p)) + 10.0 - f(block_cost(&whole.plan, &p));
    assert_eq!(f(gain), saved);
    assert!(saved > 0.0);
    assert!((f(whole.geom.area()) - 1000000.0).abs() < 1e-3);
    let (full, _) = make_offer(&a, &b, Effort::Full(d(4.0)), &p, &tools()).unwrap();
    assert!(f(full) >= saved - 1e-6);
    // a gap that is not flown through
    let far = block(rect(5000.0, 0.0, 6000.0, 500.0), &p);
    assert!(!is_mergeable(&a.geom, &far.geom, &p, &hypot));
    assert!(make_offer(&a, &far, Effort::Quick, &p, &tools()).is_none());
}

#[test]
fn merging_stops_when_nothing_is_saved() {
    let p = AircraftParams::default();
    let row = vec![
        block(rect(0.0, 0.0, 1000.0, 500.0), &p),
        block(rect(1000.0, 0.0, 2000.0, 500.0), &p),
        block(rect(9000.0, 0.0, 9500.0, 500.0), &p),
        block(rect(2000.0, 0.0, 3000.0, 500.0), &p),
    ];
    let left = merge_blocks(row, Effort::Quick, &p, &tools());
    assert_eq!(left.len(), 2);
    assert_eq!(f(left[0].geom.area()), 250000.0);
    assert!((f(left[1].geom.area()) - 1500000.0).abs() < 1e-3);
    for i in 0..left.len() {
        for j in i + 1..left.len() {
            let o = make_offer(&left[i], &left[j], Effort::Quick, &p, &tools());
            assert!(o.map_or(true, |o| f(o.0) <= 0.0));
        }
    }
    assert!(merge_blocks(vec![], Effort::Quick, &p, &tools()).is_empty());
}

#[test]
fn unions_are_planned_modulo_a_half_turn() {
    let p = AircraftParams::default();
    let g = Geom::Poly(rect(0.0, 0.0, 2000.0, 500.0));
    let r = union_plan(&g, &vec![d(90.0), d(-180.0)], &p, &sin_cos).unwrap();
    assert_eq!(f(r.angle_deg), 0.0);
    assert!(union_plan(&g, &vec![], &p, &sin_cos).is_none());
}

#[test]
fn blocks_of_one_direction_share_a_grid() {
    let p = AircraftParams::default();
    let mut blocks = vec![
        block(rect(0.0, 0.0, 1000.0, 500.0), &p),
        block(rect(1000.0, 0.0, 2500.0, 500.0), &p),
        block(rect(9000.0, 0.0, 9500.0, 500.0), &p),
    ];
    blocks[0].plan.angle_deg = d(178.0);
    blocks[1].plan.angle_deg = d(2.0);
    let plans = plan_on_grids(&blocks, &p, &tools());
    assert_eq!(plans.len(), 2);
    // the group of the first two is labelled by the second
    assert!((f(plans[0].area_ac) * 43560.0 - 1250000.0).abs() < 1e-3);
    assert_eq!(f(plans[0].angle_deg), 0.0);
    blocks[0].plan.angle_deg = d(30.0);
    assert_eq!(plan_on_grids(&blocks, &p, &tools()).len(), 3);
}

#[test]
fn a_rectangle_needs_no_cells() {
    let p = AircraftParams::default();
    let part = rect(0.0, 0.0, 2000.0, 600.0);
    let (plans, cost) = bcd_plan(&part, &p, d(4.0), &tools());
    assert_eq!(plans.len(), 1);
    assert_eq!(f(plans[0].angle_deg), 0.0);
    assert_eq!(f(cost), f(block_cost(&plans[0], &p)));
    assert_eq!(f(plans[0].spray_ft), 24000.0);
}

#[test]
fn cells_cost_no_more_than_one_direction() {
    let p = AircraftParams::default();
    // two long legs at right angles
    let part = poly(&[
        (0.0, 0.0), (4000.0, 0.0), (4000.0, 400.0), (400.0, 400.0), (400.0, 4000.0), (0.0, 4000.0),
    ]);
    let g = Geom::Poly(part.clone());
    let coarse = best_single_direction(&g, &p, d(4.0), 8, &sin_cos);
    let base = refine(&g, coarse.angle_deg, &p, &sin_cos);
    let (plans, cost) = bcd_plan(&part, &p, d(4.0), &tools());
    assert!(f(cost) < f(block_cost(&base, &p)));
    assert_eq!(plans.len(), 2);
    assert_eq!(f(cost), f(sum_costs(&plans, &p).plus(time_among(plans.len(), &p))));
    let mut angles: Vec<f64> = plans.iter().map(|r| f(r.angle_deg)).collect();
    angles.sort_by(|x, y| x.partial_cmp(y).unwrap());
    assert_eq!(angles, vec![0.0, 90.0]);
}

#[test]
fn a_field_takes_the_better_of_whole_and_parts() {
    let p = AircraftParams::default();
    let g = Geom::Multi(vec![
        rect(0.0, 0.0, 100.0, 100.0),
        rect(20000.0, 0.0, 20400.0, 2500.0),
        rect(0.0, 0.0, 3000.0, 400.0),
    ]);
    let joint = best_single_direction(&g, &p, d(2.0), 8, &sin_cos);
    let whole = combined_time(&vec![joint], &p, d(0.0));
    let (plans, t) = plan_field(&g, &p, d(2.0), &tools());
    assert!(f(t) <= f(whole));
    assert_eq!(plans.len(), 2);
    // the larger part comes first, the smallest is not planned
    assert_eq!(f(plans[0].angle_deg), 0.0);
    assert_eq!(f(plans[1].angle_deg), 90.0);
    let transit = d(20000.0 - 3000.0).plus(d(1000.0));
    assert_eq!(f(t), f(combined_time(&plans, &p, transit)));
    assert_eq!(f(small_part()), 10890.0);
}

#[test]
fn a_quote_for_a_rectangle() {
    let p = AircraftParams::default();
    let g = Geom::Poly(rect(0.0, 0.0, 2000.0, 600.0));
    let (plans, sim, at) = quote(&g, &p, None, d(2.0), &tools()).unwrap();
    assert_eq!(plans.len(), 1);
    assert_eq!(f(plans[0].spray_ft), 24000.0);
    assert_eq!((f(at.x), f(at.y)), (0.0, 25.0));
    assert_eq!(f(sim.setup_s), 300.0);
    assert_eq!(sim.n_loads, 1);
    assert_eq!(sim.n_turns, 11);
    // back at the trailer's side after twelve lines
    assert!((f(sim.ferry_ft) - 550.0).abs() < 1e-6);
    let (_, sim, at) = quote(&g, &p, Some(pt(-100.0, 0.0)), d(2.0), &tools()).unwrap();
    assert_eq!(at, pt(-100.0, 0.0));
    assert!(f(sim.ferry_ft) > 600.0);
}

#[test]
fn a_field_of_crumbs_has_no_quote() {
    let p = AircraftParams::default();
    let g = Geom::Poly(rect(0.0, 0.0, 90.0, 90.0));
    assert!(quote(&g, &p, None, d(2.0), &tools()).is_none());
}

#[test]
fn surveys_enter_the_quote() {
    let p = AircraftParams::default();
    let g = Geom::Multi(vec![rect(0.0, 0.0, 1000.0, 500.0), rect(4000.0, 0.0, 5000.0, 500.0)]);
    let (_, sim, _) = quote(&g, &p, None, d(2.0), &tools()).unwrap();
    assert_eq!(f(sim.setup_s), 120.0 + 2.0 * 180.0);
}

fn corners() -> Vec<(Double, Double)> {
    [(-93.6, 41.6), (-93.594, 41.6), (-93.594, 41.603), (-93.6, 41.603), (-93.6, 41.6)]
        .iter()
        .map(|&(x, y)| (d(x), d(y)))
        .collect()
}

#[test]
fn lines_on_the_earth() {
    let r = plan_lines(&corners(), &vec![], d(0.0), None, None, &tools(), &globe()).unwrap();
    let acres = f(r.field_area_acres);
    assert!(acres > 40.0 && acres < 42.0, "{acres}");
    assert!(f(r.total_spray_distance_ft) * 50.0 / 43560.0 > 0.95 * acres);
    let b = f(r.bearing_deg);
    assert!(b < 2.0 || b > 178.0, "{b}");
    assert!(r.lines.len() >= 20 && r.lines.len() <= 24);
    for l in &r.lines {
        assert!(l.4);
        for (lon, lat) in [(l.0, l.1), (l.2, l.3)] {
            assert!(f(lon) > -93.6001 && f(lon) < -93.5939);
            assert!(f(lat) > 41.5999 && f(lat) < 41.6031);
        }
    }
    // the trailer moves no line, an open ring is the same ring, a swath changes the lines
    let other = plan_lines(
        &corners()[..4].to_vec(), &vec![], d(-3.0), Some((d(-93.7), d(41.5))), None, &tools(), &globe(),
    )
    .unwrap();
    assert_eq!(other.lines, r.lines);
    // nor do gallons per acre
    for gpa in [0.1, 3.7, 10.0, 40.0] {
        let same =
            plan_lines(&corners(), &vec![], d(0.0), None, Some(d(gpa)), &tools(), &globe()).unwrap();
        assert_eq!(same.lines, r.lines);
        assert_eq!(same.total_spray_distance_ft, r.total_spray_distance_ft);
        assert_eq!((same.field_area_acres, same.bearing_deg), (r.field_area_acres, r.bearing_deg));
    }
    let wide = plan_lines(&corners(), &vec![], d(100.0), None, Some(d(5.0)), &tools(), &globe()).unwrap();
    assert!(wide.lines.len() < r.lines.len());
}

#[test]
fn no_lines_for_a_crumb() {
    let tiny: Vec<(Double, Double)> =
        [(0.0, 0.0), (0.0001, 0.0), (0.0001, 0.0001)].iter().map(|&(x, y)| (d(x), d(y))).collect();
    assert!(plan_lines(&tiny, &vec![], d(50.0), None, None, &tools(), &globe()).is_none());
}

#[test]
fn parameters_that_are_not_positive_are_the_usual_ones() {
    let p = params_for(d(0.0), Some(d(-1.0)));
    assert_eq!((f(p.swath_ft), f(p.gpa)), (50.0, 2.0));
    let p = params_for(d(f64::NAN), None);
    assert_eq!((f(p.swath_ft), f(p.gpa)), (50.0, 2.0));
    let p = params_for(d(60.0), Some(d(3.0)));
    assert_eq!((f(p.swath_ft), f(p.gpa)), (60.0, 3.0));
}

#[test]
fn plans_are_drawn_in_order() {
    let p = AircraftParams::default();
    let g = Geom::Poly(rect(0.0, 0.0, 1000.0, 100.0));
    let r = plan_single_direction(&g, d(0.0), &p, &sin_cos);
    let drawn = draw_lines(&vec![r.clone(), r], d(43560.0), pt(10.0, 50.0), &hypot, &globe());
    assert_eq!(drawn.lines.len(), 4);
    assert_eq!(drawn.lines[0], drawn.lines[2]);
    assert_eq!(f(drawn.total_spray_distance_ft), 4000.0);
    assert_eq!(f(drawn.field_area_acres), 1.0);
    // the first end lies 25 ft north of the centre
    assert!((f(drawn.lines[0].0) - 10.0).abs() < 1e-9);
    assert!(f(drawn.lines[0].1) > 50.0);
    let none = draw_lines(&vec![], d(0.0), pt(0.0, 0.0), &hypot, &globe());
    assert_eq!((none.lines.len(), f(none.bearing_deg)), (0, 0.0));
}

#[test]
fn the_cheapest_plans_are_kept() {
    let p = AircraftParams::default();
    let fields = [
        notched(10.0),
        poly(&[(0.0, 0.0), (4000.0, 0.0), (4000.0, 400.0), (400.0, 400.0), (400.0, 4000.0), (0.0, 4000.0)]),
    ];
    for part in fields {
        let g = Geom::Poly(part.clone());
        let coarse = best_single_direction(&g, &p, d(4.0), 8, &sin_cos);
        let base = refine(&g, coarse.angle_deg, &p, &sin_cos);
        let (_, kept) = bcd_plan(&part, &p, d(4.0), &tools());
        assert!(f(kept) <= f(block_cost(&base, &p)));
        let mut tried = 0;
        for sweep in [0.0, 90.0] {
            let cells = decompose(&part, d(sweep), least_cell(), &tools());
            if cells.len() > 1 {
                tried += 1;
                let mut blocks = vec![];
                for geom in cells {
                    let plan = best_single_direction(&geom, &p, d(4.0), 8, &sin_cos);
                    blocks.push(Block { geom, plan });
                }
                let quick = merge_blocks(blocks, Effort::Quick, &p, &tools());
                let full = merge_blocks(quick, Effort::Full(d(4.0)), &p, &tools());
                let plans = plan_on_grids(&full, &p, &tools());
                let cost = sum_costs(&plans, &p).plus(time_among(plans.len(), &p));
                assert!(!cost.lt(kept));
            }
        }
        assert!(tried > 0);
    }
}
