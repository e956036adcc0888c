//! Measures of rings and polygons.
use geofast::boundary::{
    collinear_overlap, geom_distance, rings_shared_len, shared_boundary_len, sort_distinct, tenth, x_events,
};
use geofast::double::Double;
use geofast::geom::{dist, poly_distance, rotate_poly, rotate_pt, turn, Geom, Polygon, Pt};
use geofast::rings::{close_poly, close_ring, geom_from_closed, open_poly, open_ring, union_geoms};

fn d(x: f64) -> Double {
    Double::from_bits(x.to_bits())
}

fn f(x: Double) -> f64 {
    f64::from_bits(x.to_bits())
}

fn pt(x: f64, y: f64) -> Pt {
    Pt { x: d(x), y: d(y) }
}

fn ring(v: &[(f64, f64)]) -> Vec<Pt> {
    v.iter().map(|&(x, y)| pt(x, y)).collect()
}

fn poly(v: &[(f64, f64)]) -> Polygon {
    Polygon { exterior: ring(v), interiors: vec![] }
}

fn rect(x0: f64, y0: f64, x1: f64, y1: f64) -> Polygon {
    poly(&[(x0, y0), (x1, y0), (x1, y1), (x0, y1)])
}

fn with_hole() -> Polygon {
    Polygon {
        exterior: ring(&[(0.0, 0.0), (10.0, 0.0), (10.0, 10.0), (0.0, 10.0)]),
        interiors: vec![ring(&[(6.0, 6.0), (6.0, 8.0), (8.0, 8.0), (8.0, 6.0)])],
    }
}

fn hypot(a: Double, b: Double) -> Double {
    d(f(a).hypot(f(b)))
}

fn sin_cos(x: Double) -> (Double, Double) {
    let (s, c) = f(x).sin_cos();
    (d(s), d(c))
}

#[test]
fn areas() {
    assert_eq!(f(rect(0.0, 0.0, 4.0, 3.0).area()), 12.0);
    assert_eq!(f(with_hole().area()), 96.0);
    assert_eq!(f(poly(&[(0.0, 0.0), (0.0, 2.0), (2.0, 0.0)]).area()), 2.0);
    assert_eq!(f(poly(&[(0.0, 0.0), (5.0, 5.0)]).area()), 0.0);
    assert_eq!(f(poly(&[]).area()), 0.0);
}

#[test]
fn centroids() {
    let c = rect(0.0, 0.0, 4.0, 2.0).centroid();
    assert_eq!((f(c.x), f(c.y)), (2.0, 1.0));
    let c = with_hole().centroid();
    assert_eq!((f(c.x), f(c.y)), ((5.0 * 100.0 - 7.0 * 4.0) / 96.0, (5.0 * 100.0 - 7.0 * 4.0) / 96.0));
    // no area: the mean of the points
    let c = poly(&[(0.0, 0.0), (2.0, 0.0), (4.0, 0.0)]).centroid();
    assert_eq!((f(c.x), f(c.y)), (2.0, 0.0));
    let c = poly(&[(3.0, 5.0)]).centroid();
    assert_eq!((f(c.x), f(c.y)), (3.0, 5.0));
    let c = poly(&[]).centroid();
    assert_eq!((f(c.x), f(c.y)), (0.0, 0.0));
}

#[test]
fn bounds() {
    let (x0, y0, x1, y1) = with_hole().bounds();
    assert_eq!((f(x0), f(y0), f(x1), f(y1)), (0.0, 0.0, 10.0, 10.0));
    let (x0, _, x1, _) = poly(&[]).bounds();
    assert_eq!((f(x0), f(x1)), (f64::INFINITY, f64::NEG_INFINITY));
    let p = poly(&[(3.0, -1.0), (-2.0, 7.5), (0.0, 0.0)]);
    let (x0, y0, x1, y1) = p.bounds();
    assert_eq!((f(x0), f(y0), f(x1), f(y1)), (-2.0, -1.0, 3.0, 7.5));
    for q in &p.exterior {
        assert!(x0.le(q.x) && q.x.le(x1) && y0.le(q.y) && q.y.le(y1));
    }
}

#[test]
fn geometries_of_parts() {
    let one: Geom = rect(0.0, 0.0, 2.0, 2.0).into();
    assert!(!one.is_multi());
    assert_eq!(one.parts().len(), 1);
    assert_eq!(f(one.area()), 4.0);
    let two = Geom::Multi(vec![rect(0.0, 0.0, 2.0, 2.0), with_hole()]);
    assert!(two.is_multi());
    assert_eq!(two.parts().len(), 2);
    assert_eq!(f(two.area()), 100.0);
    assert_eq!(two.all_rings().len(), 3);
    assert_eq!(two.exterior_verts().len(), 8);
    let c = two.centroid();
    let h = (5.0 * 100.0 - 7.0 * 4.0) / 96.0;
    assert_eq!(f(c.x), (0.0 + 1.0 * 4.0 + h * 96.0) / 100.0);
    assert_eq!(with_hole().rings().len(), 2);
    // parts without area: the centroid of the first
    let flat = Geom::Multi(vec![poly(&[(1.0, 2.0)]), poly(&[(5.0, 5.0)])]);
    let c = flat.centroid();
    assert_eq!((f(c.x), f(c.y)), (1.0, 2.0));
    assert_eq!(f(Geom::Multi(vec![]).area()).to_bits(), (-0.0f64).to_bits());
}

#[test]
fn turns() {
    let p = turn(pt(3.0, 1.0), (d(1.0), d(0.0)), pt(1.0, 1.0));
    assert_eq!((f(p.x), f(p.y)), (1.0, 3.0));
    let p = rotate_pt(pt(3.0, 1.0), d(0.0), pt(1.0, 1.0), &sin_cos);
    assert_eq!((f(p.x), f(p.y)), (3.0, 1.0));
    let p = rotate_pt(pt(2.0, 0.0), d(90.0), pt(0.0, 0.0), &sin_cos);
    assert!(f(p.x).abs() < 1e-12 && (f(p.y) - 2.0).abs() < 1e-12);
    let th = (33.0 * std::f64::consts::PI) / 180.0;
    let (s, c) = (th.sin(), th.cos());
    let p = rotate_pt(pt(7.0, -2.0), d(33.0), pt(1.5, 4.0), &sin_cos);
    let xoff = 1.5 - 1.5 * c + 4.0 * s;
    let yoff = 4.0 - 1.5 * s - 4.0 * c;
    assert_eq!(f(p.x), c * 7.0 - s * -2.0 + xoff);
    assert_eq!(f(p.y), s * 7.0 + c * -2.0 + yoff);
    let q = rotate_poly(&with_hole(), d(180.0), pt(5.0, 5.0), &sin_cos);
    assert_eq!(q.interiors[0].len(), 4);
    assert!((f(q.exterior[0].x) - 10.0).abs() < 1e-12);
}

#[test]
fn distances() {
    assert_eq!(f(dist(pt(0.0, 0.0), pt(3.0, 4.0), &hypot)), 5.0);
    let (a, b) = (rect(0.0, 0.0, 1.0, 1.0), rect(4.0, 5.0, 6.0, 7.0));
    assert_eq!(f(poly_distance(&a, &b, &hypot)), 5.0);
    assert_eq!(f(poly_distance(&a, &rect(0.5, 0.5, 2.0, 2.0), &hypot)), 0.0);
    assert_eq!(f(poly_distance(&a, &rect(1.0, 0.0, 2.0, 1.0), &hypot)), 0.0);
    // one inside the other: the distance of the boundaries
    assert_eq!(f(poly_distance(&rect(0.0, 0.0, 10.0, 10.0), &rect(4.0, 4.0, 6.0, 6.0), &hypot)), 4.0);
    assert_eq!(f(poly_distance(&a, &poly(&[]), &hypot)), f64::INFINITY);
    let g = Geom::Multi(vec![b, rect(3.0, 0.0, 3.5, 1.0)]);
    assert_eq!(f(geom_distance(&Geom::Poly(a), &g, &hypot)), 2.0);
}

#[test]
fn shared_boundaries() {
    let o = |a: (f64, f64), b: (f64, f64), p: (f64, f64), q: (f64, f64)| {
        f(collinear_overlap((pt(a.0, a.1), pt(b.0, b.1)), (pt(p.0, p.1), pt(q.0, q.1)), &hypot))
    };
    assert_eq!(o((0.0, 0.0), (10.0, 0.0), (4.0, 0.0), (12.0, 0.0)), 6.0);
    assert_eq!(o((0.0, 0.0), (10.0, 0.0), (12.0, 0.0), (4.0, 0.0)), 6.0);
    assert_eq!(o((0.0, 0.0), (10.0, 0.0), (12.0, 0.0), (14.0, 0.0)), 0.0);
    assert_eq!(o((0.0, 0.0), (10.0, 0.0), (4.0, 1.0), (12.0, 1.0)), 0.0);
    assert_eq!(o((0.0, 0.0), (0.0, 0.0), (0.0, 0.0), (12.0, 0.0)), 0.0);
    let (a, b) = (rect(0.0, 0.0, 2.0, 3.0), rect(2.0, 1.0, 5.0, 9.0));
    assert_eq!(f(rings_shared_len(&a, &b, &hypot)), 2.0);
    let g = Geom::Multi(vec![b, rect(0.0, 3.0, 1.0, 4.0)]);
    assert_eq!(f(shared_boundary_len(&Geom::Poly(a), &g, &hypot)), 3.0);
}

#[test]
fn events_of_a_sweep() {
    let u = poly(&[
        (0.0, 0.0), (300.0, 0.0), (300.0, 300.0), (200.0, 300.0), (200.0, 100.0), (100.0, 100.0),
        (100.0, 300.0), (0.0, 300.0),
    ]);
    let xs: Vec<f64> = x_events(&u).into_iter().map(f).collect();
    assert_eq!(xs, vec![0.0, 100.0, 200.0, 300.0]);
    let diamond = poly(&[(0.04, 0.0), (5.0, -5.0), (10.0, 0.0), (5.0, 5.0)]);
    let xs: Vec<f64> = x_events(&diamond).into_iter().map(f).collect();
    assert_eq!(xs, vec![0.0, 10.0]);
    let xs: Vec<f64> = x_events(&with_hole()).into_iter().map(f).collect();
    assert_eq!(xs, vec![0.0, 6.0, 8.0, 10.0]);
    assert_eq!(f(tenth(d(1.25))), 1.3);
    assert_eq!(f(tenth(d(-1.25))), -1.3);
    let v: Vec<Double> = [90.0, 0.0, 12.5, 90.0, -0.0].iter().map(|&x| d(x)).collect();
    let s: Vec<f64> = sort_distinct(&v).into_iter().map(f).collect();
    assert_eq!(s, vec![0.0, 12.5, 90.0]);
}

#[test]
fn rings_open_and_close() {
    let r = ring(&[(0.0, 0.0), (1.0, 0.0), (1.0, 1.0)]);
    let c = close_ring(&r);
    assert_eq!(c.len(), 4);
    assert_eq!(c[3], r[0]);
    assert_eq!(open_ring(&c), r);
    assert_eq!(open_ring(&r), r);
    assert_eq!(open_ring(&close_ring(&ring(&[(2.0, 3.0)]))), ring(&[(2.0, 3.0)]));
    assert!(close_ring(&vec![]).is_empty());
    // the two zeros are one place
    assert_eq!(open_ring(&ring(&[(0.0, 0.0), (1.0, 0.0), (-0.0, 0.0)])).len(), 2);
    // what is not a number is no place
    assert_eq!(open_ring(&close_ring(&ring(&[(f64::NAN, 0.0), (1.0, 0.0)]))).len(), 3);
    let p = close_poly(&with_hole());
    assert_eq!((p.exterior.len(), p.interiors[0].len()), (5, 5));
    let q = open_poly(&p);
    assert_eq!((q.exterior, q.interiors), (with_hole().exterior, with_hole().interiors));
}

#[test]
fn unions_hand_over_closed_rings() {
    let first = |v: &Vec<Polygon>| -> Vec<Polygon> {
        assert!(v.iter().all(|p| p.exterior.first() == p.exterior.last()));
        vec![v[0].clone()]
    };
    let all = |v: &Vec<Polygon>| -> Vec<Polygon> { v.clone() };
    let geoms = vec![
        Geom::Poly(rect(0.0, 0.0, 1.0, 1.0)),
        Geom::Multi(vec![rect(2.0, 0.0, 3.0, 1.0), rect(4.0, 0.0, 5.0, 1.0)]),
    ];
    let g = union_geoms(&geoms, &vec![1, 0], &first);
    assert!(!g.is_multi());
    assert_eq!(g.parts()[0].exterior, rect(2.0, 0.0, 3.0, 1.0).exterior);
    let g = union_geoms(&geoms, &vec![0, 1], &all);
    assert!(g.is_multi());
    assert_eq!(g.parts().len(), 3);
    assert_eq!(g.parts()[2].exterior.len(), 4);
    assert!(geom_from_closed(&vec![]).is_multi());
}

#[test]
fn turns_there_and_back() {
    let corners = [(0.0, 0.0), (1320.0, 40.0), (-2640.5, 917.25), (0.001, -5280.0)];
    let m = 5280.0;
    for deg in [0.0, 17.0, 30.0, 45.0, 89.5, 90.0, 133.3, 180.0, 271.0] {
        for (ox, oy) in corners {
            let o = pt(ox, oy);
            // the centre stays
            let c = rotate_pt(o, d(deg), o, &sin_cos);
            assert!((f(c.x) - ox).abs() <= m / 281474976710656.0);
            assert!((f(c.y) - oy).abs() <= m / 281474976710656.0);
            let mut turned = vec![];
            for (x, y) in corners {
                let q = rotate_pt(pt(x, y), d(deg), o, &sin_cos);
                let b = rotate_pt(q, d(-deg), o, &sin_cos);
                assert!((f(b.x) - x).abs() <= m / 17592186044416.0);
                assert!((f(b.y) - y).abs() <= m / 17592186044416.0);
                turned.push(q);
            }
            // distances stay
            for i in 0..corners.len() {
                for j in 0..i {
                    let before = f(dist(
                        pt(corners[i].0, corners[i].1),
                        pt(corners[j].0, corners[j].1),
                        &hypot,
                    ));
                    let after = f(dist(turned[i], turned[j], &hypot));
                    assert!((before - after).abs() < 1e-9);
                }
            }
        }
    }
    // a quarter turn is counterclockwise
    let q = turn(pt(1.0, 0.0), (d(1.0), d(0.0)), pt(0.0, 0.0));
    assert_eq!((f(q.x), f(q.y)), (0.0, 1.0));
    let q = turn(pt(2.5, 7.0), (d(1.0), d(0.0)), pt(0.0, 0.0));
    assert_eq!((f(q.x), f(q.y)), (-7.0, 2.5));
    // no turn moves nothing
    let q = turn(pt(0.1, -7.3), (d(0.0), d(1.0)), pt(3.3, 1e6));
    assert_eq!((f(q.x), f(q.y)), (0.1, -7.3));
}
