//! KML texts, and places on the earth in feet.
use geofast::double::Double;
use geofast::geom::{Geom, Polygon, Pt};
use geofast::ingest::{
    feet_from, local_feet_to_lonlat, lonlat_to_local_feet, parse_kml, parse_points, parse_ring, ring_from_coords,
    to_local_feet,
};
use geofast::markup::find_blocks;
use geofast::tools::Globe;
use geographiclib_rs::{DirectGeodesic, Geodesic, InverseGeodesic};

fn d(x: f64) -> Double {
    Double::from_bits(x.to_bits())
}

fn f(x: Double) -> f64 {
    f64::from_bits(x.to_bits())
}

fn pt(x: f64, y: f64) -> Pt {
    Pt { x: d(x), y: d(y) }
}

fn sin_cos(x: Double) -> (Double, Double) {
    let (s, c) = f(x).sin_cos();
    (d(s), d(c))
}

fn hypot(a: Double, b: Double) -> Double {
    d(f(a).hypot(f(b)))
}

fn inverse(lat1: Double, lon1: Double, lat2: Double, lon2: Double) -> (Double, Double) {
    let g = Geodesic::wgs84();
    let (s, azi, _, _): (f64, f64, f64, f64) = g.inverse(f(lat1), f(lon1), f(lat2), f(lon2));
    (d(s), d(azi))
}

fn direct(lat: Double, lon: Double, azi: Double, s: Double) -> (Double, Double) {
    let g = Geodesic::wgs84();
    let (lat2, lon2): (f64, f64) = g.direct(f(lat), f(lon), f(azi), f(s));
    (d(lat2), d(lon2))
}

fn atan2(y: Double, x: Double) -> Double {
    d(f(y).atan2(f(x)))
}

fn number(b: &[u8]) -> Option<Double> {
    std::str::from_utf8(b).ok()?.parse::<f64>().ok().map(d)
}

fn xy(r: &[Pt]) -> Vec<(f64, f64)> {
    r.iter().map(|p| (f(p.x), f(p.y))).collect()
}

#[test]
fn blocks_between_markers() {
    let t = "x<a>one</a>y<a></a><a>two<a>three</a></a><a>open";
    assert_eq!(find_blocks(t, "<a>", "</a>"), vec!["one", "", "two<a>three"]);
    assert!(find_blocks("", "<a>", "</a>").is_empty());
    assert!(find_blocks("</a><a>", "<a>", "</a>").is_empty());
    assert_eq!(find_blocks("é[ü]ö[日本]", "[", "]"), vec!["ü", "日本"]);
    assert_eq!(find_blocks("éüéüé", "é", "é"), vec!["ü"]);
    assert_eq!(find_blocks("ab,cd,e", "", ","), vec!["ab", "cd"]);
    assert_eq!(find_blocks("(a(b", "(", ""), vec!["", ""]);
}

#[test]
fn rings_out_of_text() {
    let t = "<coordinates> 1,2,3 4.5,-6\n7 x,1 8,y 9,10,x\t1e2,0 ,5 </coordinates><coordinates>0,0</coordinates>";
    assert_eq!(xy(&parse_ring(t, &number)), vec![(1.0, 2.0), (4.5, -6.0), (9.0, 10.0), (100.0, 0.0)]);
    assert!(parse_ring("1,2", &number).is_empty());
    assert!(parse_points(b"", &number).is_empty());
}

#[test]
fn white_space_is_that_of_unicode() {
    for c in (0..=char::MAX as u32).filter_map(char::from_u32) {
        let t = format!("1,2{c}3,4");
        let n = parse_points(t.as_bytes(), &|b: &[u8]| number(b).or(Some(d(0.0)))).len();
        assert_eq!(n, if c.is_whitespace() { 2 } else { 1 }, "{:x}", c as u32);
    }
}

const FIELD: &str = "<kml><Polygon><outerBoundaryIs><LinearRing><coordinates>
  0,0,0 2,0,0 2,2,0 0,2,0 0,0,0
</coordinates></LinearRing></outerBoundaryIs><innerBoundaryIs><LinearRing><coordinates>0.5,0.5 1,0.5 1,1 0.5,0.5
</coordinates></LinearRing></innerBoundaryIs></Polygon>";

#[test]
fn one_polygon_of_a_text() {
    let g = parse_kml(FIELD, &number);
    assert!(!g.is_multi());
    let p = &g.parts()[0];
    assert_eq!(xy(&p.exterior), vec![(0.0, 0.0), (2.0, 0.0), (2.0, 2.0), (0.0, 2.0)]);
    assert_eq!(p.interiors.len(), 1);
    assert_eq!(xy(&p.interiors[0]), vec![(0.5, 0.5), (1.0, 0.5), (1.0, 1.0)]);
}

#[test]
fn several_polygons_of_a_text() {
    let t = format!("{FIELD}<Polygon>no ring</Polygon>{FIELD}");
    let g = parse_kml(&t, &number);
    assert!(g.is_multi());
    assert_eq!(g.parts().len(), 2);
}

#[test]
fn no_polygon_in_a_text() {
    let g = parse_kml("<kml></kml>", &number);
    assert!(!g.is_multi());
    assert!(g.parts()[0].exterior.is_empty() && g.parts()[0].interiors.is_empty());
}

#[test]
fn rings_out_of_coordinates() {
    let c = vec![(d(1.0), d(2.0)), (d(3.0), d(4.0)), (d(1.0), d(2.0))];
    assert_eq!(xy(&ring_from_coords(&c)), vec![(1.0, 2.0), (3.0, 4.0)]);
    assert_eq!(ring_from_coords(&c[..1].to_vec()).len(), 1);
    assert!(ring_from_coords(&vec![]).is_empty());
}

#[test]
fn feet_east_and_north() {
    let p = feet_from(d(304.8), (d(0.5), d(0.25)));
    assert_eq!((f(p.x), f(p.y)), (304.8 * 0.5 / 0.3048, 304.8 * 0.25 / 0.3048));
}

#[test]
fn places_in_feet() {
    let (center, place) = (pt(-93.6, 41.6), pt(-93.59, 41.61));
    let p = lonlat_to_local_feet(place, center, &sin_cos, &inverse);
    let g = Geodesic::wgs84();
    let (s, azi, _, _): (f64, f64, f64, f64) = g.inverse(41.6, -93.6, 41.61, -93.59);
    let a = azi.to_radians();
    assert_eq!(f(p.x), s * a.sin() / 0.3048);
    assert_eq!(f(p.y), s * a.cos() / 0.3048);
    assert!(f(p.x) > 2700.0 && f(p.x) < 2800.0);
    assert!(f(p.y) > 3600.0 && f(p.y) < 3700.0);
    let globe = Globe { inverse, direct, atan2 };
    let back = local_feet_to_lonlat(p, center, &hypot, &globe);
    assert!((f(back.x) + 93.59).abs() < 1e-10);
    assert!((f(back.y) - 41.61).abs() < 1e-10);
    let here = lonlat_to_local_feet(center, center, &sin_cos, &inverse);
    assert_eq!((f(here.x), f(here.y)), (0.0, 0.0));
}

#[test]
fn a_field_in_feet_about_its_centroid() {
    let poly = Polygon {
        exterior: vec![pt(-93.6, 41.6), pt(-93.59, 41.6), pt(-93.59, 41.61), pt(-93.6, 41.61)],
        interiors: vec![vec![pt(-93.598, 41.602), pt(-93.597, 41.602), pt(-93.597, 41.603)]],
    };
    let geom = Geom::Poly(poly);
    let (feet, center) = to_local_feet(&geom, &sin_cos, &inverse);
    assert_eq!(center, geom.centroid());
    let p = &feet.parts()[0];
    assert_eq!((p.exterior.len(), p.interiors[0].len()), (4, 3));
    let q = lonlat_to_local_feet(geom.parts()[0].exterior[2], center, &sin_cos, &inverse);
    assert_eq!(p.exterior[2], q);
    let side = f(feet.area()).sqrt();
    assert!(side > 3100.0 && side < 3200.0);
    let two = Geom::Multi(vec![geom.parts()[0].clone(), geom.parts()[0].clone()]);
    let (feet, _) = to_local_feet(&two, &sin_cos, &inverse);
    assert!(feet.is_multi());
    assert_eq!(feet.parts().len(), 2);
}
