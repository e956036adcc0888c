//! Fields out of KML texts, and places on the earth in feet about a centre.
use vstd::prelude::*;
use vstd::slice::slice_subrange;
use vstd::string::*;

use crate::double::Double;
use crate::geom::{
    lemma_polygon_views_push, polygon_views, Geom, GeomView, Polygon, PolygonView, Pt,
};
use crate::markup::{blocks, find_blocks, text_bytes};
use crate::rings::open_poly;
use crate::search::to_radians;
use crate::tools::{
    geodesic_is, geodesic_total, hypot_is, hypot_total, parse_is, parse_total, trig_is, trig_total,
    Geodesic, Globe, GlobeMeaning, Hypot, Parse, Trig,
};

verus! {

// ---------------------------------------------------------------------------
// Words
// ---------------------------------------------------------------------------

/// Byte `i` of a text; 0 behind its end.
pub open spec fn byte_at(b: Seq<u8>, i: int) -> u8 {
    if 0 <= i < b.len() {
        b[i]
    } else {
        0
    }
}

/// The length of the white space that starts at byte `i` of a text in UTF-8; 0
/// where none does.
pub open spec fn space_at(b: Seq<u8>, i: int) -> int {
    let (x, y, z) = (byte_at(b, i), byte_at(b, i + 1), byte_at(b, i + 2));
    if 9 <= x <= 13 || x == 32 {
        1
    } else if x == 0xC2 && (y == 0x85 || y == 0xA0) {
        2
    } else if (x == 0xE1 && y == 0x9A && z == 0x80) || (x == 0xE2 && y == 0x80 && (0x80 <= z <= 0x8A
        || z == 0xA8 || z == 0xA9 || z == 0xAF)) || (x == 0xE2 && y == 0x81 && z == 0x9F) || (x == 0xE3
        && y == 0x80 && z == 0x80) {
        3
    } else {
        0
    }
}

/// Where the white space from byte `i` on ends.
pub open spec fn space_end(b: Seq<u8>, i: int) -> int
    decreases b.len() - i,
{
    if i < b.len() && space_at(b, i) > 0 {
        space_end(b, i + space_at(b, i))
    } else {
        i
    }
}

/// Where the word from byte `i` on ends.
pub open spec fn word_end(b: Seq<u8>, i: int) -> int
    decreases b.len() - i,
{
    if i < b.len() && space_at(b, i) == 0 {
        word_end(b, i + 1)
    } else {
        i
    }
}

/// The words from byte `i` on.
pub open spec fn words(b: Seq<u8>, i: int) -> Seq<Seq<u8>>
    decreases b.len() - i,
{
    let s = space_end(b, i);
    if s >= b.len() {
        Seq::empty()
    } else {
        proof {
            lemma_word(b, i);
        }
        seq![b.subrange(s, word_end(b, s))] + words(b, word_end(b, s))
    }
}

/// White space does not end before it starts.
pub proof fn lemma_space_end(b: Seq<u8>, i: int)
    ensures
        space_end(b, i) >= i,
        space_end(b, i) < b.len() ==> space_at(b, space_end(b, i)) == 0,
        0 <= i <= b.len() ==> space_end(b, i) <= b.len(),
    decreases b.len() - i,
{
    if i < b.len() && space_at(b, i) > 0 {
        lemma_space_end(b, i + space_at(b, i));
    }
}

/// A word does not end before it starts.
pub proof fn lemma_word_end(b: Seq<u8>, i: int)
    ensures
        word_end(b, i) >= i,
        i <= b.len() ==> word_end(b, i) <= b.len(),
    decreases b.len() - i,
{
    if i < b.len() && space_at(b, i) == 0 {
        lemma_word_end(b, i + 1);
    }
}

/// A word has a byte.
pub proof fn lemma_word(b: Seq<u8>, i: int)
    ensures
        space_end(b, i) < b.len() ==> i < word_end(b, space_end(b, i)) <= b.len(),
{
    lemma_space_end(b, i);
    if space_end(b, i) < b.len() {
        lemma_word_end(b, space_end(b, i) + 1);
    }
}

fn get_byte(b: &[u8], i: usize) -> (r: u8)
    ensures
        r == byte_at(b@, i as int),
{
    if i < b.len() {
        b[i]
    } else {
        0
    }
}

fn space_len(b: &[u8], i: usize) -> (r: usize)
    requires
        i < b@.len(),
    ensures
        r == space_at(b@, i as int),
        i + r <= b@.len(),
{
    assert(b.len() == b@.len());
    let x = get_byte(b, i);
    let y = get_byte(b, i + 1);
    let z = if i + 1 < b.len() {
        get_byte(b, i + 2)
    } else {
        0
    };
    if (9 <= x && x <= 13) || x == 32 {
        1
    } else if x == 0xC2 && (y == 0x85 || y == 0xA0) {
        2
    } else if (x == 0xE1 && y == 0x9A && z == 0x80) || (x == 0xE2 && y == 0x80 && ((0x80 <= z && z
        <= 0x8A) || z == 0xA8 || z == 0xA9 || z == 0xAF)) || (x == 0xE2 && y == 0x81 && z == 0x9F) || (x
        == 0xE3 && y == 0x80 && z == 0x80) {
        3
    } else {
        0
    }
}

// ---------------------------------------------------------------------------
// Rings
// ---------------------------------------------------------------------------

/// The place of the first comma from byte `i` on; the end where there is none.
pub open spec fn comma(b: Seq<u8>, i: int) -> int
    decreases b.len() - i,
{
    if i < b.len() && b[i] != 44 {
        comma(b, i + 1)
    } else {
        i
    }
}

/// The point that a word stands for: its first two numbers, set off by commas.
pub open spec fn point_in(q: Parse, w: Seq<u8>) -> Option<Pt> {
    let c = comma(w, 0);
    if c >= w.len() {
        None
    } else {
        let lon = q(w.subrange(0, c));
        let lat = q(w.subrange(c + 1, comma(w, c + 1)));
        match (lon, lat) {
            (Some(x), Some(y)) => Some(Pt { x, y }),
            _ => None,
        }
    }
}

/// The points that words stand for, of those that stand for any.
pub open spec fn points_in(q: Parse, w: Seq<Seq<u8>>) -> Seq<Pt>
    decreases w.len(),
{
    if w.len() == 0 {
        Seq::empty()
    } else {
        match point_in(q, w[0]) {
            Some(p) => seq![p] + points_in(q, w.skip(1)),
            None => points_in(q, w.skip(1)),
        }
    }
}

/// The first of several texts; an empty one where there is none.
pub open spec fn first_text(v: Seq<Seq<u8>>) -> Seq<u8> {
    if v.len() > 0 {
        v[0]
    } else {
        Seq::empty()
    }
}

/// The points of the first list of coordinates in a text.
pub open spec fn ring_in(q: Parse, b: Seq<u8>) -> Seq<Pt> {
    points_in(
        q,
        words(
            first_text(
                blocks(b, "<coordinates>".spec_bytes(), "</coordinates>".spec_bytes()),
            ),
            0,
        ),
    )
}

fn find_comma(b: &[u8], from: usize) -> (r: usize)
    requires
        from <= b@.len(),
    ensures
        r == comma(b@, from as int),
        from <= r <= b@.len(),
{
    let mut i = from;
    while i < b.len() && b[i] != 44
        invariant
            from <= i <= b@.len(),
            comma(b@, from as int) == comma(b@, i as int),
        decreases b@.len() - i,
    {
        i = i + 1;
    }
    i
}

/// The point that a word stands for.
fn parse_point<F: Fn(&[u8]) -> Option<Double>>(w: &[u8], parse: &F) -> (r: Option<Pt>)
    requires
        parse_total(*parse),
    ensures
        forall|q: Parse| #[trigger] parse_is(*parse, q) ==> r == point_in(q, w@),
{
    let c = find_comma(w, 0);
    if c >= w.len() {
        return None;
    }
    let lon = parse(slice_subrange(w, 0, c));
    let lat = parse(slice_subrange(w, c + 1, find_comma(w, c + 1)));
    match (lon, lat) {
        (Some(x), Some(y)) => Some(Pt { x, y }),
        _ => None,
    }
}

/// The points that the words of a text stand for.
pub fn parse_points<F: Fn(&[u8]) -> Option<Double>>(b: &[u8], parse: &F) -> (r: Vec<Pt>)
    requires
        parse_total(*parse),
    ensures
        forall|q: Parse| #[trigger] parse_is(*parse, q) ==> r@ == points_in(q, words(b@, 0)),
{
    let n = b.len();
    let mut out: Vec<Pt> = Vec::new();
    let mut i: usize = 0;
    assert forall|q: Parse| #[trigger] parse_is(*parse, q) implies out@ + points_in(q, words(b@, 0))
        == points_in(q, words(b@, 0)) by {
        assert(out@ + points_in(q, words(b@, 0)) =~= points_in(q, words(b@, 0)));
    }
    loop
        invariant_except_break
            parse_total(*parse),
            n == b@.len(),
            i <= n,
            forall|q: Parse| #[trigger]
                parse_is(*parse, q) ==> out@ + points_in(q, words(b@, i as int)) == points_in(
                    q,
                    words(b@, 0),
                ),
        ensures
            forall|q: Parse| #[trigger] parse_is(*parse, q) ==> out@ == points_in(q, words(b@, 0)),
        decreases n - i,
    {
        let ghost from = i as int;
        let mut s = i;
        loop
            invariant
                n == b@.len(),
                i <= s <= n,
                from == i,
                space_end(b@, from) == space_end(b@, s as int),
            ensures
                s == space_end(b@, from),
            decreases n - s,
        {
            if s >= n {
                break ;
            }
            let k = space_len(b, s);
            if k == 0 {
                break ;
            }
            s = s + k;
        }
        if s >= n {
            assert forall|q: Parse| #[trigger] parse_is(*parse, q) implies out@ == points_in(
                q,
                words(b@, 0),
            ) by {
                assert(out@ + points_in(q, words(b@, from)) =~= out@);
            }
            break ;
        }
        let mut e = s;
        loop
            invariant
                n == b@.len(),
                s <= e <= n,
                word_end(b@, s as int) == word_end(b@, e as int),
            ensures
                s <= e <= n,
                e == word_end(b@, s as int),
            decreases n - e,
        {
            if e >= n {
                break ;
            }
            if space_len(b, e) > 0 {
                break ;
            }
            e = e + 1;
        }
        proof {
            lemma_word(b@, from);
        }
        let w = slice_subrange(b, s, e);
        let ghost before = out@;
        let point = parse_point(w, parse);
        if let Some(p) = point {
            out.push(p);
        }
        i = e;
        assert forall|q: Parse| #[trigger] parse_is(*parse, q) implies out@ + points_in(
            q,
            words(b@, i as int),
        ) == points_in(q, words(b@, 0)) by {
            let all = words(b@, from);
            assert(all[0] == w@);
            assert(all.skip(1) =~= words(b@, i as int));
            match point {
                Some(p) => {
                    assert(before + (seq![p] + points_in(q, all.skip(1))) =~= before.push(p)
                        + points_in(q, all.skip(1)));
                },
                None => {},
            }
        }
    }
    out
}

/// The points of the first list of coordinates in a text.
pub fn parse_ring<F: Fn(&[u8]) -> Option<Double>>(block: &str, parse: &F) -> (r: Vec<Pt>)
    requires
        parse_total(*parse),
    ensures
        forall|q: Parse| #[trigger] parse_is(*parse, q) ==> r@ == ring_in(q, block.spec_bytes()),
{
    proof {
        reveal_strlit("<coordinates>");
        is_ascii_spec_bytes("<coordinates>");
    }
    let found = find_blocks(block, "<coordinates>", "</coordinates>");
    assert(text_bytes(found@).len() == found@.len());
    if found.len() > 0 {
        parse_points(found[0].as_bytes(), parse)
    } else {
        Vec::new()
    }
}

// ---------------------------------------------------------------------------
// Polygons
// ---------------------------------------------------------------------------

/// The texts of the polygons of a KML text.
pub open spec fn polygon_texts(b: Seq<u8>) -> Seq<Seq<u8>> {
    blocks(b, "<Polygon>".spec_bytes(), "</Polygon>".spec_bytes())
}

/// The texts of the outer rings in the text of a polygon.
pub open spec fn outer_texts(b: Seq<u8>) -> Seq<Seq<u8>> {
    blocks(b, "<outerBoundaryIs>".spec_bytes(), "</outerBoundaryIs>".spec_bytes())
}

/// The texts of the holes in the text of a polygon.
pub open spec fn inner_texts(b: Seq<u8>) -> Seq<Seq<u8>> {
    blocks(b, "<innerBoundaryIs>".spec_bytes(), "</innerBoundaryIs>".spec_bytes())
}

/// The polygon in a text that has an outer ring: the first, and all holes, without
/// last points that repeat the first.
pub open spec fn polygon_in(q: Parse, b: Seq<u8>) -> PolygonView {
    let holes = inner_texts(b);
    (PolygonView {
        exterior: ring_in(q, outer_texts(b)[0]),
        interiors: Seq::new(holes.len(), |i: int| ring_in(q, holes[i])),
    }).opened()
}

/// The polygons in the first `n` texts, of those that have an outer ring.
pub open spec fn polygons_in(q: Parse, texts: Seq<Seq<u8>>, n: int) -> Seq<PolygonView>
    decreases n,
{
    if n <= 0 {
        Seq::empty()
    } else if outer_texts(texts[n - 1]).len() == 0 {
        polygons_in(q, texts, n - 1)
    } else {
        polygons_in(q, texts, n - 1).push(polygon_in(q, texts[n - 1]))
    }
}

/// A polygon without points.
pub open spec fn no_polygon() -> PolygonView {
    PolygonView { exterior: Seq::empty(), interiors: Seq::empty() }
}

/// The field in a KML text: its polygons, or one without points.
pub open spec fn field_in(q: Parse, b: Seq<u8>) -> GeomView {
    let polys = polygons_in(q, polygon_texts(b), polygon_texts(b).len() as int);
    if polys.len() > 1 {
        GeomView { multi: true, parts: polys }
    } else if polys.len() == 1 {
        GeomView { multi: false, parts: polys }
    } else {
        GeomView { multi: false, parts: seq![no_polygon()] }
    }
}

/// The polygon in a text, if that has an outer ring.
fn parse_polygon<F: Fn(&[u8]) -> Option<Double>>(block: &str, parse: &F) -> (r: Option<Polygon>)
    requires
        parse_total(*parse),
    ensures
        r is Some == (outer_texts(block.spec_bytes()).len() > 0),
        forall|q: Parse| #[trigger]
            parse_is(*parse, q) && r is Some ==> r->0@ == polygon_in(q, block.spec_bytes()),
{
    proof {
        reveal_strlit("<outerBoundaryIs>");
        is_ascii_spec_bytes("<outerBoundaryIs>");
        reveal_strlit("<innerBoundaryIs>");
        is_ascii_spec_bytes("<innerBoundaryIs>");
    }
    let outer = find_blocks(block, "<outerBoundaryIs>", "</outerBoundaryIs>");
    assert(text_bytes(outer@).len() == outer@.len());
    if outer.len() == 0 {
        return None;
    }
    let exterior = parse_ring(outer[0], parse);
    let inner = find_blocks(block, "<innerBoundaryIs>", "</innerBoundaryIs>");
    assert(text_bytes(inner@).len() == inner@.len());
    let ghost holes = inner_texts(block.spec_bytes());
    let mut interiors: Vec<Vec<Pt>> = Vec::new();
    for i in 0..inner.len()
        invariant
            parse_total(*parse),
            holes == text_bytes(inner@),
            holes.len() == inner@.len(),
            interiors@.len() == i,
            forall|q: Parse, k: int|
                #![trigger parse_is(*parse, q), interiors@[k]]
                parse_is(*parse, q) && 0 <= k < i ==> interiors@[k]@ == ring_in(q, holes[k]),
    {
        let ring = parse_ring(inner[i], parse);
        interiors.push(ring);
    }
    let closed = Polygon { exterior, interiors };
    assert forall|q: Parse| #[trigger] parse_is(*parse, q) implies closed@.opened() == polygon_in(
        q,
        block.spec_bytes(),
    ) by {
        assert(closed@.interiors =~= Seq::new(holes.len(), |i: int| ring_in(q, holes[i])));
    }
    Some(open_poly(&closed))
}

/// The field in a KML text.
pub fn parse_kml<F: Fn(&[u8]) -> Option<Double>>(txt: &str, parse: &F) -> (r: Geom)
    requires
        parse_total(*parse),
    ensures
        forall|q: Parse| #[trigger] parse_is(*parse, q) ==> r@ == field_in(q, txt.spec_bytes()),
{
    proof {
        reveal_strlit("<Polygon>");
        is_ascii_spec_bytes("<Polygon>");
    }
    let texts = find_blocks(txt, "<Polygon>", "</Polygon>");
    let ghost all = polygon_texts(txt.spec_bytes());
    assert(text_bytes(texts@).len() == texts@.len());
    let mut polys: Vec<Polygon> = Vec::new();
    assert(polygon_views(polys@) =~= Seq::empty());
    for i in 0..texts.len()
        invariant
            parse_total(*parse),
            all == text_bytes(texts@),
            all.len() == texts@.len(),
            forall|q: Parse| #[trigger]
                parse_is(*parse, q) ==> polygon_views(polys@) == polygons_in(q, all, i as int),
    {
        if let Some(poly) = parse_polygon(texts[i], parse) {
            proof {
                lemma_polygon_views_push(polys@, poly);
            }
            polys.push(poly);
        }
    }
    assert(polygon_views(polys@).len() == polys@.len());
    if polys.len() > 1 {
        Geom::Multi(polys)
    } else if polys.len() == 1 {
        let ghost parts = polygon_views(polys@);
        let r = Geom::Poly(polys.remove(0));
        assert(r@.parts =~= parts);
        r
    } else {
        let r = Geom::Poly(Polygon { exterior: Vec::new(), interiors: Vec::new() });
        assert(r@.parts[0] =~= no_polygon());
        assert(r@.parts =~= seq![no_polygon()]);
        r
    }
}

/// The ring of points given by coordinates, without a last point that repeats the
/// first.
pub open spec fn ring_of_coords(c: Seq<(Double, Double)>) -> Seq<Pt> {
    crate::rings::opened_ring(Seq::new(c.len(), |i: int| Pt { x: c[i].0, y: c[i].1 }))
}

/// The ring of points given by coordinates, without a last point that repeats the
/// first.
pub fn ring_from_coords(coords: &Vec<(Double, Double)>) -> (r: Vec<Pt>)
    ensures
        r@ == ring_of_coords(coords@),
{
    let ghost all = Seq::new(coords@.len(), |i: int| Pt { x: coords@[i].0, y: coords@[i].1 });
    let mut out: Vec<Pt> = Vec::new();
    for i in 0..coords.len()
        invariant
            all == Seq::new(coords@.len(), |i: int| Pt { x: coords@[i].0, y: coords@[i].1 }),
            out@ == all.take(i as int),
    {
        out.push(Pt { x: coords[i].0, y: coords[i].1 });
        assert(out@ =~= all.take(i + 1));
    }
    assert(out@ =~= all);
    crate::rings::open_ring(&out)
}

// ---------------------------------------------------------------------------
// Feet about a centre
// ---------------------------------------------------------------------------

/// Metres in a foot.
pub open spec fn spec_m_per_ft() -> Double {
    Double::ratio(3048, 10000)
}

/// Metres in a foot.
#[verifier::when_used_as_spec(spec_m_per_ft)]
pub fn m_per_ft() -> (r: Double)
    ensures
        r == spec_m_per_ft(),
{
    Double::ratio(3048, 10000)
}

/// The point a distance in metres away in the direction whose sine and cosine are
/// given, clockwise from north; x is east and y north, in feet.
pub open spec fn feet_away(metres: Double, sc: (Double, Double)) -> Pt {
    Pt { x: metres.times(sc.0).over(m_per_ft()), y: metres.times(sc.1).over(m_per_ft()) }
}

/// The point a distance in metres away in the direction whose sine and cosine are
/// given, clockwise from north; x is east and y north, in feet.
pub fn feet_from(metres: Double, sc: (Double, Double)) -> (r: Pt)
    ensures
        r == feet_away(metres, sc),
{
    Pt { x: metres.times(sc.0).over(m_per_ft()), y: metres.times(sc.1).over(m_per_ft()) }
}

/// A place, as longitude and latitude, in feet about a centre: as far from it and
/// in the direction that the geodesic tells.
pub open spec fn local_feet(t: Trig, inverse: Geodesic, pt: Pt, center: Pt) -> Pt {
    let (metres, azimuth) = inverse(center.y, center.x, pt.y, pt.x);
    feet_away(metres, t(to_radians(azimuth)))
}

/// A place, as longitude and latitude, in feet about a centre.
pub fn lonlat_to_local_feet<
    T: Fn(Double) -> (Double, Double),
    I: Fn(Double, Double, Double, Double) -> (Double, Double),
>(pt: Pt, center: Pt, sin_cos: &T, inverse: &I) -> (r: Pt)
    requires
        trig_total(*sin_cos),
        geodesic_total(*inverse),
    ensures
        forall|t: Trig, g: Geodesic|
            #![trigger trig_is(*sin_cos, t), geodesic_is(*inverse, g)]
            trig_is(*sin_cos, t) && geodesic_is(*inverse, g) ==> r == local_feet(t, g, pt, center),
{
    let (metres, azimuth) = inverse(center.y, center.x, pt.y, pt.x);
    feet_from(metres, sin_cos(to_radians(azimuth)))
}

/// A ring in feet about a centre.
pub open spec fn ring_in_feet(t: Trig, g: Geodesic, r: Seq<Pt>, center: Pt) -> Seq<Pt> {
    Seq::new(r.len(), |i: int| local_feet(t, g, r[i], center))
}

/// A polygon in feet about a centre.
pub open spec fn polygon_in_feet(t: Trig, g: Geodesic, p: PolygonView, center: Pt) -> PolygonView {
    PolygonView {
        exterior: ring_in_feet(t, g, p.exterior, center),
        interiors: Seq::new(
            p.interiors.len(),
            |i: int| ring_in_feet(t, g, p.interiors[i], center),
        ),
    }
}

/// A geometry in feet about a centre.
pub open spec fn geom_in_feet(t: Trig, g: Geodesic, geom: GeomView, center: Pt) -> GeomView {
    GeomView {
        multi: geom.multi,
        parts: Seq::new(geom.parts.len(), |i: int| polygon_in_feet(t, g, geom.parts[i], center)),
    }
}

fn project_ring<
    T: Fn(Double) -> (Double, Double),
    I: Fn(Double, Double, Double, Double) -> (Double, Double),
>(r: &Vec<Pt>, center: Pt, sin_cos: &T, inverse: &I) -> (out: Vec<Pt>)
    requires
        trig_total(*sin_cos),
        geodesic_total(*inverse),
    ensures
        forall|t: Trig, g: Geodesic|
            #![trigger trig_is(*sin_cos, t), geodesic_is(*inverse, g)]
            trig_is(*sin_cos, t) && geodesic_is(*inverse, g) ==> out@ == ring_in_feet(
                t,
                g,
                r@,
                center,
            ),
{
    let mut out: Vec<Pt> = Vec::new();
    for i in 0..r.len()
        invariant
            trig_total(*sin_cos),
            geodesic_total(*inverse),
            out@.len() == i,
            forall|t: Trig, g: Geodesic, k: int|
                #![trigger trig_is(*sin_cos, t), geodesic_is(*inverse, g), out@[k]]
                trig_is(*sin_cos, t) && geodesic_is(*inverse, g) && 0 <= k < i ==> out@[k]
                    == local_feet(t, g, r@[k], center),
    {
        out.push(lonlat_to_local_feet(r[i], center, sin_cos, inverse));
    }
    assert forall|t: Trig, g: Geodesic|
        #![trigger trig_is(*sin_cos, t), geodesic_is(*inverse, g)]
        trig_is(*sin_cos, t) && geodesic_is(*inverse, g) implies out@ == ring_in_feet(
        t,
        g,
        r@,
        center,
    ) by {
        assert(out@ =~= ring_in_feet(t, g, r@, center));
    }
    out
}

fn project_poly<
    T: Fn(Double) -> (Double, Double),
    I: Fn(Double, Double, Double, Double) -> (Double, Double),
>(p: &Polygon, center: Pt, sin_cos: &T, inverse: &I) -> (out: Polygon)
    requires
        trig_total(*sin_cos),
        geodesic_total(*inverse),
    ensures
        forall|t: Trig, g: Geodesic|
            #![trigger trig_is(*sin_cos, t), geodesic_is(*inverse, g)]
            trig_is(*sin_cos, t) && geodesic_is(*inverse, g) ==> out@ == polygon_in_feet(
                t,
                g,
                p@,
                center,
            ),
{
    let exterior = project_ring(&p.exterior, center, sin_cos, inverse);
    let mut interiors: Vec<Vec<Pt>> = Vec::new();
    for i in 0..p.interiors.len()
        invariant
            trig_total(*sin_cos),
            geodesic_total(*inverse),
            interiors@.len() == i,
            forall|t: Trig, g: Geodesic, k: int|
                #![trigger trig_is(*sin_cos, t), geodesic_is(*inverse, g), interiors@[k]]
                trig_is(*sin_cos, t) && geodesic_is(*inverse, g) && 0 <= k < i ==> interiors@[k]@
                    == ring_in_feet(t, g, p@.interiors[k], center),
    {
        interiors.push(project_ring(&p.interiors[i], center, sin_cos, inverse));
    }
    let out = Polygon { exterior, interiors };
    assert forall|t: Trig, g: Geodesic|
        #![trigger trig_is(*sin_cos, t), geodesic_is(*inverse, g)]
        trig_is(*sin_cos, t) && geodesic_is(*inverse, g) implies out@ == polygon_in_feet(
        t,
        g,
        p@,
        center,
    ) by {
        assert(out@ =~= polygon_in_feet(t, g, p@, center));
    }
    out
}

/// A geometry in feet about its centroid, and that centroid.
pub fn to_local_feet<
    T: Fn(Double) -> (Double, Double),
    I: Fn(Double, Double, Double, Double) -> (Double, Double),
>(geom_ll: &Geom, sin_cos: &T, inverse: &I) -> (r: (Geom, Pt))
    requires
        trig_total(*sin_cos),
        geodesic_total(*inverse),
    ensures
        r.1 == geom_ll@.centroid(),
        forall|t: Trig, g: Geodesic|
            #![trigger trig_is(*sin_cos, t), geodesic_is(*inverse, g)]
            trig_is(*sin_cos, t) && geodesic_is(*inverse, g) ==> r.0@ == geom_in_feet(
                t,
                g,
                geom_ll@,
                r.1,
            ),
{
    let c = geom_ll.centroid();
    let out = match geom_ll {
        Geom::Poly(p) => Geom::Poly(project_poly(p, c, sin_cos, inverse)),
        Geom::Multi(v) => {
            let mut parts: Vec<Polygon> = Vec::new();
            for i in 0..v.len()
                invariant
                    trig_total(*sin_cos),
                    geodesic_total(*inverse),
                    parts@.len() == i,
                    forall|t: Trig, g: Geodesic, k: int|
                        #![trigger trig_is(*sin_cos, t), geodesic_is(*inverse, g), parts@[k]]
                        trig_is(*sin_cos, t) && geodesic_is(*inverse, g) && 0 <= k < i ==> parts@[k]@
                            == polygon_in_feet(t, g, v@[k]@, c),
            {
                parts.push(project_poly(&v[i], c, sin_cos, inverse));
            }
            Geom::Multi(parts)
        },
    };
    assert forall|t: Trig, g: Geodesic|
        #![trigger trig_is(*sin_cos, t), geodesic_is(*inverse, g)]
        trig_is(*sin_cos, t) && geodesic_is(*inverse, g) implies out@ == geom_in_feet(
        t,
        g,
        geom_ll@,
        c,
    ) by {
        assert(out@ =~= geom_in_feet(t, g, geom_ll@, c));
    }
    (out, c)
}

/// An angle in radians, in degrees.
pub open spec fn spec_to_degrees(rad: Double) -> Double {
    rad.times(Double::of_int(180).over(Double::pi()))
}

/// An angle in radians, in degrees.
#[verifier::when_used_as_spec(spec_to_degrees)]
pub fn to_degrees(rad: Double) -> (r: Double)
    ensures
        r == spec_to_degrees(rad),
{
    rad.times(Double::of_int(180).over(Double::pi()))
}

/// The place, as longitude and latitude, of a point in feet about a centre.
pub open spec fn lonlat(h: Hypot, m: GlobeMeaning, pt: Pt, center: Pt) -> Pt {
    let metres = h(pt.x, pt.y).times(m_per_ft());
    let azimuth = to_degrees((m.atan2)(pt.x, pt.y));
    let (lat, lon) = (m.direct)(center.y, center.x, azimuth, metres);
    Pt { x: lon, y: lat }
}

/// The place, as longitude and latitude, of a point in feet about a centre.
pub fn local_feet_to_lonlat<
    H: Fn(Double, Double) -> Double,
    I: Fn(Double, Double, Double, Double) -> (Double, Double),
    D: Fn(Double, Double, Double, Double) -> (Double, Double),
    A: Fn(Double, Double) -> Double,
>(pt: Pt, center: Pt, hypot: &H, globe: &Globe<I, D, A>) -> (r: Pt)
    requires
        hypot_total(*hypot),
        globe.total(),
    ensures
        forall|h: Hypot, m: GlobeMeaning|
            #![trigger hypot_is(*hypot, h), globe.computes(m)]
            hypot_is(*hypot, h) && globe.computes(m) ==> r == lonlat(h, m, pt, center),
{
    let metres = hypot(pt.x, pt.y).times(m_per_ft());
    let azimuth = to_degrees((globe.atan2)(pt.x, pt.y));
    let (lat, lon) = (globe.direct)(center.y, center.x, azimuth, metres);
    Pt { x: lon, y: lat }
}

/// A point of a geometry in feet is the place in feet about the same centre.
pub proof fn law_same_frame(t: Trig, g: Geodesic, geom: GeomView, center: Pt, i: int)
    requires
        0 <= i < geom.parts.len(),
    ensures
        ({
            let (before, after) = (geom.parts[i], geom_in_feet(t, g, geom, center).parts[i]);
            &&& after.exterior.len() == before.exterior.len()
            &&& after.interiors.len() == before.interiors.len()
            &&& forall|k: int|
                0 <= k < before.exterior.len() ==> #[trigger] after.exterior[k] == local_feet(
                    t,
                    g,
                    before.exterior[k],
                    center,
                )
            &&& forall|j: int, k: int|
                0 <= j < before.interiors.len() && 0 <= k < before.interiors[j].len()
                    ==> #[trigger] after.interiors[j][k] == local_feet(
                    t,
                    g,
                    before.interiors[j][k],
                    center,
                )
        }),
{
}

} // verus!
