//! Spray lines for one field, from places on the earth to places on the earth.
use vstd::prelude::*;

use crate::double::Double;
use crate::geom::{Geom, GeomView, Polygon, PolygonView, Pt};
use crate::ingest::{
    geom_in_feet, local_feet, local_feet_to_lonlat, lonlat, lonlat_to_local_feet, ring_from_coords,
    ring_of_coords, to_local_feet,
};
use crate::params::{acre_ft2, default_params, AircraftParams};
use crate::plan::{plan_views, LinePart, PlanResult, PlanView};
use crate::tools::{hypot_is, hypot_total, Globe, GlobeMeaning, Hypot, Meaning, Tools};
use crate::{quote_for, quoted_for};

verus! {

/// A line on the earth: longitude and latitude of its ends, and whether it is
/// sprayed.
pub type LonLatLine = (Double, Double, Double, Double, bool);

/// What a field's lines come to.
pub struct FieldLines {
    pub lines: Vec<LonLatLine>,
    /// The length of all sprayed lines.
    pub total_spray_distance_ft: Double,
    pub field_area_acres: Double,
    /// The direction of the first plan.
    pub bearing_deg: Double,
}

/// What a [`FieldLines`] holds.
#[verifier::ext_equal]
pub struct FieldLinesView {
    pub lines: Seq<LonLatLine>,
    pub total_spray_distance_ft: Double,
    pub field_area_acres: Double,
    pub bearing_deg: Double,
}

impl View for FieldLines {
    type V = FieldLinesView;

    open spec fn view(&self) -> FieldLinesView {
        FieldLinesView {
            lines: self.lines@,
            total_spray_distance_ft: self.total_spray_distance_ft,
            field_area_acres: self.field_area_acres,
            bearing_deg: self.bearing_deg,
        }
    }
}

/// A part of a line on the earth.
pub open spec fn on_earth(h: Hypot, g: GlobeMeaning, part: LinePart, center: Pt) -> LonLatLine {
    let a = lonlat(h, g, part.0, center);
    let b = lonlat(h, g, part.1, center);
    (a.x, a.y, b.x, b.y, part.2)
}

/// The parts of a line on the earth.
pub open spec fn line_on_earth(h: Hypot, g: GlobeMeaning, line: Seq<LinePart>, center: Pt) -> Seq<
    LonLatLine,
> {
    Seq::new(line.len(), |i: int| on_earth(h, g, line[i], center))
}

/// The parts of the first `n` lines on the earth.
pub open spec fn lines_on_earth(
    h: Hypot,
    g: GlobeMeaning,
    lines: Seq<Seq<LinePart>>,
    center: Pt,
    n: int,
) -> Seq<LonLatLine>
    decreases n,
{
    if n <= 0 {
        Seq::empty()
    } else {
        lines_on_earth(h, g, lines, center, n - 1) + line_on_earth(h, g, lines[n - 1], center)
    }
}

/// The parts of all lines of the first `n` plans on the earth.
pub open spec fn plans_on_earth(
    h: Hypot,
    g: GlobeMeaning,
    plans: Seq<PlanView>,
    center: Pt,
    n: int,
) -> Seq<LonLatLine>
    decreases n,
{
    if n <= 0 {
        Seq::empty()
    } else {
        plans_on_earth(h, g, plans, center, n - 1) + lines_on_earth(
            h,
            g,
            plans[n - 1].lines,
            center,
            plans[n - 1].lines.len() as int,
        )
    }
}

/// The length that the first `n` plans spray.
pub open spec fn spray_sum(plans: Seq<PlanView>, n: int) -> Double
    decreases n,
{
    if n <= 0 {
        Double::negative_zero()
    } else {
        spray_sum(plans, n - 1).plus(plans[n - 1].spray_ft)
    }
}

/// The constants of a job with a swath and gallons per acre, where these are
/// positive.
pub open spec fn job_params(swath_ft: Double, gpa: Option<Double>) -> AircraftParams {
    let base = default_params();
    AircraftParams {
        swath_ft: if Double::zero().lt(swath_ft) {
            swath_ft
        } else {
            base.swath_ft
        },
        gpa: match gpa {
            Some(g) => if Double::zero().lt(g) {
                g
            } else {
                base.gpa
            },
            None => base.gpa,
        },
        ..base
    }
}

/// The constants of a job with a swath and gallons per acre, where these are
/// positive.
pub fn params_for(swath_ft: Double, gpa: Option<Double>) -> (r: AircraftParams)
    ensures
        r == job_params(swath_ft, gpa),
{
    let mut p = AircraftParams::default();
    if Double::zero().lt(swath_ft) {
        p.swath_ft = swath_ft;
    }
    if let Some(g) = gpa {
        if Double::zero().lt(g) {
            p.gpa = g;
        }
    }
    p
}

/// The coordinates of rings.
pub open spec fn coord_views(v: Seq<Vec<(Double, Double)>>) -> Seq<Seq<(Double, Double)>> {
    Seq::new(v.len(), |i: int| v[i]@)
}

/// The field of one polygon given by coordinates.
pub open spec fn field_of(exterior: Seq<(Double, Double)>, holes: Seq<Seq<(Double, Double)>>) -> GeomView {
    GeomView {
        multi: false,
        parts: seq![
            PolygonView {
                exterior: ring_of_coords(exterior),
                interiors: Seq::new(holes.len(), |i: int| ring_of_coords(holes[i])),
            },
        ],
    }
}

/// What a field's lines come to, out of its plans in feet about a centre.
pub open spec fn lines_of_plans(
    h: Hypot,
    g: GlobeMeaning,
    plans: Seq<PlanView>,
    area: Double,
    center: Pt,
) -> FieldLinesView {
    FieldLinesView {
        lines: plans_on_earth(h, g, plans, center, plans.len() as int),
        total_spray_distance_ft: spray_sum(plans, plans.len() as int),
        field_area_acres: area.over(acre_ft2()),
        bearing_deg: if plans.len() > 0 {
            plans[0].angle_deg
        } else {
            Double::zero()
        },
    }
}

/// The lines of a field; none where it has no plans. Gallons per acre enter the
/// flight of the job, not its plans.
pub open spec fn planned_lines(
    m: Meaning,
    g: GlobeMeaning,
    field: GeomView,
    swath_ft: Double,
    trailer: Option<(Double, Double)>,
    gpa: Option<Double>,
) -> Option<FieldLinesView> {
    let center = field.centroid();
    let feet = geom_in_feet(m.sin_cos, g.inverse, field, center);
    let at = match trailer {
        Some((lon, lat)) => local_feet(m.sin_cos, g.inverse, Pt { x: lon, y: lat }, center),
        None => Pt { x: Double::zero(), y: Double::zero() },
    };
    let (planned, flown) = (job_params(swath_ft, None), job_params(swath_ft, gpa));
    match quoted_for(m, feet, planned, flown, Some(at), Double::of_int(2)) {
        None => None,
        Some((plans, _, _)) => Some(lines_of_plans(m.hypot, g, plans, feet.area(), center)),
    }
}

/// What optional lines hold.
pub open spec fn lines_view(r: Option<FieldLines>) -> Option<FieldLinesView> {
    match r {
        Some(l) => Some(l@),
        None => None,
    }
}

/// The field of one polygon given by coordinates.
fn field_from(exterior: &Vec<(Double, Double)>, holes: &Vec<Vec<(Double, Double)>>) -> (r: Geom)
    ensures
        r@ == field_of(exterior@, coord_views(holes@)),
{
    let mut interiors: Vec<Vec<Pt>> = Vec::new();
    for i in 0..holes.len()
        invariant
            interiors@.len() == i,
            forall|k: int|
                0 <= k < i ==> (#[trigger] interiors@[k])@ == ring_of_coords(holes@[k]@),
    {
        interiors.push(ring_from_coords(&holes[i]));
    }
    let poly = Polygon { exterior: ring_from_coords(exterior), interiors };
    assert(poly@ =~= field_of(exterior@, coord_views(holes@)).parts[0]);
    let r = Geom::Poly(poly);
    assert(r@ =~= field_of(exterior@, coord_views(holes@)));
    r
}

/// What a field's lines come to, out of its plans in feet about a centre.
pub fn draw_lines<
    H: Fn(Double, Double) -> Double,
    I: Fn(Double, Double, Double, Double) -> (Double, Double),
    D: Fn(Double, Double, Double, Double) -> (Double, Double),
    A: Fn(Double, Double) -> Double,
>(
    plans: &Vec<PlanResult>,
    area: Double,
    center: Pt,
    hypot: &H,
    globe: &Globe<I, D, A>,
) -> (r: FieldLines)
    requires
        hypot_total(*hypot),
        globe.total(),
    ensures
        forall|h: Hypot, g: GlobeMeaning|
            #![trigger hypot_is(*hypot, h), globe.computes(g)]
            hypot_is(*hypot, h) && globe.computes(g) ==> r@ == lines_of_plans(
                h,
                g,
                plan_views(plans@),
                area,
                center,
            ),
{
    let mut total = Double::negative_zero();
    let mut out: Vec<LonLatLine> = Vec::new();
    for i in 0..plans.len()
        invariant
            hypot_total(*hypot),
            globe.total(),
            total == spray_sum(plan_views(plans@), i as int),
            forall|h: Hypot, g: GlobeMeaning|
                #![trigger hypot_is(*hypot, h), globe.computes(g)]
                hypot_is(*hypot, h) && globe.computes(g) ==> out@ == plans_on_earth(
                    h,
                    g,
                    plan_views(plans@),
                    center,
                    i as int,
                ),
    {
        total = total.plus(plans[i].spray_ft);
        let mut some = draw_plan(&plans[i], center, hypot, globe);
        out.append(&mut some);
    }
    let bearing_deg = if plans.len() > 0 {
        plans[0].angle_deg
    } else {
        Double::zero()
    };
    FieldLines {
        lines: out,
        total_spray_distance_ft: total,
        field_area_acres: area.over(acre_ft2()),
        bearing_deg,
    }
}

/// The parts of all lines of a plan on the earth.
fn draw_plan<
    H: Fn(Double, Double) -> Double,
    I: Fn(Double, Double, Double, Double) -> (Double, Double),
    D: Fn(Double, Double, Double, Double) -> (Double, Double),
    A: Fn(Double, Double) -> Double,
>(plan: &PlanResult, center: Pt, hypot: &H, globe: &Globe<I, D, A>) -> (r: Vec<LonLatLine>)
    requires
        hypot_total(*hypot),
        globe.total(),
    ensures
        forall|h: Hypot, g: GlobeMeaning|
            #![trigger hypot_is(*hypot, h), globe.computes(g)]
            hypot_is(*hypot, h) && globe.computes(g) ==> r@ == lines_on_earth(
                h,
                g,
                plan@.lines,
                center,
                plan@.lines.len() as int,
            ),
{
    let mut out: Vec<LonLatLine> = Vec::new();
    for j in 0..plan.lines.len()
        invariant
            hypot_total(*hypot),
            globe.total(),
            forall|h: Hypot, g: GlobeMeaning|
                #![trigger hypot_is(*hypot, h), globe.computes(g)]
                hypot_is(*hypot, h) && globe.computes(g) ==> out@ == lines_on_earth(
                    h,
                    g,
                    plan@.lines,
                    center,
                    j as int,
                ),
    {
        let line = &plan.lines[j];
        let ghost before = out@;
        for k in 0..line.len()
            invariant
                hypot_total(*hypot),
                globe.total(),
                out@.len() == before.len() + k,
                forall|x: int| 0 <= x < before.len() ==> #[trigger] out@[x] == before[x],
                forall|h: Hypot, g: GlobeMeaning, x: int|
                    #![trigger hypot_is(*hypot, h), globe.computes(g), out@[x]]
                    hypot_is(*hypot, h) && globe.computes(g) && before.len() <= x < out@.len()
                        ==> out@[x] == on_earth(h, g, line@[x - before.len()], center),
        {
            let a = local_feet_to_lonlat(line[k].0, center, hypot, globe);
            let b = local_feet_to_lonlat(line[k].1, center, hypot, globe);
            out.push((a.x, a.y, b.x, b.y, line[k].2));
        }
        assert forall|h: Hypot, g: GlobeMeaning|
            #![trigger hypot_is(*hypot, h), globe.computes(g)]
            hypot_is(*hypot, h) && globe.computes(g) implies out@ == lines_on_earth(
            h,
            g,
            plan@.lines,
            center,
            j + 1,
        ) by {
            assert(out@ =~= before + line_on_earth(h, g, line@, center));
        }
    }
    out
}

/// The lines of a field of one polygon, given by the longitudes and latitudes of
/// its rings. A swath or gallons per acre that are not positive are the usual
/// ones; the trailer stands at the centre unless a place is given. Trailer and
/// gallons per acre matter to the order of blocks and to loads, and move no line.
/// None where the field has no plans.
pub fn plan_lines<
    T: Fn(Double) -> (Double, Double),
    H: Fn(Double, Double) -> Double,
    U: Fn(&Vec<Polygon>) -> Vec<Polygon>,
    C: Fn(&Polygon, &Polygon) -> Vec<Polygon>,
    I: Fn(Double, Double, Double, Double) -> (Double, Double),
    D: Fn(Double, Double, Double, Double) -> (Double, Double),
    A: Fn(Double, Double) -> Double,
>(
    exterior: &Vec<(Double, Double)>,
    holes: &Vec<Vec<(Double, Double)>>,
    swath_ft: Double,
    trailer_lonlat: Option<(Double, Double)>,
    gpa: Option<Double>,
    tools: &Tools<T, H, U, C>,
    globe: &Globe<I, D, A>,
) -> (r: Option<FieldLines>)
    requires
        tools.total(),
        globe.total(),
    ensures
        forall|m: Meaning, g: GlobeMeaning|
            #![trigger tools.computes(m), globe.computes(g)]
            tools.computes(m) && globe.computes(g) ==> lines_view(r) == planned_lines(
                m,
                g,
                field_of(exterior@, coord_views(holes@)),
                swath_ft,
                trailer_lonlat,
                gpa,
            ),
{
    let field = field_from(exterior, holes);
    let (feet, center) = to_local_feet(&field, &tools.sin_cos, &globe.inverse);
    let planned = params_for(swath_ft, None);
    let flown = params_for(swath_ft, gpa);
    let at = match trailer_lonlat {
        Some((lon, lat)) => lonlat_to_local_feet(
            Pt { x: lon, y: lat },
            center,
            &tools.sin_cos,
            &globe.inverse,
        ),
        None => Pt { x: Double::zero(), y: Double::zero() },
    };
    match quote_for(&feet, &planned, &flown, Some(at), Double::of_int(2), tools) {
        None => None,
        Some((plans, _, _)) => Some(draw_lines(&plans, feet.area(), center, &tools.hypot, globe)),
    }
}

/// Where the trailer stands and how many gallons go on an acre moves no line, and
/// changes neither the sprayed distance nor the area nor the bearing.
pub proof fn law_trailer_and_gpa_move_no_line(
    m: Meaning,
    g: GlobeMeaning,
    field: GeomView,
    swath_ft: Double,
    one: (Option<(Double, Double)>, Option<Double>),
    other: (Option<(Double, Double)>, Option<Double>),
)
    ensures
        planned_lines(m, g, field, swath_ft, one.0, one.1) == planned_lines(
            m,
            g,
            field,
            swath_ft,
            other.0,
            other.1,
        ),
{
}

} // verus!
