//! The plan of one direction: its lines, lengths and counts.
use vstd::prelude::*;

use crate::double::Double;
use crate::geom::{radians, turn, turned, Geom, GeomView, Pt};
use crate::params::{acre_ft2, AircraftParams};
use crate::scanline::{
    framed, heights, parts_of, scan, scan_at, scan_views, segments_in_frame, spans, steps_up,
};
use crate::tools::{trig_is, trig_total, Trig};

verus! {

/// A part of a scan line, in the frame in which the line is level.
#[derive(Clone, Copy, Debug, PartialEq, Eq, Structural)]
pub enum Part {
    /// From one abscissa to another, sprayed or not.
    Seg(Double, Double, bool),
    /// A gap too long to fly through.
    Break,
}

/// A flown part of a line: from, to, whether sprayed, and its length.
pub type LinePart = (Pt, Pt, bool, Double);

/// A plan of passes in one direction.
#[derive(Debug)]
pub struct PlanResult {
    pub angle_deg: Double,
    pub spray_ft: Double,
    pub dead_ft: Double,
    pub n_runs: i64,
    /// Every part, for drawing: from, to, whether sprayed.
    pub runs: Vec<(Pt, Pt, bool)>,
    /// The parts of each line; a break starts a new line.
    pub lines: Vec<Vec<LinePart>>,
    pub n_breaks: i64,
    pub area_ac: Double,
}

/// What a [`PlanResult`] holds.
#[verifier::ext_equal]
pub struct PlanView {
    pub angle_deg: Double,
    pub spray_ft: Double,
    pub dead_ft: Double,
    pub n_runs: i64,
    pub runs: Seq<(Pt, Pt, bool)>,
    pub lines: Seq<Seq<LinePart>>,
    pub n_breaks: i64,
    pub area_ac: Double,
}

/// The parts of lines.
pub open spec fn line_views(v: Seq<Vec<LinePart>>) -> Seq<Seq<LinePart>> {
    Seq::new(v.len(), |i: int| v[i]@)
}

/// What plans hold.
pub open spec fn plan_views(v: Seq<PlanResult>) -> Seq<PlanView> {
    Seq::new(v.len(), |i: int| v[i]@)
}

impl View for PlanResult {
    type V = PlanView;

    open spec fn view(&self) -> PlanView {
        PlanView {
            angle_deg: self.angle_deg,
            spray_ft: self.spray_ft,
            dead_ft: self.dead_ft,
            n_runs: self.n_runs,
            runs: self.runs@,
            lines: line_views(self.lines@),
            n_breaks: self.n_breaks,
            area_ac: self.area_ac,
        }
    }
}

impl Default for PlanResult {
    fn default() -> (r: Self)
        ensures
            r@ == (PlanView {
                angle_deg: Double::zero(),
                spray_ft: Double::zero(),
                dead_ft: Double::zero(),
                n_runs: 0,
                runs: seq![],
                lines: seq![],
                n_breaks: 0,
                area_ac: Double::zero(),
            }),
    {
        PlanResult {
            angle_deg: Double::zero(),
            spray_ft: Double::zero(),
            dead_ft: Double::zero(),
            n_runs: 0,
            runs: Vec::new(),
            lines: Vec::new(),
            n_breaks: 0,
            area_ac: Double::zero(),
        }
    }
}

impl Clone for PlanResult {
    fn clone(&self) -> (r: Self)
        ensures
            r@ == self@,
    {
        let mut runs: Vec<(Pt, Pt, bool)> = Vec::new();
        for i in 0..self.runs.len()
            invariant
                runs@ == self.runs@.take(i as int),
        {
            runs.push(self.runs[i]);
            assert(runs@ =~= self.runs@.take(i + 1));
        }
        assert(runs@ =~= self.runs@);
        let mut lines: Vec<Vec<LinePart>> = Vec::new();
        for i in 0..self.lines.len()
            invariant
                line_views(lines@) == line_views(self.lines@).take(i as int),
        {
            let line = &self.lines[i];
            let mut c: Vec<LinePart> = Vec::new();
            for j in 0..line.len()
                invariant
                    c@ == line@.take(j as int),
            {
                c.push(line[j]);
                assert(c@ =~= line@.take(j + 1));
            }
            assert(c@ =~= line@);
            let ghost before = lines@;
            lines.push(c);
            assert(line_views(lines@) =~= line_views(before).push(c@));
            assert(line_views(lines@) =~= line_views(self.lines@).take(i + 1));
        }
        assert(line_views(lines@) =~= line_views(self.lines@));
        PlanResult {
            angle_deg: self.angle_deg,
            spray_ft: self.spray_ft,
            dead_ft: self.dead_ft,
            n_runs: self.n_runs,
            runs,
            lines,
            n_breaks: self.n_breaks,
            area_ac: self.area_ac,
        }
    }
}

/// A count, as far as an `i64` goes.
pub open spec fn as_count(n: int) -> i64 {
    if n <= i64::MAX { n as i64 } else { i64::MAX }
}

pub(crate) fn to_count(n: usize) -> (r: i64)
    ensures
        r == as_count(n as int),
{
    if n as u64 <= i64::MAX as u64 { n as i64 } else { i64::MAX }
}

// ---------------------------------------------------------------------------
// Lines out of parts
// ---------------------------------------------------------------------------

/// How parts at height `y` are laid back into the field.
pub struct Laying {
    pub y: Double,
    pub back: (Double, Double),
    pub origin: Pt,
}

impl Laying {
    /// The flown part of a segment.
    pub open spec fn laid(self, x0: Double, x1: Double, spray: bool) -> LinePart {
        (
            turned(Pt { x: x0, y: self.y }, self.back, self.origin),
            turned(Pt { x: x1, y: self.y }, self.back, self.origin),
            spray,
            x1.minus(x0),
        )
    }

    /// The line that is open behind the first `n` parts: what came since the
    /// last break.
    pub open spec fn open_line(self, parts: Seq<Part>, n: int) -> Seq<LinePart>
        decreases n,
    {
        if n <= 0 {
            seq![]
        } else {
            match parts[n - 1] {
                Part::Break => seq![],
                Part::Seg(x0, x1, spray) => self.open_line(parts, n - 1).push(
                    self.laid(x0, x1, spray),
                ),
            }
        }
    }

    /// The lines that breaks among the first `n` parts have closed.
    pub open spec fn closed_lines(self, parts: Seq<Part>, n: int) -> Seq<Seq<LinePart>>
        decreases n,
    {
        if n <= 0 {
            seq![]
        } else {
            let before = self.closed_lines(parts, n - 1);
            let line = self.open_line(parts, n - 1);
            if parts[n - 1] is Break && line.len() > 0 {
                before.push(line)
            } else {
                before
            }
        }
    }

    /// All lines of a scan line.
    pub open spec fn lines(self, parts: Seq<Part>) -> Seq<Seq<LinePart>> {
        let n = parts.len() as int;
        let line = self.open_line(parts, n);
        if line.len() > 0 {
            self.closed_lines(parts, n).push(line)
        } else {
            self.closed_lines(parts, n)
        }
    }

    /// The first `n` parts without the breaks, for drawing.
    pub open spec fn drawn(self, parts: Seq<Part>, n: int) -> Seq<(Pt, Pt, bool)>
        decreases n,
    {
        if n <= 0 {
            seq![]
        } else {
            match parts[n - 1] {
                Part::Break => self.drawn(parts, n - 1),
                Part::Seg(x0, x1, spray) => {
                    let l = self.laid(x0, x1, spray);
                    self.drawn(parts, n - 1).push((l.0, l.1, l.2))
                },
            }
        }
    }
}

/// `start` and the lengths of those of the first `n` parts that are sprayed, or
/// of those that are not.
pub open spec fn length_of(parts: Seq<Part>, sprayed: bool, n: int, start: Double) -> Double
    decreases n,
{
    if n <= 0 {
        start
    } else {
        let before = length_of(parts, sprayed, n - 1, start);
        match parts[n - 1] {
            Part::Seg(x0, x1, spray) if spray == sprayed => before.plus(x1.minus(x0)),
            _ => before,
        }
    }
}

/// Whether something is sprayed on a line.
pub open spec fn sprays(line: Seq<LinePart>) -> bool {
    exists|i: int| 0 <= i < line.len() && (#[trigger] line[i]).2
}

/// How many of the lines spray.
pub open spec fn spraying(lines: Seq<Seq<LinePart>>) -> int
    decreases lines.len(),
{
    if lines.len() == 0 {
        0
    } else {
        spraying(lines.drop_last()) + (if sprays(lines.last()) { 1int } else { 0 })
    }
}

/// The plan of scan lines so far.
#[verifier::ext_equal]
pub struct Tally {
    pub spray_ft: Double,
    pub dead_ft: Double,
    pub runs: Seq<(Pt, Pt, bool)>,
    pub lines: Seq<Seq<LinePart>>,
    /// The lines that a break has closed.
    pub breaks: int,
}

/// The plan of the first `n` scan lines.
pub open spec fn tally(s: Seq<(Double, Seq<Part>)>, back: (Double, Double), origin: Pt, n: int) -> Tally
    decreases n,
{
    if n <= 0 {
        Tally {
            spray_ft: Double::zero(),
            dead_ft: Double::zero(),
            runs: seq![],
            lines: seq![],
            breaks: 0,
        }
    } else {
        let t = tally(s, back, origin, n - 1);
        let (y, parts) = s[n - 1];
        let k = parts.len() as int;
        let lay = Laying { y, back, origin };
        Tally {
            spray_ft: length_of(parts, true, k, t.spray_ft),
            dead_ft: length_of(parts, false, k, t.dead_ft),
            runs: t.runs + lay.drawn(parts, k),
            lines: t.lines + lay.lines(parts),
            breaks: t.breaks + lay.closed_lines(parts, k).len(),
        }
    }
}

/// The plan of scan lines: the lines laid back into the field, the lengths
/// sprayed and not, the lines that spray, and the lines that a break closed.
pub open spec fn plan_of_scan(
    s: Seq<(Double, Seq<Part>)>,
    angle_deg: Double,
    back: (Double, Double),
    origin: Pt,
    area: Double,
) -> PlanView {
    let t = tally(s, back, origin, s.len() as int);
    PlanView {
        angle_deg,
        spray_ft: t.spray_ft,
        dead_ft: t.dead_ft,
        n_runs: as_count(spraying(t.lines)),
        runs: t.runs,
        lines: t.lines,
        n_breaks: as_count(t.breaks),
        area_ac: area.over(acre_ft2()),
    }
}

/// The plan of a geometry in the direction `angle_deg`, given the sine and
/// cosine of the turn into the frame and of the turn back.
pub open spec fn plan_framed(
    g: GeomView,
    angle_deg: Double,
    into: (Double, Double),
    back: (Double, Double),
    p: AircraftParams,
) -> PlanView {
    plan_of_scan(scan(framed(g, into), p), angle_deg, back, g.centroid(), g.area())
}

/// The plan of a geometry in the direction `angle_deg`.
pub open spec fn plan_by(t: Trig, g: GeomView, angle_deg: Double, p: AircraftParams) -> PlanView {
    plan_framed(g, angle_deg, t(radians(angle_deg.negated())), t(radians(angle_deg)), p)
}

/// One more line.
proof fn lemma_spraying_push(lines: Seq<Seq<LinePart>>, line: Seq<LinePart>)
    ensures
        spraying(lines.push(line)) == spraying(lines) + (if sprays(line) { 1int } else { 0 }),
        spraying(lines) <= spraying(lines.push(line)),
{
    assert(lines.push(line).drop_last() =~= lines);
}

/// One more part of a line.
proof fn lemma_sprays_push(line: Seq<LinePart>, part: LinePart)
    ensures
        sprays(line.push(part)) == (sprays(line) || part.2),
{
    let l = line.push(part);
    if sprays(line) {
        let i = choose|i: int| 0 <= i < line.len() && (#[trigger] line[i]).2;
        assert(l[i].2);
    }
    if part.2 {
        assert(l[line.len() as int].2);
    }
    if sprays(l) {
        let i = choose|i: int| 0 <= i < l.len() && (#[trigger] l[i]).2;
        if i < line.len() {
            assert(line[i].2);
        }
    }
}

/// The plan of scan lines.
pub fn lay_scan(
    s: &Vec<(Double, Vec<Part>)>,
    angle_deg: Double,
    back: (Double, Double),
    origin: Pt,
    area: Double,
) -> (r: PlanResult)
    ensures
        r@ == plan_of_scan(scan_views(s@), angle_deg, back, origin, area),
{
    let ghost view = scan_views(s@);
    let mut spray_ft = Double::zero();
    let mut dead_ft = Double::zero();
    let mut n_runs: usize = 0;
    let mut n_breaks: usize = 0;
    let mut runs: Vec<(Pt, Pt, bool)> = Vec::new();
    let mut lines: Vec<Vec<LinePart>> = Vec::new();
    assert(line_views(lines@) =~= seq![]);
    for i in 0..s.len()
        invariant
            view == scan_views(s@),
            (Tally { spray_ft, dead_ft, runs: runs@, lines: line_views(lines@), breaks: n_breaks as int })
                == tally(view, back, origin, i as int),
            n_runs == spraying(line_views(lines@)),
            n_runs <= runs@.len(),
            n_breaks <= lines@.len(),
    {
        let y = s[i].0;
        let parts = &s[i].1;
        let ghost t = tally(view, back, origin, i as int);
        let ghost lay = Laying { y, back, origin };
        let mut run_open = false;
        let mut cur: Vec<LinePart> = Vec::new();
        proof {
            assert(view[i as int] == (y, parts@));
            assert(t.lines + lay.closed_lines(parts@, 0) =~= t.lines);
            assert(t.runs + lay.drawn(parts@, 0) =~= t.runs);
            assert(!sprays(cur@));
        }
        for j in 0..parts.len()
            invariant
                lay == (Laying { y, back, origin }),
                cur@ == lay.open_line(parts@, j as int),
                run_open == sprays(cur@),
                line_views(lines@) == t.lines + lay.closed_lines(parts@, j as int),
                n_breaks == t.breaks + lay.closed_lines(parts@, j as int).len(),
                n_breaks <= lines@.len(),
                runs@ == t.runs + lay.drawn(parts@, j as int),
                spray_ft == length_of(parts@, true, j as int, t.spray_ft),
                dead_ft == length_of(parts@, false, j as int, t.dead_ft),
                n_runs == spraying(line_views(lines@)) + (if sprays(cur@) { 1int } else { 0 }),
                n_runs <= runs@.len(),
        {
            match parts[j] {
                Part::Break => {
                    run_open = false;
                    if cur.len() > 0 {
                        let ghost before = lines@;
                        let mut line: Vec<LinePart> = Vec::new();
                        std::mem::swap(&mut line, &mut cur);
                        proof {
                            lemma_spraying_push(line_views(before), line@);
                        }
                        lines.push(line);
                        assert(lines.len() == lines@.len());
                        n_breaks = n_breaks + 1;
                        proof {
                            assert(line_views(lines@) =~= line_views(before).push(line@));
                            assert(line_views(lines@) =~= t.lines + lay.closed_lines(
                                parts@,
                                j + 1,
                            ));
                        }
                    }
                    assert(cur@ =~= seq![]);
                    assert(!sprays(cur@));
                },
                Part::Seg(x0, x1, is_spray) => {
                    let a = turn(Pt { x: x0, y }, back, origin);
                    let b = turn(Pt { x: x1, y }, back, origin);
                    let l = x1.minus(x0);
                    let ghost before = runs@;
                    runs.push((a, b, is_spray));
                    proof {
                        lemma_sprays_push(cur@, (a, b, is_spray, l));
                        assert(runs@ =~= t.runs + lay.drawn(parts@, j + 1));
                    }
                    cur.push((a, b, is_spray, l));
                    if is_spray {
                        spray_ft = spray_ft.plus(l);
                        if !run_open {
                            assert(runs.len() == runs@.len());
                            n_runs = n_runs + 1;
                            run_open = true;
                        }
                    } else {
                        dead_ft = dead_ft.plus(l);
                    }
                },
            }
        }
        let ghost k = parts@.len() as int;
        if cur.len() > 0 {
            let ghost before = lines@;
            proof {
                lemma_spraying_push(line_views(before), cur@);
            }
            lines.push(cur);
            proof {
                assert(line_views(lines@) =~= line_views(before).push(cur@));
                assert(line_views(lines@) =~= t.lines + lay.lines(parts@));
            }
        } else {
            assert(!sprays(cur@));
        }
    }
    PlanResult {
        angle_deg,
        spray_ft,
        dead_ft,
        n_runs: to_count(n_runs),
        runs,
        lines,
        n_breaks: to_count(n_breaks),
        area_ac: area.over(acre_ft2()),
    }
}

/// The plan of a geometry in the direction `angle_deg`, given the sine and
/// cosine of the turn into the frame in which its passes are level, and of the
/// turn back.
pub fn plan_in_frame(
    geom: &Geom,
    angle_deg: Double,
    into: (Double, Double),
    back: (Double, Double),
    p: &AircraftParams,
) -> (r: PlanResult)
    ensures
        r@ == plan_framed(geom@, angle_deg, into, back, *p),
{
    let (lines, c) = segments_in_frame(geom, into, p);
    lay_scan(&lines, angle_deg, back, c, geom.area())
}

/// The plan of a geometry in the direction `angle_deg`.
pub fn plan_single_direction<T: Fn(Double) -> (Double, Double)>(
    geom: &Geom,
    angle_deg: Double,
    p: &AircraftParams,
    sin_cos: &T,
) -> (r: PlanResult)
    requires
        trig_total(*sin_cos),
    ensures
        forall|t: Trig| #[trigger] trig_is(*sin_cos, t) ==> r@ == plan_by(t, geom@, angle_deg, *p),
        r@.angle_deg == angle_deg,
{
    let into = sin_cos(radians(angle_deg.negated()));
    let back = sin_cos(radians(angle_deg));
    plan_in_frame(geom, angle_deg, into, back, p)
}

// ---------------------------------------------------------------------------
// Times and coverage
// ---------------------------------------------------------------------------

/// `n - 1`, but not below zero: the turns between `n` runs.
pub open spec fn turns_between(n: i64) -> i64 {
    if n <= 1 { 0 } else { (n - 1) as i64 }
}

pub(crate) fn turns_of(n: i64) -> (r: i64)
    ensures
        r == turns_between(n),
{
    if n <= 1 { 0 } else { n - 1 }
}

impl PlanView {
    /// The time of a plan flown alone, with its turns, loads and ferries.
    pub open spec fn time_s(self, p: AircraftParams) -> Double {
        let t_air = self.spray_ft.over(p.speed_fps).plus(self.dead_ft.over(p.dead_fps));
        let t_turns = Double::of_int(turns_between(self.n_runs)).times(p.t_turn_s);
        let n_loads = self.area_ac.times(p.gpa).over(p.tank_gal).ceil();
        let t_loads = n_loads.times(p.t_load_s);
        let t_ferry = Double::of_int(2).times(n_loads).times(p.ferry_ft).over(p.ferry_fps);
        t_air.plus(t_turns).plus(t_loads).plus(t_ferry)
    }

    /// The sprayed share of an area.
    pub open spec fn coverage(self, area: Double, p: AircraftParams) -> Double {
        self.spray_ft.times(p.swath_ft).over(area.max(Double::of_int(1)))
    }

    /// Whether a plan sprays enough of an area to be considered.
    pub open spec fn covers(self, area: Double, p: AircraftParams) -> bool {
        Double::ratio(95, 100).le(self.coverage(area, p))
    }
}

impl PlanResult {
    /// The time of a plan flown alone, with its turns, loads and ferries.
    pub fn time_s(&self, p: &AircraftParams) -> (r: Double)
        ensures
            r == self@.time_s(*p),
    {
        let t_air = self.spray_ft.over(p.speed_fps).plus(self.dead_ft.over(p.dead_fps));
        let t_turns = Double::of_int(turns_of(self.n_runs)).times(p.t_turn_s);
        let n_loads = self.area_ac.times(p.gpa).over(p.tank_gal).ceil();
        let t_loads = n_loads.times(p.t_load_s);
        let t_ferry = Double::of_int(2).times(n_loads).times(p.ferry_ft).over(p.ferry_fps);
        t_air.plus(t_turns).plus(t_loads).plus(t_ferry)
    }
}

/// The sprayed share of an area.
pub fn coverage(r: &PlanResult, poly_area: Double, p: &AircraftParams) -> (c: Double)
    ensures
        c == r@.coverage(poly_area, *p),
{
    r.spray_ft.times(p.swath_ft).over(poly_area.max(Double::of_int(1)))
}

/// Whether a plan sprays enough of an area to be considered.
pub fn covers(r: &PlanResult, poly_area: Double, p: &AircraftParams) -> (c: bool)
    ensures
        c == r@.covers(poly_area, *p),
{
    Double::ratio(95, 100).le(coverage(r, poly_area, p))
}

// ---------------------------------------------------------------------------
// Laws
// ---------------------------------------------------------------------------

/// The parts of lines, for drawing.
pub open spec fn parts_drawn(lines: Seq<Seq<LinePart>>) -> Seq<(Pt, Pt, bool)>
    decreases lines.len(),
{
    if lines.len() == 0 {
        seq![]
    } else {
        parts_drawn(lines.drop_last()) + line_drawn(lines.last())
    }
}

/// The parts of a line, for drawing.
pub open spec fn line_drawn(line: Seq<LinePart>) -> Seq<(Pt, Pt, bool)> {
    Seq::new(line.len(), |i: int| (line[i].0, line[i].1, line[i].2))
}

proof fn lemma_parts_drawn_push(lines: Seq<Seq<LinePart>>, line: Seq<LinePart>)
    ensures
        parts_drawn(lines.push(line)) == parts_drawn(lines) + line_drawn(line),
{
    assert(lines.push(line).drop_last() =~= lines);
}

proof fn lemma_parts_drawn_add(a: Seq<Seq<LinePart>>, b: Seq<Seq<LinePart>>)
    ensures
        parts_drawn(a + b) == parts_drawn(a) + parts_drawn(b),
    decreases b.len(),
{
    if b.len() == 0 {
        assert(a + b =~= a);
        assert(parts_drawn(a) + parts_drawn(b) =~= parts_drawn(a));
    } else {
        lemma_parts_drawn_add(a, b.drop_last());
        assert((a + b).drop_last() =~= a + b.drop_last());
        assert(parts_drawn(a) + (parts_drawn(b.drop_last()) + line_drawn(b.last())) =~= parts_drawn(
            a,
        ) + parts_drawn(b.drop_last()) + line_drawn(b.last()));
    }
}

proof fn lemma_laid(lay: Laying, parts: Seq<Part>, n: int)
    ensures
        lay.drawn(parts, n) == parts_drawn(lay.closed_lines(parts, n)) + line_drawn(
            lay.open_line(parts, n),
        ),
    decreases n,
{
    if n > 0 {
        lemma_laid(lay, parts, n - 1);
        let (closed, open) = (lay.closed_lines(parts, n - 1), lay.open_line(parts, n - 1));
        match parts[n - 1] {
            Part::Break => {
                lemma_parts_drawn_push(closed, open);
                assert(lay.drawn(parts, n) =~= parts_drawn(lay.closed_lines(parts, n)) + line_drawn(
                    lay.open_line(parts, n),
                ));
            },
            Part::Seg(x0, x1, spray) => {
                let l = lay.laid(x0, x1, spray);
                assert(line_drawn(open.push(l)) =~= line_drawn(open).push((l.0, l.1, l.2)));
                assert(lay.drawn(parts, n) =~= parts_drawn(closed) + line_drawn(open.push(l)));
            },
        }
    } else {
        assert(lay.drawn(parts, n) =~= parts_drawn(lay.closed_lines(parts, n)) + line_drawn(
            lay.open_line(parts, n),
        ));
    }
}

proof fn lemma_tally_drawn(s: Seq<(Double, Seq<Part>)>, back: (Double, Double), origin: Pt, n: int)
    ensures
        tally(s, back, origin, n).runs == parts_drawn(tally(s, back, origin, n).lines),
    decreases n,
{
    if n > 0 {
        lemma_tally_drawn(s, back, origin, n - 1);
        let t = tally(s, back, origin, n - 1);
        let (y, parts) = s[n - 1];
        let k = parts.len() as int;
        let lay = Laying { y, back, origin };
        lemma_laid(lay, parts, k);
        lemma_parts_drawn_push(lay.closed_lines(parts, k), lay.open_line(parts, k));
        lemma_parts_drawn_add(t.lines, lay.lines(parts));
        assert(lay.drawn(parts, k) =~= parts_drawn(lay.lines(parts)));
    }
}

/// What is drawn of a plan is what its lines hold, in the same order.
pub proof fn law_runs_are_lines(
    s: Seq<(Double, Seq<Part>)>,
    angle_deg: Double,
    back: (Double, Double),
    origin: Pt,
    area: Double,
)
    ensures
        plan_of_scan(s, angle_deg, back, origin, area).runs == parts_drawn(
            plan_of_scan(s, angle_deg, back, origin, area).lines,
        ),
{
    lemma_tally_drawn(s, back, origin, s.len() as int);
}

/// `start` and the lengths of those parts of a line, of the first `n`, that are
/// sprayed, or of those that are not.
pub open spec fn line_length(line: Seq<LinePart>, sprayed: bool, n: int, start: Double) -> Double
    decreases n,
{
    if n <= 0 {
        start
    } else {
        let before = line_length(line, sprayed, n - 1, start);
        if line[n - 1].2 == sprayed {
            before.plus(line[n - 1].3)
        } else {
            before
        }
    }
}

/// The lengths of the parts of lines that are sprayed, or of those that are not,
/// and `start`.
pub open spec fn lines_length(lines: Seq<Seq<LinePart>>, sprayed: bool, start: Double) -> Double
    decreases lines.len(),
{
    if lines.len() == 0 {
        start
    } else {
        line_length(
            lines.last(),
            sprayed,
            lines.last().len() as int,
            lines_length(lines.drop_last(), sprayed, start),
        )
    }
}

proof fn lemma_line_length_push(line: Seq<LinePart>, part: LinePart, sprayed: bool, n: int, start: Double)
    requires
        n <= line.len(),
    ensures
        line_length(line.push(part), sprayed, n, start) == line_length(line, sprayed, n, start),
    decreases n,
{
    if n > 0 {
        lemma_line_length_push(line, part, sprayed, n - 1, start);
    }
}

proof fn lemma_lines_length_add(
    a: Seq<Seq<LinePart>>,
    b: Seq<Seq<LinePart>>,
    sprayed: bool,
    start: Double,
)
    ensures
        lines_length(a + b, sprayed, start) == lines_length(
            b,
            sprayed,
            lines_length(a, sprayed, start),
        ),
    decreases b.len(),
{
    if b.len() == 0 {
        assert(a + b =~= a);
    } else {
        assert((a + b).drop_last() =~= a + b.drop_last());
        lemma_lines_length_add(a, b.drop_last(), sprayed, start);
    }
}

proof fn lemma_laid_length(lay: Laying, parts: Seq<Part>, sprayed: bool, n: int, start: Double)
    ensures
        length_of(parts, sprayed, n, start) == line_length(
            lay.open_line(parts, n),
            sprayed,
            lay.open_line(parts, n).len() as int,
            lines_length(lay.closed_lines(parts, n), sprayed, start),
        ),
    decreases n,
{
    if n > 0 {
        lemma_laid_length(lay, parts, sprayed, n - 1, start);
        let (closed, open) = (lay.closed_lines(parts, n - 1), lay.open_line(parts, n - 1));
        match parts[n - 1] {
            Part::Break => {
                assert(closed.push(open).drop_last() =~= closed);
            },
            Part::Seg(x0, x1, spray) => {
                let l = lay.laid(x0, x1, spray);
                lemma_line_length_push(
                    open,
                    l,
                    sprayed,
                    open.len() as int,
                    lines_length(closed, sprayed, start),
                );
            },
        }
    }
}

proof fn lemma_tally_lengths(s: Seq<(Double, Seq<Part>)>, back: (Double, Double), origin: Pt, n: int)
    ensures
        tally(s, back, origin, n).spray_ft == lines_length(
            tally(s, back, origin, n).lines,
            true,
            Double::zero(),
        ),
        tally(s, back, origin, n).dead_ft == lines_length(
            tally(s, back, origin, n).lines,
            false,
            Double::zero(),
        ),
    decreases n,
{
    if n > 0 {
        lemma_tally_lengths(s, back, origin, n - 1);
        let t = tally(s, back, origin, n - 1);
        let (y, parts) = s[n - 1];
        let k = parts.len() as int;
        let lay = Laying { y, back, origin };
        let (closed, open) = (lay.closed_lines(parts, k), lay.open_line(parts, k));
        assert(closed.push(open).drop_last() =~= closed);
        lemma_laid_length(lay, parts, true, k, t.spray_ft);
        lemma_laid_length(lay, parts, false, k, t.dead_ft);
        lemma_lines_length_add(t.lines, lay.lines(parts), true, Double::zero());
        lemma_lines_length_add(t.lines, lay.lines(parts), false, Double::zero());
    }
}

/// What a plan sprays is the length of the sprayed parts of its lines, and what it
/// flies without spraying that of the others.
pub proof fn law_lengths_are_those_of_lines(
    s: Seq<(Double, Seq<Part>)>,
    angle_deg: Double,
    back: (Double, Double),
    origin: Pt,
    area: Double,
)
    ensures
        ({
            let plan = plan_of_scan(s, angle_deg, back, origin, area);
            &&& plan.spray_ft == lines_length(plan.lines, true, Double::zero())
            &&& plan.dead_ft == lines_length(plan.lines, false, Double::zero())
        }),
{
    lemma_tally_lengths(s, back, origin, s.len() as int);
}

/// Every line of these sprays.
spec fn all_spray(lines: Seq<Seq<LinePart>>) -> bool {
    forall|i: int| 0 <= i < lines.len() ==> sprays(#[trigger] lines[i])
}

proof fn lemma_all_spray(lines: Seq<Seq<LinePart>>)
    requires
        all_spray(lines),
    ensures
        spraying(lines) == lines.len(),
    decreases lines.len(),
{
    if lines.len() > 0 {
        assert forall|i: int| 0 <= i < lines.drop_last().len() implies sprays(
            #[trigger] lines.drop_last()[i],
        ) by {
            assert(sprays(lines[i]));
        }
        lemma_all_spray(lines.drop_last());
        assert(sprays(lines[lines.len() - 1]));
    }
}

proof fn lemma_lay_prefix(lay: Laying, parts: Seq<Part>, x: Part, k: int)
    requires
        k <= parts.len(),
    ensures
        lay.open_line(parts.push(x), k) == lay.open_line(parts, k),
        lay.closed_lines(parts.push(x), k) == lay.closed_lines(parts, k),
    decreases k,
{
    if k > 0 {
        lemma_lay_prefix(lay, parts, x, k - 1);
        assert(parts.push(x)[k - 1] == parts[k - 1]);
    }
}

/// The lines of a scan line: each sprays, and the breaks are one less.
proof fn lemma_scan_line(lay: Laying, s: Seq<(Double, Double)>, thresh: Double, n: int)
    requires
        n >= 1,
    ensures
        ({
            let parts = parts_of(s, thresh, n);
            let k = parts.len() as int;
            &&& sprays(lay.open_line(parts, k))
            &&& all_spray(lay.closed_lines(parts, k))
        }),
    decreases n,
{
    let (x0, x1) = s[n - 1];
    let before = parts_of(s, thresh, n - 1);
    let seg = Part::Seg(x0, x1, true);
    let linked = if n == 1 {
        before
    } else if x0.minus(s[n - 2].1).lt(thresh) {
        before.push(Part::Seg(s[n - 2].1, x0, false))
    } else {
        before.push(Part::Break)
    };
    if n > 1 {
        lemma_scan_line(lay, s, thresh, n - 1);
        lemma_lay_prefix(lay, before, linked.last(), before.len() as int);
        let (closed, open) = (
            lay.closed_lines(before, before.len() as int),
            lay.open_line(before, before.len() as int),
        );
        let i = choose|i: int| 0 <= i < open.len() && (#[trigger] open[i]).2;
        assert(open.len() > 0);
        let now = lay.closed_lines(linked, linked.len() as int);
        assert forall|j: int| 0 <= j < now.len() implies sprays(#[trigger] now[j]) by {
            if j < closed.len() {
                assert(now[j] == closed[j]);
                assert(sprays(closed[j]));
            } else {
                assert(now[j] == open);
            }
        }
    } else {
        assert(parts_of(s, thresh, 0).len() == 0);
        assert(lay.closed_lines(linked, 0).len() == 0);
    }
    lemma_lay_prefix(lay, linked, seg, linked.len() as int);
    let parts = linked.push(seg);
    let open = lay.open_line(parts, parts.len() as int);
    assert(open.last().2);
    assert(open[open.len() - 1].2);
}

proof fn lemma_scan_lines(
    rings: Seq<Seq<Pt>>,
    ys: Seq<Double>,
    thresh: Double,
    m: int,
    back: (Double, Double),
    origin: Pt,
    n: int,
)
    requires
        n <= scan_at(rings, ys, thresh, m).len(),
    ensures
        ({
            let t = tally(scan_at(rings, ys, thresh, m), back, origin, n);
            &&& all_spray(t.lines)
            &&& n >= 0 ==> t.breaks == t.lines.len() - n
        }),
    decreases n,
{
    let s = scan_at(rings, ys, thresh, m);
    if n > 0 {
        lemma_scan_lines(rings, ys, thresh, m, back, origin, n - 1);
        let t = tally(s, back, origin, n - 1);
        let (y, parts) = s[n - 1];
        let lay = Laying { y, back, origin };
        let sp = lemma_scan_parts(rings, ys, thresh, m, n - 1);
        lemma_scan_line(lay, sp, thresh, sp.len() as int);
        let now = tally(s, back, origin, n).lines;
        let k = parts.len() as int;
        assert(lay.open_line(parts, k).len() > 0);
        assert forall|j: int| 0 <= j < now.len() implies sprays(#[trigger] now[j]) by {
            if j < t.lines.len() {
                assert(now[j] == t.lines[j]);
                assert(sprays(t.lines[j]));
            } else {
                let l = j - t.lines.len();
                assert(now[j] == lay.lines(parts)[l]);
                if l < lay.closed_lines(parts, k).len() {
                    assert(sprays(lay.closed_lines(parts, k)[l]));
                }
            }
        }
    }
}

/// The spans that the parts of a scan line come from.
proof fn lemma_scan_parts(
    rings: Seq<Seq<Pt>>,
    ys: Seq<Double>,
    thresh: Double,
    m: int,
    i: int,
) -> (sp: Seq<(Double, Double)>)
    requires
        0 <= i < scan_at(rings, ys, thresh, m).len(),
    ensures
        sp.len() > 0,
        scan_at(rings, ys, thresh, m)[i].1 == parts_of(sp, thresh, sp.len() as int),
    decreases m,
{
    let before = scan_at(rings, ys, thresh, m - 1);
    if i < before.len() {
        lemma_scan_parts(rings, ys, thresh, m - 1, i)
    } else {
        spans(rings, ys[m - 1])
    }
}

/// A plan has as many runs as lines, and as many breaks as it has lines more than
/// scan lines, as far as counts go.
pub proof fn law_runs_and_breaks(t: Trig, g: GeomView, angle_deg: Double, p: AircraftParams)
    ensures
        ({
            let plan = plan_by(t, g, angle_deg, p);
            let s = scan(framed(g, t(radians(angle_deg.negated()))), p);
            &&& plan.n_runs == as_count(plan.lines.len() as int)
            &&& plan.n_breaks == as_count(plan.lines.len() - s.len())
            &&& plan.angle_deg == angle_deg
            &&& plan.area_ac == g.area().over(acre_ft2())
        }),
{
    let rings = framed(g, t(radians(angle_deg.negated())));
    let (lo, hi) = heights(rings, rings.len() as int);
    let ys = steps_up(lo.plus(p.swath_ft.over(Double::of_int(2))), p.swath_ft, hi);
    let s = scan(rings, p);
    let back = t(radians(angle_deg));
    lemma_scan_lines(
        rings,
        ys,
        p.gap_threshold_ft(),
        ys.len() as int,
        back,
        g.centroid(),
        s.len() as int,
    );
    lemma_all_spray(tally(s, back, g.centroid(), s.len() as int).lines);
}

} // verus!
