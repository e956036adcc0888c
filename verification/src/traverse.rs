//! Flying the lines of a block back and forth.
use vstd::multiset::Multiset;
use vstd::prelude::*;
use vstd::seq_lib::lemma_multiset_commutative;

use crate::double::Double;
use crate::geom::Pt;
use crate::params::AircraftParams;
use crate::plan::{as_count, to_count, LinePart, PlanResult, PlanView};

verus! {

/// A flown part and the index of the line that it lies on.
pub type Step = (LinePart, usize);

/// How a block is entered: whether at the last line, and whether at the end of
/// that line.
pub type Config = (bool, bool);

/// A part flown the other way.
pub open spec fn turned_back(part: LinePart) -> LinePart {
    (part.1, part.0, part.2, part.3)
}

/// The steps over the first `n` parts of a line as it is flown, forwards or
/// backwards.
pub open spec fn line_steps(line: Seq<LinePart>, li: usize, backwards: bool, n: int) -> Seq<Step> {
    Seq::new(
        n as nat,
        |k: int|
            if backwards {
                (turned_back(line[line.len() - 1 - k]), li)
            } else {
                (line[k], li)
            },
    )
}

/// The index of the line that is flown as number `idx`.
pub open spec fn line_at(n: int, cfg: Config, idx: int) -> int {
    if cfg.0 { n - 1 - idx } else { idx }
}

/// Whether the line that is flown as number `idx` is flown backwards: every
/// second one is.
pub open spec fn backwards_at(cfg: Config, idx: int) -> bool {
    cfg.1 != (idx % 2 == 1)
}

/// The steps over the first `m` lines that are flown.
pub open spec fn steps_to(lines: Seq<Seq<LinePart>>, cfg: Config, m: int) -> Seq<Step>
    decreases m,
{
    if m <= 0 {
        seq![]
    } else {
        let li = line_at(lines.len() as int, cfg, m - 1);
        steps_to(lines, cfg, m - 1) + line_steps(
            lines[li],
            li as usize,
            backwards_at(cfg, m - 1),
            lines[li].len() as int,
        )
    }
}

/// The steps of a block under an entry configuration.
pub open spec fn steps_of(lines: Seq<Seq<LinePart>>, cfg: Config) -> Seq<Step> {
    steps_to(lines, cfg, lines.len() as int)
}

/// The steps of a block under an entry configuration.
pub fn traverse(plan: &PlanResult, reverse_lines: bool, start_back: bool) -> (r: Vec<Step>)
    ensures
        r@ == steps_of(plan@.lines, (reverse_lines, start_back)),
{
    let ghost lines = plan@.lines;
    let ghost cfg = (reverse_lines, start_back);
    let mut seq: Vec<Step> = Vec::new();
    let n = plan.lines.len();
    let mut backwards = start_back;
    for idx in 0..n
        invariant
            n == lines.len(),
            lines == plan@.lines,
            cfg == (reverse_lines, start_back),
            backwards == backwards_at(cfg, idx as int),
            seq@ == steps_to(lines, cfg, idx as int),
    {
        let li = if reverse_lines { n - 1 - idx } else { idx };
        let parts = &plan.lines[li];
        let ghost start = seq@;
        let len = parts.len();
        assert(lines[li as int] == parts@);
        assert(start + line_steps(parts@, li, backwards, 0) =~= start);
        for k in 0..len
            invariant
                len == parts@.len(),
                seq@ == start + line_steps(parts@, li, backwards, k as int),
        {
            if backwards {
                let (a, b, sp, l) = parts[len - 1 - k];
                seq.push(((b, a, sp, l), li));
            } else {
                seq.push((parts[k], li));
            }
            assert(seq@ =~= start + line_steps(parts@, li, backwards, k + 1));
        }
        backwards = !backwards;
    }
    seq
}

/// Each step of a traversal is a part of the line that it names, flown one way
/// or the other.
pub open spec fn step_from_line(lines: Seq<Seq<LinePart>>, s: Step) -> bool {
    &&& s.1 < lines.len()
    &&& exists|j: int|
        0 <= j < lines[s.1 as int].len() && (s.0 == #[trigger] lines[s.1 as int][j] || s.0
            == turned_back(lines[s.1 as int][j]))
}

/// How many parts the first `m` flown lines have.
pub open spec fn parts_to(lines: Seq<Seq<LinePart>>, cfg: Config, m: int) -> nat
    decreases m,
{
    if m <= 0 {
        0
    } else {
        parts_to(lines, cfg, m - 1) + lines[line_at(lines.len() as int, cfg, m - 1)].len()
    }
}

/// A traversal flies the parts of the lines, each line whole and once: the part
/// at place `k` of the line flown as number `idx` stands behind all parts of the
/// lines flown before, and every step is such a part.
pub proof fn law_traverse_flies_each_part(
    lines: Seq<Seq<LinePart>>,
    cfg: Config,
    m: int,
    idx: int,
    k: int,
)
    requires
        lines.len() <= usize::MAX,
        0 <= idx < m <= lines.len(),
        0 <= k < lines[line_at(lines.len() as int, cfg, idx)].len(),
    ensures
        steps_to(lines, cfg, m).len() == parts_to(lines, cfg, m),
        parts_to(lines, cfg, idx) + k < steps_to(lines, cfg, m).len(),
        ({
            let li = line_at(lines.len() as int, cfg, idx);
            let line = lines[li];
            steps_to(lines, cfg, m)[parts_to(lines, cfg, idx) + k] == (if backwards_at(cfg, idx) {
                (turned_back(line[line.len() - 1 - k]), li as usize)
            } else {
                (line[k], li as usize)
            })
        }),
    decreases m,
{
    lemma_steps_len(lines, cfg, m);
    lemma_steps_len(lines, cfg, m - 1);
    if idx < m - 1 {
        law_traverse_flies_each_part(lines, cfg, m - 1, idx, k);
    }
}

proof fn lemma_steps_len(lines: Seq<Seq<LinePart>>, cfg: Config, m: int)
    ensures
        steps_to(lines, cfg, m).len() == parts_to(lines, cfg, m),
    decreases m,
{
    if m > 0 {
        lemma_steps_len(lines, cfg, m - 1);
    }
}

/// Every step of a traversal is a part of the line that it names.
pub proof fn law_traverse_only_parts(lines: Seq<Seq<LinePart>>, cfg: Config, m: int, i: int)
    requires
        lines.len() <= usize::MAX,
        0 <= m <= lines.len(),
        0 <= i < steps_to(lines, cfg, m).len(),
    ensures
        step_from_line(lines, steps_to(lines, cfg, m)[i]),
    decreases m,
{
    if m > 0 {
        let before = steps_to(lines, cfg, m - 1);
        if i < before.len() {
            law_traverse_only_parts(lines, cfg, m - 1, i);
        } else {
            let li = line_at(lines.len() as int, cfg, m - 1);
            let line = lines[li];
            let k = i - before.len();
            let j = if backwards_at(cfg, m - 1) { line.len() - 1 - k } else { k };
            let s = steps_to(lines, cfg, m)[i];
            assert(s.1 == li);
            assert(s.0 == line[j] || s.0 == turned_back(line[j]));
        }
    }
}

// ---------------------------------------------------------------------------
// The figures of a block
// ---------------------------------------------------------------------------

/// What ordering blocks needs to know of a block under a configuration.
#[derive(Clone, Copy, Debug)]
pub struct Stat {
    /// The time in the block, without loads.
    pub time: Double,
    /// Where it is entered, if it has a part.
    pub entry: Option<Pt>,
    /// Where it is left.
    pub exit: Option<Pt>,
    /// The turns between its lines.
    pub n_turns: i64,
}

/// The sum of the lengths of the first `n` steps.
pub open spec fn step_length(s: Seq<Step>, n: int) -> Double
    decreases n,
{
    if n <= 0 {
        Double::negative_zero()
    } else {
        step_length(s, n - 1).plus(s[n - 1].0.3)
    }
}

/// How many of the first `n` lines have a part.
pub open spec fn lines_flown(lines: Seq<Seq<LinePart>>, n: int) -> nat
    decreases n,
{
    if n <= 0 {
        0
    } else {
        lines_flown(lines, n - 1) + (if lines[n - 1].len() > 0 { 1nat } else { 0 })
    }
}

impl PlanView {
    /// The figures of a block under a configuration: nothing if it has no part;
    /// else the time along its parts with a turn between one flown line and the
    /// next, and its first and last point.
    pub open spec fn stat(self, cfg: Config, p: AircraftParams) -> Stat {
        let s = steps_of(self.lines, cfg);
        if s.len() == 0 {
            Stat { time: Double::zero(), entry: None, exit: None, n_turns: 0 }
        } else {
            let n_turns = as_count(lines_flown(self.lines, self.lines.len() as int) - 1);
            Stat {
                time: step_length(s, s.len() as int).over(p.speed_fps).plus(
                    Double::of_int(n_turns).times(p.t_turn_s),
                ),
                entry: Some(s[0].0.0),
                exit: Some(s.last().0.1),
                n_turns,
            }
        }
    }
}

/// A traversal has a step only if some line has a part.
proof fn lemma_steps_mean_lines(lines: Seq<Seq<LinePart>>, cfg: Config, m: int)
    requires
        0 <= m <= lines.len(),
        steps_to(lines, cfg, m).len() > 0,
    ensures
        lines_flown(lines, lines.len() as int) > 0,
    decreases m,
{
    let li = line_at(lines.len() as int, cfg, m - 1);
    if lines[li].len() > 0 {
        lemma_lines_flown(lines, li, lines.len() as int);
    } else {
        lemma_steps_mean_lines(lines, cfg, m - 1);
    }
}

proof fn lemma_lines_flown(lines: Seq<Seq<LinePart>>, li: int, n: int)
    requires
        0 <= li < n <= lines.len(),
        lines[li].len() > 0,
    ensures
        lines_flown(lines, n) > 0,
    decreases n,
{
    if li < n - 1 {
        lemma_lines_flown(lines, li, n - 1);
    }
}

/// The figures of a block under a configuration.
pub fn block_stats(plan: &PlanResult, cfg: Config, p: &AircraftParams) -> (r: Stat)
    ensures
        r == plan@.stat(cfg, *p),
{
    let seq = traverse(plan, cfg.0, cfg.1);
    if seq.len() == 0 {
        return Stat { time: Double::zero(), entry: None, exit: None, n_turns: 0 };
    }
    let mut length = Double::negative_zero();
    for i in 0..seq.len()
        invariant
            length == step_length(seq@, i as int),
    {
        length = length.plus((seq[i].0).3);
    }
    let mut flown: usize = 0;
    for i in 0..plan.lines.len()
        invariant
            flown == lines_flown(plan@.lines, i as int),
            flown <= i,
    {
        if plan.lines[i].len() > 0 {
            flown = flown + 1;
        }
    }
    proof {
        lemma_steps_mean_lines(plan@.lines, cfg, plan@.lines.len() as int);
    }
    let n_turns = to_count(flown - 1);
    Stat {
        time: length.over(p.speed_fps).plus(Double::of_int(n_turns).times(p.t_turn_s)),
        entry: Some((seq[0].0).0),
        exit: Some((seq[seq.len() - 1].0).1),
        n_turns,
    }
}

// ---------------------------------------------------------------------------
// What does not depend on the configuration
// ---------------------------------------------------------------------------

/// A flown part, whichever way it is flown: its line, its ends, whether it is
/// sprayed, and its length.
pub open spec fn either_way(s: Step) -> (usize, Set<Pt>, bool, Double) {
    (s.1, set![s.0.0, s.0.1], s.0.2, s.0.3)
}

/// The parts of steps, whichever way they are flown, in no order.
pub open spec fn parts_in(s: Seq<Step>) -> Multiset<(usize, Set<Pt>, bool, Double)> {
    s.map_values(|x: Step| either_way(x)).to_multiset()
}

proof fn lemma_parts_add(a: Seq<Step>, b: Seq<Step>)
    ensures
        parts_in(a + b) == parts_in(a).add(parts_in(b)),
{
    let f = |x: Step| either_way(x);
    assert((a + b).map_values(f) =~= a.map_values(f) + b.map_values(f));
    lemma_multiset_commutative(a.map_values(f), b.map_values(f));
}

/// The parts of a line, whichever way it is flown.
spec fn line_parts(lines: Seq<Seq<LinePart>>, li: int) -> Multiset<(usize, Set<Pt>, bool, Double)> {
    parts_in(line_steps(lines[li], li as usize, false, lines[li].len() as int))
}

proof fn lemma_line_either_way(lines: Seq<Seq<LinePart>>, li: int)
    ensures
        parts_in(line_steps(lines[li], li as usize, true, lines[li].len() as int)) == line_parts(
            lines,
            li,
        ),
{
    let f = |x: Step| either_way(x);
    let n = lines[li].len() as int;
    let there = line_steps(lines[li], li as usize, false, n).map_values(f);
    let back = line_steps(lines[li], li as usize, true, n).map_values(f);
    assert forall|k: int| 0 <= k < n implies back[k] == #[trigger] there.reverse()[k] by {
        let part = lines[li][n - 1 - k];
        assert(set![part.1, part.0] =~= set![part.0, part.1]);
    }
    assert(back =~= there.reverse());
    there.lemma_reverse_to_multiset();
}

/// The parts of the lines from number `a` up to number `b`.
spec fn range_parts(lines: Seq<Seq<LinePart>>, a: int, b: int) -> Multiset<
    (usize, Set<Pt>, bool, Double),
>
    decreases b - a,
{
    if b <= a {
        Multiset::empty()
    } else {
        range_parts(lines, a, b - 1).add(line_parts(lines, b - 1))
    }
}

proof fn lemma_range_from_left(lines: Seq<Seq<LinePart>>, a: int, b: int)
    requires
        a < b,
    ensures
        range_parts(lines, a, b) == line_parts(lines, a).add(range_parts(lines, a + 1, b)),
    decreases b - a,
{
    if a < b - 1 {
        lemma_range_from_left(lines, a, b - 1);
        assert(range_parts(lines, a, b) =~= line_parts(lines, a).add(
            range_parts(lines, a + 1, b),
        ));
    } else {
        assert(range_parts(lines, a, a) =~= Multiset::empty());
        assert(range_parts(lines, a + 1, b) =~= Multiset::empty());
        assert(range_parts(lines, a, b) =~= line_parts(lines, a).add(
            range_parts(lines, a + 1, b),
        ));
    }
}

proof fn lemma_steps_parts(lines: Seq<Seq<LinePart>>, cfg: Config, m: int)
    requires
        0 <= m <= lines.len(),
    ensures
        parts_in(steps_to(lines, cfg, m)) == (if cfg.0 {
            range_parts(lines, lines.len() - m, lines.len() as int)
        } else {
            range_parts(lines, 0, m)
        }),
    decreases m,
{
    if m > 0 {
        lemma_steps_parts(lines, cfg, m - 1);
        let li = line_at(lines.len() as int, cfg, m - 1);
        let more = line_steps(
            lines[li],
            li as usize,
            backwards_at(cfg, m - 1),
            lines[li].len() as int,
        );
        lemma_parts_add(steps_to(lines, cfg, m - 1), more);
        lemma_line_either_way(lines, li);
        if cfg.0 {
            lemma_range_from_left(lines, li, lines.len() as int);
            assert(range_parts(lines, li, lines.len() as int) =~= range_parts(
                lines,
                li + 1,
                lines.len() as int,
            ).add(line_parts(lines, li)));
        }
    } else {
        let none = steps_to(lines, cfg, 0);
        assert(none.map_values(|x: Step| either_way(x)) =~= seq![]);
        broadcast use vstd::seq_lib::group_to_multiset_ensures;
        broadcast use vstd::multiset::group_multiset_properties;

        assert(parts_in(none).len() == 0);
        assert(parts_in(none) =~= Multiset::empty());
    }
}

/// Whatever the configuration, a traversal flies the same parts, and sprays the
/// same of them.
pub proof fn law_configs_fly_the_same_parts(lines: Seq<Seq<LinePart>>, one: Config, other: Config)
    ensures
        parts_in(steps_of(lines, one)) == parts_in(steps_of(lines, other)),
{
    let n = lines.len() as int;
    lemma_steps_parts(lines, one, n);
    lemma_steps_parts(lines, other, n);
}

/// What the first `n` steps weigh, where each part has a weight.
pub open spec fn steps_weight(s: Seq<Step>, w: spec_fn(LinePart) -> int, n: int) -> int
    decreases n,
{
    if n <= 0 {
        0
    } else {
        steps_weight(s, w, n - 1) + w(s[n - 1].0)
    }
}

/// What the first `n` parts of a line weigh.
pub open spec fn line_weight(line: Seq<LinePart>, w: spec_fn(LinePart) -> int, n: int) -> int
    decreases n,
{
    if n <= 0 {
        0
    } else {
        line_weight(line, w, n - 1) + w(line[n - 1])
    }
}

/// What the first `n` lines weigh.
pub open spec fn lines_weight(lines: Seq<Seq<LinePart>>, w: spec_fn(LinePart) -> int, n: int) -> int
    decreases n,
{
    if n <= 0 {
        0
    } else {
        lines_weight(lines, w, n - 1) + line_weight(lines[n - 1], w, lines[n - 1].len() as int)
    }
}

proof fn lemma_line_weight(
    line: Seq<LinePart>,
    li: usize,
    backwards: bool,
    w: spec_fn(LinePart) -> int,
    k: int,
)
    requires
        0 <= k <= line.len(),
        forall|p: LinePart| w(#[trigger] turned_back(p)) == w(p),
    ensures
        ({
            let n = line.len() as int;
            steps_weight(line_steps(line, li, backwards, n), w, k) == (if backwards {
                line_weight(line, w, n) - line_weight(line, w, n - k)
            } else {
                line_weight(line, w, k)
            })
        }),
    decreases k,
{
    if k > 0 {
        lemma_line_weight(line, li, backwards, w, k - 1);
        let n = line.len() as int;
        let steps = line_steps(line, li, backwards, n);
        if backwards {
            assert(steps[k - 1].0 == turned_back(line[n - k]));
        } else {
            assert(steps[k - 1].0 == line[k - 1]);
        }
    }
}

proof fn lemma_weight_add(a: Seq<Step>, b: Seq<Step>, w: spec_fn(LinePart) -> int, k: int)
    requires
        0 <= k <= b.len(),
    ensures
        steps_weight(a + b, w, a.len() + k) == steps_weight(a, w, a.len() as int) + steps_weight(
            b,
            w,
            k,
        ),
    decreases k,
{
    if k > 0 {
        lemma_weight_add(a, b, w, k - 1);
        assert((a + b)[a.len() + k - 1] == b[k - 1]);
    } else {
        lemma_weight_prefix(a + b, a, w, a.len() as int);
    }
}

proof fn lemma_weight_prefix(s: Seq<Step>, t: Seq<Step>, w: spec_fn(LinePart) -> int, n: int)
    requires
        forall|i: int| 0 <= i < n ==> #[trigger] s[i] == t[i],
    ensures
        steps_weight(s, w, n) == steps_weight(t, w, n),
    decreases n,
{
    if n > 0 {
        lemma_weight_prefix(s, t, w, n - 1);
        assert(s[n - 1] == t[n - 1]);
    }
}

proof fn lemma_steps_weight(
    lines: Seq<Seq<LinePart>>,
    cfg: Config,
    w: spec_fn(LinePart) -> int,
    m: int,
)
    requires
        0 <= m <= lines.len(),
        forall|p: LinePart| w(#[trigger] turned_back(p)) == w(p),
    ensures
        ({
            let n = lines.len() as int;
            let s = steps_to(lines, cfg, m);
            steps_weight(s, w, s.len() as int) == (if cfg.0 {
                lines_weight(lines, w, n) - lines_weight(lines, w, n - m)
            } else {
                lines_weight(lines, w, m)
            })
        }),
    decreases m,
{
    if m > 0 {
        lemma_steps_weight(lines, cfg, w, m - 1);
        let li = line_at(lines.len() as int, cfg, m - 1);
        let back = backwards_at(cfg, m - 1);
        let k = lines[li].len() as int;
        let before = steps_to(lines, cfg, m - 1);
        let more = line_steps(lines[li], li as usize, back, k);
        lemma_line_weight(lines[li], li as usize, back, w, k);
        lemma_weight_add(before, more, w, k);
        assert(steps_to(lines, cfg, m).len() == before.len() + k);
    }
}

/// Whatever the configuration, a traversal weighs as much as its lines.
pub proof fn law_steps_weight(lines: Seq<Seq<LinePart>>, cfg: Config, w: spec_fn(LinePart) -> int)
    requires
        forall|p: LinePart| w(#[trigger] turned_back(p)) == w(p),
    ensures
        ({
            let s = steps_of(lines, cfg);
            steps_weight(s, w, s.len() as int) == lines_weight(lines, w, lines.len() as int)
        }),
{
    lemma_steps_weight(lines, cfg, w, lines.len() as int);
}

proof fn lemma_steps_are_parts(lines: Seq<Seq<LinePart>>, cfg: Config, m: int, i: int)
    requires
        0 <= m <= lines.len(),
        0 <= i < steps_to(lines, cfg, m).len(),
    ensures
        ({
            let part = steps_to(lines, cfg, m)[i].0;
            exists|j: int, k: int|
                0 <= j < lines.len() && 0 <= k < lines[j].len() && (part == #[trigger] lines[j][k]
                    || part == turned_back(lines[j][k]))
        }),
    decreases m,
{
    let li = line_at(lines.len() as int, cfg, m - 1);
    let before = steps_to(lines, cfg, m - 1);
    if i < before.len() {
        lemma_steps_are_parts(lines, cfg, m - 1, i);
        assert(steps_to(lines, cfg, m)[i] == before[i]);
    } else {
        let n = lines[li].len() as int;
        let at = i - before.len();
        let more = line_steps(lines[li], li as usize, backwards_at(cfg, m - 1), n);
        assert(steps_to(lines, cfg, m)[i] == more[at]);
        if backwards_at(cfg, m - 1) {
            assert(more[at].0 == turned_back(lines[li][n - 1 - at]));
        } else {
            assert(more[at].0 == lines[li][at]);
        }
    }
}

/// What is flown is a part of a line, one way or the other.
pub proof fn law_steps_are_parts(lines: Seq<Seq<LinePart>>, cfg: Config, i: int)
    requires
        0 <= i < steps_of(lines, cfg).len(),
    ensures
        ({
            let part = steps_of(lines, cfg)[i].0;
            exists|j: int, k: int|
                0 <= j < lines.len() && 0 <= k < lines[j].len() && (part == #[trigger] lines[j][k]
                    || part == turned_back(lines[j][k]))
        }),
{
    lemma_steps_are_parts(lines, cfg, lines.len() as int, i);
}

/// How often the line changes along the first `n` steps.
pub open spec fn line_changes(s: Seq<Step>, n: int) -> nat
    decreases n,
{
    if n <= 1 {
        0
    } else {
        line_changes(s, n - 1) + (if s[n - 1].1 != s[n - 2].1 {
            1nat
        } else {
            0
        })
    }
}

/// How many of the first `m` flown lines have a part.
spec fn flown_to(lines: Seq<Seq<LinePart>>, cfg: Config, m: int) -> nat
    decreases m,
{
    if m <= 0 {
        0
    } else {
        flown_to(lines, cfg, m - 1) + (if lines[line_at(lines.len() as int, cfg, m - 1)].len() > 0 {
            1nat
        } else {
            0
        })
    }
}

proof fn lemma_flown_either_end(lines: Seq<Seq<LinePart>>, cfg: Config, m: int)
    requires
        0 <= m <= lines.len(),
    ensures
        !cfg.0 ==> flown_to(lines, cfg, m) == lines_flown(lines, m),
        cfg.0 ==> flown_to(lines, cfg, m) + lines_flown(lines, lines.len() - m) == lines_flown(
            lines,
            lines.len() as int,
        ),
    decreases m,
{
    if m > 0 {
        lemma_flown_either_end(lines, cfg, m - 1);
    }
}

proof fn lemma_changes_prefix(a: Seq<Step>, b: Seq<Step>, n: int)
    requires
        n <= a.len(),
    ensures
        line_changes(a + b, n) == line_changes(a, n),
    decreases n,
{
    if n > 1 {
        lemma_changes_prefix(a, b, n - 1);
    }
}

proof fn lemma_changes_on_line(a: Seq<Step>, b: Seq<Step>, li: usize, k: int)
    requires
        1 <= k <= b.len(),
        forall|i: int| 0 <= i < b.len() ==> (#[trigger] b[i]).1 == li,
        a.len() > 0 ==> a.last().1 != li,
    ensures
        line_changes(a + b, a.len() + k) == line_changes(a, a.len() as int) + (if a.len() > 0 {
            1nat
        } else {
            0
        }),
    decreases k,
{
    let s = a + b;
    assert(b[k - 1].1 == li);
    assert(s[a.len() + k - 1] == b[k - 1]);
    if k > 1 {
        lemma_changes_on_line(a, b, li, k - 1);
        assert(b[k - 2].1 == li);
        assert(s[a.len() + k - 2] == b[k - 2]);
    } else {
        lemma_changes_prefix(a, b, a.len() as int);
        if a.len() > 0 {
            assert(s[a.len() - 1] == a.last());
        }
    }
}

proof fn lemma_steps_changes(lines: Seq<Seq<LinePart>>, cfg: Config, m: int)
    requires
        0 <= m <= lines.len() <= usize::MAX,
    ensures
        ({
            let s = steps_to(lines, cfg, m);
            let k = flown_to(lines, cfg, m);
            &&& s.len() > 0 <==> k > 0
            &&& line_changes(s, s.len() as int) == (if k > 0 {
                (k - 1) as nat
            } else {
                0
            })
            &&& s.len() > 0 ==> exists|i: int|
                0 <= i < m && s.last().1 == #[trigger] line_at(lines.len() as int, cfg, i)
        }),
    decreases m,
{
    if m > 0 {
        lemma_steps_changes(lines, cfg, m - 1);
        let n = lines.len() as int;
        let li = line_at(n, cfg, m - 1);
        let a = steps_to(lines, cfg, m - 1);
        let b = line_steps(lines[li], li as usize, backwards_at(cfg, m - 1), lines[li].len() as int);
        assert(steps_to(lines, cfg, m) == a + b);
        if b.len() > 0 {
            if a.len() > 0 {
                let i = choose|i: int| 0 <= i < m - 1 && a.last().1 == #[trigger] line_at(n, cfg, i);
                assert(line_at(n, cfg, i) != li);
            }
            lemma_changes_on_line(a, b, li as usize, b.len() as int);
            assert((a + b).last() == b[b.len() - 1]);
            assert((a + b).last().1 == line_at(n, cfg, m - 1));
        } else {
            assert(a + b =~= a);
            if a.len() > 0 {
                let i = choose|i: int| 0 <= i < m - 1 && a.last().1 == #[trigger] line_at(n, cfg, i);
                assert((a + b).last().1 == line_at(n, cfg, i));
            }
        }
    }
}

/// Whatever the configuration, the line changes between one line with a part and
/// the next.
pub proof fn law_line_changes(lines: Seq<Seq<LinePart>>, cfg: Config)
    requires
        lines.len() <= usize::MAX,
    ensures
        ({
            let s = steps_of(lines, cfg);
            let k = lines_flown(lines, lines.len() as int);
            &&& s.len() > 0 <==> k > 0
            &&& line_changes(s, s.len() as int) == (if k > 0 {
                (k - 1) as nat
            } else {
                0
            })
        }),
{
    lemma_steps_changes(lines, cfg, lines.len() as int);
    lemma_flown_either_end(lines, cfg, lines.len() as int);
    assert(lines_flown(lines, 0) == 0);
}

} // verus!
