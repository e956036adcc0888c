//! Laws of cells and blocks: what one of them holds is not lost when they are cut, joined and merged.
use vstd::prelude::*;

use crate::cells::{
    absorbed, best_neighbor, first_sliver, joined_cells, kept, lemma_best_neighbor, lemma_first_sliver, lone, slab,
    slab_cells,
};
use crate::double::Double;
use crate::geom::{bounds_of, GeomView, PolygonView};
use crate::merge::{best_pair, lemma_best_pair, merged, offer, offers, table_of, with_merged, BlockView, Effort};
use crate::params::AircraftParams;
use crate::rings::union_at;
use crate::tools::{Clip, Meaning};

verus! {

/// A geometry holds something, such as a given point.
pub type Holds = spec_fn(GeomView) -> bool;

/// The union of two geometries holds what one of them holds.
pub open spec fn union_keeps(m: Meaning, has: Holds) -> bool {
    forall|cells: Seq<GeomView>, at: Seq<usize>|
        at.len() == 2 && at[0] < cells.len() && at[1] < cells.len() && (has(cells[at[0] as int]) || has(
            cells[at[1] as int],
        )) ==> has(#[trigger] union_at(m.union, cells, at))
}

/// One of some geometries holds something.
pub open spec fn one_has(has: Holds, cells: Seq<GeomView>) -> bool {
    exists|k: int| 0 <= k < cells.len() && has(#[trigger] cells[k])
}

/// Joining slivers to their neighbours loses nothing: what a cell holds, one of the remaining cells holds.
pub proof fn law_joining_loses_nothing(m: Meaning, has: Holds, cells: Seq<GeomView>, least: Double)
    requires
        union_keeps(m, has),
        one_has(has, cells),
        cells.len() <= usize::MAX,
    ensures
        one_has(has, absorbed(m, cells, least)),
    decreases cells.len(),
{
    let i = first_sliver(m.hypot, cells, least, 0);
    lemma_first_sliver(m.hypot, cells, least, 0);
    if 0 <= i < cells.len() {
        lemma_best_neighbor(m.hypot, cells, i, cells.len() as int);
        let j = best_neighbor(m.hypot, cells, i, cells.len() as int).0;
        let next = joined_cells(m, cells, i, j);
        let pair = seq![j as usize, i as usize];
        let u = union_at(m.union, cells, pair);
        let k = choose|k: int| 0 <= k < cells.len() && has(#[trigger] cells[k]);
        let to = if k == i {
            j
        } else {
            k
        };
        let at = if to < i {
            to
        } else {
            to - 1
        };
        assert(next[at] == cells.update(j, u)[to]);
        if to == j {
            assert(has(cells[pair[0] as int]) || has(cells[pair[1] as int]));
            assert(has(u));
        }
        assert(has(next[at]));
        law_joining_loses_nothing(m, has, next, least);
    }
}

proof fn lemma_kept(cut: Seq<PolygonView>, n: int, k: int)
    requires
        0 <= k < n <= cut.len(),
        Double::of_int(1).lt(cut[k].opened().area()),
    ensures
        kept(cut, n).contains(lone(cut[k].opened())),
    decreases n,
{
    let (now, before) = (kept(cut, n), kept(cut, n - 1));
    let g = lone(cut[k].opened());
    if k == n - 1 {
        assert(now[now.len() - 1] == g);
    } else {
        lemma_kept(cut, n - 1, k);
        let j = choose|j: int| 0 <= j < before.len() && before[j] == g;
        assert(now[j] == g);
    }
}

/// Cutting loses nothing but crumbs: of every slab between two cuts a foot and more apart, each polygon that is cut
/// out is a cell, if it is larger than a square foot.
pub proof fn law_every_slab_is_cut(clip: Clip, rot: PolygonView, xs: Seq<Double>, n: int, i: int, k: int)
    requires
        0 <= i < n < xs.len(),
        !xs[i + 1].minus(xs[i]).lt(Double::of_int(1)),
        ({
            let (lo, hi) = bounds_of(rot.exterior, rot.exterior.len() as int);
            let cut = clip(rot.closed(), slab(xs[i], xs[i + 1], lo.y, hi.y));
            &&& 0 <= k < cut.len()
            &&& Double::of_int(1).lt(cut[k].opened().area())
        }),
    ensures
        ({
            let (lo, hi) = bounds_of(rot.exterior, rot.exterior.len() as int);
            let cut = clip(rot.closed(), slab(xs[i], xs[i + 1], lo.y, hi.y));
            slab_cells(clip, rot, xs, n).contains(lone(cut[k].opened()))
        }),
    decreases n,
{
    let (lo, hi) = bounds_of(rot.exterior, rot.exterior.len() as int);
    let cut = clip(rot.closed(), slab(xs[i], xs[i + 1], lo.y, hi.y));
    let g = lone(cut[k].opened());
    let (now, before) = (slab_cells(clip, rot, xs, n), slab_cells(clip, rot, xs, n - 1));
    if i == n - 1 {
        let more = kept(cut, cut.len() as int);
        lemma_kept(cut, cut.len() as int, k);
        let j = choose|j: int| 0 <= j < more.len() && more[j] == g;
        assert(now == before + more);
        assert(now[before.len() + j] == g);
    } else {
        law_every_slab_is_cut(clip, rot, xs, n - 1, i, k);
        let j = choose|j: int| 0 <= j < before.len() && before[j] == g;
        assert(now[j] == g);
    }
}

/// One of some blocks holds something.
pub open spec fn a_block_has(has: Holds, blocks: Seq<BlockView>) -> bool {
    exists|k: int| 0 <= k < blocks.len() && has((#[trigger] blocks[k]).geom)
}

/// A merger of two blocks is offered of their union.
proof fn lemma_offered(m: Meaning, a: BlockView, b: BlockView, effort: Effort, p: AircraftParams)
    requires
        offer(m, a, b, effort, p) is Some,
    ensures
        (offer(m, a, b, effort, p)->0).1.geom == union_at(m.union, seq![a.geom, b.geom], seq![0usize, 1usize]),
{
    reveal(offer);
}

/// Merging blocks loses nothing: what a block holds, one of the blocks that are left holds.
pub proof fn law_merging_loses_nothing(
    m: Meaning,
    has: Holds,
    effort: Effort,
    p: AircraftParams,
    blocks: Seq<BlockView>,
)
    requires
        union_keeps(m, has),
        a_block_has(has, blocks),
    ensures
        a_block_has(has, merged(offers(m, effort, p), blocks)),
    decreases blocks.len(),
{
    let f = offers(m, effort, p);
    let t = table_of(f, blocks);
    lemma_best_pair(t, blocks.len() as int);
    match best_pair(t, blocks.len() as int) {
        None => {},
        Some((i, j, gain)) => {
            let o = offer(m, blocks[i], blocks[j], effort, p);
            assert(t[j][i] == o);
            let b = (o->0).1;
            let next = with_merged(blocks, i, j, b);
            let pair = seq![blocks[i].geom, blocks[j].geom];
            let both = seq![0usize, 1usize];
            assert(o is Some);
            lemma_offered(m, blocks[i], blocks[j], effort, p);
            assert(b.geom == union_at(m.union, pair, both));
            let k = choose|k: int| 0 <= k < blocks.len() && has((#[trigger] blocks[k]).geom);
            let last = blocks.remove(j).remove(i);
            assert(next == last.push(b));
            if k == i || k == j {
                assert(has(pair[both[0] as int]) || has(pair[both[1] as int]));
                assert(has(b.geom));
                assert(next[last.len() as int] == b);
            } else {
                let k1 = if k < j {
                    k
                } else {
                    k - 1
                };
                let k2 = if k1 < i {
                    k1
                } else {
                    k1 - 1
                };
                assert(blocks.remove(j)[k1] == blocks[k]);
                assert(last[k2] == blocks[k]);
                assert(next[k2] == blocks[k]);
            }
            assert(a_block_has(has, next));
            law_merging_loses_nothing(m, has, effort, p, next);
        },
    }
}

} // verus!
