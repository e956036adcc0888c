//! Grouping things that are linked, directly or through others.
use vstd::prelude::*;

use crate::sorting::indices;

verus! {

/// Which numbers are linked to which.
pub type Links = spec_fn(int, int) -> bool;

/// The labels after the groups of `i` and `j` became one: that of `i` takes the
/// label of `j`.
pub open spec fn joined_labels(labels: Seq<usize>, i: int, j: int) -> Seq<usize> {
    Seq::new(
        labels.len(),
        |x: int| if labels[x] == labels[i] { labels[j] } else { labels[x] },
    )
}

/// Disjoint groups of the numbers below a bound, as a forest: each number points
/// to another of its group, and the group's label to itself.
pub struct Forest {
    parent: Vec<usize>,
    label: Ghost<Seq<usize>>,
    depth: Ghost<Seq<nat>>,
    bound: Ghost<nat>,
}

impl View for Forest {
    type V = Seq<usize>;

    /// The label of each number.
    closed spec fn view(&self) -> Seq<usize> {
        self.label@
    }
}

/// Number `x` points within its group, towards the label.
spec fn sound_at(up: Seq<usize>, label: Seq<usize>, depth: Seq<nat>, bound: nat, x: int) -> bool {
    &&& up[x] < up.len()
    &&& label[x] < up.len()
    &&& label[up[x] as int] == label[x]
    &&& up[label[x] as int] == label[x]
    &&& depth[x] <= bound
    &&& up[x] == x ==> label[x] == x
    &&& up[x] != x ==> depth[up[x] as int] > depth[x]
}

impl Forest {
    spec fn sound(&self, x: int) -> bool {
        sound_at(self.parent@, self.label@, self.depth@, self.bound@, x)
    }

    /// Every way along the pointers ends at the label.
    pub closed spec fn wf(&self) -> bool {
        let n = self.parent@.len();
        &&& self.label@.len() == n
        &&& self.depth@.len() == n
        &&& forall|x: int| 0 <= x < n ==> #[trigger] self.sound(x)
    }

    /// A label is a number of its group.
    pub proof fn lemma_labels(&self)
        requires
            self.wf(),
        ensures
            forall|x: int|
                0 <= x < self@.len() ==> (#[trigger] self@[x]) < self@.len() && self@[self@[x] as int]
                    == self@[x],
    {
        assert forall|x: int| 0 <= x < self@.len() implies (#[trigger] self@[x]) < self@.len()
            && self@[self@[x] as int] == self@[x] by {
            let l = self.label@[x] as int;
            assert(self.sound(x));
            assert(self.sound(l));
        }
    }

    /// Each number below `n` in a group of its own.
    pub fn new(n: usize) -> (r: Forest)
        ensures
            r.wf(),
            r@ == indices(n as nat),
    {
        let mut parent: Vec<usize> = Vec::new();
        for i in 0..n
            invariant
                parent@ == indices(n as nat).take(i as int),
        {
            parent.push(i);
            assert(parent@ =~= indices(n as nat).take(i + 1));
        }
        assert(parent@ =~= indices(n as nat));
        let r = Forest {
            parent,
            label: Ghost(indices(n as nat)),
            depth: Ghost(Seq::new(n as nat, |i: int| 0nat)),
            bound: Ghost(0nat),
        };
        assert(forall|x: int| 0 <= x < n ==> #[trigger] r.sound(x));
        r
    }

    /// The label of a number. Shortens the way to it.
    pub fn find(&mut self, x: usize) -> (r: usize)
        requires
            old(self).wf(),
            x < old(self)@.len(),
        ensures
            final(self).wf(),
            final(self)@ == old(self)@,
            r == old(self)@[x as int],
    {
        let mut x = x;
        let ghost l = self@[x as int];
        assert(self.sound(x as int));
        while self.parent[x] != x
            invariant
                self.wf(),
                self@ == old(self)@,
                x < self@.len(),
                self@[x as int] == l,
            decreases self.bound@ - self.depth@[x as int],
        {
            assert(self.sound(x as int));
            let up = self.parent[x];
            assert(self.sound(up as int));
            let above = self.parent[up];
            assert(self.sound(above as int));
            let ghost before = *self;
            self.parent.set(x, above);
            proof {
                assert forall|y: int| 0 <= y < self.parent@.len() implies #[trigger] self.sound(y) by {
                    assert(before.sound(y));
                    assert(before.sound(before.label@[y] as int));
                }
            }
            x = above;
        }
        assert(self.sound(x as int));
        x
    }

    /// Makes the groups of two numbers one.
    pub fn join(&mut self, i: usize, j: usize)
        requires
            old(self).wf(),
            i < old(self)@.len(),
            j < old(self)@.len(),
        ensures
            final(self).wf(),
            final(self)@ == joined_labels(old(self)@, i as int, j as int),
    {
        let ri = self.find(i);
        let rj = self.find(j);
        let ghost label = self@;
        let ghost depth = self.depth@;
        let ghost bound = self.bound@;
        let ghost before = *self;
        proof {
            self.lemma_labels();
            assert(self.sound(i as int) && self.sound(j as int));
            assert(self.sound(ri as int) && self.sound(rj as int));
        }
        self.parent.set(ri, rj);
        let ghost deep: nat = if depth[ri as int] + 1 > depth[rj as int] {
            depth[ri as int] + 1
        } else {
            depth[rj as int]
        };
        self.label = Ghost(joined_labels(label, i as int, j as int));
        if ri != rj {
            self.depth = Ghost(depth.update(rj as int, deep));
            self.bound = Ghost(bound + deep);
        }
        proof {
            if ri == rj {
                assert(joined_labels(label, i as int, j as int) =~= label);
                assert(self.parent@ =~= before.parent@);
                assert forall|y: int| 0 <= y < self.parent@.len() implies #[trigger] self.sound(y) by {
                    assert(before.sound(y));
                }
            } else {
                assert forall|y: int| 0 <= y < self.parent@.len() implies #[trigger] self.sound(y) by {
                    assert(before.sound(y));
                    assert(before.sound(before.label@[y] as int));
                }
            }
        }
    }
}

// ---------------------------------------------------------------------------
// Clusters
// ---------------------------------------------------------------------------

/// The labels after number `i` was held against the numbers behind it, up to
/// `j`, and joined with those that it is linked to.
pub open spec fn row_labels(links: Links, labels: Seq<usize>, i: int, j: int) -> Seq<usize>
    decreases j - i,
{
    if j <= i + 1 {
        labels
    } else {
        let l = row_labels(links, labels, i, j - 1);
        if links(i, j - 1) { joined_labels(l, i, j - 1) } else { l }
    }
}

/// The labels of the numbers below `n` after the first `i` were held against
/// those behind them.
pub open spec fn cluster_labels(links: Links, n: nat, i: int) -> Seq<usize>
    decreases i,
{
    if i <= 0 {
        indices(n)
    } else {
        row_labels(links, cluster_labels(links, n, i - 1), i - 1, n as int)
    }
}

/// The labels of the clusters of linked numbers below `n`.
pub open spec fn clusters(links: Links, n: nat) -> Seq<usize> {
    cluster_labels(links, n, n as int)
}

/// What a table of links says.
pub open spec fn table_links(t: Seq<Vec<bool>>) -> Links {
    |i: int, j: int| t[i]@[j]
}

/// The labels of the clusters of linked numbers. Entry `[i][j]` of the table
/// tells whether `i` is linked to a greater `j`.
pub fn cluster(table: &Vec<Vec<bool>>) -> (r: Vec<usize>)
    requires
        forall|i: int| 0 <= i < table@.len() ==> (#[trigger] table@[i])@.len() == table@.len(),
    ensures
        r@ == clusters(table_links(table@), table@.len()),
{
    let n = table.len();
    let ghost links = table_links(table@);
    let mut f = Forest::new(n);
    proof {
        lemma_row_len(links, n as nat, n as int);
    }
    for i in 0..n
        invariant
            n == table@.len(),
            forall|k: int| 0 <= k < table@.len() ==> (#[trigger] table@[k])@.len() == table@.len(),
            links == table_links(table@),
            f.wf(),
            f@ == cluster_labels(links, n as nat, i as int),
            f@.len() == n,
    {
        let ghost start = f@;
        let row = &table[i];
        for j in i + 1..n
            invariant
                i < n,
                n == table@.len(),
                row@ == table@[i as int]@,
                row@.len() == n,
                links == table_links(table@),
                f.wf(),
                f@ == row_labels(links, start, i as int, j as int),
                f@.len() == n,
        {
            if row[j] {
                f.join(i, j);
            }
        }
    }
    let mut out: Vec<usize> = Vec::new();
    let ghost labels = f@;
    for i in 0..n
        invariant
            f.wf(),
            f@ == labels,
            labels.len() == n,
            out@ == labels.take(i as int),
    {
        let l = f.find(i);
        out.push(l);
        assert(out@ =~= labels.take(i + 1));
    }
    assert(out@ =~= labels);
    out
}

/// Clustering labels each number.
proof fn lemma_row_len(links: Links, n: nat, i: int)
    ensures
        cluster_labels(links, n, i).len() == n,
    decreases i,
{
    if i > 0 {
        lemma_row_len(links, n, i - 1);
        lemma_row_labels_len(links, cluster_labels(links, n, i - 1), i - 1, n as int);
    }
}

proof fn lemma_row_labels_len(links: Links, labels: Seq<usize>, i: int, j: int)
    ensures
        row_labels(links, labels, i, j).len() == labels.len(),
    decreases j - i,
{
    if j > i + 1 {
        lemma_row_labels_len(links, labels, i, j - 1);
    }
}

/// Two different numbers below `n` are linked.
pub open spec fn linked(links: Links, n: nat, a: int, b: int) -> bool {
    &&& 0 <= a < n
    &&& 0 <= b < n
    &&& (a < b && links(a, b)) || (b < a && links(b, a))
}

/// `b` is reached from `a` over `k` links.
pub open spec fn reached(links: Links, n: nat, a: int, b: int, k: nat) -> bool
    decreases k,
{
    if k == 0 {
        a == b
    } else {
        exists|c: int|
            reached(links, n, a, c, (k - 1) as nat) && #[trigger] linked(links, n, c, b)
    }
}

/// `b` is reached from `a` over links.
pub open spec fn connected(links: Links, n: nat, a: int, b: int) -> bool {
    exists|k: nat| reached(links, n, a, b, k)
}

proof fn lemma_reached_on(links: Links, n: nat, a: int, b: int, c: int, k: nat, m: nat)
    requires
        reached(links, n, a, b, k),
        reached(links, n, b, c, m),
    ensures
        reached(links, n, a, c, k + m),
    decreases m,
{
    if m > 0 {
        let d = choose|d: int|
            reached(links, n, b, d, (m - 1) as nat) && #[trigger] linked(links, n, d, c);
        lemma_reached_on(links, n, a, b, d, k, (m - 1) as nat);
        assert(reached(links, n, a, d, (k + m - 1) as nat) && linked(links, n, d, c));
    }
}

proof fn lemma_reached_back(links: Links, n: nat, a: int, b: int, k: nat)
    requires
        reached(links, n, a, b, k),
    ensures
        reached(links, n, b, a, k),
    decreases k,
{
    if k > 0 {
        let d = choose|d: int|
            reached(links, n, a, d, (k - 1) as nat) && #[trigger] linked(links, n, d, b);
        lemma_reached_back(links, n, a, d, (k - 1) as nat);
        assert(reached(links, n, b, b, 0) && linked(links, n, b, d));
        assert(reached(links, n, b, d, 1));
        lemma_reached_on(links, n, b, d, a, 1, (k - 1) as nat);
    }
}

proof fn lemma_connected_on(links: Links, n: nat, a: int, b: int, c: int)
    requires
        connected(links, n, a, b),
        connected(links, n, b, c),
    ensures
        connected(links, n, a, c),
{
    let k = choose|k: nat| reached(links, n, a, b, k);
    let m = choose|m: nat| reached(links, n, b, c, m);
    lemma_reached_on(links, n, a, b, c, k, m);
}

proof fn lemma_connected_back(links: Links, n: nat, a: int, b: int)
    requires
        connected(links, n, a, b),
    ensures
        connected(links, n, b, a),
{
    let k = choose|k: nat| reached(links, n, a, b, k);
    lemma_reached_back(links, n, a, b, k);
}

/// What has one label is connected.
spec fn labels_sound(links: Links, n: nat, labels: Seq<usize>) -> bool {
    &&& labels.len() == n
    &&& forall|x: int, y: int|
        0 <= x < n && 0 <= y < n && #[trigger] labels[x] == #[trigger] labels[y] ==> connected(
            links,
            n,
            x,
            y,
        )
}

proof fn lemma_join_sound(links: Links, n: nat, labels: Seq<usize>, i: int, j: int)
    requires
        labels_sound(links, n, labels),
        linked(links, n, i, j),
    ensures
        labels_sound(links, n, joined_labels(labels, i, j)),
{
    let new = joined_labels(labels, i, j);
    assert(reached(links, n, i, i, 0) && linked(links, n, i, j));
    assert(reached(links, n, i, j, 1));
    assert(connected(links, n, i, j));
    lemma_connected_back(links, n, i, j);
    assert forall|x: int, y: int|
        0 <= x < n && 0 <= y < n && #[trigger] new[x] == #[trigger] new[y] implies connected(
        links,
        n,
        x,
        y,
    ) by {
        if labels[x] == labels[y] {
        } else if labels[x] == labels[i] {
            assert(labels[y] == labels[j]);
            lemma_connected_on(links, n, x, i, j);
            lemma_connected_on(links, n, x, j, y);
        } else {
            assert(labels[y] == labels[i] && labels[x] == labels[j]);
            lemma_connected_on(links, n, x, j, i);
            lemma_connected_on(links, n, x, i, y);
        }
    }
}

/// What was joined before stays joined through a row, and what the row links is
/// joined.
proof fn lemma_row_joins(links: Links, n: nat, labels: Seq<usize>, i: int, j: int)
    requires
        labels_sound(links, n, labels),
        0 <= i < n,
        j <= n,
    ensures
        labels_sound(links, n, row_labels(links, labels, i, j)),
        forall|x: int, y: int|
            0 <= x < n && 0 <= y < n && #[trigger] labels[x] == #[trigger] labels[y]
                ==> row_labels(links, labels, i, j)[x] == row_labels(links, labels, i, j)[y],
        forall|k: int|
            i < k < j && #[trigger] links(i, k) ==> row_labels(links, labels, i, j)[i]
                == row_labels(links, labels, i, j)[k],
    decreases j - i,
{
    if j > i + 1 {
        lemma_row_joins(links, n, labels, i, j - 1);
        let l = row_labels(links, labels, i, j - 1);
        if links(i, j - 1) {
            lemma_join_sound(links, n, l, i, j - 1);
        }
    }
}

proof fn lemma_clusters_join(links: Links, n: nat, i: int)
    requires
        n <= usize::MAX,
        i <= n,
    ensures
        labels_sound(links, n, cluster_labels(links, n, i)),
        forall|x: int, y: int|
            0 <= x < i && x < y < n && #[trigger] links(x, y) ==> cluster_labels(links, n, i)[x]
                == cluster_labels(links, n, i)[y],
    decreases i,
{
    if i <= 0 {
        let l = indices(n);
        assert forall|x: int, y: int|
            0 <= x < n && 0 <= y < n && #[trigger] l[x] == #[trigger] l[y] implies connected(
            links,
            n,
            x,
            y,
        ) by {
            assert(x == y);
            assert(reached(links, n, x, y, 0));
        }
    } else {
        lemma_clusters_join(links, n, i - 1);
        let l = cluster_labels(links, n, i - 1);
        lemma_row_joins(links, n, l, i - 1, n as int);
    }
}

/// Two numbers are in one cluster if, and only if, one is reached from the other
/// over links.
pub proof fn law_clusters(links: Links, n: nat, a: int, b: int)
    requires
        n <= usize::MAX,
        0 <= a < n,
        0 <= b < n,
    ensures
        clusters(links, n)[a] == clusters(links, n)[b] <==> connected(links, n, a, b),
{
    lemma_clusters_join(links, n, n as int);
    if connected(links, n, a, b) {
        let k = choose|k: nat| reached(links, n, a, b, k);
        lemma_reached_same(links, n, a, b, k);
    }
}

proof fn lemma_reached_same(links: Links, n: nat, a: int, b: int, k: nat)
    requires
        n <= usize::MAX,
        0 <= a < n,
        0 <= b < n,
        reached(links, n, a, b, k),
    ensures
        clusters(links, n)[a] == clusters(links, n)[b],
    decreases k,
{
    if k > 0 {
        let d = choose|d: int|
            reached(links, n, a, d, (k - 1) as nat) && #[trigger] linked(links, n, d, b);
        lemma_reached_same(links, n, a, d, (k - 1) as nat);
        lemma_clusters_join(links, n, n as int);
        if d < b {
            assert(links(d, b));
        } else {
            assert(links(b, d));
        }
    }
}

// ---------------------------------------------------------------------------
// Counting
// ---------------------------------------------------------------------------

/// How many groups labels tell apart.
pub open spec fn group_count(labels: Seq<usize>) -> nat {
    labels.to_set().len()
}

/// The numbers below `k` that are their own labels.
spec fn own_labels(labels: Seq<usize>, k: int) -> Set<usize>
    decreases k,
{
    if k <= 0 {
        Set::empty()
    } else if labels[k - 1] == k - 1 {
        own_labels(labels, k - 1).insert((k - 1) as usize)
    } else {
        own_labels(labels, k - 1)
    }
}

proof fn lemma_own_labels(labels: Seq<usize>, k: int)
    requires
        0 <= k <= labels.len() <= usize::MAX,
    ensures
        own_labels(labels, k).finite(),
        forall|x: usize| #[trigger]
            own_labels(labels, k).contains(x) <==> x < k && labels[x as int] == x,
    decreases k,
{
    if k > 0 {
        lemma_own_labels(labels, k - 1);
    }
}

/// How many groups labels tell apart, where each label is a number of its group.
pub fn count_groups(labels: &Vec<usize>) -> (r: usize)
    requires
        forall|x: int|
            0 <= x < labels@.len() ==> (#[trigger] labels@[x]) < labels@.len()
                && labels@[labels@[x] as int] == labels@[x],
    ensures
        r == group_count(labels@),
{
    let mut count: usize = 0;
    for i in 0..labels.len()
        invariant
            count == own_labels(labels@, i as int).len(),
            count <= i,
    {
        proof {
            lemma_own_labels(labels@, i as int);
        }
        if labels[i] == i {
            count = count + 1;
        }
    }
    proof {
        let n = labels@.len() as int;
        lemma_own_labels(labels@, n);
        assert forall|x: usize| own_labels(labels@, n).contains(x) <==> labels@.to_set().contains(
            x,
        ) by {
            if labels@.contains(x) {
                let i = choose|i: int| 0 <= i < labels@.len() && labels@[i] == x;
                assert(labels@[i] < labels@.len());
            }
            if own_labels(labels@, n).contains(x) {
                assert(labels@[x as int] == x);
            }
        }
        assert(own_labels(labels@, n) =~= labels@.to_set());
    }
    count
}

/// The label of a cluster is a number of that cluster.
pub proof fn lemma_cluster_labels(links: Links, n: nat, i: int)
    requires
        n <= usize::MAX,
        i <= n,
    ensures
        cluster_labels(links, n, i).len() == n,
        own_label_each(cluster_labels(links, n, i)),
    decreases i,
{
    if i > 0 {
        lemma_cluster_labels(links, n, i - 1);
        lemma_row_own(links, cluster_labels(links, n, i - 1), i - 1, n as int);
        lemma_row_labels_len(links, cluster_labels(links, n, i - 1), i - 1, n as int);
    }
}

/// Each label is a number of its group.
pub open spec fn own_label_each(labels: Seq<usize>) -> bool {
    forall|x: int|
        0 <= x < labels.len() ==> (#[trigger] labels[x]) < labels.len()
            && labels[labels[x] as int] == labels[x]
}

proof fn lemma_row_own(links: Links, labels: Seq<usize>, i: int, j: int)
    requires
        own_label_each(labels),
        0 <= i < labels.len(),
        j <= labels.len(),
    ensures
        own_label_each(row_labels(links, labels, i, j)),
    decreases j - i,
{
    if j > i + 1 {
        lemma_row_own(links, labels, i, j - 1);
        lemma_row_labels_len(links, labels, i, j - 1);
        let l = row_labels(links, labels, i, j - 1);
        let new = joined_labels(l, i, j - 1);
        assert forall|x: int| 0 <= x < new.len() implies (#[trigger] new[x]) < new.len()
            && new[new[x] as int] == new[x] by {
            assert(l[x] < l.len());
            assert(l[i] < l.len());
            assert(l[j - 1] < l.len());
        }
    }
}

/// Links that agree on the numbers below `n` make the same clusters.
pub proof fn lemma_clusters_by_links(a: Links, b: Links, n: nat, i: int)
    requires
        i <= n,
        forall|x: int, y: int| 0 <= x < y < n ==> #[trigger] a(x, y) == b(x, y),
    ensures
        cluster_labels(a, n, i) == cluster_labels(b, n, i),
    decreases i,
{
    if i > 0 {
        lemma_clusters_by_links(a, b, n, i - 1);
        lemma_row_by_links(a, b, cluster_labels(a, n, i - 1), n, i - 1, n as int);
    }
}

proof fn lemma_row_by_links(a: Links, b: Links, labels: Seq<usize>, n: nat, i: int, j: int)
    requires
        0 <= i,
        j <= n,
        forall|x: int, y: int| 0 <= x < y < n ==> #[trigger] a(x, y) == b(x, y),
    ensures
        row_labels(a, labels, i, j) == row_labels(b, labels, i, j),
    decreases j - i,
{
    if j > i + 1 {
        lemma_row_by_links(a, b, labels, n, i, j - 1);
        assert(a(i, j - 1) == b(i, j - 1));
    }
}

} // verus!
