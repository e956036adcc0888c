//! Permutations in lexicographic order.
use vstd::prelude::*;
use vstd::seq_lib::*;

use crate::sorting::indices;

verus! {

/// `a` comes before `b` in lexicographic order.
pub open spec fn lex_before(a: Seq<usize>, b: Seq<usize>) -> bool {
    exists|d: int| differ_at(a, b, d) && a[d] < b[d]
}

/// `d` is the first place at which two sequences of one length differ.
pub open spec fn differ_at(a: Seq<usize>, b: Seq<usize>, d: int) -> bool {
    &&& a.len() == b.len()
    &&& 0 <= d < a.len()
    &&& forall|i: int| 0 <= i < d ==> a[i] == b[i]
    &&& a[d] != b[d]
}

/// `a` and `b` hold the same items, each as often.
pub open spec fn rearranged(a: Seq<usize>, b: Seq<usize>) -> bool {
    a.to_multiset() == b.to_multiset()
}

/// Rearranging keeps the length.
pub proof fn lemma_rearranged_len(a: Seq<usize>, b: Seq<usize>)
    requires
        rearranged(a, b),
    ensures
        a.len() == b.len(),
{
    broadcast use group_to_multiset_ensures;

    assert(a.to_multiset().len() == a.len());
    assert(b.to_multiset().len() == b.len());
}

/// Two sequences of one length are equal or differ at some first place.
proof fn lemma_differ(a: Seq<usize>, b: Seq<usize>, from: int) -> (d: int)
    requires
        a.len() == b.len(),
        0 <= from <= a.len(),
        forall|i: int| 0 <= i < from ==> a[i] == b[i],
        a != b,
    ensures
        differ_at(a, b, d),
    decreases a.len() - from,
{
    if from == a.len() {
        assert(a =~= b);
        0
    } else if a[from] == b[from] {
        lemma_differ(a, b, from + 1)
    } else {
        from
    }
}

/// There is one first place.
proof fn lemma_differ_once(a: Seq<usize>, b: Seq<usize>, d: int, e: int)
    requires
        differ_at(a, b, d),
        differ_at(a, b, e),
    ensures
        d == e,
{
    if d < e {
        assert(a[d] == b[d]);
    }
    if e < d {
        assert(a[e] == b[e]);
    }
}

/// Of two different sequences of one length, one comes before the other, and not
/// the other way round.
pub proof fn law_lex_total(a: Seq<usize>, b: Seq<usize>)
    requires
        a.len() == b.len(),
    ensures
        a != b ==> lex_before(a, b) != lex_before(b, a),
        a == b ==> !lex_before(a, b),
{
    if a != b {
        let d = lemma_differ(a, b, 0);
        if lex_before(b, a) {
            let e = choose|e: int| differ_at(b, a, e) && b[e] < a[e];
            assert(differ_at(a, b, e));
            lemma_differ_once(a, b, d, e);
        }
        if lex_before(a, b) {
            let e = choose|e: int| differ_at(a, b, e) && a[e] < b[e];
            lemma_differ_once(a, b, d, e);
        }
        if a[d] < b[d] {
            assert(lex_before(a, b));
        } else {
            assert(differ_at(b, a, d));
            assert(lex_before(b, a));
        }
    }
}

/// What stands first behind a common prefix of rearrangements stands somewhere
/// behind it in the other.
proof fn lemma_behind_prefix(a: Seq<usize>, s: Seq<usize>, d: int) -> (k: int)
    requires
        rearranged(a, s),
        0 <= d < s.len(),
        forall|i: int| 0 <= i < d ==> a[i] == s[i],
    ensures
        d <= k < a.len(),
        a[k] == s[d],
{
    lemma_rearranged_len(a, s);
    let (a1, a2) = (a.take(d), a.skip(d));
    let (s1, s2) = (s.take(d), s.skip(d));
    assert(a =~= a1 + a2);
    assert(s =~= s1 + s2);
    assert(a1 =~= s1);
    lemma_multiset_commutative(a1, a2);
    lemma_multiset_commutative(s1, s2);
    let m = a1.to_multiset();
    broadcast use group_to_multiset_ensures;

    assert(s2[0] == s[d]);
    assert(s2.contains(s[d]));
    assert(s2.to_multiset().count(s[d]) > 0);
    assert(a.to_multiset().count(s[d]) == m.count(s[d]) + a2.to_multiset().count(s[d]));
    assert(s.to_multiset().count(s[d]) == m.count(s[d]) + s2.to_multiset().count(s[d]));
    assert(a2.to_multiset().count(s[d]) > 0);
    assert(a2.contains(s[d]));
    let j = choose|j: int| 0 <= j < a2.len() && a2[j] == s[d];
    assert(a[d + j] == s[d]);
    d + j
}

/// Exchanging two places rearranges.
proof fn lemma_swap(a: Seq<usize>, i: int, j: int)
    requires
        0 <= i < a.len(),
        0 <= j < a.len(),
    ensures
        rearranged(a, a.update(i, a[j]).update(j, a[i])),
{
    broadcast use group_to_multiset_ensures;

    let b = a.update(i, a[j]);
    let c = b.update(j, a[i]);
    let m = a.to_multiset();
    assert(b.to_multiset() =~= m.insert(a[j]).remove(a[i]));
    assert(c.to_multiset() =~= b.to_multiset().insert(a[i]).remove(b[j]));
    assert(b[j] == a[j]);
    assert(m.count(a[i]) > 0) by {
        assert(a.contains(a[i]));
    }
    assert(c.to_multiset() =~= m);
}

fn swap(a: &mut [usize], i: usize, j: usize)
    requires
        i < old(a)@.len(),
        j < old(a)@.len(),
    ensures
        final(a)@ == old(a)@.update(i as int, old(a)@[j as int]).update(j as int, old(a)@[i as int]),
        rearranged(old(a)@, final(a)@),
{
    proof {
        lemma_swap(a@, i as int, j as int);
    }
    let x = a[i];
    let y = a[j];
    a[i] = y;
    a[j] = x;
}

/// From place `i` on nothing is followed by something greater.
pub open spec fn falls_from(a: Seq<usize>, i: int) -> bool {
    forall|k: int, l: int| i <= k <= l < a.len() ==> a[k] >= a[l]
}

/// What falls from the start on comes before none of its rearrangements; more
/// generally, a rearrangement that comes later differs before the fall.
proof fn lemma_later_differs_early(a: Seq<usize>, s: Seq<usize>, i: int, d: int)
    requires
        rearranged(a, s),
        0 <= i,
        falls_from(a, i),
        differ_at(a, s, d),
        a[d] < s[d],
    ensures
        d < i,
{
    if d >= i {
        let k = lemma_behind_prefix(a, s, d);
        assert(a[d] >= a[k]);
    }
}

/// `b` is the next rearrangement behind `a`.
pub open spec fn next_after(a: Seq<usize>, b: Seq<usize>) -> bool {
    &&& rearranged(a, b)
    &&& lex_before(a, b)
    &&& forall|s: Seq<usize>| #[trigger]
        rearranged(a, s) && lex_before(a, s) ==> s == b || lex_before(b, s)
}

/// `a` is the last of its rearrangements.
pub open spec fn last_of_all(a: Seq<usize>) -> bool {
    forall|s: Seq<usize>| #[trigger] rearranged(a, s) ==> !lex_before(a, s)
}

/// Raising the place before the fall by the least possible, and turning the fall
/// round, gives the next rearrangement.
proof fn lemma_next(a: Seq<usize>, r: Seq<usize>, i: int, j: int)
    requires
        rearranged(a, r),
        1 <= i <= j < a.len(),
        falls_from(a, i),
        a[i - 1] < a[j],
        forall|k: int| j < k < a.len() ==> #[trigger] a[k] <= a[i - 1],
        forall|k: int| 0 <= k < i - 1 ==> r[k] == a[k],
        r[i - 1] == a[j],
        forall|k: int, l: int| i <= k <= l < r.len() ==> r[k] <= r[l],
    ensures
        next_after(a, r),
{
    lemma_rearranged_len(a, r);
    assert(differ_at(a, r, i - 1));
    assert forall|s: Seq<usize>| #[trigger] rearranged(a, s) && lex_before(a, s) implies s == r
        || lex_before(r, s) by {
        lemma_rearranged_len(a, s);
        let d = choose|d: int| differ_at(a, s, d) && a[d] < s[d];
        lemma_later_differs_early(a, s, i, d);
        if d < i - 1 {
            assert(differ_at(r, s, d));
        } else {
            let k = lemma_behind_prefix(a, s, d);
            assert(k <= j);
            assert(s[d] >= r[d]);
            if s[d] > r[d] {
                assert(differ_at(r, s, d));
            } else if s != r {
                let e = lemma_differ(r, s, 0);
                assert(e >= i) by {
                    if e < i {
                        assert(r[e] == s[e]);
                    }
                }
                let m = lemma_behind_prefix(r, s, e);
                assert(r[e] <= r[m]);
                assert(lex_before(r, s));
            }
        }
    }
}

/// Turns the sequence into the next one with the same items. Tells whether there
/// is one; if not, nothing changes.
pub fn next_permutation(a: &mut [usize]) -> (r: bool)
    ensures
        r ==> next_after(old(a)@, final(a)@),
        !r ==> last_of_all(old(a)@) && final(a)@ == old(a)@,
{
    let ghost a0 = a@;
    let n = a.len();
    if n < 2 {
        proof {
            assert forall|s: Seq<usize>| #[trigger] rearranged(a0, s) implies !lex_before(
                a0,
                s,
            ) by {
                if lex_before(a0, s) {
                    let d = choose|d: int| differ_at(a0, s, d) && a0[d] < s[d];
                    lemma_later_differs_early(a0, s, 0, d);
                }
            }
        }
        return false;
    }
    let mut i = n - 1;
    while i > 0 && a[i - 1] >= a[i]
        invariant
            a@ == a0,
            n == a0.len(),
            0 <= i < n,
            falls_from(a0, i as int),
        decreases i,
    {
        i = i - 1;
    }
    if i == 0 {
        proof {
            assert forall|s: Seq<usize>| #[trigger] rearranged(a0, s) implies !lex_before(
                a0,
                s,
            ) by {
                if lex_before(a0, s) {
                    let d = choose|d: int| differ_at(a0, s, d) && a0[d] < s[d];
                    lemma_later_differs_early(a0, s, 0, d);
                }
            }
        }
        return false;
    }
    let mut j = n - 1;
    while a[j] <= a[i - 1]
        invariant
            a@ == a0,
            n == a0.len(),
            0 < i <= j < n,
            a0[i - 1] < a0[i as int],
            forall|k: int| j < k < n ==> #[trigger] a0[k] <= a0[i - 1],
        decreases j,
    {
        j = j - 1;
    }
    swap(a, i - 1, j);
    let ghost b = a@;
    let mut lo = i;
    let mut hi = n;
    while hi - lo > 1
        invariant
            i <= lo <= hi <= n,
            lo - i == n - hi,
            a@.len() == n,
            b.len() == n,
            rearranged(b, a@),
            forall|k: int| 0 <= k < i ==> a@[k] == b[k],
            forall|k: int| i <= k < lo || hi <= k < n ==> a@[k] == b[n - 1 - (k - i)],
            forall|k: int| lo <= k < hi ==> a@[k] == b[k],
        decreases hi - lo,
    {
        swap(a, lo, hi - 1);
        lo = lo + 1;
        hi = hi - 1;
    }
    proof {
        assert(falls_from(b, i as int));
        assert forall|k: int| 0 <= k < i - 1 implies a@[k] == a0[k] by {
            assert(b[k] == a0[k]);
        }
        assert(b[i - 1] == a0[j as int]);
        assert(a@[i - 1] == b[i - 1]);
        assert forall|k: int, l: int| i <= k <= l < n implies a@[k] <= a@[l] by {
            assert(a@[k] == b[n - 1 - (k - i)]);
            assert(a@[l] == b[n - 1 - (l - i)]);
        }
        lemma_next(a0, a@, i as int, j as int);
    }
    true
}

// ---------------------------------------------------------------------------
// All permutations
// ---------------------------------------------------------------------------

/// The sequence read as a number of the given base.
pub closed spec fn reading(s: Seq<usize>, base: nat) -> nat
    decreases s.len(),
{
    if s.len() == 0 {
        0
    } else {
        reading(s.drop_last(), base) * base + s.last() as nat
    }
}

/// How many readings of a length there are.
spec fn readings(len: nat, base: nat) -> nat
    decreases len,
{
    if len == 0 {
        1
    } else {
        readings((len - 1) as nat, base) * base
    }
}

proof fn lemma_reading_bound(s: Seq<usize>, base: nat)
    requires
        forall|i: int| 0 <= i < s.len() ==> #[trigger] s[i] < base,
    ensures
        reading(s, base) < readings(s.len(), base),
    decreases s.len(),
{
    if s.len() > 0 {
        let t = s.drop_last();
        lemma_reading_bound(t, base);
        assert(s.last() < base);
        let (x, y) = (reading(t, base), readings(t.len(), base));
        assert(x * base + s.last() < y * base) by (nonlinear_arith)
            requires
                x + 1 <= y,
                s.last() < base,
        ;
    }
}

/// A sequence that comes before another reads as a smaller number.
pub proof fn lemma_reading_increases(a: Seq<usize>, b: Seq<usize>, base: nat)
    requires
        forall|i: int| 0 <= i < a.len() ==> #[trigger] a[i] < base,
        lex_before(a, b),
    ensures
        reading(a, base) < reading(b, base),
    decreases a.len(),
{
    let d = choose|d: int| differ_at(a, b, d) && a[d] < b[d];
    let (a1, b1) = (a.drop_last(), b.drop_last());
    if d == a.len() - 1 {
        assert(a1 =~= b1);
    } else {
        assert(differ_at(a1, b1, d));
        assert(lex_before(a1, b1));
        lemma_reading_increases(a1, b1, base);
        let (x, y) = (reading(a1, base), reading(b1, base));
        assert(a.last() < base);
        assert(x * base + a.last() < y * base) by (nonlinear_arith)
            requires
                x + 1 <= y,
                a.last() < base,
        ;
    }
}

/// The sequences of a list of lists.
pub open spec fn index_views(v: Seq<Vec<usize>>) -> Seq<Seq<usize>> {
    Seq::new(v.len(), |i: int| v[i]@)
}

/// What a rearrangement of the first `k` numbers holds.
pub proof fn lemma_rearranged_below(k: nat, s: Seq<usize>)
    requires
        k <= usize::MAX,
        rearranged(indices(k), s),
    ensures
        s.len() == k,
        forall|i: int| 0 <= i < s.len() ==> #[trigger] s[i] < k,
{
    lemma_rearranged_len(indices(k), s);
    assert forall|i: int| 0 <= i < s.len() implies #[trigger] s[i] < k by {
        broadcast use group_to_multiset_ensures;

        assert(s.contains(s[i]));
        assert(s.to_multiset().count(s[i]) > 0);
        assert(indices(k).contains(s[i]));
    }
}

/// The first `k` numbers in order come before all their other rearrangements.
pub proof fn lemma_indices_first(k: nat, s: Seq<usize>)
    requires
        k <= usize::MAX,
        rearranged(indices(k), s),
    ensures
        !lex_before(s, indices(k)),
{
    let a = indices(k);
    lemma_rearranged_len(a, s);
    if lex_before(s, a) {
        let d = choose|d: int| differ_at(s, a, d) && s[d] < a[d];
        let m = lemma_behind_prefix(a, s, d);
        assert(a[m] >= a[d]);
    }
}

/// All rearrangements of the numbers below `k`, in lexicographic order.
pub fn permutations(k: usize) -> (r: Vec<Vec<usize>>)
    ensures
        r@.len() > 0,
        r@[0]@ == indices(k as nat),
        forall|i: int, j: int|
            0 <= i < j < r@.len() ==> lex_before((#[trigger] r@[i])@, (#[trigger] r@[j])@),
        forall|s: Seq<usize>| #[trigger]
            rearranged(indices(k as nat), s) <==> index_views(r@).contains(s),
{
    let ghost first = indices(k as nat);
    let mut cur: Vec<usize> = Vec::new();
    for i in 0..k
        invariant
            first == indices(k as nat),
            cur@ == first.take(i as int),
    {
        cur.push(i);
        assert(cur@ =~= first.take(i + 1));
    }
    proof {
        assert(cur@ =~= first);
        assert forall|s: Seq<usize>| #[trigger] rearranged(first, s) implies !lex_before(
            s,
            first,
        ) by {
            lemma_indices_first(k as nat, s);
        }
    }
    let mut out: Vec<Vec<usize>> = Vec::new();
    let mut more = true;
    while more
        invariant
            first == indices(k as nat),
            rearranged(first, cur@),
            out@.len() == 0 ==> cur@ == first && more,
            out@.len() > 0 ==> out@[0]@ == first,
            forall|i: int, j: int|
                0 <= i < j < out@.len() ==> lex_before((#[trigger] out@[i])@, (#[trigger] out@[j])@),
            forall|i: int|
                0 <= i < out@.len() ==> rearranged(first, (#[trigger] out@[i])@) && (more
                    ==> lex_before(out@[i]@, cur@)),
            more ==> forall|s: Seq<usize>| #[trigger]
                rearranged(first, s) && lex_before(s, cur@) ==> index_views(out@).contains(s),
            !more ==> forall|s: Seq<usize>| #[trigger]
                rearranged(first, s) ==> index_views(out@).contains(s),
        decreases (if more { 1 + readings(k as nat, k as nat) - reading(cur@, k as nat) } else { 0 }),
    {
        let ghost c = cur@;
        let ghost before = out@;
        let copy = copy_indices(&cur);
        out.push(copy);
        proof {
            assert(index_views(out@) =~= index_views(before).push(c));
            lemma_rearranged_below(k as nat, c);
            lemma_reading_bound(c, k as nat);
            assert(index_views(out@)[before.len() as int] == c);
        }
        more = next_permutation(&mut cur);
        proof {
            assert forall|s: Seq<usize>| #[trigger]
                rearranged(first, s) && (!more || lex_before(s, cur@)) implies index_views(
                out@,
            ).contains(s) by {
                lemma_rearranged_len(first, s);
                lemma_rearranged_len(first, c);
                law_lex_total(s, c);
                if more {
                    lemma_rearranged_len(c, cur@);
                    law_lex_total(s, cur@);
                }
                assert(rearranged(c, s));
                if s != c {
                    assert(lex_before(s, c));
                    let i = choose|i: int|
                        0 <= i < index_views(before).len() && index_views(before)[i] == s;
                    assert(index_views(out@)[i] == s);
                }
            }
            if more {
                lemma_rearranged_below(k as nat, cur@);
                lemma_reading_increases(c, cur@, k as nat);
                lemma_reading_bound(cur@, k as nat);
                assert forall|i: int| 0 <= i < out@.len() implies lex_before(
                    (#[trigger] out@[i])@,
                    cur@,
                ) by {
                    if i < before.len() {
                        lemma_lex_transitive(out@[i]@, c, cur@);
                    }
                }
            }
        }
    }
    proof {
        assert forall|s: Seq<usize>| #[trigger] rearranged(first, s) <==> index_views(
            out@,
        ).contains(s) by {
            if index_views(out@).contains(s) {
                let i = choose|i: int| 0 <= i < index_views(out@).len() && index_views(out@)[i] == s;
                assert(rearranged(first, out@[i]@));
            }
        }
    }
    out
}

/// What comes before something comes before what follows that.
pub proof fn lemma_lex_transitive(a: Seq<usize>, b: Seq<usize>, c: Seq<usize>)
    requires
        lex_before(a, b),
        lex_before(b, c),
    ensures
        lex_before(a, c),
{
    let d = choose|d: int| differ_at(a, b, d) && a[d] < b[d];
    let e = choose|e: int| differ_at(b, c, e) && b[e] < c[e];
    if d <= e {
        assert(differ_at(a, c, d));
    } else {
        assert(differ_at(a, c, e));
    }
}

/// A copy of a list of indices.
pub(crate) fn copy_indices(v: &Vec<usize>) -> (r: Vec<usize>)
    ensures
        r@ == v@,
{
    let mut r: Vec<usize> = Vec::new();
    for i in 0..v.len()
        invariant
            r@ == v@.take(i as int),
    {
        r.push(v[i]);
        assert(r@ =~= v@.take(i + 1));
    }
    assert(r@ =~= v@);
    r
}

} // verus!
