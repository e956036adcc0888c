//! Stable sorting by number.
use vstd::prelude::*;

use crate::double::Double;

verus! {

/// Where `x` goes in a sorted sequence: behind all that rank no higher.
pub open spec fn slot<A>(s: Seq<A>, x: A, rank: spec_fn(A) -> int) -> int
    decreases s.len(),
{
    if s.len() == 0 || rank(s.last()) <= rank(x) {
        s.len() as int
    } else {
        slot(s.drop_last(), x, rank)
    }
}

/// The sequence in ascending order of rank; what ranks alike keeps its order.
pub open spec fn sorted_by<A>(s: Seq<A>, rank: spec_fn(A) -> int) -> Seq<A>
    decreases s.len(),
{
    if s.len() == 0 {
        s
    } else {
        let t = sorted_by(s.drop_last(), rank);
        t.insert(slot(t, s.last(), rank), s.last())
    }
}

/// A slot lies in the sequence, between what ranks no higher and what ranks
/// higher.
proof fn lemma_slot<A>(s: Seq<A>, x: A, rank: spec_fn(A) -> int)
    requires
        forall|i: int, j: int| 0 <= i <= j < s.len() ==> rank(s[i]) <= rank(s[j]),
    ensures
        0 <= slot(s, x, rank) <= s.len(),
        forall|i: int| 0 <= i < slot(s, x, rank) ==> rank(#[trigger] s[i]) <= rank(x),
        forall|i: int| slot(s, x, rank) <= i < s.len() ==> rank(#[trigger] s[i]) > rank(x),
    decreases s.len(),
{
    if s.len() == 0 || rank(s.last()) <= rank(x) {
    } else {
        lemma_slot(s.drop_last(), x, rank);
        assert forall|i: int| slot(s, x, rank) <= i < s.len() implies rank(#[trigger] s[i])
            > rank(x) by {
            if i < s.len() - 1 {
                assert(s.drop_last()[i] == s[i]);
            }
        }
        assert forall|i: int| 0 <= i < slot(s, x, rank) implies rank(#[trigger] s[i]) <= rank(
            x,
        ) by {
            assert(s.drop_last()[i] == s[i]);
        }
    }
}

/// A sorted sequence is in ascending order of rank and holds what the sequence
/// held.
pub proof fn law_sorted_by<A>(s: Seq<A>, rank: spec_fn(A) -> int)
    ensures
        sorted_by(s, rank).len() == s.len(),
        forall|i: int, j: int|
            0 <= i <= j < s.len() ==> rank(#[trigger] sorted_by(s, rank)[i]) <= rank(
                #[trigger] sorted_by(s, rank)[j],
            ),
        sorted_by(s, rank).to_multiset() == s.to_multiset(),
    decreases s.len(),
{
    if s.len() > 0 {
        let r = s.drop_last();
        let x = s.last();
        law_sorted_by(r, rank);
        let t = sorted_by(r, rank);
        lemma_slot(t, x, rank);
        let k = slot(t, x, rank);
        let u = t.insert(k, x);
        assert forall|i: int, j: int| 0 <= i <= j < u.len() implies rank(#[trigger] u[i]) <= rank(
            #[trigger] u[j],
        ) by {
            let a = if i < k { i } else { i - 1 };
            let b = if j < k { j } else { j - 1 };
            if i != k && j != k {
                assert(u[i] == t[a] && u[j] == t[b]);
            } else if i == k && j != k {
                assert(u[j] == t[b]);
            } else if i != k && j == k {
                assert(u[i] == t[a]);
            }
        }
        broadcast use vstd::seq_lib::group_to_multiset_ensures;

        assert(t.insert(k, x).to_multiset() == t.to_multiset().insert(x));
        assert(s =~= r.push(x));
        assert(r.push(x).to_multiset() =~= r.to_multiset().insert(x));
    }
}

/// Doubles rank by number.
pub open spec fn by_number() -> spec_fn(Double) -> int {
    |d: Double| d.rank()
}

/// Indices rank by the number that stands there.
pub open spec fn by_key(keys: Seq<Double>) -> spec_fn(usize) -> int {
    |i: usize| keys[i as int].rank()
}

/// The numbers from 0 up to `n`.
pub open spec fn indices(n: nat) -> Seq<usize> {
    Seq::new(n, |i: int| i as usize)
}

/// The numbers in ascending order.
pub fn sort_doubles(v: &Vec<Double>) -> (r: Vec<Double>)
    ensures
        r@ == sorted_by(v@, by_number()),
{
    let mut r: Vec<Double> = Vec::new();
    assert(v@.take(0) =~= Seq::<Double>::empty());
    for i in 0..v.len()
        invariant
            r@ == sorted_by(v@.take(i as int), by_number()),
            r@.len() == i,
    {
        let x = v[i];
        let mut k: usize = r.len();
        let ghost rank = by_number();
        proof {
            assert(r@.take(k as int) =~= r@);
            assert(v@.take(i + 1).drop_last() =~= v@.take(i as int));
            assert(v@.take(i + 1).last() == x);
        }
        while k > 0 && !r[k - 1].sorts_before(x)
            invariant
                k <= r@.len(),
                rank == by_number(),
                slot(r@, x, rank) == slot(r@.take(k as int), x, rank),
            decreases k,
        {
            proof {
                assert(r@.take(k as int).drop_last() =~= r@.take(k - 1));
                assert(r@.take(k as int).last() == r@[k - 1]);
            }
            k = k - 1;
        }
        proof {
            if k > 0 {
                assert(r@.take(k as int).last() == r@[k - 1]);
            }
            assert(slot(r@, x, rank) == k);
        }
        r.insert(k, x);
    }
    assert(v@.take(v@.len() as int) =~= v@);
    r
}

/// The indices of the numbers in ascending order; equal numbers keep theirs.
pub fn argsort(keys: &Vec<Double>) -> (r: Vec<usize>)
    ensures
        r@ == sorted_by(indices(keys@.len()), by_key(keys@)),
        r@.len() == keys@.len(),
        forall|i: int| 0 <= i < r@.len() ==> #[trigger] r@[i] < keys@.len(),
{
    let mut r: Vec<usize> = Vec::new();
    let ghost all = indices(keys@.len());
    let ghost rank = by_key(keys@);
    assert(all.take(0) =~= Seq::<usize>::empty());
    for i in 0..keys.len()
        invariant
            all == indices(keys@.len()),
            rank == by_key(keys@),
            r@ == sorted_by(all.take(i as int), rank),
            r@.len() == i,
            forall|j: int| 0 <= j < r@.len() ==> #[trigger] r@[j] < keys@.len(),
    {
        let x: usize = i;
        let mut k: usize = r.len();
        proof {
            assert(r@.take(k as int) =~= r@);
            assert(all.take(i + 1).drop_last() =~= all.take(i as int));
            assert(all.take(i + 1).last() == x);
        }
        while k > 0 && !keys[r[k - 1]].sorts_before(keys[x])
            invariant
                k <= r@.len(),
                x < keys@.len(),
                rank == by_key(keys@),
                forall|j: int| 0 <= j < r@.len() ==> #[trigger] r@[j] < keys@.len(),
                slot(r@, x, rank) == slot(r@.take(k as int), x, rank),
            decreases k,
        {
            proof {
                assert(r@.take(k as int).drop_last() =~= r@.take(k - 1));
                assert(r@.take(k as int).last() == r@[k - 1]);
            }
            k = k - 1;
        }
        proof {
            if k > 0 {
                assert(r@.take(k as int).last() == r@[k - 1]);
            }
            assert(slot(r@, x, rank) == k);
        }
        let ghost before = r@;
        r.insert(k, x);
        proof {
            assert forall|j: int| 0 <= j < r@.len() implies #[trigger] r@[j] < keys@.len() by {
                if j < k {
                    assert(r@[j] == before[j]);
                } else if j > k {
                    assert(r@[j] == before[j - 1]);
                }
            }
        }
    }
    assert(all.take(all.len() as int) =~= all);
    r
}

} // verus!
