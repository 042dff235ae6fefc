//! The mathematical model shared by the selection engine: sortedness of
//! `i64` sequences, the abstract sorted image `sort_i64`, and the lemmas that
//! relate partitions of a sequence to its sorted image.

use vstd::prelude::*;
use vstd::multiset::Multiset;
use vstd::relations::{sorted_by, total_ordering};
use vstd::seq_lib::{
    group_to_multiset_ensures, lemma_multiset_commutative, lemma_sorted_unique,
};

verus! {

/// The total order the selection engine resolves ranks against.
pub open spec fn leq64() -> spec_fn(i64, i64) -> bool {
    |x: i64, y: i64| x <= y
}

/// The sorted image of a sequence: the engine's contracts are all phrased as
/// "the element at rank `k` of `sort_i64(input)`".
pub open spec fn sort_i64(s: Seq<i64>) -> Seq<i64> {
    s.sort_by(leq64())
}

/// Ascending order, duplicates allowed.
pub open spec fn is_sorted(s: Seq<i64>) -> bool {
    forall|i: int, j: int| 0 <= i < j < s.len() ==> s[i] <= s[j]
}

/// Strictly ascending order: the shape of a deduplicated rank list.
pub open spec fn strictly_increasing(s: Seq<usize>) -> bool {
    forall|i: int, j: int| 0 <= i < j < s.len() ==> s[i] < s[j]
}

pub proof fn lemma_leq64_total()
    ensures
        total_ordering(leq64()),
{
    let leq = leq64();
    assert forall|x: i64, y: i64| #[trigger] leq(x, y) || #[trigger] leq(y, x) by {
        assert(leq(x, y) == (x <= y));
        assert(leq(y, x) == (y <= x));
    }
    assert forall|x: i64, y: i64, z: i64|
        #[trigger] leq(x, y) && #[trigger] leq(y, z) implies leq(x, z) by {
        assert(leq(x, z) == (x <= z));
    }
    assert forall|x: i64, y: i64| #[trigger] leq(x, y) && #[trigger] leq(y, x) implies x == y by {}
    assert forall|x: i64| #[trigger] leq(x, x) by {
        assert(leq(x, x) == (x <= x));
    }
}

pub proof fn lemma_sort_i64_ensures(s: Seq<i64>)
    ensures
        s.to_multiset() == sort_i64(s).to_multiset(),
        is_sorted(sort_i64(s)),
        sort_i64(s).len() == s.len(),
        forall|x: i64| sort_i64(s).contains(x) ==> s.contains(x),
{
    broadcast use group_to_multiset_ensures;

    lemma_leq64_total();
    s.lemma_sort_by_ensures(leq64());
    let t = sort_i64(s);
    assert(t.len() == t.to_multiset().len());
    assert(s.len() == s.to_multiset().len());
    let leq = leq64();
    assert forall|i: int, j: int| 0 <= i < j < t.len() implies t[i] <= t[j] by {
        assert(leq(t[i], t[j]));
    }
    assert forall|x: i64| t.contains(x) implies s.contains(x) by {
        if !s.contains(x) {
            assert(!t.contains(x));
        }
    }
}

/// Two sorted sequences over the same multiset are the same sequence.
pub proof fn lemma_sorted_same_multiset_eq(x: Seq<i64>, y: Seq<i64>)
    requires
        is_sorted(x),
        is_sorted(y),
        x.to_multiset() == y.to_multiset(),
    ensures
        x == y,
{
    let leq = leq64();
    lemma_leq64_total();
    assert(sorted_by(x, leq)) by {
        assert forall|i: int, j: int| 0 <= i < j < x.len() implies #[trigger] leq(x[i], x[j]) by {
            assert(x[i] <= x[j]);
        }
    }
    assert(sorted_by(y, leq)) by {
        assert forall|i: int, j: int| 0 <= i < j < y.len() implies #[trigger] leq(y[i], y[j]) by {
            assert(y[i] <= y[j]);
        }
    }
    lemma_sorted_unique(x, y, leq);
    assert(x =~= y);
}

/// Sequences over the same multiset have the same sorted image.
pub proof fn lemma_sort_congruent(a: Seq<i64>, b: Seq<i64>)
    requires
        a.to_multiset() == b.to_multiset(),
    ensures
        sort_i64(a) == sort_i64(b),
{
    lemma_sort_i64_ensures(a);
    lemma_sort_i64_ensures(b);
    lemma_sorted_same_multiset_eq(sort_i64(a), sort_i64(b));
}

/// Splitting a sequence at `[k, k+1)` decomposes its multiset.
pub proof fn lemma_split_multiset(a: Seq<i64>, k: int)
    requires
        0 <= k < a.len(),
    ensures
        a.to_multiset() == a.subrange(0, k).to_multiset().add(
            seq![a[k]].to_multiset(),
        ).add(a.subrange(k + 1, a.len() as int).to_multiset()),
{
    let left = a.subrange(0, k);
    let mid = seq![a[k]];
    let right = a.subrange(k + 1, a.len() as int);
    assert(a =~= left + mid + right);
    lemma_multiset_commutative(left + mid, right);
    lemma_multiset_commutative(left, mid);
}

/// The heart of selection correctness: if position `k` of `a` is a partition
/// point (everything left of it is strictly smaller, everything from it on is
/// at least as large), then the sorted image of `a` carries the very same
/// value at position `k`, and its two sides are, as multisets, exactly the two
/// sides of `a`.
pub proof fn lemma_partition_point(a: Seq<i64>, k: int)
    requires
        0 <= k < a.len(),
        forall|i: int| 0 <= i < k ==> a[i] < a[k],
        forall|i: int| k <= i < a.len() ==> a[i] >= a[k],
    ensures
        sort_i64(a).len() == a.len(),
        sort_i64(a)[k] == a[k],
        sort_i64(a).subrange(0, k) == sort_i64(a.subrange(0, k)),
        sort_i64(a).subrange(k + 1, a.len() as int) == sort_i64(
            a.subrange(k + 1, a.len() as int),
        ),
{
    broadcast use group_to_multiset_ensures;

    let v = a[k];
    let n = a.len() as int;
    let left = a.subrange(0, k);
    let right = a.subrange(k + 1, n);
    let ls = sort_i64(left);
    let rs = sort_i64(right);
    let c = ls + seq![v] + rs;
    lemma_sort_i64_ensures(left);
    lemma_sort_i64_ensures(right);
    lemma_sort_i64_ensures(a);

    assert forall|i: int| 0 <= i < ls.len() implies ls[i] < v by {
        assert(ls.contains(ls[i]));
        assert(left.contains(ls[i]));
        let j = choose|j: int| 0 <= j < left.len() && left[j] == ls[i];
        assert(a[j] < v);
    }
    assert forall|i: int| 0 <= i < rs.len() implies rs[i] >= v by {
        assert(rs.contains(rs[i]));
        assert(right.contains(rs[i]));
        let j = choose|j: int| 0 <= j < right.len() && right[j] == rs[i];
        assert(a[k + 1 + j] >= v);
    }
    assert(is_sorted(c)) by {
        assert forall|i: int, j: int| 0 <= i < j < c.len() implies c[i] <= c[j] by {
            if j < ls.len() {
            } else if j == ls.len() {
                assert(c[i] == ls[i]);
            } else if i < ls.len() {
                assert(c[i] == ls[i] && c[j] == rs[j - ls.len() - 1]);
            } else if i == ls.len() {
                assert(c[j] == rs[j - ls.len() - 1]);
            } else {
                assert(c[i] == rs[i - ls.len() - 1] && c[j] == rs[j - ls.len() - 1]);
            }
        }
    }
    assert(c.to_multiset() == a.to_multiset()) by {
        lemma_split_multiset(a, k);
        lemma_multiset_commutative(ls + seq![v], rs);
        lemma_multiset_commutative(ls, seq![v]);
    }
    lemma_sorted_same_multiset_eq(sort_i64(a), c);
    assert(ls.len() == k);
    assert(sort_i64(a)[k] == v);
    assert(sort_i64(a).subrange(0, k) =~= ls);
    assert(sort_i64(a).subrange(k + 1, n) =~= rs);
}

/// Replacing the interior `[l2, r2)` of a window `[l, r)` by a permutation of
/// itself leaves the multiset of the whole window unchanged.
pub proof fn lemma_window_multiset_frame(
    a: Seq<i64>,
    b: Seq<i64>,
    l: int,
    r: int,
    l2: int,
    r2: int,
)
    requires
        a.len() == b.len(),
        0 <= l <= l2 <= r2 <= r <= a.len(),
        forall|i: int| l <= i < l2 ==> a[i] == b[i],
        forall|i: int| r2 <= i < r ==> a[i] == b[i],
        a.subrange(l2, r2).to_multiset() == b.subrange(l2, r2).to_multiset(),
    ensures
        a.subrange(l, r).to_multiset() == b.subrange(l, r).to_multiset(),
{
    assert(a.subrange(l, r) =~= a.subrange(l, l2) + a.subrange(l2, r2) + a.subrange(r2, r));
    assert(b.subrange(l, r) =~= b.subrange(l, l2) + b.subrange(l2, r2) + b.subrange(r2, r));
    assert(a.subrange(l, l2) =~= b.subrange(l, l2));
    assert(a.subrange(r2, r) =~= b.subrange(r2, r));
    lemma_multiset_commutative(a.subrange(l, l2) + a.subrange(l2, r2), a.subrange(r2, r));
    lemma_multiset_commutative(a.subrange(l, l2), a.subrange(l2, r2));
    lemma_multiset_commutative(b.subrange(l, l2) + b.subrange(l2, r2), b.subrange(r2, r));
    lemma_multiset_commutative(b.subrange(l, l2), b.subrange(l2, r2));
}

/// Swapping two positions inside a window keeps the window's multiset.
pub proof fn lemma_swap_multiset(a: Seq<i64>, l: int, r: int, x: int, y: int)
    requires
        0 <= l <= x < r <= a.len(),
        l <= y < r,
    ensures
        a.update(x, a[y]).update(y, a[x]).subrange(l, r).to_multiset() == a.subrange(
            l,
            r,
        ).to_multiset(),
{
    broadcast use group_to_multiset_ensures;

    let b = a.update(x, a[y]).update(y, a[x]);
    let aw = a.subrange(l, r);
    let bw = b.subrange(l, r);
    if x == y {
        assert(bw =~= aw);
    } else {
        assert(bw =~= aw.update(x - l, a[y]).update(y - l, a[x]));
        assert(aw.update(x - l, a[y]).to_multiset() == aw.to_multiset().insert(a[y]).remove(
            aw[x - l],
        ));
        assert(aw.update(x - l, a[y]).update(y - l, a[x]).to_multiset() == aw.update(
            x - l,
            a[y],
        ).to_multiset().insert(a[x]).remove(aw[y - l]));
        assert(aw[x - l] == a[x] && aw[y - l] == a[y]);
        assert(bw.to_multiset() =~= aw.to_multiset());
    }
}

} // verus!
