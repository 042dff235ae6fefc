//! The order-statistics selection engine.
//!
//! `partition` is the in-place primitive; `kth_stat_helper` routes a sorted
//! list of pending ranks through randomized partitioning with an adaptive
//! bailout to sorting; `kth_stats_recur` and `kth_stat` are the public batch
//! and single-rank entry points.  Every result is pinned to the sorted image
//! of the input: rank `k` receives `sort_i64(input)[k]`.

use std::collections::HashMap;
use vstd::prelude::*;
use crate::errors::MyError;
use crate::rng::{init_rand, rand_range};
use crate::sorting::{dedup_sorted, par_sort_range, sort_unstable_usize};
use crate::seq_facts::{
    is_sorted, lemma_partition_point, lemma_sort_congruent, lemma_sort_i64_ensures,
    lemma_sorted_same_multiset_eq, lemma_swap_multiset, lemma_window_multiset_frame,
    sort_i64, strictly_increasing,
};

verus! {

broadcast use vstd::seq_lib::group_seq_properties, vstd::std_specs::hash::group_hash_axioms;

/// Reciprocal of the bailout threshold on the smaller-to-larger half ratio:
/// a partition whose smaller half is below one thousandth of the larger one
/// is taken as a sign of degenerate input, and the sub-range is sorted
/// instead.  Empirically tuned; any positive value keeps the engine correct.
const KTH_SORT_THRESHOLD_RECIP: u128 = 1000;

/// Exchanges two elements of the vector.
fn swap_in(xs: &mut Vec<i64>, a: usize, b: usize)
    requires
        a < old(xs).len(),
        b < old(xs).len(),
    ensures
        final(xs)@ == old(xs)@.update(a as int, old(xs)@[b as int]).update(
            b as int,
            old(xs)@[a as int],
        ),
{
    let ta: i64 = xs[a];
    let tb: i64 = xs[b];
    xs[a] = tb;
    xs[b] = ta;
}

/// Rearranges the window `[start, end)` in place around the value at
/// `pivot_idx` and returns the pivot value's final position `p`: everything
/// left of `p` in the window is strictly smaller, everything from `p` on is
/// at least as large, and the window keeps its multiset.  Ties with the pivot
/// value go to the right side.  One linear scan, constant extra space.
pub fn partition(xs: &mut Vec<i64>, pivot_idx: usize, start: usize, end: usize) -> (p: usize)
    requires
        start <= pivot_idx < end <= old(xs).len(),
    ensures
        start <= p < end,
        final(xs)@.len() == old(xs)@.len(),
        forall|i: int|
            0 <= i < old(xs)@.len() && !(start <= i < end) ==> final(xs)@[i] == old(xs)@[i],
        final(xs)@.subrange(start as int, end as int).to_multiset() == old(xs)@.subrange(
            start as int,
            end as int,
        ).to_multiset(),
        final(xs)@[p as int] == old(xs)@[pivot_idx as int],
        forall|i: int| start <= i < p ==> final(xs)@[i] < final(xs)@[p as int],
        forall|i: int| p <= i < end ==> final(xs)@[i] >= final(xs)@[p as int],
{
    let pivot_elem: i64 = xs[pivot_idx];
    let ghost s0 = xs@;
    swap_in(xs, end - 1, pivot_idx);
    proof {
        lemma_swap_multiset(s0, start as int, end as int, (end - 1) as int, pivot_idx as int);
    }
    let mut i: usize = start;
    let mut j: usize = start;
    while j < end - 1
        invariant
            start <= i <= j <= end - 1 < end <= xs@.len(),
            xs@.len() == old(xs)@.len(),
            xs@[end - 1] == pivot_elem,
            forall|t: int|
                0 <= t < old(xs)@.len() && !(start <= t < end) ==> xs@[t] == old(xs)@[t],
            xs@.subrange(start as int, end as int).to_multiset() == old(xs)@.subrange(
                start as int,
                end as int,
            ).to_multiset(),
            forall|t: int| start <= t < i ==> xs@[t] < pivot_elem,
            forall|t: int| i <= t < j ==> xs@[t] >= pivot_elem,
        decreases end - 1 - j,
    {
        if xs[j] >= pivot_elem {
            j += 1;
        } else {
            let ghost prev = xs@;
            swap_in(xs, i, j);
            proof {
                lemma_swap_multiset(prev, start as int, end as int, i as int, j as int);
            }
            i += 1;
            j += 1;
        }
    }
    let ghost prev = xs@;
    swap_in(xs, i, end - 1);
    proof {
        lemma_swap_multiset(prev, start as int, end as int, i as int, (end - 1) as int);
    }
    i
}

/// Locates `x` in a strictly ascending rank list: returns whether it is
/// present together with the count of entries below it (the insertion point).
fn search_rank(ks: &Vec<usize>, x: usize) -> (r: (bool, usize))
    requires
        strictly_increasing(ks@),
    ensures
        r.1 <= ks@.len(),
        forall|t: int| 0 <= t < r.1 ==> ks@[t] < x,
        forall|t: int| r.1 <= t < ks@.len() ==> ks@[t] >= x,
        r.0 <==> (r.1 < ks@.len() && ks@[r.1 as int] == x),
{
    let n: usize = ks.len();
    let mut lo: usize = 0;
    let mut hi: usize = n;
    while lo < hi
        invariant
            lo <= hi <= n,
            n == ks@.len(),
            strictly_increasing(ks@),
            forall|t: int| 0 <= t < lo ==> ks@[t] < x,
            forall|t: int| hi <= t < n ==> ks@[t] >= x,
        decreases hi - lo,
    {
        let mid: usize = lo + (hi - lo) / 2;
        if ks[mid] < x {
            lo = mid + 1;
        } else {
            hi = mid;
        }
    }
    if lo < n && ks[lo] == x {
        (true, lo)
    } else {
        (false, lo)
    }
}

/// Resolves every pending rank of `ks` inside the window `[left, right)`:
/// after the call, `found` maps each such rank `k` to the element at position
/// `k - left` of the window's sorted image, other entries of `found` are
/// untouched, and the window holds the same elements rearranged.
///
/// `need_sort` is the sticky degeneracy decision of the parent level: once a
/// partition came out lopsided, the whole sub-range is sorted directly and
/// left sorted.  A call with an empty window or an empty rank list leaves
/// the sequence untouched.
fn kth_stat_helper(
    rng: &mut rand::rngs::ThreadRng,
    xs: &mut Vec<i64>,
    ks: Vec<usize>,
    left: usize,
    right: usize,
    need_sort: bool,
    found: &mut HashMap<usize, i64>,
)
    requires
        left <= right <= old(xs).len(),
        strictly_increasing(ks@),
        forall|t: int| 0 <= t < ks@.len() ==> left <= #[trigger] ks@[t] < right,
    ensures
        final(xs)@.len() == old(xs)@.len(),
        forall|i: int|
            0 <= i < old(xs)@.len() && !(left <= i < right) ==> final(xs)@[i] == old(xs)@[i],
        final(xs)@.subrange(left as int, right as int).to_multiset() == old(xs)@.subrange(
            left as int,
            right as int,
        ).to_multiset(),
        forall|k: usize| #[trigger]
            ks@.contains(k) ==> final(found)@.contains_key(k) && final(found)@[k] == sort_i64(
                old(xs)@.subrange(left as int, right as int),
            )[k - left],
        forall|k: usize|
            !ks@.contains(k) ==> (#[trigger] final(found)@.contains_key(k)
                <==> old(found)@.contains_key(k)),
        forall|k: usize|
            !ks@.contains(k) && old(found)@.contains_key(k) ==> #[trigger] final(found)@[k]
                == old(found)@[k],
        (left >= right || ks@.len() == 0) ==> final(xs)@ == old(xs)@,
        need_sort && left < right && ks@.len() > 0 ==> is_sorted(
            final(xs)@.subrange(left as int, right as int),
        ),
    decreases right - left,
{
    if left >= right || ks.len() == 0 {
        proof {
            if ks@.len() > 0 {
                assert(left <= ks@[0] < right);
            }
            assert(forall|k: usize| !(#[trigger] ks@.contains(k)));
        }
        return;
    }

    let ghost s0 = xs@;
    let ghost w0 = s0.subrange(left as int, right as int);

    if need_sort {
        // Sort the window and read every pending rank off directly.
        par_sort_range(xs, left, right);
        let ghost w1 = xs@.subrange(left as int, right as int);
        proof {
            lemma_sort_i64_ensures(w0);
            lemma_sorted_same_multiset_eq(w1, sort_i64(w0));
        }
        let ghost xs_sorted = xs@;
        let n_ks: usize = ks.len();
        let mut idx: usize = 0;
        while idx < n_ks
            invariant
                idx <= n_ks,
                n_ks == ks@.len(),
                strictly_increasing(ks@),
                forall|t: int| 0 <= t < ks@.len() ==> left <= #[trigger] ks@[t] < right,
                left < right <= xs@.len(),
                xs@ == xs_sorted,
                xs@.subrange(left as int, right as int) == sort_i64(w0),
                forall|t: int|
                    0 <= t < idx ==> found@.contains_key(#[trigger] ks@[t]) && found@[ks@[t]]
                        == sort_i64(w0)[ks@[t] - left],
                forall|k: usize|
                    !ks@.subrange(0, idx as int).contains(k) ==> (
                    #[trigger] found@.contains_key(k) <==> old(found)@.contains_key(k)),
                forall|k: usize|
                    !ks@.subrange(0, idx as int).contains(k) && old(found)@.contains_key(k)
                        ==> #[trigger] found@[k] == old(found)@[k],
            decreases n_ks - idx,
        {
            let k: usize = ks[idx];
            let v: i64 = xs[k];
            proof {
                assert(xs@[k as int] == xs@.subrange(left as int, right as int)[k - left]);
            }
            found.insert(k, v);
            proof {
                let ghost pre_slice = ks@.subrange(0, idx as int);
                let ghost post_slice = ks@.subrange(0, idx as int + 1);
                assert forall|q: usize| !post_slice.contains(q) implies !pre_slice.contains(q)
                    && q != k by {
                    assert(post_slice[idx as int] == k);
                    if pre_slice.contains(q) {
                        let t = choose|t: int| 0 <= t < pre_slice.len() && pre_slice[t] == q;
                        assert(post_slice[t] == q);
                    }
                }
            }
            idx += 1;
        }
        proof {
            assert(ks@.subrange(0, n_ks as int) =~= ks@);
            assert forall|k: usize| #[trigger] ks@.contains(k) implies found@.contains_key(k)
                && found@[k] == sort_i64(w0)[k - left] by {
                let t = choose|t: int| 0 <= t < ks@.len() && ks@[t] == k;
                assert(found@.contains_key(ks@[t]));
            }
        }
        return;
    }

    // Choose a random pivot and partition the window around it.
    let pivot_idx: usize = rand_range(rng, left, right);
    let real_idx: usize = partition(xs, pivot_idx, left, right);
    let ghost s1 = xs@;
    let ghost w1 = s1.subrange(left as int, right as int);
    let ghost kk = real_idx - left;
    proof {
        lemma_sort_congruent(w1, w0);
        assert forall|i: int| 0 <= i < kk implies #[trigger] w1[i] < w1[kk] by {
            assert(s1[left + i] < s1[real_idx as int]);
        }
        assert forall|i: int| kk <= i < w1.len() implies #[trigger] w1[i] >= w1[kk] by {
            assert(s1[left + i] >= s1[real_idx as int]);
        }
        lemma_partition_point(w1, kk);
    }

    // Assess the two halves' relative size; a lopsided split makes the
    // children bail out to sorting.
    let left_len: usize = real_idx - left;
    let right_len: usize = right - real_idx;
    let need_sort_next: bool = if left_len >= right_len {
        (right_len as u128) * KTH_SORT_THRESHOLD_RECIP <= (left_len as u128)
    } else {
        (left_len as u128) * KTH_SORT_THRESHOLD_RECIP <= (right_len as u128)
    };

    let ks_len: usize = ks.len();
    let (found_flag, k_idx) = search_rank(&ks, real_idx);
    let mut ks = ks;
    let ghost ks_orig = ks@;
    if found_flag {
        let v: i64 = xs[real_idx];
        found.insert(real_idx, v);
        ks.remove(k_idx);
        proof {
            assert(ks@ =~= ks_orig.subrange(0, k_idx as int) + ks_orig.subrange(
                k_idx as int + 1,
                ks_orig.len() as int,
            ));
        }
    }
    let ghost ks_rem = ks@;
    let ghost found1 = found@;
    proof {
        // After the optional removal, the first `k_idx` entries are the ranks
        // below the pivot position and the rest are the ranks above it.
        assert(strictly_increasing(ks_rem));
        assert(forall|t: int| 0 <= t < ks_rem.len() ==> left <= #[trigger] ks_rem[t] < right);
        assert forall|t: int| 0 <= t < k_idx implies #[trigger] ks_rem[t] < real_idx by {}
        assert forall|t: int| k_idx <= t < ks_rem.len() implies #[trigger] ks_rem[t]
            > real_idx by {
            if found_flag {
                assert(ks_rem[t] == ks_orig[t + 1]);
                assert(ks_orig[t + 1] > ks_orig[k_idx as int]);
            } else {
                assert(ks_rem[t] >= real_idx && ks_rem[t] != real_idx);
            }
        }
    }

    if k_idx > 0 && k_idx < ks_len {
        // Pending ranks on both sides: route each share to its own half.
        let mut ks_left: Vec<usize> = Vec::new();
        let mut t: usize = 0;
        while t < k_idx
            invariant
                t <= k_idx <= ks@.len(),
                ks@ == ks_rem,
                ks_left@ =~= ks_rem.subrange(0, t as int),
            decreases k_idx - t,
        {
            ks_left.push(ks[t]);
            proof {
                assert(ks_left@ =~= ks_rem.subrange(0, t as int + 1));
            }
            t += 1;
        }
        let mut ks_right: Vec<usize> = Vec::new();
        let mut t: usize = k_idx;
        let n_rem: usize = ks.len();
        while t < n_rem
            invariant
                k_idx <= t <= n_rem == ks@.len(),
                ks@ == ks_rem,
                ks_right@ =~= ks_rem.subrange(k_idx as int, t as int),
            decreases n_rem - t,
        {
            ks_right.push(ks[t]);
            proof {
                assert(ks_right@ =~= ks_rem.subrange(k_idx as int, t as int + 1));
            }
            t += 1;
        }
        proof {
            assert(ks_left@ == ks_rem.subrange(0, k_idx as int));
            assert(ks_right@ == ks_rem.subrange(k_idx as int, ks_rem.len() as int));
        }
        kth_stat_helper(rng, xs, ks_left, left, real_idx, need_sort_next, found);
        let ghost s2 = xs@;
        let ghost found2 = found@;
        kth_stat_helper(rng, xs, ks_right, real_idx + 1, right, need_sort_next, found);
        proof {
            assert forall|k: usize| #[trigger] ks_rem.subrange(0, k_idx as int).contains(k)
                implies found2.contains_key(k) && found2[k] == sort_i64(
                s1.subrange(left as int, real_idx as int),
            )[k - left] by {
                assert(ks_left@.contains(k));
            }
            assert forall|k: usize| #[trigger] ks_rem.subrange(
                k_idx as int,
                ks_rem.len() as int,
            ).contains(k) implies found@.contains_key(k) && found@[k] == sort_i64(
                s2.subrange(real_idx as int + 1, right as int),
            )[k - (real_idx + 1)] by {
                assert(ks_right@.contains(k));
            }
            lemma_helper_compose(
                s0,
                s1,
                s2,
                xs@,
                old(found)@,
                found1,
                found2,
                found@,
                ks_orig,
                ks_rem,
                left,
                right,
                real_idx,
                k_idx,
                found_flag,
            );
        }
    } else if k_idx == 0 {
        // Every remaining rank lies right of the pivot position.
        let ghost s2 = xs@;
        let ghost found2 = found@;
        kth_stat_helper(rng, xs, ks, real_idx + 1, right, need_sort_next, found);
        proof {
            assert(ks_rem.subrange(0, k_idx as int).len() == 0);
            assert(ks_rem.subrange(k_idx as int, ks_rem.len() as int) =~= ks_rem);
            assert forall|k: usize| #[trigger] ks_rem.subrange(
                k_idx as int,
                ks_rem.len() as int,
            ).contains(k) implies found@.contains_key(k) && found@[k] == sort_i64(
                s2.subrange(real_idx as int + 1, right as int),
            )[k - (real_idx + 1)] by {
                assert(ks_rem.contains(k));
            }
            lemma_helper_compose(
                s0,
                s1,
                s2,
                xs@,
                old(found)@,
                found1,
                found2,
                found@,
                ks_orig,
                ks_rem,
                left,
                right,
                real_idx,
                k_idx,
                found_flag,
            );
        }
    } else {
        // Every remaining rank lies left of the pivot position.
        kth_stat_helper(rng, xs, ks, left, real_idx, need_sort_next, found);
        proof {
            assert(ks_rem.subrange(0, k_idx as int) =~= ks_rem);
            assert(ks_rem.subrange(k_idx as int, ks_rem.len() as int).len() == 0);
            assert forall|k: usize| #[trigger] ks_rem.subrange(0, k_idx as int).contains(k)
                implies found@.contains_key(k) && found@[k] == sort_i64(
                s1.subrange(left as int, real_idx as int),
            )[k - left] by {
                assert(ks_rem.contains(k));
            }
            lemma_helper_compose(
                s0,
                s1,
                xs@,
                xs@,
                old(found)@,
                found1,
                found@,
                found@,
                ks_orig,
                ks_rem,
                left,
                right,
                real_idx,
                k_idx,
                found_flag,
            );
        }
    }
}

/// Resolves a whole batch of ranks at once: the returned map sends each
/// requested rank `k` to the element at rank `k` of the input's sorted image,
/// without necessarily sorting the input.  Duplicate ranks are collapsed and
/// the order of `ks` is irrelevant; an empty `ks` yields an empty map and
/// leaves the sequence untouched.  The input sequence is rearranged in place
/// but keeps its elements.
pub fn kth_stats_recur(xs: &mut Vec<i64>, ks: &Vec<usize>) -> (r: HashMap<usize, i64>)
    requires
        forall|t: int| 0 <= t < ks@.len() ==> #[trigger] ks@[t] < old(xs).len(),
    ensures
        final(xs)@.len() == old(xs)@.len(),
        final(xs)@.to_multiset() == old(xs)@.to_multiset(),
        forall|k: usize| #[trigger] r@.contains_key(k) <==> ks@.contains(k),
        forall|k: usize| #[trigger]
            ks@.contains(k) ==> r@.contains_key(k) && r@[k] == sort_i64(old(xs)@)[k as int],
        ks@.len() == 0 ==> final(xs)@ == old(xs)@,
{
    let n: usize = xs.len();
    let n_ks: usize = ks.len();
    let mut ks_copy: Vec<usize> = Vec::new();
    let mut t: usize = 0;
    while t < n_ks
        invariant
            t <= n_ks == ks@.len(),
            ks_copy@ =~= ks@.subrange(0, t as int),
        decreases n_ks - t,
    {
        ks_copy.push(ks[t]);
        proof {
            assert(ks_copy@ =~= ks@.subrange(0, t as int + 1));
        }
        t += 1;
    }
    proof {
        assert(ks_copy@ =~= ks@);
    }
    sort_unstable_usize(&mut ks_copy);
    proof {
        broadcast use vstd::seq_lib::group_to_multiset_ensures;

        assert forall|x: usize| ks_copy@.contains(x) <==> ks@.contains(x) by {
            assert(ks_copy@.contains(x) <==> ks_copy@.to_multiset().count(x) > 0);
            assert(ks@.contains(x) <==> ks@.to_multiset().count(x) > 0);
        }
    }
    let ks_vec: Vec<usize> = dedup_sorted(&ks_copy);
    let ghost ks_set = ks_vec@;
    proof {
        assert forall|t: int| 0 <= t < ks_set.len() implies 0 <= #[trigger] ks_set[t] < n by {
            assert(ks_set.contains(ks_set[t]));
            assert(ks@.contains(ks_set[t]));
            let u = choose|u: int| 0 <= u < ks@.len() && ks@[u] == ks_set[t];
            assert(ks@[u] < n);
        }
        if ks@.len() == 0 && ks_set.len() > 0 {
            assert(ks_set.contains(ks_set[0]));
            assert(ks@.contains(ks_set[0]));
            assert(false);
        }
    }
    let mut rng = init_rand();
    let mut found: HashMap<usize, i64> = HashMap::new();
    kth_stat_helper(&mut rng, xs, ks_vec, 0, n, false, &mut found);
    proof {
        assert(old(xs)@.subrange(0, n as int) =~= old(xs)@);
        assert(xs@.subrange(0, n as int) =~= xs@);
        assert forall|k: usize| #[trigger] found@.contains_key(k) <==> ks@.contains(k) by {
            if ks_set.contains(k) {
                assert(found@.contains_key(k));
            } else {
                assert(found@.contains_key(k) <==> false);
            }
        }
    }
    found
}

/// Locates a single order statistic: the element that rank `k` of the sorted
/// input holds.  The rank must be in range; the input is rearranged in place
/// but keeps its elements.
pub fn kth_stat(xs: &mut Vec<i64>, k: usize) -> (r: Result<i64, MyError>)
    requires
        k < old(xs).len(),
    ensures
        final(xs)@.len() == old(xs)@.len(),
        final(xs)@.to_multiset() == old(xs)@.to_multiset(),
        r == Ok::<i64, MyError>(sort_i64(old(xs)@)[k as int]),
{
    let mut ks: Vec<usize> = Vec::new();
    ks.push(k);
    let found = kth_stats_recur(xs, &ks);
    proof {
        assert(ks@[0] == k);
        assert(ks@.contains(k));
        assert(found@.contains_key(k));
    }
    match found.get(&k) {
        Some(v) => Ok(*v),
        None => vstd::pervasive::unreached(),
    }
}

/// Assembles the contract of `kth_stat_helper`'s partition case from the
/// contracts of its parts.
///
/// `s0 -> s1` is the partition step on the window `[l, r)` with pivot
/// position `p`; `s1 -> s2` the recursive call on `[l, p)` resolving the
/// pending ranks below `p`; `s2 -> s3` the call on `[p+1, r)` resolving those
/// above it.  `found0 -> found1` records the pivot rank itself when it was
/// pending (`found_flag`).  A branch that did not run is passed with equal
/// states on both sides, which satisfies its hypotheses vacuously.
#[verifier::rlimit(60)]
proof fn lemma_helper_compose(
    s0: Seq<i64>,
    s1: Seq<i64>,
    s2: Seq<i64>,
    s3: Seq<i64>,
    found0: Map<usize, i64>,
    found1: Map<usize, i64>,
    found2: Map<usize, i64>,
    found3: Map<usize, i64>,
    ks_orig: Seq<usize>,
    ks_rem: Seq<usize>,
    l: usize,
    r: usize,
    p: usize,
    ki: usize,
    found_flag: bool,
)
    requires
        l <= p < r <= s0.len(),
        s1.len() == s0.len(),
        s2.len() == s0.len(),
        s3.len() == s0.len(),
        forall|i: int| 0 <= i < s0.len() && !(l <= i < r) ==> s1[i] == s0[i],
        s1.subrange(l as int, r as int).to_multiset() == s0.subrange(
            l as int,
            r as int,
        ).to_multiset(),
        forall|i: int| l <= i < p ==> s1[i] < s1[p as int],
        forall|i: int| p <= i < r ==> s1[i] >= s1[p as int],
        strictly_increasing(ks_orig),
        forall|t: int| 0 <= t < ks_orig.len() ==> l <= #[trigger] ks_orig[t] < r,
        ki <= ks_orig.len(),
        forall|t: int| 0 <= t < ki ==> #[trigger] ks_orig[t] < p,
        forall|t: int| ki <= t < ks_orig.len() ==> #[trigger] ks_orig[t] >= p,
        found_flag <==> (ki < ks_orig.len() && ks_orig[ki as int] == p),
        found_flag ==> ks_rem == ks_orig.subrange(0, ki as int) + ks_orig.subrange(
            ki as int + 1,
            ks_orig.len() as int,
        ),
        !found_flag ==> ks_rem == ks_orig,
        found_flag ==> found1 == found0.insert(p, s1[p as int]),
        !found_flag ==> found1 == found0,
        forall|i: int| 0 <= i < s0.len() && !(l <= i < p) ==> s2[i] == s1[i],
        s2.subrange(l as int, p as int).to_multiset() == s1.subrange(
            l as int,
            p as int,
        ).to_multiset(),
        forall|k: usize| #[trigger]
            ks_rem.subrange(0, ki as int).contains(k) ==> found2.contains_key(k) && found2[k]
                == sort_i64(s1.subrange(l as int, p as int))[k - l],
        forall|k: usize|
            !ks_rem.subrange(0, ki as int).contains(k) ==> (#[trigger] found2.contains_key(k)
                <==> found1.contains_key(k)),
        forall|k: usize|
            !ks_rem.subrange(0, ki as int).contains(k) && found1.contains_key(k)
                ==> #[trigger] found2[k] == found1[k],
        forall|i: int| 0 <= i < s0.len() && !(p + 1 <= i < r) ==> s3[i] == s2[i],
        s3.subrange(p as int + 1, r as int).to_multiset() == s2.subrange(
            p as int + 1,
            r as int,
        ).to_multiset(),
        forall|k: usize| #[trigger]
            ks_rem.subrange(ki as int, ks_rem.len() as int).contains(k) ==> found3.contains_key(
                k,
            ) && found3[k] == sort_i64(s2.subrange(p as int + 1, r as int))[k - (p + 1)],
        forall|k: usize|
            !ks_rem.subrange(ki as int, ks_rem.len() as int).contains(k) ==> (
            #[trigger] found3.contains_key(k) <==> found2.contains_key(k)),
        forall|k: usize|
            !ks_rem.subrange(ki as int, ks_rem.len() as int).contains(k) && found2.contains_key(
                k,
            ) ==> #[trigger] found3[k] == found2[k],
    ensures
        forall|i: int| 0 <= i < s0.len() && !(l <= i < r) ==> s3[i] == s0[i],
        s3.subrange(l as int, r as int).to_multiset() == s0.subrange(
            l as int,
            r as int,
        ).to_multiset(),
        forall|k: usize| #[trigger]
            ks_orig.contains(k) ==> found3.contains_key(k) && found3[k] == sort_i64(
                s0.subrange(l as int, r as int),
            )[k - l],
        forall|k: usize|
            !ks_orig.contains(k) ==> (#[trigger] found3.contains_key(k)
                <==> found0.contains_key(k)),
        forall|k: usize|
            !ks_orig.contains(k) && found0.contains_key(k) ==> #[trigger] found3[k] == found0[k],
{
    let li = l as int;
    let ri = r as int;
    let pi = p as int;
    let w0 = s0.subrange(li, ri);
    let w1 = s1.subrange(li, ri);
    let kl = ks_rem.subrange(0, ki as int);
    let kr = ks_rem.subrange(ki as int, ks_rem.len() as int);

    lemma_window_multiset_frame(s2, s1, li, ri, li, pi);
    lemma_window_multiset_frame(s3, s2, li, ri, pi + 1, ri);

    lemma_sort_congruent(w1, w0);
    assert forall|i: int| 0 <= i < pi - li implies #[trigger] w1[i] < w1[pi - li] by {
        assert(s1[li + i] < s1[pi]);
    }
    assert forall|i: int| pi - li <= i < w1.len() implies #[trigger] w1[i] >= w1[pi - li] by {
        assert(s1[li + i] >= s1[pi]);
    }
    lemma_partition_point(w1, pi - li);
    let sw = sort_i64(w1);
    assert(sw == sort_i64(w0));
    assert(s1.subrange(li, pi) =~= w1.subrange(0, pi - li));
    assert(s2.subrange(pi + 1, ri) =~= s1.subrange(pi + 1, ri));
    assert(s1.subrange(pi + 1, ri) =~= w1.subrange(pi - li + 1, ri - li));

    // Each side of the split rank list maps into the original one.
    assert forall|k: usize| #[trigger] kl.contains(k) implies ks_orig.contains(k) && k < p by {
        let t = choose|t: int| 0 <= t < kl.len() && kl[t] == k;
        assert(ks_rem[t] == k);
        assert(ks_orig[t] == k);
    }
    assert forall|k: usize| #[trigger] kr.contains(k) implies ks_orig.contains(k) && k > p by {
        let t = choose|t: int| 0 <= t < kr.len() && kr[t] == k;
        assert(ks_rem[ki + t] == k);
        if found_flag {
            assert(ks_orig[ki + t + 1] == k);
            assert(ks_orig[ki as int] < ks_orig[ki + t + 1]);
        } else {
            assert(ks_orig[ki + t] == k);
            assert(ks_orig[ki + t] >= p);
            if ks_orig[ki + t] == p {
                if t > 0 {
                    assert(ks_orig[ki as int] < ks_orig[ki + t]);
                    assert(ks_orig[ki as int] >= p);
                    assert(false);
                } else {
                    assert(false);
                }
            }
        }
    }

    // The resolved values on each side agree with the whole window's sorted
    // image.
    assert forall|k: usize| #[trigger] kl.contains(k) implies found3.contains_key(k) && found3[k]
        == sw[k - l] by {
        assert(found2.contains_key(k) && found2[k] == sort_i64(s1.subrange(li, pi))[k - l]);
        assert(sort_i64(s1.subrange(li, pi)) == sw.subrange(0, pi - li));
        assert(l <= k < p);
        assert(sw.subrange(0, pi - li)[k - l] == sw[k - l]);
        assert(!kr.contains(k));
    }
    assert forall|k: usize| #[trigger] kr.contains(k) implies found3.contains_key(k) && found3[k]
        == sw[k - l] by {
        assert(found3.contains_key(k) && found3[k] == sort_i64(s2.subrange(pi + 1, ri))[k - (p
            + 1)]);
        assert(sort_i64(s2.subrange(pi + 1, ri)) == sw.subrange(pi - li + 1, ri - li));
        assert(p < k < r);
        assert(sw.subrange(pi - li + 1, ri - li)[k - p - 1] == sw[pi - li + 1 + (k - p - 1)]);
        assert(pi - li + 1 + (k - p - 1) == k - l);
    }
    if found_flag {
        assert(found1.contains_key(p) && found1[p] == s1[pi]);
        assert(!kl.contains(p) && !kr.contains(p));
        assert(found3.contains_key(p) && found3[p] == s1[pi]);
        assert(w1[pi - li] == s1[pi]);
        assert(sw[pi - li] == s1[pi]);
    }

    // Membership in the original list decomposes over the three parts.
    assert forall|k: usize| #[trigger] ks_orig.contains(k) implies found3.contains_key(k)
        && found3[k] == sort_i64(w0)[k - l] by {
        let t = choose|t: int| 0 <= t < ks_orig.len() && ks_orig[t] == k;
        if found_flag {
            if t < ki {
                assert(kl[t] == k);
                assert(kl.contains(k));
            } else if t == ki {
                assert(k == p);
            } else {
                assert(kr[t - 1 - ki] == ks_rem[t - 1]);
                assert(ks_rem[t - 1] == ks_orig[t]);
                assert(kr.contains(k));
            }
        } else {
            if t < ki {
                assert(kl[t] == k);
                assert(kl.contains(k));
            } else {
                assert(kr[t - ki] == ks_rem[t]);
                assert(kr.contains(k));
            }
        }
    }

    // Ranks that were never pending keep their old association.
    assert forall|k: usize| !ks_orig.contains(k) implies ((found3.contains_key(k)
        <==> found0.contains_key(k)) && (found0.contains_key(k) ==> found3[k]
        == found0[k])) by {
        assert(!kl.contains(k));
        assert(!kr.contains(k));
        if found_flag {
            assert(ks_orig[ki as int] == p);
            assert(ks_orig.contains(p));
            assert(k != p);
        }
    }
}

} // verus!
