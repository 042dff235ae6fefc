//! Sorting escape hatch and rank-list preparation.
//!
//! The selection engine never needs a sort for the common path; it falls back
//! to sorting a sub-range that resists partitioning, and it pre-sorts the
//! small list of requested ranks.  Both sorts are outside calls; the
//! deduplication pass afterwards is verified here.

use rayon::slice::ParallelSliceMut;
use vstd::prelude::*;
use crate::seq_facts::{is_sorted, strictly_increasing};

verus! {

broadcast use vstd::seq_lib::group_seq_properties;

/// Relies on rayon's `ParallelSliceMut::par_sort_unstable`: rearranges the
/// window `[left, right)` into ascending order, touching nothing outside it.
#[verifier::external_body]
pub(crate) fn par_sort_range(xs: &mut Vec<i64>, left: usize, right: usize)
    requires
        left <= right <= old(xs).len(),
    ensures
        final(xs)@.len() == old(xs)@.len(),
        forall|i: int|
            0 <= i < old(xs)@.len() && !(left <= i < right) ==> final(xs)@[i] == old(xs)@[i],
        final(xs)@.subrange(left as int, right as int).to_multiset() == old(xs)@.subrange(
            left as int,
            right as int,
        ).to_multiset(),
        is_sorted(final(xs)@.subrange(left as int, right as int)),
{
    xs[left..right].par_sort_unstable();
}

/// Relies on std's `slice::sort_unstable`: rearranges the whole vector into
/// ascending order.
#[verifier::external_body]
pub(crate) fn sort_unstable_usize(ks: &mut Vec<usize>)
    ensures
        final(ks)@.to_multiset() == old(ks)@.to_multiset(),
        forall|i: int, j: int| 0 <= i < j < final(ks)@.len() ==> final(ks)@[i] <= final(ks)@[j],
{
    ks.sort_unstable();
}

/// Removes repeated ranks from an ascending list, keeping one of each.
pub(crate) fn dedup_sorted(ks: &Vec<usize>) -> (r: Vec<usize>)
    requires
        forall|i: int, j: int| 0 <= i < j < ks@.len() ==> ks@[i] <= ks@[j],
    ensures
        strictly_increasing(r@),
        forall|x: usize| r@.contains(x) <==> ks@.contains(x),
{
    let mut r: Vec<usize> = Vec::new();
    let n: usize = ks.len();
    let mut i: usize = 0;
    while i < n
        invariant
            i <= n,
            n == ks@.len(),
            forall|p: int, q: int| 0 <= p < q < ks@.len() ==> ks@[p] <= ks@[q],
            strictly_increasing(r@),
            forall|x: usize| r@.contains(x) ==> exists|p: int| 0 <= p < i && ks@[p] == x,
            forall|p: int| 0 <= p < i ==> r@.contains(ks@[p]),
            r@.len() > 0 ==> i > 0 && r@.last() == ks@[i - 1],
        decreases n - i,
    {
        let x: usize = ks[i];
        if r.len() == 0 {
            r.push(x);
        } else {
            let last: usize = r[r.len() - 1];
            if last < x {
                r.push(x);
            } else {
                proof {
                    assert(ks@[i - 1] <= ks@[i as int]);
                    assert(last == x);
                }
            }
        }
        i += 1;
    }
    proof {
        assert forall|x: usize| r@.contains(x) implies ks@.contains(x) by {
            let p = choose|p: int| 0 <= p < n && ks@[p] == x;
            assert(ks@[p] == x);
        }
    }
    r
}

} // verus!
