//! The median family, layered on the batch selector: one rank for an odd
//! count, the two middle ranks for an even one.

use std::collections::HashMap;
use vstd::prelude::*;
use crate::errors::MyError;
use crate::selection::{kth_stat, kth_stats_recur};
use crate::seq_facts::{lemma_sort_i64_ensures, sort_i64};

verus! {

broadcast use vstd::seq_lib::group_seq_properties, vstd::std_specs::hash::group_hash_axioms;

/// The mean of two values, rounded toward zero as the division of their sum
/// by two rounds in machine arithmetic.
pub open spec fn avg2(a: int, b: int) -> int {
    if a + b >= 0 {
        (a + b) / 2
    } else {
        -((-(a + b)) / 2)
    }
}

/// The rank the lower or upper median occupies in the sorted image of a
/// sequence of length `n`.
pub open spec fn median_rank(n: int, low: bool) -> int {
    if n % 2 == 1 {
        n / 2
    } else if low {
        n / 2 - 1
    } else {
        n / 2
    }
}

fn avg2_exec(a: i64, b: i64) -> (r: i64)
    ensures
        r == avg2(a as int, b as int),
{
    let s: i128 = a as i128 + b as i128;
    if s >= 0 {
        (s / 2) as i64
    } else {
        (-((-s) / 2)) as i64
    }
}

/// Reads the two middle ranks out of a batch-selection result map.
fn get_median_pair(r: &HashMap<usize, i64>, lo: usize, hi: usize) -> (pair: (i64, i64))
    requires
        r@.contains_key(lo),
        r@.contains_key(hi),
    ensures
        pair.0 == r@[lo],
        pair.1 == r@[hi],
{
    let a: i64 = match r.get(&lo) {
        Some(v) => *v,
        None => vstd::pervasive::unreached(),
    };
    let b: i64 = match r.get(&hi) {
        Some(v) => *v,
        None => vstd::pervasive::unreached(),
    };
    (a, b)
}

/// The median: the middle element of the sorted image for an odd count, the
/// rounded mean of the two middle elements for an even one, and a typed
/// failure for an empty sequence.  The input is rearranged in place but
/// keeps its elements.
pub fn median(xs: &mut Vec<i64>) -> (r: Result<i64, MyError>)
    ensures
        final(xs)@.len() == old(xs)@.len(),
        final(xs)@.to_multiset() == old(xs)@.to_multiset(),
        old(xs)@.len() == 0 ==> r == Err::<i64, MyError>(MyError::NoMedianEmptyData),
        old(xs)@.len() % 2 == 1 ==> r == Ok::<i64, MyError>(
            sort_i64(old(xs)@)[old(xs)@.len() as int / 2],
        ),
        old(xs)@.len() > 0 && old(xs)@.len() % 2 == 0 ==> r is Ok && r->Ok_0 == avg2(
            sort_i64(old(xs)@)[old(xs)@.len() as int / 2 - 1] as int,
            sort_i64(old(xs)@)[old(xs)@.len() as int / 2] as int,
        ),
{
    let n: usize = xs.len();
    if n == 0 {
        return Err(MyError::NoMedianEmptyData);
    }
    let med_idx: usize = n / 2;
    if n % 2 == 0 {
        let mut ks: Vec<usize> = Vec::new();
        ks.push(med_idx - 1);
        ks.push(med_idx);
        let found = kth_stats_recur(xs, &ks);
        proof {
            assert(ks@[0] == med_idx - 1 && ks@[1] == med_idx);
            assert(ks@.contains((med_idx - 1) as usize));
            assert(ks@.contains(med_idx));
            lemma_sort_i64_ensures(old(xs)@);
        }
        let pair = get_median_pair(&found, med_idx - 1, med_idx);
        Ok(avg2_exec(pair.0, pair.1))
    } else {
        kth_stat(xs, med_idx)
    }
}

/// Shared body of the lower/upper median: for an odd count both coincide
/// with the middle element; for an even one the smaller (`low`) or larger
/// of the two middle elements is picked.
pub fn median_low_high(xs: &mut Vec<i64>, low: bool) -> (r: Result<i64, MyError>)
    requires
        old(xs).len() > 0,
    ensures
        final(xs)@.len() == old(xs)@.len(),
        final(xs)@.to_multiset() == old(xs)@.to_multiset(),
        r == Ok::<i64, MyError>(
            sort_i64(old(xs)@)[median_rank(old(xs)@.len() as int, low)],
        ),
{
    let n: usize = xs.len();
    let med_idx: usize = n / 2;
    if n % 2 == 0 {
        let mut ks: Vec<usize> = Vec::new();
        ks.push(med_idx - 1);
        ks.push(med_idx);
        let found = kth_stats_recur(xs, &ks);
        proof {
            assert(ks@[0] == med_idx - 1 && ks@[1] == med_idx);
            assert(ks@.contains((med_idx - 1) as usize));
            assert(ks@.contains(med_idx));
            lemma_sort_i64_ensures(old(xs)@);
        }
        let pair = get_median_pair(&found, med_idx - 1, med_idx);
        proof {
            assert(pair.0 <= pair.1);
        }
        if low {
            Ok(if pair.0 <= pair.1 {
                pair.0
            } else {
                pair.1
            })
        } else {
            Ok(if pair.0 <= pair.1 {
                pair.1
            } else {
                pair.0
            })
        }
    } else {
        kth_stat(xs, med_idx)
    }
}

/// The lower median: the element at rank `n/2 - 1` of the sorted image for
/// an even count, the middle element for an odd one.
pub fn median_low(ys: &mut Vec<i64>) -> (r: Result<i64, MyError>)
    requires
        old(ys).len() > 0,
    ensures
        final(ys)@.len() == old(ys)@.len(),
        final(ys)@.to_multiset() == old(ys)@.to_multiset(),
        r == Ok::<i64, MyError>(sort_i64(old(ys)@)[median_rank(old(ys)@.len() as int, true)]),
{
    median_low_high(ys, true)
}

/// The upper median: the element at rank `n/2` of the sorted image.
pub fn median_high(ys: &mut Vec<i64>) -> (r: Result<i64, MyError>)
    requires
        old(ys).len() > 0,
    ensures
        final(ys)@.len() == old(ys)@.len(),
        final(ys)@.to_multiset() == old(ys)@.to_multiset(),
        r == Ok::<i64, MyError>(sort_i64(old(ys)@)[median_rank(old(ys)@.len() as int, false)]),
{
    median_low_high(ys, false)
}

} // verus!
