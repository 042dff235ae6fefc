//! The running aggregation engine: one-pass, constant-memory mean and
//! sum-of-squared-deviations by Welford's recurrence, generalized over a
//! minimal numeric capability trait.
//!
//! The engine's contracts pin the result to `welford_pair`, the mathematical
//! fold of the recurrence over the element type's own operations.  The crate
//! implements the capability for `i64` with saturating arithmetic; a host
//! layer may implement it for its own numeric types and inherits the same
//! verified recurrence structure.

use vstd::prelude::*;
use vstd::arithmetic::div_mod::{
    lemma_div_is_ordered, lemma_div_multiples_vanish, lemma_div_pos_is_pos,
};
use crate::errors::MyError;
use crate::int_values::div_toward_zero;

verus! {

/// The minimal numeric capability the aggregation engine folds over: zero,
/// the three ring operations, division by a positive count, and a square
/// root for the standard deviations.  Each executable operation is pinned to
/// its own specification-level image, so the engine's contracts hold for
/// every implementation.
pub trait StatValue: Sized + Copy {
    spec fn zero_spec() -> Self;

    spec fn plus_spec(self, o: Self) -> Self;

    spec fn minus_spec(self, o: Self) -> Self;

    spec fn times_spec(self, o: Self) -> Self;

    spec fn div_count_spec(self, n: usize) -> Self;

    spec fn sqrt_spec(self) -> Self;

    /// Dividing zero by any positive count gives zero again; the engine
    /// needs this to pin the population variance of a single point to zero.
    proof fn lemma_zero_div(n: usize)
        requires
            1 <= n,
        ensures
            Self::zero_spec().div_count_spec(n) == Self::zero_spec(),
    ;

    fn zero() -> (r: Self)
        ensures
            r == Self::zero_spec(),
    ;

    fn plus(self, o: Self) -> (r: Self)
        ensures
            r == self.plus_spec(o),
    ;

    fn minus(self, o: Self) -> (r: Self)
        ensures
            r == self.minus_spec(o),
    ;

    fn times(self, o: Self) -> (r: Self)
        ensures
            r == self.times_spec(o),
    ;

    fn div_count(self, n: usize) -> (r: Self)
        requires
            1 <= n,
        ensures
            r == self.div_count_spec(n),
    ;

    fn sqrt(self) -> (r: Self)
        ensures
            r == self.sqrt_spec(),
    ;
}

/// The pair (running mean, running sum of squared deviations) that Welford's
/// recurrence yields after folding a whole sequence: the first element seeds
/// the mean, and each later element `x` at one-based position `i` updates
/// `m' = m + (x - m)/i` and `s' = s + (x - m)(x - m')`.
pub open spec fn welford_pair<T: StatValue>(s: Seq<T>) -> (T, T)
    decreases s.len(),
{
    if s.len() == 0 {
        (T::zero_spec(), T::zero_spec())
    } else if s.len() == 1 {
        (s[0], T::zero_spec())
    } else {
        let prev = welford_pair(s.drop_last());
        let x = s.last();
        let d = x.minus_spec(prev.0);
        let nm = prev.0.plus_spec(d.div_count_spec(s.len() as usize));
        let nsd = prev.1.plus_spec(d.times_spec(x.minus_spec(nm)));
        (nm, nsd)
    }
}

/// Folds the whole sequence through Welford's recurrence in one pass with
/// constant extra memory.
fn running_stat<T: StatValue>(xs: &Vec<T>) -> (r: (T, T))
    ensures
        r == welford_pair(xs@),
{
    let n: usize = xs.len();
    let mut m: T = T::zero();
    let mut sd: T = T::zero();
    let mut i: usize = 0;
    while i < n
        invariant
            i <= n == xs@.len(),
            (m, sd) == welford_pair(xs@.take(i as int)),
        decreases n - i,
    {
        let x: T = xs[i];
        if i == 0 {
            m = x;
            sd = T::zero();
        } else {
            let d = x.minus(m);
            let nm = m.plus(d.div_count(i + 1));
            let nsd = sd.plus(d.times(x.minus(nm)));
            m = nm;
            sd = nsd;
        }
        proof {
            assert(xs@.take(i as int + 1).drop_last() =~= xs@.take(i as int));
            assert(xs@.take(i as int + 1).last() == xs@[i as int]);
        }
        i += 1;
    }
    proof {
        assert(xs@.take(n as int) =~= xs@);
    }
    (m, sd)
}

/// The arithmetic mean: the first component of the Welford fold.  Fails on
/// an empty sequence, and only there.
pub fn mean<T: StatValue>(xs: &Vec<T>) -> (r: Result<T, MyError>)
    ensures
        xs@.len() == 0 ==> r == Err::<T, MyError>(MyError::NoEnoughDataForMean),
        xs@.len() > 0 ==> r == Ok::<T, MyError>(welford_pair(xs@).0),
{
    if xs.len() == 0 {
        Err(MyError::NoEnoughDataForMean)
    } else {
        let rs = running_stat(xs);
        Ok(rs.0)
    }
}

/// The sample variance: the folded sum of squared deviations divided by
/// `n - 1`.  Fails on fewer than two points, and only there.
pub fn variance<T: StatValue>(xs: &Vec<T>) -> (r: Result<T, MyError>)
    ensures
        xs@.len() < 2 ==> r == Err::<T, MyError>(MyError::NoEnoughDataForVariance),
        xs@.len() >= 2 ==> r == Ok::<T, MyError>(
            welford_pair(xs@).1.div_count_spec((xs@.len() - 1) as usize),
        ),
{
    if xs.len() < 2 {
        Err(MyError::NoEnoughDataForVariance)
    } else {
        let rs = running_stat(xs);
        Ok(rs.1.div_count(xs.len() - 1))
    }
}

/// The population variance: the folded sum of squared deviations divided by
/// `n`.  Fails on an empty sequence, and only there; a single point has
/// population variance zero.
pub fn pvariance<T: StatValue>(xs: &Vec<T>) -> (r: Result<T, MyError>)
    ensures
        xs@.len() == 0 ==> r == Err::<T, MyError>(MyError::NoEnoughDataForPopulationVariance),
        xs@.len() > 0 ==> r == Ok::<T, MyError>(welford_pair(xs@).1.div_count_spec(xs@.len() as usize)),
        xs@.len() == 1 ==> r == Ok::<T, MyError>(T::zero_spec()),
{
    if xs.len() == 0 {
        Err(MyError::NoEnoughDataForPopulationVariance)
    } else {
        let rs = running_stat(xs);
        proof {
            if xs@.len() == 1 {
                T::lemma_zero_div(1);
            }
        }
        Ok(rs.1.div_count(xs.len()))
    }
}

/// The exact sum of a sequence of machine integers, as an unbounded value.
pub open spec fn sum_i64(s: Seq<i64>) -> int
    decreases s.len(),
{
    if s.len() == 0 {
        0
    } else {
        sum_i64(s.drop_last()) + s.last()
    }
}

/// The sum of `n` machine integers lies between `n` times either type
/// bound.
proof fn lemma_sum_i64_bound(s: Seq<i64>)
    ensures
        s.len() * (i64::MIN as int) <= sum_i64(s) <= s.len() * (i64::MAX as int),
    decreases s.len(),
{
    if s.len() > 0 {
        lemma_sum_i64_bound(s.drop_last());
    }
}

/// The naive average: the exact sum divided by the count, rounded toward
/// zero.  Fails on an empty sequence, and only there.
pub fn avg_num(xs: Vec<i64>) -> (r: Result<i64, MyError>)
    ensures
        xs@.len() == 0 ==> r == Err::<i64, MyError>(MyError::ZeroDivisionError),
        xs@.len() > 0 ==> r is Ok && r->Ok_0 as int == div_toward_zero(
            sum_i64(xs@),
            xs@.len() as int,
        ),
{
    let n: usize = xs.len();
    if n == 0 {
        return Err(MyError::ZeroDivisionError);
    }
    let mut acc: i128 = 0;
    let mut i: usize = 0;
    while i < n
        invariant
            i <= n == xs@.len(),
            acc == sum_i64(xs@.take(i as int)),
            (i as int) * (i64::MIN as int) <= acc <= (i as int) * (i64::MAX as int),
        decreases n - i,
    {
        proof {
            lemma_sum_i64_bound(xs@.take(i as int + 1));
            assert(xs@.take(i as int + 1).drop_last() =~= xs@.take(i as int));
            assert(xs@.take(i as int + 1).last() == xs@[i as int]);
        }
        acc = acc + xs[i] as i128;
        i += 1;
    }
    proof {
        assert(xs@.take(n as int) =~= xs@);
        lemma_sum_i64_bound(xs@);
    }
    if acc >= 0 {
        proof {
            lemma_div_is_ordered(acc as int, (n as int) * (i64::MAX as int), n as int);
            lemma_div_multiples_vanish(i64::MAX as int, n as int);
            lemma_div_pos_is_pos(acc as int, n as int);
        }
        Ok((acc / (n as i128)) as i64)
    } else {
        proof {
            lemma_div_is_ordered(
                -(acc as int),
                (n as int) * 0x8000_0000_0000_0000,
                n as int,
            );
            lemma_div_multiples_vanish(0x8000_0000_0000_0000, n as int);
            lemma_div_pos_is_pos(-(acc as int), n as int);
        }
        Ok((-((-acc) / (n as i128))) as i64)
    }
}

/// The sample standard deviation: the square root of the sample variance.
pub fn stdev<T: StatValue>(xs: &Vec<T>) -> (r: Result<T, MyError>)
    ensures
        xs@.len() < 2 ==> r == Err::<T, MyError>(MyError::NoEnoughDataForVariance),
        xs@.len() >= 2 ==> r == Ok::<T, MyError>(
            welford_pair(xs@).1.div_count_spec((xs@.len() - 1) as usize).sqrt_spec(),
        ),
{
    match variance(xs) {
        Ok(v) => Ok(v.sqrt()),
        Err(e) => Err(e),
    }
}

/// The population standard deviation: the square root of the population
/// variance.
pub fn pstdev<T: StatValue>(xs: &Vec<T>) -> (r: Result<T, MyError>)
    ensures
        xs@.len() == 0 ==> r == Err::<T, MyError>(MyError::NoEnoughDataForPopulationVariance),
        xs@.len() > 0 ==> r == Ok::<T, MyError>(
            welford_pair(xs@).1.div_count_spec(xs@.len() as usize).sqrt_spec(),
        ),
{
    match pvariance(xs) {
        Ok(v) => Ok(v.sqrt()),
        Err(e) => Err(e),
    }
}

} // verus!
