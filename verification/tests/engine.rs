//! Scenario and boundary tests: concrete selections, medians, modes,
//! distinct error kinds, and Welford's agreement with a two-pass reference.

use fast_stat::aggregates::{avg_num, mean, pstdev, pvariance, stdev, variance, StatValue};
use fast_stat::errors::MyError;
use fast_stat::frequency::mode;
use fast_stat::medians::{median, median_high, median_low};
use fast_stat::selection::{kth_stat, kth_stats_recur};

#[derive(Clone, Copy, PartialEq, Debug)]
struct F64(f64);

impl StatValue for F64 {
    fn zero_spec() -> F64 {
        F64(0.0)
    }

    fn plus_spec(self, o: F64) -> F64 {
        F64(self.0 + o.0)
    }

    fn minus_spec(self, o: F64) -> F64 {
        F64(self.0 - o.0)
    }

    fn times_spec(self, o: F64) -> F64 {
        F64(self.0 * o.0)
    }

    fn div_count_spec(self, n: usize) -> F64 {
        F64(self.0 / n as f64)
    }

    fn sqrt_spec(self) -> F64 {
        F64(self.0.sqrt())
    }

    fn lemma_zero_div(_n: usize) {}

    fn zero() -> F64 {
        F64(0.0)
    }

    fn plus(self, o: F64) -> F64 {
        F64(self.0 + o.0)
    }

    fn minus(self, o: F64) -> F64 {
        F64(self.0 - o.0)
    }

    fn times(self, o: F64) -> F64 {
        F64(self.0 * o.0)
    }

    fn div_count(self, n: usize) -> F64 {
        F64(self.0 / n as f64)
    }

    fn sqrt(self) -> F64 {
        F64(self.0.sqrt())
    }
}

fn lift(xs: &[f64]) -> Vec<F64> {
    xs.iter().map(|x| F64(*x)).collect()
}

#[test]
fn select_one_scenario() {
    let mut xs: Vec<i64> = vec![3, 1, 2, 4, 6, 5, 8, 7];
    assert_eq!(kth_stat(&mut xs, 3), Ok(4));
}

#[test]
fn select_many_scenario() {
    let mut xs: Vec<i64> = vec![3, 1, 2, 4, 6, 5, 8, 7];
    let ks: Vec<usize> = vec![7, 5, 7];
    let r = kth_stats_recur(&mut xs, &ks);
    assert_eq!(r.len(), 2);
    assert_eq!(r.get(&5), Some(&6));
    assert_eq!(r.get(&7), Some(&8));
}

#[test]
fn select_every_rank() {
    let xs: Vec<i64> = vec![12, -5, 3, 3, 99, 0, -5, 7];
    let ks: Vec<usize> = (0..xs.len()).collect();
    let mut ys = xs.clone();
    let r = kth_stats_recur(&mut ys, &ks);
    let mut sorted = xs.clone();
    sorted.sort();
    for (k, want) in sorted.iter().enumerate() {
        assert_eq!(r.get(&k), Some(want));
    }
}

#[test]
fn select_empty_rank_set() {
    let mut xs: Vec<i64> = vec![4, 2, 9];
    let ks: Vec<usize> = vec![];
    let r = kth_stats_recur(&mut xs, &ks);
    assert!(r.is_empty());
    assert_eq!(xs, vec![4, 2, 9]);
}

#[test]
fn median_odd_even_empty() {
    let mut odd: Vec<i64> = vec![9, 1, 5];
    assert_eq!(median(&mut odd), Ok(5));

    let mut even: Vec<i64> = vec![4, 1, 3, 2];
    assert_eq!(median(&mut even), Ok(2));

    let mut empty: Vec<i64> = vec![];
    assert_eq!(median(&mut empty), Err(MyError::NoMedianEmptyData));
}

#[test]
fn median_low_and_high() {
    let mut xs: Vec<i64> = vec![4, 1, 3, 2];
    assert_eq!(median_low(&mut xs), Ok(2));
    let mut xs: Vec<i64> = vec![4, 1, 3, 2];
    assert_eq!(median_high(&mut xs), Ok(3));
    let mut xs: Vec<i64> = vec![7, 3, 5];
    assert_eq!(median_low(&mut xs), Ok(5));
    let mut xs: Vec<i64> = vec![7, 3, 5];
    assert_eq!(median_high(&mut xs), Ok(5));
}

#[test]
fn mode_unique_tied_empty() {
    assert_eq!(mode(vec![1, 2, 2, 3]), Ok(2));
    assert_eq!(mode(vec![5, 5, 5]), Ok(5));
    assert_eq!(mode(vec![1, 1, 2, 2, 3]), Err(MyError::NoUniqueMode { modes: 2 }));
    assert_eq!(mode(vec![1, 2, 3]), Err(MyError::NoUniqueMode { modes: 3 }));
    assert_eq!(mode(vec![]), Err(MyError::NoModeEmptyData));
}

#[test]
fn aggregate_error_kinds() {
    let empty: Vec<F64> = vec![];
    assert_eq!(mean(&empty), Err(MyError::NoEnoughDataForMean));
    assert_eq!(variance(&empty), Err(MyError::NoEnoughDataForVariance));
    assert_eq!(pvariance(&empty), Err(MyError::NoEnoughDataForPopulationVariance));
    assert_eq!(stdev(&empty), Err(MyError::NoEnoughDataForVariance));
    assert_eq!(pstdev(&empty), Err(MyError::NoEnoughDataForPopulationVariance));

    let one = lift(&[2.75]);
    assert_eq!(variance(&one), Err(MyError::NoEnoughDataForVariance));
    assert_eq!(pvariance(&one), Ok(F64(0.0)));
}

#[test]
fn pvariance_scenario() {
    let input = lift(&[27.5, 30.25, 30.25, 34.5, 41.75]);
    let got = pvariance(&input).unwrap().0;
    assert_eq!((got * 10f64.powi(4)).round() / 10f64.powi(4), 24.8150);
}

#[test]
fn variance_scenario() {
    let input = lift(&[2.75, 1.75, 1.25, 0.25, 0.5, 1.25, 3.5]);
    let got = variance(&input).unwrap().0;
    assert_eq!((got * 10f64.powi(4)).round() / 10f64.powi(4), 1.3720);
}

fn two_pass_variance(xs: &[f64], population: bool) -> f64 {
    let n = xs.len() as f64;
    let m: f64 = xs.iter().sum::<f64>() / n;
    let ssd: f64 = xs.iter().map(|x| (x - m) * (x - m)).sum();
    if population {
        ssd / n
    } else {
        ssd / (n - 1.0)
    }
}

fn assert_close(a: f64, b: f64) {
    let scale = a.abs().max(b.abs()).max(1.0);
    assert!(
        (a - b).abs() <= 1e-9 * scale,
        "got {a}, reference {b}"
    );
}

#[test]
fn welford_matches_two_pass_reference() {
    let cases: Vec<Vec<f64>> = vec![
        vec![2.75, 1.75, 1.25, 0.25, 0.5, 1.25, 3.5],
        vec![27.5, 30.25, 30.25, 34.5, 41.75],
        vec![1.0, 2.0, 4.0, 8.0, 16.0, 32.0],
        vec![-7.25, 0.0, 7.25, 100.5, -100.5],
    ];
    for xs in cases {
        let lifted = lift(&xs);
        assert_close(variance(&lifted).unwrap().0, two_pass_variance(&xs, false));
        assert_close(pvariance(&lifted).unwrap().0, two_pass_variance(&xs, true));
    }
}

#[test]
fn welford_stable_on_ill_conditioned_input() {
    // A large mean with a small spread: the naive sum-of-squares formula
    // loses almost every significant digit here; Welford must stay close to
    // the shifted two-pass reference.
    let base = 1.0e9;
    let deltas = [0.0, 0.25, 0.5, 0.75, 1.0, 1.25, 1.5, 1.75];
    let xs: Vec<f64> = deltas.iter().map(|d| base + d).collect();
    let reference = two_pass_variance(&deltas.to_vec(), false);
    let got = variance(&lift(&xs)).unwrap().0;
    assert_close(got, reference);
}

#[test]
fn naive_average() {
    assert_eq!(avg_num(vec![1, 2, 3, 4]), Ok(2));
    assert_eq!(avg_num(vec![-3, -4]), Ok(-3));
    assert_eq!(avg_num(vec![7]), Ok(7));
    assert_eq!(avg_num(vec![]), Err(MyError::ZeroDivisionError));
}

#[test]
fn integer_aggregates() {
    let xs: Vec<i64> = vec![2, 4, 6];
    assert_eq!(mean(&xs), Ok(4));

    let xs: Vec<i64> = vec![0, 4];
    assert_eq!(pvariance(&xs), Ok(4));
    assert_eq!(pstdev(&xs), Ok(2));
    assert_eq!(variance(&xs), Ok(8));

    let xs: Vec<i64> = vec![10];
    assert_eq!(pvariance(&xs), Ok(0));
    assert_eq!(mean(&xs), Ok(10));
}
