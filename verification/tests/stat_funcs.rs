//! Partition, selection and aggregate behaviour on concrete data.

use fast_stat::aggregates::{mean, pvariance, variance, StatValue};
use fast_stat::selection::{kth_stats_recur, partition};

fn is_partitioned(xs: &[i64], pivot_elem: i64) -> bool {
    match xs.iter().position(|&x| x == pivot_elem) {
        Some(pos) => {
            let left = &xs[..pos];
            let right = &xs[pos..];
            left.iter().all(|x| x < &pivot_elem) && right.iter().all(|x| x >= &pivot_elem)
        }
        None => panic!("Error, no pivot element has been found!"),
    }
}

fn ensure_partitioned(mut xs: Vec<i64>, pivot_idx: usize) {
    let l = xs.len();
    let pivot_elem = xs[pivot_idx];
    partition(&mut xs, pivot_idx, 0, l);
    assert!(is_partitioned(&xs, pivot_elem));
}

fn ensure_statistics(xs: Vec<i64>, ks: Vec<usize>) {
    let mut ys = xs.clone();
    let result = kth_stats_recur(&mut ys, &ks);
    let mut sorted = xs.clone();
    sorted.sort();
    for k in ks {
        assert_eq!(sorted[k], *result.get(&k).unwrap());
    }
}

#[test]
fn stat_funcs_test_partition() {
    ensure_partitioned(vec![1, 5, 6, 2, 3, 7, 10, 9, 4, 8], 1);
    ensure_partitioned(vec![1, 5, 6, 2, 3, 7, 10, 9, 4, 8], 6);
    ensure_partitioned(vec![5], 0);
    ensure_partitioned(vec![2, 1], 1);
    ensure_partitioned(vec![3, 3, 3, 3], 2);
    ensure_partitioned(vec![9, 8, 7, 6, 5, 4, 3, 2, 1, 0], 0);
    ensure_partitioned(vec![-4, 7, 0, -4, 2, 2, 9], 3);
}

#[test]
fn tests_test_partition() {
    ensure_partitioned(vec![0, 0, 1, 0, 0], 2);
    ensure_partitioned(vec![10, 20, 30, 40], 3);
    ensure_partitioned(vec![40, 30, 20, 10], 0);
    ensure_partitioned(vec![7, -1, 7, -1, 7], 4);
}

#[test]
fn stat_funcs_test_kth() {
    ensure_statistics(vec![3, 1, 2, 4, 6, 5, 8, 7], vec![0, 3, 7]);
    ensure_statistics(vec![5, 5, 5, 5, 5], vec![0, 2, 4]);
    ensure_statistics(vec![9, 8, 7, 6, 5, 4, 3, 2, 1, 0], vec![1, 5]);
    ensure_statistics(vec![42], vec![0]);
    ensure_statistics(vec![-3, 11, -3, 0, 2, 2], vec![0, 1, 2, 3, 4, 5]);
}

#[test]
fn tests_test_kth() {
    ensure_statistics(vec![1, 5, 6, 2, 3, 7, 10, 9, 4, 8], vec![9, 0]);
    ensure_statistics(vec![2, 2, 1, 1, 3, 3], vec![2, 3]);
    ensure_statistics(vec![100, -100], vec![0, 1]);
    ensure_statistics(vec![6, 6, 6, 1], vec![3]);
}

#[derive(Clone, Copy, PartialEq, Debug)]
struct F64(f64);

impl StatValue for F64 {
    fn zero_spec() -> F64 {
        F64(0.0)
    }

    fn plus_spec(self, o: F64) -> F64 {
        F64(self.0 + o.0)
    }

    fn minus_spec(self, o: F64) -> F64 {
        F64(self.0 - o.0)
    }

    fn times_spec(self, o: F64) -> F64 {
        F64(self.0 * o.0)
    }

    fn div_count_spec(self, n: usize) -> F64 {
        F64(self.0 / n as f64)
    }

    fn sqrt_spec(self) -> F64 {
        F64(self.0.sqrt())
    }

    fn lemma_zero_div(_n: usize) {}

    fn zero() -> F64 {
        F64(0.0)
    }

    fn plus(self, o: F64) -> F64 {
        F64(self.0 + o.0)
    }

    fn minus(self, o: F64) -> F64 {
        F64(self.0 - o.0)
    }

    fn times(self, o: F64) -> F64 {
        F64(self.0 * o.0)
    }

    fn div_count(self, n: usize) -> F64 {
        F64(self.0 / n as f64)
    }

    fn sqrt(self) -> F64 {
        F64(self.0.sqrt())
    }
}

fn lift(xs: &[f64]) -> Vec<F64> {
    xs.iter().map(|x| F64(*x)).collect()
}

fn round4(x: f64) -> f64 {
    (x * 10f64.powi(4)).round() / 10f64.powi(4)
}

fn round3(x: f64) -> f64 {
    (x * 10f64.powi(3)).round() / 10f64.powi(3)
}

#[test]
fn test_variance() {
    let input: Vec<F64> = vec![];
    assert!(variance(&input).is_err());

    let input = lift(&[2.75]);
    assert!(variance(&input).is_err());

    let input = lift(&[2.75, 1.75, 1.25, 0.25, 0.5, 1.25, 3.5]);
    assert_eq!(round4(variance(&input).unwrap().0), 1.3720);

    let input = lift(&[27.5, 30.25, 30.25, 34.5, 41.75]);
    assert_eq!(round4(variance(&input).unwrap().0), 31.0188);
}

#[test]
fn test_pvariance() {
    let input: Vec<F64> = vec![];
    assert!(pvariance(&input).is_err());

    let input = lift(&[2.75]);
    assert_eq!(round3(pvariance(&input).unwrap().0), 0.0);

    let input = lift(&[0.0, 0.25, 0.25, 1.25, 1.5, 1.75, 2.75, 3.25]);
    assert_eq!(round3(pvariance(&input).unwrap().0), 1.25);

    let input = lift(&[27.5, 30.25, 30.25, 34.5, 41.75]);
    assert_eq!(round4(pvariance(&input).unwrap().0), 24.815);
}

#[test]
fn test_mean() {
    let input: Vec<F64> = vec![];
    assert!(mean(&input).is_err());

    let input = lift(&[2.0]);
    assert_eq!(mean(&input).unwrap().0, 2.0);

    let input = lift(&[2.0, 3.0]);
    assert_eq!(mean(&input).unwrap().0, 2.5);

    let input = lift(&[2.0, -2.0, 3.0, -3.0, 4.0, -4.0]);
    assert_eq!(mean(&input).unwrap().0.round(), 0.0);
}
