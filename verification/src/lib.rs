//! Order statistics and streaming aggregate statistics over totally ordered
//! 64-bit values.
//!
//! The crate has two engines.  A selection engine locates one rank
//! ([`selection::kth_stat`]) or a whole set of ranks
//! ([`selection::kth_stats_recur`]) of a mutable sequence in expected linear
//! time, by randomized partitioning with an adaptive bailout to sorting; the
//! median family ([`medians`]) and the mode ([`frequency`]) are layered on
//! it.  An aggregation engine ([`aggregates`]) computes mean and variance in
//! one pass with Welford's recurrence, generalized over a small numeric
//! capability trait that the crate implements for `i64` and a host layer may
//! implement for its own numeric types.
//!
//! Every contract is phrased against the sorted image of the input
//! ([`seq_facts::sort_i64`]) or the mathematical fold of the recurrence
//! ([`aggregates::welford_pair`]): rank `k` receives `sort_i64(input)[k]`,
//! and the aggregates are exactly the folded pair's components.

pub mod aggregates;
pub mod errors;
pub mod frequency;
pub mod int_values;
pub mod medians;
mod rng;
pub mod selection;
pub mod seq_facts;
mod sorting;
