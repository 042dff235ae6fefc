//! Typed failures of the statistics engines.
//!
//! Every recoverable failure is an insufficient-data condition with its own
//! variant, so a host layer can translate each into a distinct message.
//! Contract violations (an out-of-range rank) are excluded by `requires`
//! clauses instead and never surface here.

use vstd::prelude::*;

verus! {

/// The error taxonomy of the statistics engines.
#[derive(Debug, Clone, Copy, PartialEq, Eq, Structural)]
pub enum MyError {
    /// `avg_num` would divide by an empty count.
    ZeroDivisionError,
    /// `harmonic_mean` needs at least one data point.
    HarmonicNoDataPoints,
    /// `harmonic_mean` rejects negative values.
    HarmonicNegatives,
    /// Several values are equally common; the field counts them.
    NoUniqueMode { modes: usize },
    /// `mode` needs at least one data point.
    NoModeEmptyData,
    /// The median family needs at least one data point.
    NoMedianEmptyData,
    /// Sample variance needs at least two data points.
    NoEnoughDataForVariance,
    /// Population variance needs at least one data point.
    NoEnoughDataForPopulationVariance,
    /// The mean needs at least one data point.
    NoEnoughDataForMean,
}

} // verus!
