//! Pivot source: a seeded pseudo-random index generator.
//!
//! One generator handle is created per top-level selection call and reused
//! across every recursive step, so pivot choices within a call come from a
//! single stream.  Nothing in the engine's correctness depends on which index
//! comes back, only on it lying inside the requested range.

use rand::RngExt;
use vstd::prelude::*;

verus! {

/// Declares rand's `ThreadRng` as an opaque type, so one generator handle
/// can be threaded through the whole of a selection call.
#[verifier::external_type_specification]
#[verifier::external_body]
pub struct ExThreadRng(rand::rngs::ThreadRng);

/// Relies on rand's `rng()`: hands out a handle to the thread-local
/// generator, pre-seeded by the library.
#[verifier::external_body]
pub(crate) fn init_rand() -> rand::rngs::ThreadRng {
    rand::rng()
}

/// Relies on rand's `RngExt::random_range` over `from..to`: a uniformly
/// distributed value of the non-empty range, and nothing more is assumed of
/// which one comes back.
#[verifier::external_body]
fn random_index_in(rng: &mut rand::rngs::ThreadRng, from: usize, to: usize) -> (r: usize)
    requires
        from < to,
    ensures
        from <= r < to,
{
    rng.random_range(from..to)
}

/// An index of `[from, to)`, or `from` itself for the degenerate empty range.
pub(crate) fn rand_range(rng: &mut rand::rngs::ThreadRng, from: usize, to: usize) -> (r: usize)
    requires
        from <= to,
    ensures
        from < to ==> from <= r < to,
        from == to ==> r == from,
{
    if from == to {
        from
    } else {
        random_index_in(rng, from, to)
    }
}

} // verus!
