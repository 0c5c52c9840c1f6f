//! The random numbers that graph generation draws.

use rand::Rng;
use vstd::prelude::*;

verus! {

/// rand's `ThreadRng`, the generator of the current thread. Nothing is known
/// of its state.
#[verifier::external_type_specification]
#[verifier::external_body]
pub struct ExThreadRng(rand::rngs::ThreadRng);

/// rand's `thread_rng`: hands out the current thread's generator. Nothing is
/// claimed of it.
pub assume_specification[ rand::thread_rng ]() -> (rng: rand::rngs::ThreadRng);

/// Draws a number with rand's `Rng::gen_range` on the range `low..=high`.
///
/// Trusted: the number drawn lies in the range. `gen_range` panics on an
/// empty range, which `low <= high` rules out. Which number comes is up to
/// the generator.
#[verifier::external_body]
pub(crate) fn gen_range_inclusive(rng: &mut rand::rngs::ThreadRng, low: u64, high: u64) -> (r: u64)
    requires
        low <= high,
    ensures
        low <= r <= high,
{
    rng.gen_range(low..=high)
}

} // verus!
