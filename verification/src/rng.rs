//! Source of randomness for weighted sampling.
//!
//! Sampling draws a uniformly random logical index, so the only operation
//! the engine needs from a generator is one uniform draw below a bound.

use rand::RngExt;
use vstd::prelude::*;

verus! {

/// Declaration of rand's thread-local generator handle, so that a handle
/// can be passed through the engine's sampling calls.
#[verifier::external_type_specification]
#[verifier::external_body]
pub struct ExThreadRng(rand::rngs::ThreadRng);

/// Relies on `rand::rng`: returns a handle to the calling thread's
/// generator.  Nothing is promised of the values it will produce.
#[verifier::external_body]
pub fn new_rng() -> rand::rngs::ThreadRng {
    rand::rng()
}

/// Relies on `rand::RngExt::random_range` over `0..n`: returns a uniform
/// draw in `[0, n)`.  The empty range, on which the call would panic, is
/// ruled out by the precondition.
#[verifier::external_body]
pub fn random_index(rng: &mut rand::rngs::ThreadRng, n: usize) -> (r: usize)
    requires
        n > 0,
    ensures
        r < n,
{
    rng.random_range(0..n)
}

} // verus!
