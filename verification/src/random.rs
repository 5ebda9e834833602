//! The source of chance for laying mines.

use rand::rngs::ThreadRng;
use rand::Rng;
use vstd::prelude::*;

verus! {

#[verifier::external_type_specification]
#[verifier::external_body]
pub struct ExThreadRng(ThreadRng);

/// `rand::rng`: hands out the calling thread's generator. Nothing is claimed
/// of the handle; the call ends the process where the system cannot seed the
/// generator.
pub assume_specification[ rand::rng ]() -> (rng: ThreadRng)
;

/// `Rng::random_range` over `0..bound`: draws one cell number. Claimed is
/// only that the number lies below `bound`, which the range guarantees for
/// every draw; an empty range would panic, so `bound` is positive.
#[verifier::external_body]
pub(crate) fn random_below(rng: &mut ThreadRng, bound: usize) -> (n: usize)
    requires
        bound > 0,
    ensures
        n < bound,
{
    rng.random_range(0..bound)
}

} // verus!
