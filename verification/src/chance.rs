//! The one source of randomness.

use vstd::prelude::*;

verus! {

/// Draws a number below `n`: calls `rand::Rng::gen_range` with the range
/// `0..n` on the generator that `rand::thread_rng` hands out. Nothing is
/// proved of the generator. The contract claims only what holds of every
/// draw, that the value lies in the range, and leaves out the empty range,
/// on which `gen_range` panics. Whatever `n` is, the generator panics if
/// the operating system hands it no entropy; no precondition can rule that
/// out.
#[verifier::external_body]
pub(crate) fn random_below(n: usize) -> (k: usize)
    requires
        n > 0,
    ensures
        k < n,
{
    rand::Rng::gen_range(&mut rand::thread_rng(), 0..n)
}

} // verus!
