//! The one source of randomness.

use rand::Rng;
use vstd::prelude::*;

verus! {

/// A number below `bound`, from `rand`'s `Rng::gen_range` on the thread-local
/// generator with the range `0..bound`.
///
/// `gen_range` panics on an empty range, so `bound` must be positive; what it
/// returns lies in the range. Nothing else is known of the number.
#[verifier::external_body]
pub(crate) fn random_below(bound: u64) -> (r: u64)
    requires
        bound > 0,
    ensures
        r < bound,
{
    rand::thread_rng().gen_range(0..bound)
}

} // verus!
