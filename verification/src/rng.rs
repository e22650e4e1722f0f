//! Randomness sources.
//!
//! Every random draw the samplers make goes through one of these wrappers
//! over the `rand` crate.  Nothing beyond the stated range can be promised
//! of a random value, so the algorithms are specified and verified for every
//! outcome the wrappers can hand back.

use vstd::prelude::*;

verus! {

/// Relies on `rand::Rng::gen_range` on `rand::thread_rng()`: returns a
/// uniformly distributed value in `[lo, hi)`; it panics only on an empty
/// range, which the precondition excludes.
#[verifier::external_body]
pub(crate) fn random_in_range(lo: usize, hi: usize) -> (r: usize)
    requires
        lo < hi,
    ensures
        lo <= r < hi,
{
    rand::Rng::gen_range(&mut rand::thread_rng(), lo..hi)
}

/// Relies on `rand::random`: one independent draw of a full-range `u64`.
/// Nothing is promised of the value.
#[verifier::external_body]
pub(crate) fn random_u64() -> u64 {
    rand::random::<u64>()
}

} // verus!
