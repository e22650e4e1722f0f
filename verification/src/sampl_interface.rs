//! The sampler capability: a uniform interface implemented by every
//! algorithm variant, so the variants can be used interchangeably.

use vstd::prelude::*;

verus! {

/// Draws a random sample of exactly `k` elements, without replacement, from
/// the population `arr`.
pub trait Sampler<T: Copy> {
    /// Returns a sample of exactly `k` elements when `k` is at most the
    /// population size, and no result otherwise.  The sample is drawn from
    /// the population without replacement: no element occurs in it more
    /// often than in the population.
    fn sample(arr: &[T], k: usize) -> (r: Option<Vec<T>>)
        ensures
            r is Some <==> k <= arr@.len(),
            r matches Some(v) ==> v@.len() == k,
            r matches Some(v) ==> v@.to_multiset().subset_of(arr@.to_multiset()),
    ;
}

} // verus!
