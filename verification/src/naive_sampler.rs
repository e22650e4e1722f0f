//! The trivial rejection sampler: removes one uniformly chosen element at a
//! time from a working copy of the population until `k` elements are drawn.

use vstd::prelude::*;

use crate::rng::random_in_range;
use crate::sampl_interface::Sampler;

verus! {

pub struct NaiveSampler<T: Copy> {
    marker: core::marker::PhantomData<T>,
}

impl<T: Copy> Sampler<T> for NaiveSampler<T> {
    fn sample(arr: &[T], k: usize) -> (r: Option<Vec<T>>) {
        let n = arr.len();
        if k > n {
            None
        } else {
            let mut working = vstd::slice::slice_to_vec(arr);
            let mut ans: Vec<T> = Vec::new();
            let mut drawn: usize = 0;
            proof {
                broadcast use vstd::seq_lib::group_to_multiset_ensures;
                broadcast use vstd::multiset::group_multiset_axioms;

                assert forall|x: T|
                    ans@.to_multiset().add(working@.to_multiset()).count(x) == arr@.to_multiset().count(x) by {
                    assert(!ans@.contains(x));
                }
                assert(ans@.to_multiset().add(working@.to_multiset()) =~= arr@.to_multiset());
            }
            while drawn < k
                invariant
                    drawn <= k <= n,
                    working@.len() == n - drawn,
                    ans@.len() == drawn,
                    ans@.to_multiset().add(working@.to_multiset()) == arr@.to_multiset(),
                decreases k - drawn,
            {
                let ghost w0 = working@;
                let ghost a0 = ans@;
                let idx = random_in_range(0, working.len());
                let picked = working.remove(idx);
                ans.push(picked);
                drawn = drawn + 1;
                proof {
                    broadcast use vstd::seq_lib::group_to_multiset_ensures;
                    broadcast use vstd::multiset::group_multiset_axioms;

                    assert(working@.to_multiset() == w0.to_multiset().remove(picked));
                    assert(ans@.to_multiset() =~= a0.to_multiset().insert(picked));
                    assert(w0.contains(picked));
                    assert(ans@.to_multiset().add(working@.to_multiset()) =~= arr@.to_multiset());
                }
            }
            proof {
                broadcast use vstd::multiset::group_multiset_axioms;

                assert forall|x: T| ans@.to_multiset().count(x) <= arr@.to_multiset().count(x) by {
                    assert(ans@.to_multiset().count(x) <= ans@.to_multiset().add(
                        working@.to_multiset(),
                    ).count(x));
                }
            }
            Some(ans)
        }
    }
}

} // verus!
