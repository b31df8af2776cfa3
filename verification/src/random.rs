//! What the library leaves to chance.

use vstd::prelude::*;
use rand::Rng;
use rand::seq::SliceRandom;

verus! {

/// `SliceRandom::shuffle` of rand, with the generator of the calling
/// thread: it reorders the items in place by swapping them, so the same
/// items are there afterwards, each as often as before. Which order
/// results is left open.
#[verifier::external_body]
pub(crate) fn shuffle<T>(items: &mut Vec<T>)
    ensures
        final(items)@.to_multiset() == old(items)@.to_multiset(),
{
    items.shuffle(&mut rand::rng());
}

/// `Rng::random_range` of rand on the range from 0 up to `bound`, with the
/// generator of the calling thread: some number below `bound`. The call
/// panics on an empty range, so `bound` is at least 1.
#[verifier::external_body]
pub(crate) fn random_below(bound: usize) -> (r: usize)
    requires
        bound > 0,
    ensures
        r < bound,
{
    rand::rng().random_range(0..bound)
}

} // verus!
