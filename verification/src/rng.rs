//! Trusted access to the process random number generator.  The search
//! draws random candidate samples and trims oversized results to a
//! random subset; each draw goes through one of the wrappers below, and
//! everything built on top of them holds for every outcome of the draw.

use vstd::prelude::*;

verus! {

use crate::route::Route;

/// Relies on rand::seq::index::sample: it returns exactly `amount`
/// distinct indices drawn from 0..length, and panics when
/// amount > length.
#[verifier::external_body]
pub(crate) fn sample_indices(length: usize, amount: usize) -> (r: Vec<usize>)
    requires
        amount <= length,
    ensures
        r@.len() == amount,
        forall|i: int| 0 <= i < r@.len() ==> (#[trigger] r@[i]) < length,
        forall|i: int, j: int| 0 <= i < j < r@.len() ==> r@[i] != r@[j],
{
    rand::seq::index::sample(&mut rand::thread_rng(), length, amount).into_vec()
}

/// Relies on rand::Rng::gen_range: it returns a value of the given
/// range, and panics when the range is empty.
#[verifier::external_body]
pub(crate) fn random_index(n: usize) -> (r: usize)
    requires
        n >= 1,
    ensures
        r < n,
{
    rand::Rng::gen_range(&mut rand::thread_rng(), 0..n)
}

/// Relies on rand::seq::SliceRandom::partial_shuffle: it moves a random
/// `amount`-subset of the slice, shuffled, to the front; in all it
/// permutes the slice in place and never adds or removes an element.
#[verifier::external_body]
pub(crate) fn shuffle_prefix(routes: &mut Vec<Route>, amount: usize)
    ensures
        final(routes)@.len() == old(routes)@.len(),
        final(routes)@.to_multiset() == old(routes)@.to_multiset(),
{
    rand::seq::SliceRandom::partial_shuffle(
        routes.as_mut_slice(),
        &mut rand::thread_rng(),
        amount,
    );
}

} // verus!
