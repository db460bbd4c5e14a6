//! The draw that picks which two sets merge.

use vstd::prelude::*;
use rand::Rng;
use rand::seq::IteratorRandom;

verus! {

/// `IteratorRandom::choose_multiple_fill` on `0..k` with room for two:
/// where there are two to choose from, two different numbers below `k`.
/// Which two is left to the random source.
#[verifier::external_body]
pub(crate) fn draw_two<R: Rng>(rng: &mut R, k: usize) -> (pair: (usize, usize))
    ensures
        k >= 2 ==> pair.0 < k && pair.1 < k && pair.0 != pair.1,
{
    let mut chosen = [0usize; 2];
    (0..k).choose_multiple_fill(rng, &mut chosen);
    (chosen[0], chosen[1])
}

} // verus!
