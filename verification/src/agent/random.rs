//! The two draws that the library takes from `rand`.

use vstd::prelude::*;
use rand::seq::SliceRandom;
use rand::Rng;

verus! {

/// A uniform draw from `0..bound`, by `Rng::gen_range` on `rand`'s
/// thread-local generator. All that is claimed of the draw is that it lies
/// in the range. The empty range, on which `gen_range` panics, is left out.
#[verifier::external_body]
pub(crate) fn random_below(bound: u64) -> (r: u64)
    requires
        bound > 0,
    ensures
        r < bound,
{
    rand::thread_rng().gen_range(0..bound)
}

/// Shuffles `candidates` in place, by `SliceRandom::shuffle` with `rand`'s
/// thread-local generator. The shuffle only swaps entries, so all that is
/// claimed is that the entries are the same, each as often as before.
#[verifier::external_body]
pub(crate) fn shuffle(candidates: &mut Vec<(usize, u64)>)
    ensures
        final(candidates)@.to_multiset() == old(candidates)@.to_multiset(),
{
    candidates.shuffle(&mut rand::thread_rng());
}

} // verus!
