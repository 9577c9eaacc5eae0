//! The random choices that the input generators make, drawn from `rand`.
use rand::rngs::StdRng;
use rand::seq::SliceRandom;
use rand::Rng;
use vstd::prelude::*;

verus! {

#[verifier::external_type_specification]
#[verifier::external_body]
pub struct ExStdRng(StdRng);

/// Calls `Rng::random_range` on the inclusive range `lo..=hi`. The
/// contract claims only that the value lies in the range, which the range
/// being non-empty makes possible; which value comes is left open.
#[verifier::external_body]
pub(crate) fn random_inclusive(rng: &mut StdRng, lo: usize, hi: usize) -> (r: usize)
    requires
        lo <= hi,
    ensures
        lo <= r <= hi,
{
    rng.random_range(lo..=hi)
}

/// Calls `SliceRandom::shuffle` on the elements of `v`. The contract claims
/// that the same elements come back, each as often as before; their order
/// is left open.
#[verifier::external_body]
pub(crate) fn shuffle<T>(v: &mut Vec<T>, rng: &mut StdRng)
    ensures
        final(v)@.to_multiset() == old(v)@.to_multiset(),
{
    v.as_mut_slice().shuffle(rng)
}

} // verus!
