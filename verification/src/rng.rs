//! Randomness, drawn from `rand`'s thread-local generator.

use rand::seq::SliceRandom;
use rand::Rng;
use vstd::prelude::*;

verus! {

/// Calls `rand::Rng::random_range(0..upper)` on `rand::rng()`. rand documents that
/// `random_range` panics on an empty range and otherwise returns a value inside
/// it; which value comes back is left to chance.
#[verifier::external_body]
pub(crate) fn random_index(upper: usize) -> (i: usize)
    requires
        upper > 0,
    ensures
        i < upper,
{
    rand::rng().random_range(0..upper)
}

/// Calls `rand::Rng::random::<u32>()` on `rand::rng()`: any `u32` may come back.
#[verifier::external_body]
pub(crate) fn random_u32() -> u32 {
    rand::rng().random::<u32>()
}

/// Calls `rand::seq::SliceRandom::shuffle` with `rand::rng()` on the elements of
/// `v`. Its source swaps elements in place (a Fisher-Yates shuffle), so the
/// result is a permutation of the input; which one is left to chance.
#[verifier::external_body]
pub(crate) fn shuffle<T>(v: &mut Vec<T>)
    ensures
        final(v)@.len() == old(v)@.len(),
        final(v)@.to_multiset() == old(v)@.to_multiset(),
{
    v.shuffle(&mut rand::rng())
}

} // verus!
