//! The one source of chance used by the engines and AIs.

use rand::rngs::StdRng;
use rand::seq::SliceRandom;
use rand::{Rng, SeedableRng};
use vstd::prelude::*;

verus! {

/// Uniform draw from `0..n` on the thread-local generator of the `rand`
/// crate (`rand::thread_rng().gen_range(0..n)`). The contract claims only
/// that the draw lies in range; which value comes out is left to chance.
#[verifier::external_body]
pub(crate) fn random_below(n: usize) -> (r: usize)
    requires
        n > 0,
    ensures
        r < n,
{
    rand::thread_rng().gen_range(0..n)
}

/// Shuffles `v` in place with `SliceRandom::shuffle` of the `rand` crate on
/// the thread-local generator. The contract claims only that the result is
/// a permutation of the input; the order is left to chance.
#[verifier::external_body]
pub(crate) fn shuffle<T>(v: &mut Vec<T>)
    ensures
        final(v)@.to_multiset() == old(v)@.to_multiset(),
{
    v.shuffle(&mut rand::thread_rng());
}

/// The seedable generator of the `rand` crate, carried through as is.
#[verifier::external_type_specification]
#[verifier::external_body]
pub struct ExStdRng(rand::rngs::StdRng);

/// `StdRng::seed_from_u64` of the `rand` crate: a generator whose whole
/// stream is fixed by `seed`. Nothing is claimed of that stream.
#[verifier::external_body]
pub(crate) fn seeded_rng(seed: u64) -> (r: StdRng) {
    StdRng::seed_from_u64(seed)
}

/// Uniform draw from `0..n` on `rng` (`Rng::gen_range` of the `rand`
/// crate). The contract claims only that the draw lies in range.
#[verifier::external_body]
pub(crate) fn random_below_in(rng: &mut StdRng, n: usize) -> (r: usize)
    requires
        n > 0,
    ensures
        r < n,
{
    rng.gen_range(0..n)
}

/// Shuffles `v` in place on `rng` with `SliceRandom::shuffle` of the `rand`
/// crate. The contract claims only that the result is a permutation of the
/// input.
#[verifier::external_body]
pub(crate) fn shuffle_in<T>(v: &mut Vec<T>, rng: &mut StdRng)
    ensures
        final(v)@.to_multiset() == old(v)@.to_multiset(),
{
    v.shuffle(rng);
}

/// `StdRng::from_entropy` of the `rand` crate: a generator seeded from the
/// system's randomness. Nothing is claimed of its stream.
#[verifier::external_body]
pub(crate) fn fresh_rng() -> (r: StdRng) {
    StdRng::from_entropy()
}

} // verus!
