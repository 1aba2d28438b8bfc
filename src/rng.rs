//! The pseudo-random generator the engines draw from.

use vstd::prelude::*;

use rand::distributions::Distribution;
use rand_xoshiro::rand_core::{RngCore, SeedableRng};
use rand_xoshiro::Xoshiro256PlusPlus;

verus! {

#[verifier::external_type_specification]
#[verifier::external_body]
pub struct ExXoshiro256PlusPlus(Xoshiro256PlusPlus);

/// Relies on `Xoshiro256PlusPlus::seed_from_u64`: a generator whose stream depends on the seed.
#[verifier::external_body]
pub(crate) fn seeded_rng(seed: u64) -> (r: Xoshiro256PlusPlus) {
    Xoshiro256PlusPlus::seed_from_u64(seed)
}

/// Relies on `Xoshiro256PlusPlus::next_u64`: the next value of the stream, any `u64`.
#[verifier::external_body]
pub(crate) fn next_draw(rng: &mut Xoshiro256PlusPlus) -> (r: u64) {
    rng.next_u64()
}

/// Relies on `rand::distributions::Uniform::<usize>::new(0, n)` and its `sample`: an index
/// drawn uniformly below `n` (`new` panics on an empty range, hence `n > 0`).
#[verifier::external_body]
pub(crate) fn uniform_below(rng: &mut Xoshiro256PlusPlus, n: usize) -> (r: usize)
    requires
        n > 0,
    ensures
        r < n,
{
    rand::distributions::Uniform::<usize>::new(0, n).sample(rng)
}

} // verus!
