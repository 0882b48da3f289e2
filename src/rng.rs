//! The board's random source: `rand`'s small, seedable generator.

use rand::rngs::SmallRng;
use rand::seq::SliceRandom;
use rand::RngCore;
use rand::SeedableRng;
use vstd::prelude::*;

verus! {

#[verifier::external_type_specification]
#[verifier::external_body]
pub struct ExSmallRng(SmallRng);

/// Relies on `SeedableRng::seed_from_u64`: a generator whose stream the seed
/// alone fixes. Nothing is stated of the stream.
#[verifier::external_body]
pub(crate) fn seeded(seed: u64) -> SmallRng {
    SmallRng::seed_from_u64(seed)
}

/// Relies on `RngCore::next_u32`: the next 32-bit value of the stream, which
/// may be any value.
#[verifier::external_body]
pub(crate) fn next_u32(rng: &mut SmallRng) -> u32 {
    rng.next_u32()
}

/// Relies on `SliceRandom::shuffle`: the elements are permuted in place,
/// and a list of at most one element draws nothing from the generator.
#[verifier::external_body]
pub(crate) fn shuffle(v: &mut Vec<usize>, rng: &mut SmallRng)
    ensures
        final(v)@.to_multiset() == old(v)@.to_multiset(),
        old(v)@.len() <= 1 ==> *final(rng) == *old(rng),
{
    v.shuffle(rng)
}

} // verus!
