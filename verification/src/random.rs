//! Pseudo-random choices.

use rand::distributions::{Distribution, WeightedIndex};
use rand::rngs::SmallRng;
use rand::SeedableRng;
use vstd::prelude::*;

verus! {

/// `rand::rngs::SmallRng`, a small and fast generator of pseudo-random numbers. Nothing is known of
/// what is inside.
#[verifier::external_type_specification]
#[verifier::external_body]
pub struct ExSmallRng(SmallRng);

/// The sum of the weights.
pub open spec fn weight(weights: Seq<u8>) -> nat
    decreases weights.len(),
{
    if weights.len() == 0 {
        0
    } else {
        weight(weights.drop_last()) + weights.last() as nat
    }
}

/// Calls `SmallRng::seed_from_u64`. Nothing is claimed of the numbers that the generator goes on to
/// produce: they depend on the platform.
#[verifier::external_body]
pub(crate) fn seed_rng(seed: u64) -> SmallRng {
    SmallRng::seed_from_u64(seed)
}

/// Calls `WeightedIndex::new` and `sample`, which pick a position with a likelihood in proportion
/// to its weight. Claimed is that the position exists and does not have the weight zero; which one
/// it is depends on chance.
#[verifier::external_body]
pub(crate) fn sample_weighted(rng: &mut SmallRng, weights: &[u8]) -> (position: usize)
    requires
        0 < weight(weights@) <= u8::MAX,
    ensures
        position < weights@.len(),
        weights@[position as int] > 0,
{
    WeightedIndex::new(weights).unwrap().sample(rng)
}

/// The generator is one that was made for the seed.
pub closed spec fn is_seeded(rng: SmallRng, seed: u64) -> bool {
    call_ensures(seed_rng, (seed,), rng)
}

/// The position was drawn by the generator with the weights.
pub closed spec fn is_drawn(rng: SmallRng, weights: Seq<u8>, position: usize) -> bool {
    exists|asked: &mut SmallRng, given: &[u8]| #[trigger]
        call_ensures(sample_weighted, (asked, given), position) && *asked == rng && given@ == weights
}

/// Make a generator for a seed.
pub(crate) fn seeded_rng(seed: u64) -> (rng: SmallRng)
    ensures
        is_seeded(rng, seed),
{
    seed_rng(seed)
}

/// Draw a position with a likelihood in proportion to its weight.
pub(crate) fn draw(rng: &mut SmallRng, weights: &[u8]) -> (position: usize)
    requires
        0 < weight(weights@) <= u8::MAX,
    ensures
        position < weights@.len(),
        weights@[position as int] > 0,
        is_drawn(*old(rng), weights@, position),
{
    sample_weighted(rng, weights)
}

} // verus!
