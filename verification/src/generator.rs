//! The seeded generator of the rand crate and the two calls that the engine
//! makes into it. What this file states of them is taken on trust.

use rand::rngs::StdRng;
use rand::seq::SliceRandom;
use rand::SeedableRng;
use vstd::prelude::*;

verus! {

/// `rand::rngs::StdRng`, the seeded pseudo-random generator that every puzzle
/// owns. Its state cannot be looked into here: two generators are equal when
/// they are in the same state, and so will yield the same numbers.
#[verifier::external_type_specification]
#[verifier::external_body]
pub struct ExStdRng(StdRng);

/// The generator that `StdRng::seed_from_u64` builds from `seed`.
pub uninterp spec fn seeded(seed: u64) -> StdRng;

/// What `SliceRandom::shuffle` leaves behind when it runs on `items` with the
/// generator `rng`: the advanced generator and the reordered items.
pub uninterp spec fn shuffle_outcome(rng: StdRng, items: Seq<u8>) -> (StdRng, Seq<u8>);

/// Calls `StdRng::seed_from_u64`. Trusted, not proved: the generator that
/// comes back is determined by the seed alone. The seed is expanded by fixed
/// arithmetic, and rand asks of its generators the same output for the same
/// seed on all runs and architectures.
#[verifier::external_body]
pub(crate) fn seed_generator(seed: u64) -> (rng: StdRng)
    ensures
        rng == seeded(seed),
{
    StdRng::seed_from_u64(seed)
}

/// Calls `SliceRandom::shuffle` on `items` with `rng`. Trusted, not proved:
/// the state of the generator and the items before the call determine both
/// after it, and the items after it are the items before it in some order,
/// each as often as before. The shuffle only swaps pairs of items, at
/// positions that it draws from the generator.
#[verifier::external_body]
pub(crate) fn shuffle(rng: &mut StdRng, items: &mut Vec<u8>)
    ensures
        (*final(rng), final(items)@) == shuffle_outcome(*old(rng), old(items)@),
        final(items)@.to_multiset() == old(items)@.to_multiset(),
{
    items.shuffle(rng);
}

} // verus!
