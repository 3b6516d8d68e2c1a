//! The generator behind bubble placement.

use rand::{Rng, SeedableRng};
use rand_pcg::Pcg64Mcg;
use vstd::prelude::*;

verus! {

/// The 128-bit permuted congruential generator of `rand_pcg`.
#[verifier::external_type_specification]
#[verifier::external_body]
pub struct ExPcg64Mcg(Pcg64Mcg);

/// The 32-bit words a generator will hand out, the next one at position zero.
pub uninterp spec fn upcoming_words(rng: Pcg64Mcg) -> Map<nat, u32>;

/// The words handed out by the generator that was seeded with `seed`.
pub uninterp spec fn seeded_words(seed: u64) -> Map<nat, u32>;

/// `Pcg64Mcg::seed_from_u64`.
///
/// The state that the generator starts in, and so every word it hands out, is
/// a function of the seed alone.
#[verifier::external_body]
pub(crate) fn seeded(seed: u64) -> (rng: Pcg64Mcg)
    ensures
        upcoming_words(rng) == seeded_words(seed),
{
    Pcg64Mcg::seed_from_u64(seed)
}

/// `Rng::random::<u32>` on the generator.
///
/// The word handed out is the next upcoming one, and the others move up by one
/// place: the state advances once per word and nothing else enters it.
#[verifier::external_body]
pub(crate) fn next_word(rng: &mut Pcg64Mcg) -> (word: u32)
    ensures
        word == upcoming_words(*old(rng))[0],
        forall|i: nat| #[trigger]
            upcoming_words(*final(rng))[i] == upcoming_words(*old(rng))[i + 1],
{
    rng.random::<u32>()
}

} // verus!
