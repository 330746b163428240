//! The pseudo-random generator that drives the permuting encoders, and the
//! process-wide source that default seeds are drawn from.

use rand::{Rng, RngCore, SeedableRng};
use rand_xoshiro::Xoshiro256PlusPlus;
use vstd::prelude::*;

verus! {

/// `rand_xoshiro::Xoshiro256PlusPlus`, carried as an opaque value.
#[verifier::external_type_specification]
#[verifier::external_body]
pub struct ExXoshiro256PlusPlus(Xoshiro256PlusPlus);

/// The words of state that a generator holds.
pub uninterp spec fn xoshiro_state(rng: Xoshiro256PlusPlus) -> Seq<u64>;

/// The state that `Xoshiro256PlusPlus::from_seed` starts a generator in.
pub uninterp spec fn xoshiro_from_seed(seed: Seq<u8>) -> Seq<u64>;

/// The state that `Xoshiro256PlusPlus::seed_from_u64` starts a generator in.
pub uninterp spec fn xoshiro_from_u64(seed: u64) -> Seq<u64>;

/// What `next_u64` returns in a given state, and the state it leaves.
pub uninterp spec fn xoshiro_next(state: Seq<u64>) -> (u64, Seq<u64>);

/// What `gen_range(low..=high)` returns for machine words of `bits` bits in a
/// given state, and the state it leaves.
pub uninterp spec fn xoshiro_pick(state: Seq<u64>, low: nat, high: nat, bits: nat) -> (
    nat,
    Seq<u64>,
);

/// `SeedableRng::from_seed` of `Xoshiro256PlusPlus`: the generator's state is
/// a function of the seed alone.
#[verifier::external_body]
pub(crate) fn rng_from_seed(seed: [u8; 32]) -> (rng: Xoshiro256PlusPlus)
    ensures
        xoshiro_state(rng) == xoshiro_from_seed(seed@),
{
    Xoshiro256PlusPlus::from_seed(seed)
}

/// `SeedableRng::seed_from_u64` of `Xoshiro256PlusPlus`: the generator's
/// state is a function of the seed alone.
#[verifier::external_body]
pub(crate) fn rng_from_u64(seed: u64) -> (rng: Xoshiro256PlusPlus)
    ensures
        xoshiro_state(rng) == xoshiro_from_u64(seed),
{
    Xoshiro256PlusPlus::seed_from_u64(seed)
}

/// `RngCore::next_u64` of `Xoshiro256PlusPlus`: the word returned and the
/// state left are functions of the state before.
#[verifier::external_body]
pub(crate) fn rng_next_u64(rng: &mut Xoshiro256PlusPlus) -> (word: u64)
    ensures
        (word, xoshiro_state(*final(rng))) == xoshiro_next(xoshiro_state(*old(rng))),
{
    rng.next_u64()
}

/// `Rng::gen_range` over an inclusive range of machine words: the word
/// returned lies in the range, and it and the state left are functions of
/// the state before and of the range.
#[verifier::external_body]
pub(crate) fn rng_pick(rng: &mut Xoshiro256PlusPlus, low: usize, high: usize) -> (word: usize)
    requires
        low <= high,
    ensures
        low <= word <= high,
        (word as nat, xoshiro_state(*final(rng))) == xoshiro_pick(
            xoshiro_state(*old(rng)),
            low as nat,
            high as nat,
            usize::BITS as nat,
        ),
{
    rng.gen_range(low..=high)
}

/// `RngCore::fill_bytes` of `rand::thread_rng()` on a zeroed seed: 32 bytes
/// from the process-wide generator, of which nothing is known.
#[verifier::external_body]
pub(crate) fn random_bytes() -> (seed: [u8; 32]) {
    let mut seed = [0u8; 32];
    rand::thread_rng().fill_bytes(seed.as_mut());
    seed
}

/// `rand::random` for a 32-byte seed, of which nothing is known.
#[verifier::external_body]
pub(crate) fn random_seed() -> (seed: [u8; 32]) {
    rand::random()
}

/// `rand::random` for a 64-bit word, of which nothing is known.
#[verifier::external_body]
pub(crate) fn random_word() -> (seed: u64) {
    rand::random()
}

} // verus!
