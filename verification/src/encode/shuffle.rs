//! The shuffling encoder: a Fisher-Yates pass over the bits of a sample,
//! driven by a generator that is seeded afresh for every sample.

use crate::encode::rearrange::{
    identity, is_permutation, lemma_identity_rearranged, lemma_swapped_multiset,
    lemma_swapped_permutation, lemma_swapped_rearranged, rearranged,
};
use crate::encode::SampleEncoder;
use crate::rng::{
    random_word, rng_from_u64, rng_next_u64, xoshiro_from_u64, xoshiro_next, xoshiro_state,
};
use crate::sample::{swapped, Sample};
use vstd::prelude::*;

verus! {

/// The position that the entry at `last` changes places with, for one word
/// drawn from the generator.
pub open spec fn shuffle_target(draw: u64, last: nat) -> int {
    ((draw as usize) % ((last + 1) as usize)) as int
}

/// `items` after the passes for positions `remaining - 1` down to 0, with
/// the generator in `state`.
pub open spec fn shuffle_from<A>(items: Seq<A>, state: Seq<u64>, remaining: nat) -> Seq<A>
    decreases remaining,
{
    if remaining == 0 {
        items
    } else {
        let last = (remaining - 1) as nat;
        let (draw, next) = xoshiro_next(state);
        shuffle_from(swapped(items, last as int, shuffle_target(draw, last)), next, last)
    }
}

/// `items` as the encoder with this seed leaves them.
pub open spec fn shuffled<A>(items: Seq<A>, seed: u64) -> Seq<A> {
    shuffle_from(items, xoshiro_from_u64(seed), items.len())
}

/// An encoder that shuffles the sample bits according to a given random seed.
#[derive(Clone, Debug)]
pub struct Shuffle {
    seed: u64,
}

impl Shuffle {
    /// The seed that every pass starts its generator from.
    pub closed spec fn spec_seed(&self) -> u64 {
        self.seed
    }

    /// Creates an encoder with a seed drawn from the process-wide random
    /// source.
    pub fn new() -> (encoder: Self) {
        Self::with_seed(random_word())
    }

    /// Creates an encoder with a given random seed.
    pub fn with_seed(seed: u64) -> (encoder: Self)
        ensures
            encoder.spec_seed() == seed,
    {
        Self { seed }
    }

    /// Returns the internal random seed.
    pub fn seed(&self) -> (seed: u64)
        ensures
            seed == self.spec_seed(),
    {
        self.seed
    }
}

impl Default for Shuffle {
    fn default() -> (encoder: Self) {
        Self::new()
    }
}

impl SampleEncoder for Shuffle {
    open spec fn accepts(&self, bits: Seq<bool>, vsize: nat) -> bool {
        bits.len() > 0
    }

    open spec fn encoded_bits(&self, bits: Seq<bool>, vsize: nat) -> Seq<bool> {
        shuffled(bits, self.spec_seed())
    }

    open spec fn encoded_vsize(&self, bits: Seq<bool>, vsize: nat) -> nat {
        vsize
    }

    fn encode_inplace<L: Copy>(&self, sample: &mut Sample<L>) {
        let mut rng = rng_from_u64(self.seed);
        let n = sample.len();
        let ghost all = sample@.bits;
        let ghost goal = shuffled(all, self.spec_seed());
        let mut remaining = n;
        while remaining > 0
            invariant
                remaining <= n,
                sample@.bits.len() == n,
                sample@.vsize == old(sample)@.vsize,
                sample@.label == old(sample)@.label,
                sample.wf(),
                shuffle_from(sample@.bits, xoshiro_state(rng), remaining as nat) == goal,
            decreases remaining,
        {
            let last = remaining - 1;
            let draw = rng_next_u64(&mut rng);
            let target = (draw as usize) % (last + 1);
            sample.swap_bits(last, target);
            remaining = last;
        }
        assert(sample@ =~= crate::sample::with_raw_parts(
            goal,
            old(sample)@.vsize,
            old(sample)@.label,
        ));
    }
}

/// Shuffling the items is reading them in a shuffled order of positions, and
/// a shuffled permutation is a permutation.
pub proof fn lemma_shuffle_from_rearranges<A>(
    items: Seq<A>,
    order: Seq<int>,
    state: Seq<u64>,
    remaining: nat,
)
    requires
        is_permutation(order),
        remaining <= order.len() <= usize::MAX,
    ensures
        shuffle_from(rearranged(items, order), state, remaining) == rearranged(
            items,
            shuffle_from(order, state, remaining),
        ),
        is_permutation(shuffle_from(order, state, remaining)),
        shuffle_from(order, state, remaining).len() == order.len(),
    decreases remaining,
{
    if remaining > 0 {
        let last = (remaining - 1) as nat;
        let (draw, next) = xoshiro_next(state);
        let target = shuffle_target(draw, last);
        assert(0 <= target <= last);
        lemma_swapped_permutation(order, last as int, target);
        lemma_swapped_rearranged(items, order, last as int, target);
        lemma_shuffle_from_rearranges(items, swapped(order, last as int, target), next, last);
    }
}

/// The encoder moves every position to exactly one other and loses none:
/// the order in which it reads the positions is a permutation that depends
/// on the seed and on the number of items alone, not on the items.
pub proof fn lemma_shuffle_is_permutation<A>(items: Seq<A>, seed: u64)
    requires
        items.len() <= usize::MAX,
    ensures
        is_permutation(shuffled(identity(items.len()), seed)),
        shuffled(identity(items.len()), seed).len() == items.len(),
        shuffled(items, seed) == rearranged(items, shuffled(identity(items.len()), seed)),
{
    lemma_identity_rearranged(items);
    lemma_shuffle_from_rearranges(
        items,
        identity(items.len()),
        xoshiro_from_u64(seed),
        items.len(),
    );
}

/// The encoder neither adds an item nor loses one: as many set bits come
/// out as went in, and as many unset ones.
pub proof fn lemma_shuffle_keeps_items<A>(items: Seq<A>, state: Seq<u64>, remaining: nat)
    requires
        remaining <= items.len() <= usize::MAX,
    ensures
        shuffle_from(items, state, remaining).to_multiset() == items.to_multiset(),
        shuffle_from(items, state, remaining).len() == items.len(),
    decreases remaining,
{
    if remaining > 0 {
        let last = (remaining - 1) as nat;
        let (draw, next) = xoshiro_next(state);
        let target = shuffle_target(draw, last);
        assert(0 <= target <= last);
        lemma_swapped_multiset(items, last as int, target);
        lemma_shuffle_keeps_items(swapped(items, last as int, target), next, last);
    }
}

/// Two encoders with one seed give one result on one input.
pub proof fn lemma_shuffle_deterministic(a: Shuffle, b: Shuffle, bits: Seq<bool>, vsize: nat)
    requires
        a.spec_seed() == b.spec_seed(),
    ensures
        a.encoded_bits(bits, vsize) == b.encoded_bits(bits, vsize),
        a.encoded_vsize(bits, vsize) == b.encoded_vsize(bits, vsize),
{
}

} // verus!
