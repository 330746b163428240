//! The permuting encoder: every position but the last changes places with
//! one drawn from those not yet settled, by a generator that is seeded
//! afresh for every sample.

use crate::encode::rearrange::{
    identity, is_permutation, lemma_identity_rearranged, lemma_swapped_permutation,
    lemma_swapped_multiset, lemma_swapped_rearranged, rearranged,
};
use crate::encode::SampleEncoder;
use crate::rng::{
    random_bytes, rng_from_seed, rng_pick, xoshiro_from_seed, xoshiro_pick, xoshiro_state,
};
use crate::sample::{swapped, Sample};
use vstd::prelude::*;

verus! {

/// The position that the entry at `at` changes places with, for one draw
/// from `at..=last`.
pub open spec fn permute_target(draw: nat, at: nat, last: nat) -> int {
    if at <= draw <= last {
        draw as int
    } else {
        at as int
    }
}

/// `items` after the passes for positions `at` up to the last but one, with
/// the generator in `state`.
pub open spec fn permute_from<A>(items: Seq<A>, state: Seq<u64>, at: nat) -> Seq<A>
    decreases items.len() - at,
{
    if at + 1 >= items.len() {
        items
    } else {
        let last = (items.len() - 1) as nat;
        let (draw, next) = xoshiro_pick(state, at, last, usize::BITS as nat);
        permute_from(swapped(items, at as int, permute_target(draw, at, last)), next, at + 1)
    }
}

/// `items` as the encoder with this seed leaves them.
pub open spec fn permuted<A>(items: Seq<A>, seed: Seq<u8>) -> Seq<A> {
    permute_from(items, xoshiro_from_seed(seed), 0)
}

/// An encoder that permutes the sample bits according to a given random seed.
#[derive(Clone, Debug)]
pub struct Permute {
    seed: [u8; 32],
}

impl Permute {
    /// The seed that every pass starts its generator from.
    pub closed spec fn spec_seed(&self) -> Seq<u8> {
        self.seed@
    }

    /// Creates an encoder with a seed drawn from the process-wide random
    /// source.
    pub fn new() -> (encoder: Self) {
        Self::with_seed(random_bytes())
    }

    /// Creates an encoder with a given `seed` as the permutation seed.
    pub fn with_seed(seed: [u8; 32]) -> (encoder: Self)
        ensures
            encoder.spec_seed() == seed@,
    {
        Self { seed }
    }

    /// Returns the internal permutation seed.
    pub fn seed(&self) -> (seed: &[u8; 32])
        ensures
            seed@ == self.spec_seed(),
    {
        &self.seed
    }
}

impl Default for Permute {
    fn default() -> (encoder: Self) {
        Self::new()
    }
}

impl SampleEncoder for Permute {
    open spec fn accepts(&self, bits: Seq<bool>, vsize: nat) -> bool {
        bits.len() > 0
    }

    open spec fn encoded_bits(&self, bits: Seq<bool>, vsize: nat) -> Seq<bool> {
        permuted(bits, self.spec_seed())
    }

    open spec fn encoded_vsize(&self, bits: Seq<bool>, vsize: nat) -> nat {
        vsize
    }

    fn encode_inplace<L: Copy>(&self, sample: &mut Sample<L>) {
        let mut rng = rng_from_seed(self.seed);
        let last = sample.len() - 1;
        let ghost goal = permuted(sample@.bits, self.spec_seed());
        let mut at: usize = 0;
        while at < last
            invariant
                at <= last,
                sample@.bits.len() == last + 1,
                sample@.vsize == old(sample)@.vsize,
                sample@.label == old(sample)@.label,
                sample.wf(),
                permute_from(sample@.bits, xoshiro_state(rng), at as nat) == goal,
            decreases last - at,
        {
            let target = rng_pick(&mut rng, at, last);
            sample.swap_bits(at, target);
            at += 1;
        }
        assert(sample@ =~= crate::sample::with_raw_parts(
            goal,
            old(sample)@.vsize,
            old(sample)@.label,
        ));
    }
}

/// Permuting the items is reading them in a permuted order of positions, and
/// a permuted permutation is a permutation.
pub proof fn lemma_permute_from_rearranges<A>(
    items: Seq<A>,
    order: Seq<int>,
    state: Seq<u64>,
    at: nat,
)
    requires
        is_permutation(order),
    ensures
        permute_from(rearranged(items, order), state, at) == rearranged(
            items,
            permute_from(order, state, at),
        ),
        is_permutation(permute_from(order, state, at)),
        permute_from(order, state, at).len() == order.len(),
    decreases order.len() - at,
{
    if at + 1 < order.len() {
        let last = (order.len() - 1) as nat;
        let (draw, next) = xoshiro_pick(state, at, last, usize::BITS as nat);
        let target = permute_target(draw, at, last);
        lemma_swapped_permutation(order, at as int, target);
        lemma_swapped_rearranged(items, order, at as int, target);
        lemma_permute_from_rearranges(items, swapped(order, at as int, target), next, at + 1);
    }
}

/// The encoder moves every position to exactly one other and loses none:
/// the order in which it reads the positions is a permutation that depends
/// on the seed and on the number of items alone, not on the items.
pub proof fn lemma_permute_is_permutation<A>(items: Seq<A>, seed: Seq<u8>)
    ensures
        is_permutation(permuted(identity(items.len()), seed)),
        permuted(identity(items.len()), seed).len() == items.len(),
        permuted(items, seed) == rearranged(items, permuted(identity(items.len()), seed)),
{
    lemma_identity_rearranged(items);
    lemma_permute_from_rearranges(items, identity(items.len()), xoshiro_from_seed(seed), 0);
}

/// The encoder neither adds an item nor loses one: as many set bits come
/// out as went in, and as many unset ones.
pub proof fn lemma_permute_keeps_items<A>(items: Seq<A>, state: Seq<u64>, at: nat)
    ensures
        permute_from(items, state, at).to_multiset() == items.to_multiset(),
        permute_from(items, state, at).len() == items.len(),
    decreases items.len() - at,
{
    if at + 1 < items.len() {
        let last = (items.len() - 1) as nat;
        let (draw, next) = xoshiro_pick(state, at, last, usize::BITS as nat);
        let target = permute_target(draw, at, last);
        lemma_swapped_multiset(items, at as int, target);
        lemma_permute_keeps_items(swapped(items, at as int, target), next, at + 1);
    }
}

/// Two encoders with one seed give one result on one input.
pub proof fn lemma_permute_deterministic(a: Permute, b: Permute, bits: Seq<bool>, vsize: nat)
    requires
        a.spec_seed() == b.spec_seed(),
    ensures
        a.encoded_bits(bits, vsize) == b.encoded_bits(bits, vsize),
        a.encoded_vsize(bits, vsize) == b.encoded_vsize(bits, vsize),
{
}

} // verus!
