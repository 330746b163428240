//! Filters over counting Bloom filters: every address is hashed to a few
//! counters of a shared table, so that counts can come out too high and
//! never too low.

use crate::filter::{bumped, BuildFilter, CountingFilter, Filter};
use bloom::{CountingBloomFilter, ASMS};
use std::collections::hash_map::RandomState;
use vstd::arithmetic::power2::pow2;
use vstd::prelude::*;

verus! {

/// `bloom::CountingBloomFilter`, carried as an opaque value.
#[verifier::external_type_specification]
#[verifier::external_body]
#[verifier::reject_recursive_types(R)]
#[verifier::reject_recursive_types(S)]
pub struct ExCountingBloomFilter<R, S>(CountingBloomFilter<R, S>);

/// The count that a table reports for every address: the lowest of the
/// counters that the address is hashed to.
pub uninterp spec fn bloom_estimates(table: CountingBloomFilter<RandomState, RandomState>) -> Map<
    usize,
    nat,
>;

/// The number of counters that a table was made with.
pub uninterp spec fn bloom_entries(table: CountingBloomFilter<RandomState, RandomState>) -> nat;

/// The highest number that a counter of a table can stand at.
pub uninterp spec fn bloom_limit(table: CountingBloomFilter<RandomState, RandomState>) -> nat;

/// `Clone::clone` of `std::hash::RandomState`: a hash builder, of which
/// nothing is claimed.
pub assume_specification[ <std::hash::RandomState as std::clone::Clone>::clone ](
    state: &std::hash::RandomState,
) -> (copy: std::hash::RandomState)
;

/// Whether a table of `num_entries` counters of `bits_per_entry` bits can be
/// made and addressed.
pub open spec fn table_fits(num_entries: nat, bits_per_entry: nat) -> bool {
    &&& num_entries > 0
    &&& 0 < bits_per_entry < 32
    &&& bits_per_entry * num_entries <= usize::MAX
}

/// `CountingBloomFilter::with_size_and_hashers`: a table of `num_entries`
/// counters of `bits_per_entry` bits that all stand at 0, so that every
/// address counts 0, or as much as a count can hold where no hash is taken
/// at all.
#[verifier::external_body]
pub(crate) fn bloom_with_size(
    num_entries: usize,
    bits_per_entry: usize,
    num_hashes: u32,
    hasher_one: RandomState,
    hasher_two: RandomState,
) -> (table: CountingBloomFilter<RandomState, RandomState>)
    requires
        table_fits(num_entries as nat, bits_per_entry as nat),
    ensures
        bloom_entries(table) == num_entries,
        bloom_limit(table) == pow2(bits_per_entry as nat) - 1,
        forall|address: usize|
            bloom_estimates(table).contains_key(address) && #[trigger] bloom_estimates(
                table,
            )[address] == if num_hashes == 0 {
                u32::MAX as nat
            } else {
                0nat
            },
{
    CountingBloomFilter::with_size_and_hashers(
        num_entries,
        bits_per_entry,
        num_hashes,
        hasher_one,
        hasher_two,
    )
}

/// `ASMS::insert` of `CountingBloomFilter`: tells whether the address
/// counted above 0 before; afterwards it counts at least one more, up to
/// the limit of the counters, and no address counts less than before.
#[verifier::external_body]
pub(crate) fn bloom_insert(
    table: &mut CountingBloomFilter<RandomState, RandomState>,
    address: &usize,
) -> (present: bool)
    requires
        bloom_entries(*old(table)) > 0,
    ensures
        present == (bloom_estimates(*old(table))[*address] > 0),
        bloom_entries(*final(table)) == bloom_entries(*old(table)),
        bloom_limit(*final(table)) == bloom_limit(*old(table)),
        bloom_estimates(*final(table))[*address] >= bumped(
            bloom_estimates(*old(table))[*address],
            bloom_limit(*old(table)),
        ),
        forall|other: usize|
            bloom_estimates(*final(table)).contains_key(other) && #[trigger] bloom_estimates(
                *final(table),
            )[other] >= bloom_estimates(*old(table))[other],
{
    table.insert(address)
}

/// `CountingBloomFilter::estimate_count`: the count that the table reports
/// for the address.
#[verifier::external_body]
pub(crate) fn bloom_estimate(
    table: &CountingBloomFilter<RandomState, RandomState>,
    address: &usize,
) -> (count: u32)
    requires
        bloom_entries(*table) > 0,
    ensures
        count == bloom_estimates(*table)[*address],
{
    table.estimate_count(address)
}

/// A Filter structure based on Bloom filters.
pub struct BloomFilter {
    threshold: usize,
    bloom: CountingBloomFilter<RandomState, RandomState>,
}

impl BloomFilter {
    /// The count that a member must exceed.
    pub closed spec fn threshold(&self) -> nat {
        self.threshold as nat
    }

    /// The count that the filter reports for every address.
    pub closed spec fn estimates(&self) -> Map<usize, nat> {
        bloom_estimates(self.bloom)
    }

    /// The highest number that a counter can stand at.
    pub closed spec fn limit(&self) -> nat {
        bloom_limit(self.bloom)
    }

    /// The number of counters that all addresses share.
    pub closed spec fn entries(&self) -> nat {
        bloom_entries(self.bloom)
    }

    /// Creates a filter over `num_entries` counters of `count_size` bits, to
    /// which every address is hashed `num_hashes` times, and in which an
    /// item is a member once it counts more than `threshold`. Both
    /// `hasher_one` and `hasher_two` must be distinct hash functions.
    pub fn with_size_and_hashers(
        count_size: usize,
        threshold: usize,
        num_entries: usize,
        num_hashes: u32,
        hasher_one: RandomState,
        hasher_two: RandomState,
    ) -> (filter: Self)
        requires
            table_fits(num_entries as nat, count_size as nat),
        ensures
            filter.wf(),
            filter.threshold() == threshold,
            filter.entries() == num_entries,
            filter.limit() == pow2(count_size as nat) - 1,
            forall|address: usize|
                #[trigger] filter.estimates()[address] == if num_hashes == 0 {
                    u32::MAX as nat
                } else {
                    0nat
                },
    {
        let bloom = bloom_with_size(num_entries, count_size, num_hashes, hasher_one, hasher_two);
        Self { threshold, bloom }
    }
}

impl Filter for BloomFilter {
    open spec fn wf(&self) -> bool {
        self.entries() > 0
    }

    open spec fn admits(&self, address: usize) -> bool {
        true
    }

    open spec fn member(&self, address: usize) -> bool {
        self.estimates()[address] > self.threshold()
    }

    open spec fn follows(&self, before: &Self, address: usize) -> bool {
        &&& self.threshold() == before.threshold()
        &&& self.entries() == before.entries()
        &&& self.limit() == before.limit()
        &&& self.estimates()[address] >= bumped(before.estimates()[address], before.limit())
        &&& forall|other: usize|
            #[trigger] self.estimates()[other] >= before.estimates()[other]
    }

    proof fn lemma_members_stay(&self, before: &Self, address: usize, other: usize) {
    }

    fn include_item(&mut self, item: &usize) -> (admitted: bool) {
        let _ = bloom_insert(&mut self.bloom, item);
        true
    }

    fn contains(&self, item: &usize) -> (found: bool) {
        bloom_estimate(&self.bloom, item) as usize > self.threshold
    }
}

impl CountingFilter for BloomFilter {
    open spec fn count(&self, address: usize) -> Option<nat> {
        Some(self.estimates()[address])
    }

    fn counter(&self, item: &usize) -> (count: Option<usize>) {
        Some(bloom_estimate(&self.bloom, item) as usize)
    }
}

/// A builder for [`BloomFilter`].
#[derive(Clone, Debug)]
pub struct BloomFilterBuilder {
    count_size: usize,
    threshold: usize,
    num_entries: usize,
    num_hashes: u32,
    hasher_one: RandomState,
    hasher_two: RandomState,
}

impl BloomFilterBuilder {
    /// The number of bits of a counter.
    pub closed spec fn count_size(&self) -> nat {
        self.count_size as nat
    }

    /// The count that a member must exceed.
    pub closed spec fn threshold(&self) -> nat {
        self.threshold as nat
    }

    /// The number of counters of every filter.
    pub closed spec fn num_entries(&self) -> nat {
        self.num_entries as nat
    }

    /// How many times an address is hashed.
    pub closed spec fn num_hashes(&self) -> nat {
        self.num_hashes as nat
    }

    /// A builder of filters with these parameters, which all hash as
    /// `hasher_one` and `hasher_two` do.
    pub fn with_size_and_hashers(
        count_size: usize,
        threshold: usize,
        num_entries: usize,
        num_hashes: u32,
        hasher_one: RandomState,
        hasher_two: RandomState,
    ) -> (builder: Self)
        ensures
            builder.count_size() == count_size,
            builder.threshold() == threshold,
            builder.num_entries() == num_entries,
            builder.num_hashes() == num_hashes,
    {
        Self { count_size, threshold, num_entries, num_hashes, hasher_one, hasher_two }
    }
}

impl BuildFilter for BloomFilterBuilder {
    type Filter = BloomFilter;

    open spec fn wf(&self) -> bool {
        table_fits(self.num_entries(), self.count_size())
    }

    open spec fn builds(&self, filter: &Self::Filter) -> bool {
        &&& filter.threshold() == self.threshold()
        &&& filter.entries() == self.num_entries()
        &&& filter.limit() == pow2(self.count_size()) - 1
        &&& forall|address: usize|
            #[trigger] filter.estimates()[address] == if self.num_hashes() == 0 {
                u32::MAX as nat
            } else {
                0nat
            }
    }

    fn build_filter(&self) -> (filter: Self::Filter) {
        BloomFilter::with_size_and_hashers(
            self.count_size,
            self.threshold,
            self.num_entries,
            self.num_hashes,
            self.hasher_one.clone(),
            self.hasher_two.clone(),
        )
    }
}

} // verus!
