//! Set membership filters that are addressed by a bounded integer.

pub mod bloom_filter;
pub mod lut;

pub use crate::filter::bloom_filter::{BloomFilter, BloomFilterBuilder};
pub use crate::filter::lut::{
    Counter, LUTFilter, LUTFilterBuilder, PackedLUTFilter, PackedLUTFilterBuilder,
};

use vstd::prelude::*;

verus! {

/// A counter that stood at `count`, one occurrence later, where it cannot
/// stand above `limit`.
pub open spec fn bumped(count: nat, limit: nat) -> nat {
    if count + 1 <= limit {
        count + 1
    } else {
        limit
    }
}

/// A table of counters after one occurrence of `address`: the counter at
/// `address` is bumped, and an address outside the table changes nothing.
pub open spec fn counts_after(counts: Seq<nat>, address: int, limit: nat) -> Seq<nat> {
    if 0 <= address < counts.len() {
        counts.update(address, bumped(counts[address], limit))
    } else {
        counts
    }
}

/// A table of counters after `times` occurrences of `address`.
pub open spec fn counts_after_times(
    counts: Seq<nat>,
    address: int,
    limit: nat,
    times: nat,
) -> Seq<nat>
    decreases times,
{
    if times == 0 {
        counts
    } else {
        counts_after(
            counts_after_times(counts, address, limit, (times - 1) as nat),
            address,
            limit,
        )
    }
}

/// A table of `size` counters that all stand at 0.
pub open spec fn no_counts(size: nat) -> Seq<nat> {
    Seq::new(size, |a: int| 0nat)
}

/// A fresh table that sees `times` occurrences of one address counts them
/// there, up to the limit, and counts nothing anywhere else.
pub proof fn lemma_counts_exact(size: nat, address: int, limit: nat, times: nat)
    requires
        0 <= address < size,
    ensures
        counts_after_times(no_counts(size), address, limit, times) == no_counts(size).update(
            address,
            if times <= limit {
                times
            } else {
                limit
            },
        ),
    decreases times,
{
    let fresh = no_counts(size);
    if times == 0 {
        assert(fresh =~= fresh.update(address, 0nat));
    } else {
        lemma_counts_exact(size, address, limit, (times - 1) as nat);
        let before = counts_after_times(fresh, address, limit, (times - 1) as nat);
        assert(counts_after(before, address, limit) =~= fresh.update(
            address,
            if times <= limit {
                times
            } else {
                limit
            },
        ));
    }
}

/// A basic set membership filter.
pub trait Filter: Sized {
    /// Whether the filter's state is one that its constructor and its own
    /// methods can have left.
    spec fn wf(&self) -> bool;

    /// What recording an occurrence of `address` answers.
    spec fn admits(&self, address: usize) -> bool;

    /// Whether `address` counts as a member.
    spec fn member(&self, address: usize) -> bool;

    /// Whether the filter is what `before` becomes by one occurrence of
    /// `address`.
    spec fn follows(&self, before: &Self, address: usize) -> bool;

    /// An address that is a member stays one, whatever is recorded after:
    /// a filter has no false negatives.
    proof fn lemma_members_stay(&self, before: &Self, address: usize, other: usize)
        requires
            before.wf(),
            self.follows(before, address),
            before.member(other),
        ensures
            self.member(other),
    ;

    /// Includes an item as a member.
    fn include_item(&mut self, item: &usize) -> (admitted: bool)
        requires
            old(self).wf(),
        ensures
            final(self).wf(),
            admitted == old(self).admits(*item),
            final(self).follows(old(self), *item),
    ;

    /// Checks the membership of an item.
    fn contains(&self, item: &usize) -> (found: bool)
        requires
            self.wf(),
        ensures
            found == self.member(*item),
    ;
}

/// A set membership filter that uses counters.
pub trait CountingFilter: Filter {
    /// How many occurrences of `address` the filter reports, if any.
    spec fn count(&self, address: usize) -> Option<nat>;

    /// Returns the number of times a member was included.
    fn counter(&self, item: &usize) -> (count: Option<usize>)
        requires
            self.wf(),
        ensures
            match count {
                Some(n) => self.count(*item) == Some(n as nat),
                None => self.count(*item) is None,
            },
    ;
}

/// A builder of filters.
pub trait BuildFilter {
    /// The type of the associated filter.
    type Filter: Filter;

    /// Whether a filter can be built to the builder's parameters.
    spec fn wf(&self) -> bool;

    /// Whether `filter` is as the builder makes them.
    spec fn builds(&self, filter: &Self::Filter) -> bool;

    /// Builds a new filter.
    fn build_filter(&self) -> (filter: Self::Filter)
        requires
            self.wf(),
        ensures
            filter.wf(),
            self.builds(&filter),
    ;
}

} // verus!
