//! Filters over dense lookup tables: one counter for every address, held in
//! a vector of integers or packed into a bit buffer.

use crate::bits::{bits_of, max_bits, raw_load, raw_repeat, raw_store, Bits};
use crate::filter::{
    counts_after, counts_after_times, lemma_counts_exact, no_counts, BuildFilter, CountingFilter,
    Filter,
};
use crate::sample::lemma_chunk_bounds;
use crate::util::raw_index;
pub use crate::util::Counter;
use crate::word::{
    lemma_low_bits_round_trip, lemma_value_of_bound, lemma_value_of_zeros, low_bits,
    thermometer_word, value_of,
};
use vstd::arithmetic::power2::{lemma_pow2_pos, pow2};
use vstd::bits::{lemma_usize_pow2_no_overflow, lemma_usize_shl_is_mul};
use vstd::prelude::*;

verus! {

/// The word `2^exponent`.
pub fn power_of_two(exponent: usize) -> (power: usize)
    requires
        exponent < usize::BITS,
    ensures
        power == pow2(exponent as nat),
{
    proof {
        lemma_usize_pow2_no_overflow(exponent as nat);
        lemma_usize_shl_is_mul(1, exponent);
    }
    1usize << exponent
}

/// A Filter structure based on dense, integer-aligned lookup tables (LUTs).
#[derive(Clone, Debug, Eq, PartialEq, Hash)]
pub struct LUTFilter<C: Counter = u8> {
    addr_size: usize,
    threshold: C,
    lut: Vec<C>,
}

impl<C: Counter> LUTFilter<C> {
    /// The number of bits of an address.
    pub closed spec fn addr_size(&self) -> nat {
        self.addr_size as nat
    }

    /// The count that a member must exceed.
    pub closed spec fn threshold(&self) -> nat {
        self.threshold.count()
    }

    /// The counters, by address.
    pub closed spec fn counts(&self) -> Seq<nat> {
        self.lut@.map_values(|c: C| c.count())
    }

    /// No counter stands above the limit of its type.
    pub proof fn lemma_counts_bounded(&self, address: int)
        requires
            0 <= address < self.counts().len(),
        ensures
            self.counts()[address] <= C::limit(),
    {
        self.lut@[address].lemma_count_bounded();
    }

    /// Creates a filter for addresses of `addr_size` bits, in which an item
    /// is a member once it has been seen more than `threshold` times.
    pub fn new(addr_size: usize, threshold: C) -> (filter: Self)
        requires
            addr_size < usize::BITS,
        ensures
            filter.wf(),
            filter.addr_size() == addr_size,
            filter.threshold() == threshold.count(),
            filter.counts() == no_counts(pow2(addr_size as nat)),
    {
        let size = power_of_two(addr_size);
        let mut lut: Vec<C> = Vec::new();
        let mut i: usize = 0;
        while i < size
            invariant
                i <= size,
                lut.len() == i,
                forall|a: int| 0 <= a < i ==> (#[trigger] lut[a]).count() == 0,
            decreases size - i,
        {
            lut.push(C::zero());
            i += 1;
        }
        let filter = Self { addr_size, threshold, lut };
        assert(filter.counts() =~= no_counts(pow2(addr_size as nat)));
        filter
    }
}

impl<C: Counter> Filter for LUTFilter<C> {
    open spec fn wf(&self) -> bool {
        self.counts().len() == pow2(self.addr_size())
    }

    open spec fn admits(&self, address: usize) -> bool {
        address < self.counts().len()
    }

    open spec fn member(&self, address: usize) -> bool {
        address < self.counts().len() && self.counts()[address as int] > self.threshold()
    }

    open spec fn follows(&self, before: &Self, address: usize) -> bool {
        &&& self.addr_size() == before.addr_size()
        &&& self.threshold() == before.threshold()
        &&& self.counts() == counts_after(before.counts(), address as int, C::limit())
    }

    proof fn lemma_members_stay(&self, before: &Self, address: usize, other: usize) {
        before.lemma_counts_bounded(other as int);
    }

    fn include_item(&mut self, item: &usize) -> (admitted: bool) {
        let index = raw_index(*item);
        if index < self.lut.len() {
            let count = self.lut[index];
            proof {
                count.lemma_count_bounded();
            }
            self.lut.set(index, count.saturating_succ());
            assert(self.counts() =~= counts_after(old(self).counts(), index as int, C::limit()));
            true
        } else {
            false
        }
    }

    fn contains(&self, item: &usize) -> (found: bool) {
        let index = raw_index(*item);
        if index < self.lut.len() {
            self.lut[index].exceeds(self.threshold)
        } else {
            false
        }
    }
}

impl<C: Counter> CountingFilter for LUTFilter<C> {
    open spec fn count(&self, address: usize) -> Option<nat> {
        if address < self.counts().len() {
            Some(self.counts()[address as int])
        } else {
            None
        }
    }

    fn counter(&self, item: &usize) -> (count: Option<usize>) {
        let index = raw_index(*item);
        if index < self.lut.len() {
            Some(self.lut[index].into_usize())
        } else {
            None
        }
    }
}

/// A filter that has seen one address again and again holds the counters
/// that so many occurrences leave.
pub proof fn lemma_lut_filter_history<C: Counter>(states: Seq<LUTFilter<C>>, address: usize)
    requires
        states.len() >= 1,
        forall|i: int|
            0 <= i < states.len() - 1 ==> (#[trigger] states[i + 1]).follows(&states[i], address),
    ensures
        states.last().addr_size() == states[0].addr_size(),
        states.last().threshold() == states[0].threshold(),
        states.last().counts() == counts_after_times(
            states[0].counts(),
            address as int,
            C::limit(),
            (states.len() - 1) as nat,
        ),
    decreases states.len(),
{
    if states.len() > 1 {
        let front = states.drop_last();
        assert forall|i: int| 0 <= i < front.len() - 1 implies (#[trigger] front[i + 1]).follows(
            &front[i],
            address,
        ) by {
            assert(states[i + 1].follows(&states[i], address));
        }
        lemma_lut_filter_history(front, address);
        assert(states[states.len() - 2 + 1].follows(&states[states.len() - 2], address));
    }
}

/// A fresh filter that sees one address `n` times and no other counts `n`
/// for it, up to the limit of its counters, and 0 for every other; and once
/// it has seen the address one more time than its threshold, where the
/// counters reach so far, the address is a member and no other is.
pub proof fn lemma_lut_filter_exact<C: Counter>(states: Seq<LUTFilter<C>>, address: usize)
    requires
        states.len() >= 1,
        states[0].counts() == no_counts(pow2(states[0].addr_size())),
        address < pow2(states[0].addr_size()),
        forall|i: int|
            0 <= i < states.len() - 1 ==> (#[trigger] states[i + 1]).follows(&states[i], address),
    ensures
        states.last().count(address) == Some(
            if states.len() - 1 <= C::limit() {
                (states.len() - 1) as nat
            } else {
                C::limit()
            },
        ),
        forall|other: usize|
            other != address && other < pow2(states[0].addr_size()) ==> #[trigger] states.last().count(
                other,
            ) == Some(0nat),
        states.len() - 1 == states[0].threshold() + 1 && states[0].threshold() < C::limit()
            ==> states.last().member(address) && forall|other: usize|
            other != address ==> !#[trigger] states.last().member(other),
{
    lemma_lut_filter_history(states, address);
    lemma_counts_exact(
        pow2(states[0].addr_size()),
        address as int,
        C::limit(),
        (states.len() - 1) as nat,
    );
}

/// A builder for [`LUTFilter`].
#[derive(Copy, Clone, Debug)]
pub struct LUTFilterBuilder<C: Counter = u8> {
    addr_size: usize,
    threshold: C,
}

impl<C: Counter> LUTFilterBuilder<C> {
    /// The number of bits of an address.
    pub closed spec fn addr_size(&self) -> nat {
        self.addr_size as nat
    }

    /// The count that a member must exceed.
    pub closed spec fn threshold(&self) -> nat {
        self.threshold.count()
    }

    /// A builder of filters with these parameters.
    pub fn new(addr_size: usize, threshold: C) -> (builder: Self)
        ensures
            builder.addr_size() == addr_size,
            builder.threshold() == threshold.count(),
    {
        Self { addr_size, threshold }
    }
}

impl<C: Counter> BuildFilter for LUTFilterBuilder<C> {
    type Filter = LUTFilter<C>;

    open spec fn wf(&self) -> bool {
        self.addr_size() < usize::BITS
    }

    open spec fn builds(&self, filter: &Self::Filter) -> bool {
        &&& filter.addr_size() == self.addr_size()
        &&& filter.threshold() == self.threshold()
        &&& filter.counts() == no_counts(pow2(self.addr_size()))
    }

    fn build_filter(&self) -> (filter: Self::Filter) {
        LUTFilter::new(self.addr_size, self.threshold)
    }
}

/// The counters of `count_size` bits each that `bits` packs, by address.
pub open spec fn packed_counts(bits: Seq<bool>, count_size: nat, slots: nat) -> Seq<nat> {
    Seq::new(
        slots,
        |a: int| value_of(bits.subrange(a * count_size, (a + 1) * count_size)),
    )
}

/// A Filter structure based on dense, bit-packed lookup tables (LUTs).
#[derive(Clone, Debug, Eq, PartialEq, Hash)]
pub struct PackedLUTFilter {
    addr_size: usize,
    count_size: usize,
    threshold: usize,
    lut: Bits,
}

impl PackedLUTFilter {
    /// The number of bits of an address.
    pub closed spec fn addr_size(&self) -> nat {
        self.addr_size as nat
    }

    /// The number of bits of a counter.
    pub closed spec fn count_size(&self) -> nat {
        self.count_size as nat
    }

    /// The count that a member must exceed.
    pub closed spec fn threshold(&self) -> nat {
        self.threshold as nat
    }

    /// The bits that the counters are packed into.
    pub closed spec fn table(&self) -> Seq<bool> {
        bits_of(self.lut)
    }

    /// The counters, by address.
    pub open spec fn counts(&self) -> Seq<nat> {
        packed_counts(self.table(), self.count_size(), pow2(self.addr_size()))
    }

    /// The highest number that a counter can stand at.
    pub open spec fn limit(&self) -> nat {
        (pow2(self.count_size()) - 1) as nat
    }

    /// No counter stands above the limit of its width.
    pub proof fn lemma_counts_bounded(&self, address: int)
        requires
            self.wf(),
            0 <= address < self.counts().len(),
        ensures
            self.counts()[address] <= self.limit(),
    {
        let size = self.count_size();
        let slots = pow2(self.addr_size());
        lemma_chunk_bounds(address as nat, slots, size);
        assert(size * slots == slots * size) by (nonlinear_arith);
        lemma_value_of_bound(self.table().subrange(address * size, (address + 1) * size));
    }

    /// Whether a table of counters with these sizes fits into a bit buffer.
    pub open spec fn fits(addr_size: nat, count_size: nat) -> bool {
        &&& addr_size < usize::BITS
        &&& count_size <= usize::BITS
        &&& count_size * pow2(addr_size) <= max_bits()
    }

    /// Creates a filter for addresses of `addr_size` bits with counters of
    /// `count_size` bits, in which an item is a member once it has been seen
    /// more than `threshold` times.
    pub fn new(addr_size: usize, count_size: usize, threshold: usize) -> (filter: Self)
        requires
            Self::fits(addr_size as nat, count_size as nat),
        ensures
            filter.wf(),
            filter.addr_size() == addr_size,
            filter.count_size() == count_size,
            filter.threshold() == threshold,
            filter.counts() == no_counts(pow2(addr_size as nat)),
    {
        proof {
            lemma_usize_shl_is_mul(count_size, addr_size);
        }
        let lut = raw_repeat(false, count_size << addr_size);
        let filter = Self { addr_size, count_size, threshold, lut };
        proof {
            let slots = pow2(addr_size as nat);
            assert forall|a: int| 0 <= a < slots implies filter.counts()[a] == 0 by {
                lemma_chunk_bounds(a as nat, slots, count_size as nat);
                assert(count_size * slots == slots * count_size) by (nonlinear_arith);
                lemma_value_of_zeros(
                    filter.table().subrange(a * count_size, (a + 1) * count_size),
                );
            }
            assert(filter.counts() =~= no_counts(slots));
        }
        filter
    }
}

/// Writing one counter of a packed table changes that counter and no other.
pub proof fn lemma_packed_store(
    before: Seq<bool>,
    after: Seq<bool>,
    count_size: nat,
    slots: nat,
    address: nat,
    next: nat,
)
    requires
        before.len() == count_size * slots,
        address < slots,
        next < pow2(count_size),
        after == before.subrange(0, (address * count_size) as int) + low_bits(next, 0, count_size)
            + before.subrange((address * count_size + count_size) as int, before.len() as int),
    ensures
        packed_counts(after, count_size, slots) == packed_counts(before, count_size, slots).update(
            address as int,
            next,
        ),
{
    let start = address * count_size;
    lemma_chunk_bounds(address, slots, count_size);
    assert(count_size * slots == slots * count_size) by (nonlinear_arith);
    assert forall|a: int| 0 <= a < slots implies packed_counts(after, count_size, slots)[a]
        == packed_counts(before, count_size, slots).update(address as int, next)[a] by {
        lemma_chunk_bounds(a as nat, slots, count_size);
        let lo = a * count_size;
        let hi = (a + 1) * count_size;
        if a == address {
            assert(after.subrange(lo, hi) =~= low_bits(next, 0, count_size));
            lemma_low_bits_round_trip(next, count_size);
        } else if a < address {
            assert(hi <= start) by (nonlinear_arith)
                requires
                    a + 1 <= address,
                    hi == (a + 1) * count_size,
                    start == address * count_size,
            ;
            assert(after.subrange(lo, hi) =~= before.subrange(lo, hi));
        } else {
            assert(lo >= start + count_size) by (nonlinear_arith)
                requires
                    a >= address + 1,
                    lo == a * count_size,
                    start == address * count_size,
            ;
            assert(after.subrange(lo, hi) =~= before.subrange(lo, hi));
        }
    }
    assert(packed_counts(after, count_size, slots) =~= packed_counts(
        before,
        count_size,
        slots,
    ).update(address as int, next));
}

impl Filter for PackedLUTFilter {
    open spec fn wf(&self) -> bool {
        &&& Self::fits(self.addr_size(), self.count_size())
        &&& self.table().len() == self.count_size() * pow2(self.addr_size())
    }

    open spec fn admits(&self, address: usize) -> bool {
        address < self.counts().len()
    }

    open spec fn member(&self, address: usize) -> bool {
        address < self.counts().len() && self.counts()[address as int] > self.threshold()
    }

    open spec fn follows(&self, before: &Self, address: usize) -> bool {
        &&& self.addr_size() == before.addr_size()
        &&& self.count_size() == before.count_size()
        &&& self.threshold() == before.threshold()
        &&& self.counts() == counts_after(before.counts(), address as int, before.limit())
    }

    proof fn lemma_members_stay(&self, before: &Self, address: usize, other: usize) {
        before.lemma_counts_bounded(other as int);
    }

    fn include_item(&mut self, item: &usize) -> (admitted: bool) {
        let address = raw_index(*item);
        let slots = power_of_two(self.addr_size);
        if address < slots {
            let ghost before = self.table();
            let ghost size = self.count_size as nat;
            proof {
                lemma_chunk_bounds(address as nat, slots as nat, size);
                assert(size * slots == slots * size) by (nonlinear_arith);
                assert(address * size == size * address) by (nonlinear_arith);
                lemma_value_of_bound(before.subrange(address * size, (address + 1) * size));
            }
            let index = self.count_size * address;
            let value = raw_load(&self.lut, index, index + self.count_size);
            let limit = thermometer_word(self.count_size);
            let next = if value < limit {
                value + 1
            } else {
                limit
            };
            raw_store(&mut self.lut, index, index + self.count_size, next);
            proof {
                lemma_packed_store(
                    before,
                    self.table(),
                    size,
                    slots as nat,
                    address as nat,
                    next as nat,
                );
                assert(self.counts() =~= counts_after(
                    old(self).counts(),
                    address as int,
                    old(self).limit(),
                ));
            }
            true
        } else {
            false
        }
    }

    fn contains(&self, item: &usize) -> (found: bool) {
        match self.counter(item) {
            Some(count) => count > self.threshold,
            None => false,
        }
    }
}

impl CountingFilter for PackedLUTFilter {
    open spec fn count(&self, address: usize) -> Option<nat> {
        if address < self.counts().len() {
            Some(self.counts()[address as int])
        } else {
            None
        }
    }

    fn counter(&self, item: &usize) -> (count: Option<usize>) {
        let address = raw_index(*item);
        let slots = power_of_two(self.addr_size);
        if address < slots {
            proof {
                let size = self.count_size as nat;
                lemma_chunk_bounds(address as nat, slots as nat, size);
                assert(size * slots == slots * size) by (nonlinear_arith);
                assert(address * size == size * address) by (nonlinear_arith);
            }
            let index = self.count_size * address;
            Some(raw_load(&self.lut, index, index + self.count_size))
        } else {
            None
        }
    }
}

/// A filter that has seen one address again and again holds the counters
/// that so many occurrences leave.
pub proof fn lemma_packed_filter_history(states: Seq<PackedLUTFilter>, address: usize)
    requires
        states.len() >= 1,
        forall|i: int|
            0 <= i < states.len() - 1 ==> (#[trigger] states[i + 1]).follows(&states[i], address),
    ensures
        states.last().addr_size() == states[0].addr_size(),
        states.last().count_size() == states[0].count_size(),
        states.last().threshold() == states[0].threshold(),
        states.last().counts() == counts_after_times(
            states[0].counts(),
            address as int,
            states[0].limit(),
            (states.len() - 1) as nat,
        ),
    decreases states.len(),
{
    if states.len() > 1 {
        let front = states.drop_last();
        assert forall|i: int| 0 <= i < front.len() - 1 implies (#[trigger] front[i + 1]).follows(
            &front[i],
            address,
        ) by {
            assert(states[i + 1].follows(&states[i], address));
        }
        lemma_packed_filter_history(front, address);
        assert(states[states.len() - 2 + 1].follows(&states[states.len() - 2], address));
    }
}

/// A fresh filter that sees one address `n` times and no other counts `n`
/// for it, up to the limit of its counters, and 0 for every other; and once
/// it has seen the address one more time than its threshold, where the
/// counters reach so far, the address is a member and no other is.
pub proof fn lemma_packed_filter_exact(states: Seq<PackedLUTFilter>, address: usize)
    requires
        states.len() >= 1,
        states[0].counts() == no_counts(pow2(states[0].addr_size())),
        address < pow2(states[0].addr_size()),
        forall|i: int|
            0 <= i < states.len() - 1 ==> (#[trigger] states[i + 1]).follows(&states[i], address),
    ensures
        states.last().count(address) == Some(
            if states.len() - 1 <= states[0].limit() {
                (states.len() - 1) as nat
            } else {
                states[0].limit()
            },
        ),
        forall|other: usize|
            other != address && other < pow2(states[0].addr_size()) ==> #[trigger] states.last().count(
                other,
            ) == Some(0nat),
        states.len() - 1 == states[0].threshold() + 1 && states[0].threshold() < states[0].limit()
            ==> states.last().member(address) && forall|other: usize|
            other != address ==> !#[trigger] states.last().member(other),
{
    lemma_packed_filter_history(states, address);
    lemma_counts_exact(
        pow2(states[0].addr_size()),
        address as int,
        states[0].limit(),
        (states.len() - 1) as nat,
    );
}

/// With a threshold of 0 and counters of at least one bit, one occurrence
/// makes an address of the table a member.
pub proof fn lemma_packed_first_occurrence(
    before: PackedLUTFilter,
    after: PackedLUTFilter,
    address: usize,
)
    requires
        after.follows(&before, address),
        before.admits(address),
        before.threshold() == 0,
        before.count_size() >= 1,
    ensures
        after.member(address),
{
    vstd::arithmetic::power2::lemma2_to64();
    vstd::arithmetic::power2::lemma_pow2_strictly_increases(0, before.count_size());
}

/// A counter of `count_size` bits that is raised `2^count_size` times
/// stands at `2^count_size - 1`: it saturates and does not start again
/// from 0.
pub proof fn lemma_packed_counter_saturates(states: Seq<PackedLUTFilter>, address: usize)
    requires
        states.len() - 1 >= pow2(states[0].count_size()),
        states[0].counts() == no_counts(pow2(states[0].addr_size())),
        address < pow2(states[0].addr_size()),
        forall|i: int|
            0 <= i < states.len() - 1 ==> (#[trigger] states[i + 1]).follows(&states[i], address),
    ensures
        states.last().count(address) == Some((pow2(states[0].count_size()) - 1) as nat),
{
    lemma_pow2_pos(states[0].count_size());
    lemma_packed_filter_exact(states, address);
}

/// A builder for [`PackedLUTFilter`].
#[derive(Copy, Clone, Debug)]
pub struct PackedLUTFilterBuilder {
    addr_size: usize,
    count_size: usize,
    threshold: usize,
}

impl PackedLUTFilterBuilder {
    /// The number of bits of an address.
    pub closed spec fn addr_size(&self) -> nat {
        self.addr_size as nat
    }

    /// The number of bits of a counter.
    pub closed spec fn count_size(&self) -> nat {
        self.count_size as nat
    }

    /// The count that a member must exceed.
    pub closed spec fn threshold(&self) -> nat {
        self.threshold as nat
    }

    /// A builder of filters with these parameters.
    pub fn new(addr_size: usize, count_size: usize, threshold: usize) -> (builder: Self)
        ensures
            builder.addr_size() == addr_size,
            builder.count_size() == count_size,
            builder.threshold() == threshold,
    {
        Self { addr_size, count_size, threshold }
    }
}

impl BuildFilter for PackedLUTFilterBuilder {
    type Filter = PackedLUTFilter;

    open spec fn wf(&self) -> bool {
        PackedLUTFilter::fits(self.addr_size(), self.count_size())
    }

    open spec fn builds(&self, filter: &Self::Filter) -> bool {
        &&& filter.addr_size() == self.addr_size()
        &&& filter.count_size() == self.count_size()
        &&& filter.threshold() == self.threshold()
        &&& filter.counts() == no_counts(pow2(self.addr_size()))
    }

    fn build_filter(&self) -> (filter: Self::Filter) {
        PackedLUTFilter::new(self.addr_size, self.count_size, self.threshold)
    }
}

} // verus!
