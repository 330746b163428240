//! The discriminator: one label's bank of filters, one filter for every
//! chunk of address bits.

use crate::bits::raw_load;
use crate::filter::{BuildFilter, Filter};
use crate::sample::Sample;
use crate::word::value_of;
use vstd::arithmetic::div_mod::{lemma_div_is_ordered, lemma_div_multiples_vanish};
use vstd::arithmetic::power2::pow2;
use vstd::prelude::*;

verus! {

/// The number of chunks of `addr_size` bits that `len` bits are cut into,
/// the last of which may be shorter.
pub open spec fn chunk_count(len: nat, addr_size: nat) -> nat {
    ((len + addr_size - 1) / (addr_size as int)) as nat
}

/// Chunk `i` of `bits`.
pub open spec fn chunk_at(bits: Seq<bool>, addr_size: nat, i: int) -> Seq<bool> {
    bits.subrange(
        i * addr_size,
        if (i + 1) * addr_size <= bits.len() {
            (i + 1) * addr_size
        } else {
            bits.len() as int
        },
    )
}

/// The address that chunk `i` of `bits` spells.
pub open spec fn address_at(bits: Seq<bool>, addr_size: nat, i: int) -> usize {
    value_of(chunk_at(bits, addr_size, i)) as usize
}

/// How many of the first `chunks` chunks of `bits` are members of their own
/// filter.
pub open spec fn hits<F: Filter>(
    filters: Seq<F>,
    bits: Seq<bool>,
    addr_size: nat,
    chunks: nat,
) -> nat
    decreases chunks,
{
    if chunks == 0 {
        0
    } else {
        hits(filters, bits, addr_size, (chunks - 1) as nat) + if filters[chunks - 1].member(
            address_at(bits, addr_size, chunks - 1),
        ) {
            1nat
        } else {
            0nat
        }
    }
}

/// No more chunks hit than there are.
pub proof fn lemma_hits_bounded<F: Filter>(
    filters: Seq<F>,
    bits: Seq<bool>,
    addr_size: nat,
    chunks: nat,
)
    ensures
        hits(filters, bits, addr_size, chunks) <= chunks,
    decreases chunks,
{
    if chunks > 0 {
        lemma_hits_bounded(filters, bits, addr_size, (chunks - 1) as nat);
    }
}

/// Where chunk `i` starts inside the bits, it is one of the chunks, and the
/// last one where the bits end inside it.
pub proof fn lemma_chunk_index(len: nat, addr_size: nat, i: nat)
    requires
        addr_size > 0,
        i * addr_size < len,
    ensures
        i < chunk_count(len, addr_size),
        len <= (i + 1) * addr_size ==> chunk_count(len, addr_size) == i + 1,
{
    let size = addr_size as int;
    let top = len + addr_size - 1;
    assert((i + 1) * size == i * size + size) by (nonlinear_arith);
    assert((i + 2) * size == i * size + 2 * size) by (nonlinear_arith);
    lemma_div_is_ordered((i + 1) * size, top, size);
    lemma_div_multiples_vanish((i + 1) as int, size);
    assert(size * (i + 1) == (i + 1) * size) by (nonlinear_arith);
    if len <= (i + 1) * addr_size {
        assert(top / size < i + 2) by (nonlinear_arith)
            requires
                top < (i + 2) * size,
                size > 0,
        ;
    }
}

/// Every chunk starts inside the bits.
pub proof fn lemma_chunk_starts(len: nat, addr_size: nat, i: nat)
    requires
        addr_size > 0,
        i < chunk_count(len, addr_size),
    ensures
        i * addr_size < len,
{
    let size = addr_size as int;
    if i * addr_size >= len {
        let top = i * size + size - 1;
        vstd::arithmetic::div_mod::lemma_fundamental_div_mod_converse(top, size, i as int, size - 1);
        lemma_div_is_ordered(len + addr_size - 1, top, size);
    }
}

/// Training on one sample lowers the hits of no other: what was a member
/// of its filter stays one.
pub proof fn lemma_fit_keeps_hits<F: Filter>(
    before: Discriminator<F>,
    after: Discriminator<F>,
    trained: Seq<bool>,
    bits: Seq<bool>,
    chunks: nat,
)
    requires
        before.wf(),
        after.fitted(&before, trained),
        chunks <= before.filters().len(),
    ensures
        hits(after.filters(), bits, after.spec_addr_size(), chunks) >= hits(
            before.filters(),
            bits,
            before.spec_addr_size(),
            chunks,
        ),
    decreases chunks,
{
    if chunks > 0 {
        let i = chunks - 1;
        let size = before.spec_addr_size();
        lemma_fit_keeps_hits(before, after, trained, bits, i as nat);
        let address = address_at(bits, size, i);
        if before.filters()[i].member(address) {
            assert(before.filters()[i].wf());
            if i < chunk_count(trained.len(), size) {
                assert(after.filters()[i].follows(&before.filters()[i], address_at(trained, size, i)));
                after.filters()[i].lemma_members_stay(
                    &before.filters()[i],
                    address_at(trained, size, i),
                    address,
                );
            } else {
                assert(after.filters()[i] == before.filters()[i]);
            }
        }
    }
}

/// A chunk of a sample that the discriminator can take spells an address
/// below `2^addr_size`, and the machine word for it holds it whole.
pub proof fn lemma_address_in_range(bits: Seq<bool>, addr_size: nat, i: nat)
    requires
        0 < addr_size < usize::BITS,
        i < chunk_count(bits.len(), addr_size),
    ensures
        address_at(bits, addr_size, i as int) == value_of(chunk_at(bits, addr_size, i as int)),
        address_at(bits, addr_size, i as int) < pow2(addr_size),
{
    lemma_chunk_starts(bits.len(), addr_size, i);
    let chunk = chunk_at(bits, addr_size, i as int);
    assert((i + 1) * addr_size == i * addr_size + addr_size) by (nonlinear_arith);
    assert(chunk.len() <= addr_size);
    crate::word::lemma_value_of_bound(chunk);
    if chunk.len() < addr_size {
        vstd::arithmetic::power2::lemma_pow2_strictly_increases(chunk.len(), addr_size);
    }
    vstd::bits::lemma_usize_pow2_no_overflow(addr_size);
}

/// No bits are cut into no chunks.
pub proof fn lemma_no_chunks(addr_size: nat)
    requires
        addr_size > 0,
    ensures
        chunk_count(0, addr_size) == 0,
{
    vstd::arithmetic::div_mod::lemma_basic_div(addr_size - 1, addr_size as int);
}

/// A WiSARD discriminator structure.
#[derive(Clone, Debug)]
pub struct Discriminator<F: Filter> {
    input_size: usize,
    addr_size: usize,
    filters: Vec<F>,
}

impl<F: Filter> Discriminator<F> {
    /// The total number of input bits.
    pub closed spec fn spec_input_size(&self) -> nat {
        self.input_size as nat
    }

    /// The number of bits of an address.
    pub closed spec fn spec_addr_size(&self) -> nat {
        self.addr_size as nat
    }

    /// The filters, by chunk.
    pub closed spec fn filters(&self) -> Seq<F> {
        self.filters@
    }

    /// Whether there is one filter in good state for every chunk of the
    /// input.
    pub open spec fn wf(&self) -> bool {
        &&& self.spec_addr_size() > 0
        &&& self.filters().len() == chunk_count(self.spec_input_size(), self.spec_addr_size())
        &&& forall|i: int| 0 <= i < self.filters().len() ==> (#[trigger] self.filters()[i]).wf()
    }

    /// Whether the discriminator can take a sample of these bits: every
    /// chunk has a filter and spells a machine word.
    pub open spec fn takes(&self, bits: Seq<bool>) -> bool {
        &&& chunk_count(bits.len(), self.spec_addr_size()) <= self.filters().len()
        &&& (self.spec_addr_size() <= usize::BITS || bits.len() <= usize::BITS)
    }

    /// The score of a sample of these bits: the number of its chunks that
    /// are members of their own filter.
    pub open spec fn score_of(&self, bits: Seq<bool>) -> nat {
        hits(
            self.filters(),
            bits,
            self.spec_addr_size(),
            chunk_count(bits.len(), self.spec_addr_size()),
        )
    }

    /// Whether the discriminator is what `before` becomes by training on a
    /// sample of these bits: every filter that has a chunk has seen one
    /// occurrence of the chunk's address, and no other filter has changed.
    pub open spec fn fitted(&self, before: &Self, bits: Seq<bool>) -> bool {
        &&& self.spec_input_size() == before.spec_input_size()
        &&& self.spec_addr_size() == before.spec_addr_size()
        &&& self.filters().len() == before.filters().len()
        &&& forall|i: int|
            0 <= i < self.filters().len() ==> if i < chunk_count(
                bits.len(),
                self.spec_addr_size(),
            ) {
                (#[trigger] self.filters()[i]).follows(
                    &before.filters()[i],
                    address_at(bits, self.spec_addr_size(), i),
                )
            } else {
                self.filters()[i] == before.filters()[i]
            }
    }

    /// Training never lowers the score of a sample that the discriminator
    /// can take.
    pub proof fn lemma_fit_keeps_score(&self, before: &Self, trained: Seq<bool>, bits: Seq<bool>)
        requires
            before.wf(),
            before.takes(bits),
            self.fitted(before, trained),
        ensures
            self.score_of(bits) >= before.score_of(bits),
    {
        lemma_fit_keeps_hits(
            *before,
            *self,
            trained,
            bits,
            chunk_count(bits.len(), before.spec_addr_size()),
        );
    }

    /// Creates a discriminator for `input_size` input bits that are
    /// addressed `addr_size` at a time, with one filter of `builder` for
    /// every chunk.
    pub fn from_filter_builder<B>(input_size: usize, addr_size: usize, builder: &B) -> (disc: Self)
        where B: BuildFilter<Filter = F>
        requires
            addr_size > 0,
            input_size + addr_size <= usize::MAX,
            builder.wf(),
        ensures
            disc.wf(),
            disc.spec_input_size() == input_size,
            disc.spec_addr_size() == addr_size,
            forall|i: int|
                0 <= i < disc.filters().len() ==> builder.builds(#[trigger] &disc.filters()[i]),
    {
        let num_filters = (input_size + addr_size - 1) / addr_size;
        let mut filters: Vec<F> = Vec::new();
        let mut i: usize = 0;
        while i < num_filters
            invariant
                i <= num_filters,
                filters.len() == i,
                builder.wf(),
                forall|j: int| 0 <= j < i ==> (#[trigger] filters[j]).wf(),
                forall|j: int| 0 <= j < i ==> builder.builds(#[trigger] &filters[j]),
            decreases num_filters - i,
        {
            filters.push(builder.build_filter());
            i += 1;
        }
        Self { input_size, addr_size, filters }
    }

    /// Returns the discriminator input size.
    pub fn input_size(&self) -> (size: usize)
        ensures
            size == self.spec_input_size(),
    {
        self.input_size
    }

    /// Returns the discriminator address size.
    pub fn addr_size(&self) -> (size: usize)
        ensures
            size == self.spec_addr_size(),
    {
        self.addr_size
    }

    /// Fits (trains) the discriminator with a given input sample.
    pub fn fit<L: Copy>(&mut self, sample: &Sample<L>)
        requires
            old(self).wf(),
            old(self).takes(sample@.bits),
        ensures
            final(self).wf(),
            final(self).fitted(old(self), sample@.bits),
    {
        let total = sample.len();
        let size = self.addr_size;
        let ghost bits = sample@.bits;
        let ghost count = chunk_count(bits.len(), size as nat);
        let mut i: usize = 0;
        let mut from: usize = 0;
        proof {
            lemma_no_chunks(size as nat);
        }
        while from < total
            invariant
                size == self.addr_size == old(self).addr_size,
                self.input_size == old(self).input_size,
                size > 0,
                total == bits.len(),
                bits == sample@.bits,
                count == chunk_count(bits.len(), size as nat),
                count <= self.filters.len(),
                self.filters.len() == old(self).filters.len(),
                size <= usize::BITS || total <= usize::BITS,
                from <= total,
                i <= count,
                from < total ==> from == i * size,
                from == total ==> i == count,
                forall|j: int| 0 <= j < self.filters.len() ==> (#[trigger] self.filters[j]).wf(),
                forall|j: int|
                    0 <= j < i ==> (#[trigger] self.filters[j]).follows(
                        &old(self).filters[j],
                        address_at(bits, size as nat, j),
                    ),
                forall|j: int|
                    i <= j < self.filters.len() ==> self.filters[j] == old(self).filters[j],
            decreases total - from,
        {
            let len = if total - from < size {
                total - from
            } else {
                size
            };
            proof {
                lemma_chunk_index(total as nat, size as nat, i as nat);
                assert((i + 1) * size == i * size + size) by (nonlinear_arith);
            }
            let address = raw_load(sample.raw_bits(), from, from + len);
            assert(address == address_at(bits, size as nat, i as int)) by {
                assert(bits.subrange(from as int, from + len) == chunk_at(
                    bits,
                    size as nat,
                    i as int,
                ));
            }
            self.filters[i].include_item(&address);
            i += 1;
            from += len;
        }
    }

    /// Returns the discriminator score for a given input sample, which is
    /// never more than the number of its chunks.
    pub fn score<L: Copy>(&self, sample: &Sample<L>) -> (score: usize)
        requires
            self.wf(),
            self.takes(sample@.bits),
        ensures
            score == self.score_of(sample@.bits),
            score <= chunk_count(sample@.bits.len(), self.spec_addr_size()),
    {
        let total = sample.len();
        let size = self.addr_size;
        let ghost bits = sample@.bits;
        let ghost count = chunk_count(bits.len(), size as nat);
        let mut score: usize = 0;
        let mut i: usize = 0;
        let mut from: usize = 0;
        proof {
            lemma_no_chunks(size as nat);
        }
        while from < total
            invariant
                size == self.addr_size,
                size > 0,
                total == bits.len(),
                bits == sample@.bits,
                count == chunk_count(bits.len(), size as nat),
                count <= self.filters.len(),
                size <= usize::BITS || total <= usize::BITS,
                from <= total,
                i <= count,
                from < total ==> from == i * size,
                from == total ==> i == count,
                forall|j: int| 0 <= j < self.filters.len() ==> (#[trigger] self.filters[j]).wf(),
                score == hits(self.filters@, bits, size as nat, i as nat),
                score <= i,
            decreases total - from,
        {
            let len = if total - from < size {
                total - from
            } else {
                size
            };
            proof {
                lemma_chunk_index(total as nat, size as nat, i as nat);
                assert((i + 1) * size == i * size + size) by (nonlinear_arith);
            }
            let address = raw_load(sample.raw_bits(), from, from + len);
            assert(address == address_at(bits, size as nat, i as int)) by {
                assert(bits.subrange(from as int, from + len) == chunk_at(
                    bits,
                    size as nat,
                    i as int,
                ));
            }
            if self.filters[i].contains(&address) {
                score += 1;
            }
            i += 1;
            from += len;
        }
        score
    }
}

} // verus!
