//! Labelled samples: a bit buffer cut into values of one fixed width.

use crate::bits::{bits_of, max_bits, raw_len, raw_slice, raw_swap, Bits};
use vstd::prelude::*;

verus! {

/// What a sample is: its bits, the width of one value, and its label.
pub ghost struct SampleView<L> {
    pub bits: Seq<bool>,
    pub vsize: nat,
    pub label: L,
}

/// Whether `bits` can be cut into whole values of `vsize` bits.
pub open spec fn divides_evenly(bits: Seq<bool>, vsize: nat) -> bool {
    vsize > 0 && bits.len() % vsize == 0
}

/// The values of `vsize` bits that `bits` is cut into, first value first.
pub open spec fn chunks_of(bits: Seq<bool>, vsize: nat) -> Seq<Seq<bool>> {
    Seq::new(
        (bits.len() / vsize) as nat,
        |k: int| bits.subrange(k * vsize, (k + 1) * vsize),
    )
}

/// The values of `chunks` written one after the other.
pub open spec fn joined(chunks: Seq<Seq<bool>>) -> Seq<bool>
    decreases chunks.len(),
{
    if chunks.len() == 0 {
        Seq::empty()
    } else {
        joined(chunks.drop_last()) + chunks.last()
    }
}

/// `items` with the entries at `a` and `b` changed over.
pub open spec fn swapped<A>(items: Seq<A>, a: int, b: int) -> Seq<A> {
    items.update(a, items[b]).update(b, items[a])
}

/// The parts that a sample with view `view` is made of.
pub open spec fn raw_parts<L>(view: SampleView<L>) -> (Seq<bool>, nat, L) {
    (view.bits, view.vsize, view.label)
}

/// The view of the sample made of these parts.
pub open spec fn with_raw_parts<L>(bits: Seq<bool>, vsize: nat, label: L) -> SampleView<L> {
    SampleView { bits, vsize, label }
}

/// A labelled sample.
#[derive(Debug, PartialEq, Eq, Hash)]
pub struct Sample<L: Copy> {
    bits: Bits,
    vsize: usize,
    label: L,
}

impl<L: Copy> View for Sample<L> {
    type V = SampleView<L>;

    closed spec fn view(&self) -> SampleView<L> {
        SampleView { bits: bits_of(self.bits), vsize: self.vsize as nat, label: self.label }
    }
}

impl<L: Copy> Clone for Sample<L> {
    fn clone(&self) -> (copy: Self)
        ensures
            copy@ == self@,
    {
        Sample { bits: self.bits.clone(), vsize: self.vsize, label: self.label }
    }
}

impl<L: Copy> Sample<L> {
    /// Whether the sample's bits are a whole number of values.
    pub open spec fn wf(&self) -> bool {
        divides_evenly(self@.bits, self@.vsize)
    }

    /// The buffer that the sample owns.
    pub closed spec fn buffer(&self) -> Bits {
        self.bits
    }

    /// Creates a sample from its raw parts.
    pub fn from_raw_parts(bits: Bits, vsize: usize, label: L) -> (sample: Self)
        requires
            divides_evenly(bits_of(bits), vsize as nat),
        ensures
            sample@ == with_raw_parts(bits_of(bits), vsize as nat, label),
            sample.buffer() == bits,
            sample.wf(),
    {
        Self { bits, vsize, label }
    }

    /// Breaks a sample into its raw parts.
    pub fn into_raw_parts(self) -> (parts: (Bits, usize, L))
        ensures
            (bits_of(parts.0), parts.1 as nat, parts.2) == raw_parts(self@),
            parts.0 == self.buffer(),
    {
        let Self { bits, vsize, label } = self;
        (bits, vsize, label)
    }

    /// The individual bits of the sample, in their order.
    pub fn iter_bits(&self) -> (bits: Vec<bool>)
        ensures
            bits@ == self@.bits,
    {
        self.bits.to_bools()
    }

    /// The values of the sample, each in a buffer of its own.
    pub fn iter_values(&self) -> (values: Vec<Bits>)
        requires
            self.wf(),
        ensures
            values@.map_values(|b: Bits| bits_of(b)) == chunks_of(self@.bits, self@.vsize),
    {
        let n = raw_len(&self.bits);
        let width = self.vsize;
        let count = n / width;
        let ghost all = bits_of(self.bits);
        let mut values: Vec<Bits> = Vec::new();
        let mut k: usize = 0;
        let mut start: usize = 0;
        proof {
            lemma_chunk_count(n as nat, width as nat);
        }
        while k < count
            invariant
                k <= count,
                width > 0,
                n == all.len(),
                all == bits_of(self.bits),
                count * width == n,
                start == k * width,
                values.len() == k,
                forall|j: int|
                    0 <= j < k ==> bits_of(#[trigger] values[j]) == all.subrange(
                        j * width,
                        (j + 1) * width,
                    ),
            decreases count - k,
        {
            proof {
                lemma_chunk_bounds(k as nat, count as nat, width as nat);
            }
            let value = raw_slice(&self.bits, start, start + width);
            values.push(value);
            k += 1;
            start += width;
        }
        assert(values@.map_values(|b: Bits| bits_of(b)) =~= chunks_of(self@.bits, self@.vsize));
        values
    }

    /// Returns the number of bits of a sample.
    pub fn len(&self) -> (n: usize)
        ensures
            n == self@.bits.len(),
            n <= max_bits(),
    {
        raw_len(&self.bits)
    }

    /// Returns `true` if the sample has no bits.
    pub fn is_empty(&self) -> (empty: bool)
        ensures
            empty == (self@.bits.len() == 0),
    {
        raw_len(&self.bits) == 0
    }

    /// Returns the raw sample bits.
    pub fn raw_bits(&self) -> (bits: &Bits)
        ensures
            *bits == self.buffer(),
            bits_of(*bits) == self@.bits,
    {
        &self.bits
    }

    /// Replaces the raw sample bits with a given buffer of whole values.
    pub fn set_raw_bits(&mut self, bits: Bits)
        requires
            divides_evenly(bits_of(bits), old(self)@.vsize),
        ensures
            final(self)@ == with_raw_parts(bits_of(bits), old(self)@.vsize, old(self)@.label),
            final(self).buffer() == bits,
            final(self).wf(),
    {
        self.bits = bits;
    }

    /// Exchanges the bits at two positions.
    pub fn swap_bits(&mut self, a: usize, b: usize)
        requires
            a < old(self)@.bits.len(),
            b < old(self)@.bits.len(),
        ensures
            final(self)@ == with_raw_parts(
                swapped(old(self)@.bits, a as int, b as int),
                old(self)@.vsize,
                old(self)@.label,
            ),
            old(self).wf() ==> final(self).wf(),
    {
        raw_swap(&mut self.bits, a, b);
    }

    /// Returns the value size (number of bits for each element in the sample).
    pub fn vsize(&self) -> (vsize: usize)
        ensures
            vsize == self@.vsize,
    {
        self.vsize
    }

    /// Updates the value size to one that cuts the bits into whole values.
    pub fn set_vsize(&mut self, vsize: usize)
        requires
            divides_evenly(old(self)@.bits, vsize as nat),
        ensures
            final(self)@ == with_raw_parts(old(self)@.bits, vsize as nat, old(self)@.label),
            final(self).buffer() == old(self).buffer(),
            final(self).wf(),
    {
        self.vsize = vsize;
    }

    /// Replaces the bits and the value size at once.
    pub fn set_values(&mut self, bits: Bits, vsize: usize)
        requires
            divides_evenly(bits_of(bits), vsize as nat),
        ensures
            final(self)@ == with_raw_parts(bits_of(bits), vsize as nat, old(self)@.label),
            final(self).buffer() == bits,
            final(self).wf(),
    {
        self.bits = bits;
        self.vsize = vsize;
    }

    /// Returns the associated label.
    pub fn label(&self) -> (label: &L)
        ensures
            *label == self@.label,
    {
        &self.label
    }

    /// Sets the associated label.
    pub fn set_label(&mut self, label: L)
        ensures
            final(self)@ == with_raw_parts(old(self)@.bits, old(self)@.vsize, label),
            final(self).buffer() == old(self).buffer(),
    {
        self.label = label;
    }
}

/// A buffer of whole values holds `len / width` of them.
pub proof fn lemma_chunk_count(len: nat, width: nat)
    requires
        width > 0,
        len % width == 0,
    ensures
        (len / width) * width == len,
{
    vstd::arithmetic::div_mod::lemma_fundamental_div_mod(len as int, width as int);
    assert((len / width) * width == width * (len / width)) by (nonlinear_arith);
}

/// Value `k` of `count` values ends inside the buffer.
pub proof fn lemma_chunk_bounds(k: nat, count: nat, width: nat)
    requires
        k < count,
    ensures
        k * width + width == (k + 1) * width,
        (k + 1) * width <= count * width,
        0 <= k * width,
{
    assert(k * width + width == (k + 1) * width) by (nonlinear_arith);
    assert((k + 1) * width <= count * width) by (nonlinear_arith)
        requires
            k + 1 <= count,
    ;
    assert(0 <= k * width) by (nonlinear_arith);
}

/// Cutting a buffer of whole values into its values and writing them one
/// after the other gives the buffer back.
pub proof fn lemma_values_rejoin(bits: Seq<bool>, vsize: nat)
    requires
        divides_evenly(bits, vsize),
    ensures
        chunks_of(bits, vsize).len() == bits.len() / vsize,
        forall|k: int|
            0 <= k < chunks_of(bits, vsize).len() ==> (#[trigger] chunks_of(bits, vsize)[k]).len()
                == vsize,
        joined(chunks_of(bits, vsize)) == bits,
    decreases bits.len(),
{
    let count = bits.len() / vsize;
    lemma_chunk_count(bits.len(), vsize);
    let chunks = chunks_of(bits, vsize);
    assert forall|k: int| 0 <= k < chunks.len() implies (#[trigger] chunks[k]).len() == vsize by {
        lemma_chunk_bounds(k as nat, count, vsize);
    }
    if count == 0 {
        assert(bits =~= Seq::empty());
    } else {
        lemma_chunk_bounds((count - 1) as nat, count, vsize);
        let cut = (count - 1) * vsize;
        let head = bits.subrange(0, cut);
        assert(head.len() == (count - 1) * vsize);
        assert(head.len() % vsize == 0 && head.len() / vsize == count - 1) by {
            vstd::arithmetic::div_mod::lemma_fundamental_div_mod_converse(
                head.len() as int,
                vsize as int,
                count - 1,
                0,
            );
        }
        lemma_values_rejoin(head, vsize);
        assert(chunks.drop_last() =~= chunks_of(head, vsize)) by {
            assert forall|k: int| 0 <= k < count - 1 implies chunks.drop_last()[k] == chunks_of(
                head,
                vsize,
            )[k] by {
                lemma_chunk_bounds(k as nat, (count - 1) as nat, vsize);
                assert(bits.subrange(k * vsize, (k + 1) * vsize) =~= head.subrange(
                    k * vsize,
                    (k + 1) * vsize,
                ));
            }
        }
        assert(chunks.last() == bits.subrange(cut, (count * vsize) as int));
        assert(head + chunks.last() =~= bits);
    }
}

/// Taking a sample apart and putting it together again changes nothing,
/// whichever comes first.
pub proof fn lemma_raw_parts_round_trip<L>(bits: Seq<bool>, vsize: nat, label: L)
    ensures
        raw_parts(with_raw_parts(bits, vsize, label)) == (bits, vsize, label),
        ({
            let parts = raw_parts(with_raw_parts(bits, vsize, label));
            with_raw_parts(parts.0, parts.1, parts.2) == with_raw_parts(bits, vsize, label)
        }),
{
}

} // verus!
