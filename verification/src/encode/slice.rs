//! The slice encoder: one range of bits out of every value.

use crate::bits::{bits_of, max_bits, raw_extend, raw_load, raw_with_capacity};
use crate::encode::{
    encode_values, lemma_encode_step, lemma_joined_len, lemma_multiple_divides, SampleEncoder,
};
use crate::sample::{chunks_of, joined, lemma_chunk_bounds, lemma_chunk_count, Sample};
use crate::word::{lemma_bit_of_value, low_bits};
use vstd::prelude::*;

verus! {

/// An encoder that keeps bits `start..end` of every value.
#[derive(Debug)]
pub struct Slice {
    start: u8,
    end: u8,
}

/// Positions `start..end` of `value`, with zeros where the value ends before
/// `end`.
pub open spec fn slice_code(value: Seq<bool>, start: nat, end: nat) -> Seq<bool> {
    Seq::new(
        (end - start) as nat,
        |k: int| start + k < value.len() && value[start + k],
    )
}

impl Slice {
    /// The first position that is kept.
    pub closed spec fn start(&self) -> nat {
        self.start as nat
    }

    /// The position after the last that is kept.
    pub closed spec fn end(&self) -> nat {
        self.end as nat
    }

    /// An encoder that keeps bits `start..end` of every value.
    pub fn new(start: u8, end: u8) -> (encoder: Self)
        ensures
            encoder.start() == start,
            encoder.end() == end,
    {
        Self { start, end }
    }
}

impl SampleEncoder for Slice {
    open spec fn accepts(&self, bits: Seq<bool>, vsize: nat) -> bool {
        &&& bits.len() > 0
        &&& 0 < vsize <= usize::BITS
        &&& self.start() < self.end() <= usize::BITS
        &&& (bits.len() / vsize) * (self.end() - self.start()) <= max_bits()
    }

    open spec fn encoded_bits(&self, bits: Seq<bool>, vsize: nat) -> Seq<bool> {
        encode_values(bits, vsize, |value: Seq<bool>| slice_code(value, self.start(), self.end()))
    }

    open spec fn encoded_vsize(&self, bits: Seq<bool>, vsize: nat) -> nat {
        (self.end() - self.start()) as nat
    }

    fn encode_inplace<L: Copy>(&self, sample: &mut Sample<L>) {
        let start = self.start as usize;
        let end = self.end as usize;
        let size = end - start;
        let width = sample.vsize();
        let total = sample.len();
        let count = total / width;
        let ghost all = sample@.bits;
        let ghost chunks = chunks_of(all, width as nat);
        let ghost code = |value: Seq<bool>| slice_code(value, self.start(), self.end());
        proof {
            lemma_chunk_count(total as nat, width as nat);
        }
        let mut bits = raw_with_capacity(count * size);
        let mut k: usize = 0;
        let mut from: usize = 0;
        while k < count
            invariant
                k <= count,
                0 < width <= usize::BITS,
                start < end <= usize::BITS,
                size == end - start,
                start == self.start(),
                end == self.end(),
                total == all.len(),
                all == sample@.bits,
                chunks == chunks_of(all, width as nat),
                chunks.len() == count,
                code == |value: Seq<bool>| slice_code(value, self.start(), self.end()),
                count * width == total,
                count * size <= max_bits(),
                from == k * width,
                bits_of(bits) == joined(chunks.take(k as int).map_values(code)),
                bits_of(bits).len() == k * size,
            decreases count - k,
        {
            proof {
                lemma_chunk_bounds(k as nat, count as nat, width as nat);
                lemma_chunk_bounds(k as nat, count as nat, size as nat);
            }
            let value = raw_load(sample.raw_bits(), from, from + width);
            raw_extend(&mut bits, value, start, end);
            proof {
                let chunk = chunks[k as int];
                assert(chunk == all.subrange(from as int, from + width));
                assert(low_bits(value as nat, start as nat, end as nat) =~= code(chunk)) by {
                    assert forall|j: int| 0 <= j < size implies low_bits(
                        value as nat,
                        start as nat,
                        end as nat,
                    )[j] == code(chunk)[j] by {
                        lemma_bit_of_value(chunk, (start + j) as nat);
                    }
                }
                lemma_encode_step(chunks, code, k as int);
            }
            k += 1;
            from += width;
        }
        proof {
            assert(chunks.take(k as int) =~= chunks);
            let coded = chunks.map_values(code);
            lemma_joined_len(coded, size as nat);
            lemma_multiple_divides(count as nat, size as nat);
        }
        sample.set_values(bits, size);
    }
}

} // verus!
