//! Sample encoders: transformations over the bits of a sample.

pub mod permute;
pub mod rearrange;
pub mod shuffle;
pub mod slice;
pub mod therm;

pub use crate::encode::permute::Permute;
pub use crate::encode::shuffle::Shuffle;
pub use crate::encode::slice::Slice;
pub use crate::encode::therm::{LinearThermometer, LogThermometer};

use crate::sample::{chunks_of, joined, lemma_chunk_bounds, with_raw_parts, Sample};
use vstd::prelude::*;

verus! {

/// The bits that result when every value of `vsize` bits in `bits` is
/// replaced by what `code` makes of it.
pub open spec fn encode_values(
    bits: Seq<bool>,
    vsize: nat,
    code: spec_fn(Seq<bool>) -> Seq<bool>,
) -> Seq<bool> {
    joined(chunks_of(bits, vsize).map_values(code))
}

/// A transformation over the bits of a sample, which may change the width of
/// its values and never touches its label.
pub trait SampleEncoder {
    /// Whether the encoder can take a sample of these bits and this value
    /// width. No encoder takes a sample without bits.
    spec fn accepts(&self, bits: Seq<bool>, vsize: nat) -> bool;

    /// The bits of the encoded sample.
    spec fn encoded_bits(&self, bits: Seq<bool>, vsize: nat) -> Seq<bool>;

    /// The value width of the encoded sample.
    spec fn encoded_vsize(&self, bits: Seq<bool>, vsize: nat) -> nat;

    /// Encodes the sample in-place.
    fn encode_inplace<L: Copy>(&self, sample: &mut Sample<L>)
        requires
            old(sample).wf(),
            self.accepts(old(sample)@.bits, old(sample)@.vsize),
        ensures
            final(sample)@ == with_raw_parts(
                self.encoded_bits(old(sample)@.bits, old(sample)@.vsize),
                self.encoded_vsize(old(sample)@.bits, old(sample)@.vsize),
                old(sample)@.label,
            ),
            final(sample).wf(),
    ;

    /// Consumes the sample and returns its encoded version.
    fn encode<L: Copy>(&self, sample: Sample<L>) -> (encoded: Sample<L>)
        requires
            sample.wf(),
            self.accepts(sample@.bits, sample@.vsize),
        ensures
            encoded@ == with_raw_parts(
                self.encoded_bits(sample@.bits, sample@.vsize),
                self.encoded_vsize(sample@.bits, sample@.vsize),
                sample@.label,
            ),
            encoded.wf(),
    {
        let mut sample = sample;
        self.encode_inplace(&mut sample);
        sample
    }
}

/// Writing one more encoded value extends what the values before it gave.
pub proof fn lemma_encode_step(
    chunks: Seq<Seq<bool>>,
    code: spec_fn(Seq<bool>) -> Seq<bool>,
    k: int,
)
    requires
        0 <= k < chunks.len(),
    ensures
        joined(chunks.take(k + 1).map_values(code)) == joined(chunks.take(k).map_values(code))
            + code(chunks[k]),
{
    let longer = chunks.take(k + 1).map_values(code);
    assert(longer.drop_last() =~= chunks.take(k).map_values(code));
    assert(longer.last() == code(chunks[k]));
}

/// Values of one width, written one after the other, are a buffer of whole
/// values.
pub proof fn lemma_joined_len(chunks: Seq<Seq<bool>>, width: nat)
    requires
        forall|k: int| 0 <= k < chunks.len() ==> (#[trigger] chunks[k]).len() == width,
    ensures
        joined(chunks).len() == chunks.len() * width,
    decreases chunks.len(),
{
    if chunks.len() == 0 {
        assert(chunks.len() * width == 0) by (nonlinear_arith)
            requires
                chunks.len() == 0,
        ;
    } else {
        lemma_joined_len(chunks.drop_last(), width);
        lemma_chunk_bounds((chunks.len() - 1) as nat, chunks.len(), width);
    }
}

/// A whole number of values of `width` bits divides evenly.
pub proof fn lemma_multiple_divides(count: nat, width: nat)
    requires
        width > 0,
    ensures
        (count * width) % width == 0,
        (count * width) / width == count,
{
    vstd::arithmetic::div_mod::lemma_fundamental_div_mod_converse(
        (count * width) as int,
        width as int,
        count as int,
        0,
    );
}

} // verus!
