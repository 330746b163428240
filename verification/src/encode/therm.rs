//! Thermometer encoders: every value becomes a unary code whose number of
//! set bits grows with the value, on a logarithmic or on a linear scale.

use crate::bits::{bits_of, max_bits, raw_extend, raw_load, raw_with_capacity};
use crate::encode::{
    encode_values, lemma_encode_step, lemma_joined_len, lemma_multiple_divides, SampleEncoder,
};
use crate::sample::{chunks_of, joined, lemma_chunk_bounds, lemma_chunk_count, Sample};
use crate::word::{
    bit_length, lemma_bit_length_bound, lemma_bit_length_monotonic, lemma_thermometer_ones,
    lemma_value_of_bound, ones, thermometer, thermometer_word, value_of, word_bit_length,
};
use vstd::arithmetic::div_mod::lemma_div_is_ordered;
use vstd::arithmetic::power2::{lemma2_to64, lemma2_to64_rest, lemma_pow2_pos, pow2};
use vstd::bits::lemma_u128_shr_is_div;
use vstd::prelude::*;

verus! {

/// Whether `n` is one of 1, 2, 4, 8, ...
pub open spec fn is_power_of_two(n: nat) -> bool {
    exists|e: nat| n == pow2(e)
}

/// The level of `value` on a logarithmic scale: its number of binary digits,
/// stretched or shrunk from a scale of `vsize` steps to one of `resolution`.
pub open spec fn log_level(value: nat, vsize: nat, resolution: nat) -> nat {
    if vsize < resolution {
        bit_length(value) * (resolution / vsize)
    } else {
        bit_length(value) / (vsize / resolution)
    }
}

/// What is added to a number before it is divided by `2^vsize`, so that the
/// quotient is rounded to the nearest whole number: half of the divisor,
/// less one.
pub open spec fn half_down(vsize: nat) -> nat {
    if vsize == 0 {
        0
    } else {
        (pow2((vsize - 1) as nat) - 1) as nat
    }
}

/// The level of `value` on a linear scale of `resolution` steps, where the
/// value has `vsize` bits: `(resolution + 1) * value / 2^vsize`, rounded to
/// the nearest whole number. A quotient that lies exactly half-way between
/// two whole numbers goes to the lower one.
pub open spec fn linear_level(value: nat, vsize: nat, resolution: nat) -> nat {
    ((resolution + 1) * value + half_down(vsize)) / pow2(vsize)
}

/// The logarithmic thermometer code of one value.
pub open spec fn log_code(value: Seq<bool>, resolution: nat) -> Seq<bool> {
    thermometer(log_level(value_of(value), value.len(), resolution), resolution)
}

/// The linear thermometer code of one value.
pub open spec fn linear_code(value: Seq<bool>, resolution: nat) -> Seq<bool> {
    thermometer(linear_level(value_of(value), value.len(), resolution), resolution)
}

/// A logarithmic thermometer encoder.
#[derive(Debug)]
pub struct LogThermometer {
    /// The resolution (output size), in bits.
    resolution: u8,
}

impl LogThermometer {
    /// The resolution (output size), in bits.
    pub closed spec fn resolution(&self) -> nat {
        self.resolution as nat
    }

    /// Creates an encoder with a resolution (output size) of `resolution`
    /// bits, which must be a power of two.
    pub fn with_resolution(resolution: u8) -> (encoder: Self)
        requires
            is_power_of_two(resolution as nat),
        ensures
            encoder.resolution() == resolution,
    {
        Self { resolution }
    }
}

impl SampleEncoder for LogThermometer {
    open spec fn accepts(&self, bits: Seq<bool>, vsize: nat) -> bool {
        &&& bits.len() > 0
        &&& 0 < vsize <= usize::BITS
        &&& is_power_of_two(vsize)
        &&& 0 < self.resolution() <= usize::BITS
        &&& is_power_of_two(self.resolution())
        &&& (bits.len() / vsize) * self.resolution() <= max_bits()
    }

    open spec fn encoded_bits(&self, bits: Seq<bool>, vsize: nat) -> Seq<bool> {
        encode_values(bits, vsize, |value: Seq<bool>| log_code(value, self.resolution()))
    }

    open spec fn encoded_vsize(&self, bits: Seq<bool>, vsize: nat) -> nat {
        self.resolution()
    }

    fn encode_inplace<L: Copy>(&self, sample: &mut Sample<L>) {
        let resolution = self.resolution as usize;
        let width = sample.vsize();
        let total = sample.len();
        let count = total / width;
        let ghost all = sample@.bits;
        let ghost chunks = chunks_of(all, width as nat);
        let ghost code = |value: Seq<bool>| log_code(value, self.resolution());
        proof {
            lemma_chunk_count(total as nat, width as nat);
        }
        let mut bits = raw_with_capacity(count * resolution);
        let mut k: usize = 0;
        let mut from: usize = 0;
        while k < count
            invariant
                k <= count,
                0 < width <= usize::BITS,
                0 < resolution <= usize::BITS,
                resolution == self.resolution(),
                total == all.len(),
                all == sample@.bits,
                chunks == chunks_of(all, width as nat),
                chunks.len() == count,
                code == |value: Seq<bool>| log_code(value, self.resolution()),
                count * width == total,
                count * resolution <= max_bits(),
                from == k * width,
                bits_of(bits) == joined(chunks.take(k as int).map_values(code)),
                bits_of(bits).len() == k * resolution,
            decreases count - k,
        {
            proof {
                lemma_chunk_bounds(k as nat, count as nat, width as nat);
                lemma_chunk_bounds(k as nat, count as nat, resolution as nat);
            }
            let value = raw_load(sample.raw_bits(), from, from + width);
            let ghost chunk = chunks[k as int];
            assert(chunk == all.subrange(from as int, from + width));
            let digits = word_bit_length(value);
            proof {
                lemma_value_of_bound(chunk);
                lemma_bit_length_bound(value as nat, width as nat);
            }
            let level = if width < resolution {
                let ratio = resolution / width;
                assert(digits * ratio <= resolution) by (nonlinear_arith)
                    requires
                        digits <= width,
                        0 < width,
                        ratio == resolution / width,
                ;
                digits * ratio
            } else {
                proof {
                    lemma_ratio_positive(width as nat, resolution as nat);
                }
                digits / (width / resolution)
            };
            assert(level == log_level(value_of(chunk), chunk.len(), resolution as nat));
            let word = thermometer_word(level);
            raw_extend(&mut bits, word, 0, resolution);
            proof {
                assert(crate::word::low_bits(word as nat, 0, resolution as nat) == code(chunk));
                lemma_encode_step(chunks, code, k as int);
            }
            k += 1;
            from += width;
        }
        proof {
            assert(chunks.take(k as int) =~= chunks);
            let coded = chunks.map_values(code);
            lemma_joined_len(coded, resolution as nat);
            lemma_multiple_divides(count as nat, resolution as nat);
        }
        sample.set_values(bits, resolution);
    }
}

/// A linear thermometer encoder.
#[derive(Debug)]
pub struct LinearThermometer {
    /// The resolution (output size), in bits.
    resolution: u8,
}

impl LinearThermometer {
    /// The resolution (output size), in bits.
    pub closed spec fn resolution(&self) -> nat {
        self.resolution as nat
    }

    /// Creates an encoder with a resolution (output size) of `resolution`
    /// bits.
    pub fn with_resolution(resolution: u8) -> (encoder: Self)
        ensures
            encoder.resolution() == resolution,
    {
        Self { resolution }
    }
}

impl SampleEncoder for LinearThermometer {
    open spec fn accepts(&self, bits: Seq<bool>, vsize: nat) -> bool {
        &&& bits.len() > 0
        &&& 0 < vsize <= usize::BITS
        &&& 0 < self.resolution() <= usize::BITS
        &&& (bits.len() / vsize) * self.resolution() <= max_bits()
    }

    open spec fn encoded_bits(&self, bits: Seq<bool>, vsize: nat) -> Seq<bool> {
        encode_values(bits, vsize, |value: Seq<bool>| linear_code(value, self.resolution()))
    }

    open spec fn encoded_vsize(&self, bits: Seq<bool>, vsize: nat) -> nat {
        self.resolution()
    }

    fn encode_inplace<L: Copy>(&self, sample: &mut Sample<L>) {
        let resolution = self.resolution as usize;
        let width = sample.vsize();
        let total = sample.len();
        let count = total / width;
        let ghost all = sample@.bits;
        let ghost chunks = chunks_of(all, width as nat);
        let ghost code = |value: Seq<bool>| linear_code(value, self.resolution());
        proof {
            lemma_chunk_count(total as nat, width as nat);
        }
        let mut bits = raw_with_capacity(count * resolution);
        let mut k: usize = 0;
        let mut from: usize = 0;
        while k < count
            invariant
                k <= count,
                0 < width <= usize::BITS,
                0 < resolution <= usize::BITS,
                resolution == self.resolution(),
                total == all.len(),
                all == sample@.bits,
                chunks == chunks_of(all, width as nat),
                chunks.len() == count,
                code == |value: Seq<bool>| linear_code(value, self.resolution()),
                count * width == total,
                count * resolution <= max_bits(),
                from == k * width,
                bits_of(bits) == joined(chunks.take(k as int).map_values(code)),
                bits_of(bits).len() == k * resolution,
            decreases count - k,
        {
            proof {
                lemma_chunk_bounds(k as nat, count as nat, width as nat);
                lemma_chunk_bounds(k as nat, count as nat, resolution as nat);
            }
            let value = raw_load(sample.raw_bits(), from, from + width);
            let ghost chunk = chunks[k as int];
            assert(chunk == all.subrange(from as int, from + width));
            proof {
                lemma_value_of_bound(chunk);
            }
            let level = linear_quantize(value, width, resolution);
            assert(level == linear_level(value_of(chunk), chunk.len(), resolution as nat));
            let word = thermometer_word(level);
            raw_extend(&mut bits, word, 0, resolution);
            proof {
                assert(crate::word::low_bits(word as nat, 0, resolution as nat) == code(chunk));
                lemma_encode_step(chunks, code, k as int);
            }
            k += 1;
            from += width;
        }
        proof {
            assert(chunks.take(k as int) =~= chunks);
            let coded = chunks.map_values(code);
            lemma_joined_len(coded, resolution as nat);
            lemma_multiple_divides(count as nat, resolution as nat);
        }
        sample.set_values(bits, resolution);
    }
}

/// A number holds a positive number at least once.
pub proof fn lemma_ratio_positive(whole: nat, part: nat)
    requires
        0 < part <= whole,
    ensures
        whole / part >= 1,
{
    lemma_div_is_ordered(part as int, whole as int, part as int);
    assert(part as int / part as int == 1) by (nonlinear_arith)
        requires
            part > 0,
    ;
}

/// The linear level is the whole number nearest to the exact quotient, and
/// the lower of the two where the quotient lies half-way between them.
pub proof fn lemma_linear_level_is_nearest(value: nat, vsize: nat, resolution: nat)
    requires
        vsize >= 1,
    ensures
        ({
            let exact = (resolution + 1) * value;
            let unit = pow2(vsize);
            let level = linear_level(value, vsize, resolution);
            2 * exact - unit <= 2 * (level * unit) < 2 * exact + unit
        }),
{
    let exact = ((resolution + 1) * value) as int;
    let unit = pow2(vsize) as int;
    let half = pow2((vsize - 1) as nat) as int;
    let level = linear_level(value, vsize, resolution) as int;
    lemma_pow2_pos(vsize);
    vstd::arithmetic::power2::lemma_pow2_unfold(vsize);
    assert(unit == 2 * half);
    let sum = exact + half - 1;
    assert(sum >= 0) by {
        lemma_pow2_pos((vsize - 1) as nat);
        assert(exact >= 0) by (nonlinear_arith)
            requires
                exact == (resolution + 1) * value,
        ;
    }
    vstd::arithmetic::div_mod::lemma_fundamental_div_mod(sum, unit);
    vstd::arithmetic::div_mod::lemma_mod_bound(sum, unit);
    assert(level == sum / unit);
    assert(unit * level == level * unit) by (nonlinear_arith);
}

/// The linear level of a word of `width` bits on a scale of `resolution`
/// steps.
pub fn linear_quantize(value: usize, width: usize, resolution: usize) -> (level: usize)
    requires
        width <= usize::BITS,
        resolution <= usize::BITS,
        value < pow2(width as nat),
    ensures
        level == linear_level(value as nat, width as nat, resolution as nat),
{
    let ghost unit = pow2(width as nat) as int;
    proof {
        lemma2_to64();
        lemma2_to64_rest();
        lemma_pow2_pos(width as nat);
    }
    let half = if width == 0 {
        0
    } else {
        proof {
            vstd::arithmetic::power2::lemma_pow2_unfold(width as nat);
        }
        thermometer_word(width - 1)
    };
    assert(half == half_down(width as nat));
    assert(half < unit);
    assert((resolution + 1) * value <= 65 * 0xffff_ffff_ffff_ffff) by (nonlinear_arith)
        requires
            resolution <= 64,
            value <= 0xffff_ffff_ffff_ffff,
    ;
    assert(0 <= (resolution + 1) * value + half <= 66 * unit) by (nonlinear_arith)
        requires
            0 <= resolution <= 64,
            0 <= value < unit,
            0 <= half < unit,
    ;
    let scaled: u128 = (resolution as u128 + 1) * (value as u128) + (half as u128);
    let shifted: u128 = scaled >> (width as u128);
    proof {
        lemma_u128_shr_is_div(scaled, width as u128);
        assert(shifted == scaled as nat / pow2(width as nat));
        lemma_div_is_ordered(scaled as int, 66 * unit, unit);
        vstd::arithmetic::div_mod::lemma_div_multiples_vanish(66, unit);
        assert((66 * unit) / unit == 66) by {
            assert(66 * unit == unit * 66) by (nonlinear_arith);
        }
    }
    shifted as usize
}

/// A greater value never has a logarithmic thermometer code with fewer set
/// bits, for values of one width and one resolution.
pub proof fn lemma_log_thermometer_monotonic(lower: Seq<bool>, higher: Seq<bool>, resolution: nat)
    requires
        lower.len() == higher.len(),
        resolution > 0,
        value_of(lower) < value_of(higher),
    ensures
        ones(log_code(lower, resolution)) <= ones(log_code(higher, resolution)),
{
    let vsize = lower.len();
    assert(vsize > 0) by {
        if vsize == 0 {
            assert(value_of(lower) == 0 && value_of(higher) == 0);
        }
    }
    let a = bit_length(value_of(lower));
    let b = bit_length(value_of(higher));
    lemma_bit_length_monotonic(value_of(lower), value_of(higher));
    if vsize < resolution {
        let ratio = resolution / vsize;
        assert(a * ratio <= b * ratio) by (nonlinear_arith)
            requires
                a <= b,
                ratio >= 0,
        ;
    } else {
        let ratio = vsize / resolution;
        assert(ratio > 0) by {
            lemma_div_is_ordered(resolution as int, vsize as int, resolution as int);
            assert(resolution as int / resolution as int == 1) by (nonlinear_arith)
                requires
                    resolution > 0,
            ;
        }
        lemma_div_is_ordered(a as int, b as int, ratio as int);
    }
    lemma_thermometer_ones(log_level(value_of(lower), vsize, resolution), resolution);
    lemma_thermometer_ones(log_level(value_of(higher), vsize, resolution), resolution);
}

/// A greater value never has a linear thermometer code with fewer set bits,
/// for values of one width and one resolution.
pub proof fn lemma_linear_thermometer_monotonic(
    lower: Seq<bool>,
    higher: Seq<bool>,
    resolution: nat,
)
    requires
        lower.len() == higher.len(),
        value_of(lower) < value_of(higher),
    ensures
        ones(linear_code(lower, resolution)) <= ones(linear_code(higher, resolution)),
{
    let vsize = lower.len();
    let a = value_of(lower);
    let b = value_of(higher);
    let half = half_down(vsize);
    lemma_pow2_pos(vsize);
    assert(0 <= (resolution + 1) * a + half <= (resolution + 1) * b + half)
        by (nonlinear_arith)
        requires
            0 <= a <= b,
            0 <= half,
            0 <= resolution,
    ;
    lemma_div_is_ordered(
        ((resolution + 1) * a + half) as int,
        ((resolution + 1) * b + half) as int,
        pow2(vsize) as int,
    );
    lemma_thermometer_ones(linear_level(a, vsize, resolution), resolution);
    lemma_thermometer_ones(linear_level(b, vsize, resolution), resolution);
}

} // verus!
