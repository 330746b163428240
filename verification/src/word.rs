//! Machine words read as little-endian bit strings: what a run of bits is
//! worth as a number, and which bits a number is made of.

use vstd::arithmetic::div_mod::{lemma_div_denominator, lemma_mod_breakdown};
use vstd::arithmetic::power2::{
    lemma2_to64, lemma2_to64_rest, lemma_pow2_pos, lemma_pow2_unfold, pow2,
};
use vstd::bits::lemma_usize_shl_is_mul;
use vstd::prelude::*;

verus! {

/// Whether the bit of weight `2^i` is set in `value`.
pub open spec fn bit_at(value: nat, i: nat) -> bool {
    (value / pow2(i)) % 2 == 1
}

/// The bits of `value` at positions `start..end`, lowest position first.
pub open spec fn low_bits(value: nat, start: nat, end: nat) -> Seq<bool> {
    Seq::new((end - start) as nat, |k: int| bit_at(value, (start + k) as nat))
}

/// The number that `bits` spells when position `i` has weight `2^i`.
pub open spec fn value_of(bits: Seq<bool>) -> nat
    decreases bits.len(),
{
    if bits.len() == 0 {
        0
    } else {
        2 * value_of(bits.drop_first()) + if bits[0] { 1nat } else { 0nat }
    }
}

/// The unary code of `width` bits in which the first `level` are set.
pub open spec fn thermometer(level: nat, width: nat) -> Seq<bool> {
    Seq::new(width, |j: int| j < level)
}

/// How many bits of `bits` are set.
pub open spec fn ones(bits: Seq<bool>) -> nat
    decreases bits.len(),
{
    if bits.len() == 0 {
        0
    } else {
        ones(bits.drop_last()) + if bits.last() { 1nat } else { 0nat }
    }
}

/// The number of binary digits of `value`: the position after its highest
/// set bit, and 0 for 0.
pub open spec fn bit_length(value: nat) -> nat
    decreases value,
{
    if value == 0 {
        0
    } else {
        1 + bit_length(value / 2)
    }
}

/// A thermometer code has as many set bits as its level, up to its width.
pub proof fn lemma_thermometer_ones(level: nat, width: nat)
    ensures
        ones(thermometer(level, width)) == if level <= width { level } else { width },
    decreases width,
{
    if width > 0 {
        lemma_thermometer_ones(level, (width - 1) as nat);
        assert(thermometer(level, width).drop_last() =~= thermometer(level, (width - 1) as nat));
    }
}

/// A number below `2^n` has at most `n` binary digits.
pub proof fn lemma_bit_length_bound(value: nat, n: nat)
    requires
        value < pow2(n),
    ensures
        bit_length(value) <= n,
    decreases value,
{
    lemma2_to64();
    if value > 0 {
        lemma_pow2_unfold(n);
        lemma_bit_length_bound(value / 2, (n - 1) as nat);
    }
}

/// A greater number has no fewer binary digits.
pub proof fn lemma_bit_length_monotonic(lower: nat, higher: nat)
    requires
        lower <= higher,
    ensures
        bit_length(lower) <= bit_length(higher),
    decreases higher,
{
    if lower > 0 {
        lemma_bit_length_monotonic(lower / 2, higher / 2);
    }
}

/// The number of binary digits of a machine word.
pub fn word_bit_length(value: usize) -> (n: usize)
    ensures
        n == bit_length(value as nat),
        n <= usize::BITS,
{
    let mut rest = value;
    let mut n: usize = 0;
    proof {
        lemma_word_max();
        lemma_bit_length_bound(value as nat, usize::BITS as nat);
    }
    while rest > 0
        invariant
            bit_length(value as nat) == n + bit_length(rest as nat),
            bit_length(value as nat) <= usize::BITS,
        decreases rest,
    {
        rest = rest / 2;
        n += 1;
    }
    n
}

/// A run of unset bits spells 0.
pub proof fn lemma_value_of_zeros(bits: Seq<bool>)
    requires
        forall|i: int| 0 <= i < bits.len() ==> !bits[i],
    ensures
        value_of(bits) == 0,
    decreases bits.len(),
{
    if bits.len() > 0 {
        lemma_value_of_zeros(bits.drop_first());
    }
}

/// Halving a number moves every bit one position down.
pub proof fn lemma_bit_at_succ(value: nat, i: nat)
    ensures
        bit_at(value, i + 1) == bit_at(value / 2, i),
{
    lemma_pow2_pos(i);
    lemma_pow2_unfold(i + 1);
    lemma_div_denominator(value as int, 2, pow2(i) as int);
}

/// A run of `n` bits spells a number below `2^n`.
pub proof fn lemma_value_of_bound(bits: Seq<bool>)
    ensures
        value_of(bits) < pow2(bits.len()),
    decreases bits.len(),
{
    if bits.len() == 0 {
        lemma2_to64();
    } else {
        lemma_value_of_bound(bits.drop_first());
        lemma_pow2_unfold(bits.len());
    }
}

/// The bits of the number that a run spells are the run itself, followed by
/// zeros.
pub proof fn lemma_bit_of_value(bits: Seq<bool>, i: nat)
    ensures
        bit_at(value_of(bits), i) == (i < bits.len() && bits[i as int]),
    decreases i,
{
    lemma2_to64();
    if bits.len() == 0 {
        lemma_pow2_pos(i);
        assert(0int / (pow2(i) as int) == 0) by (nonlinear_arith)
            requires
                pow2(i) > 0,
        ;
    } else if i == 0 {
    } else {
        let rest = bits.drop_first();
        lemma_bit_at_succ(value_of(bits), (i - 1) as nat);
        assert(value_of(bits) / 2 == value_of(rest));
        lemma_bit_of_value(rest, (i - 1) as nat);
    }
}

/// Reading back the low `n` bits of a number gives the number modulo `2^n`.
pub proof fn lemma_value_of_low_bits(value: nat, n: nat)
    ensures
        value_of(low_bits(value, 0, n)) == value % pow2(n),
    decreases n,
{
    lemma2_to64();
    if n == 0 {
    } else {
        let bits = low_bits(value, 0, n);
        let rest = low_bits(value / 2, 0, (n - 1) as nat);
        assert(bits.drop_first() =~= rest) by {
            assert forall|k: int| 0 <= k < n - 1 implies bits.drop_first()[k] == rest[k] by {
                lemma_bit_at_succ(value, k as nat);
            }
        }
        lemma_value_of_low_bits(value / 2, (n - 1) as nat);
        lemma_pow2_pos((n - 1) as nat);
        lemma_pow2_unfold(n);
        lemma_mod_breakdown(value as int, 2, pow2((n - 1) as nat) as int);
        assert(pow2(0) == 1);
        assert(bits[0] == bit_at(value, 0));
        assert(bits[0] == (value % 2 == 1));
    }
}

/// A number below `2^n` is what its low `n` bits spell.
pub proof fn lemma_low_bits_round_trip(value: nat, n: nat)
    requires
        value < pow2(n),
    ensures
        value_of(low_bits(value, 0, n)) == value,
{
    lemma_value_of_low_bits(value, n);
    assert(value as int % (pow2(n) as int) == value) by (nonlinear_arith)
        requires
            0 <= value < pow2(n),
    ;
}

/// The number `2^level - 1` has exactly its `level` lowest bits set.
pub proof fn lemma_bits_of_mask(level: nat, j: nat)
    ensures
        bit_at((pow2(level) - 1) as nat, j) == (j < level),
    decreases j,
{
    lemma2_to64();
    lemma_pow2_pos(level);
    let mask = (pow2(level) - 1) as nat;
    if level == 0 {
        assert(mask == 0);
        lemma_pow2_pos(j);
        assert(0int / (pow2(j) as int) == 0) by (nonlinear_arith)
            requires
                pow2(j) > 0,
        ;
        assert(!bit_at(mask, j));
    } else {
        lemma_pow2_unfold(level);
        lemma_pow2_pos((level - 1) as nat);
        let half = (pow2((level - 1) as nat) - 1) as nat;
        assert(mask == 2 * half + 1);
        assert(mask / 2 == half && mask % 2 == 1);
        if j > 0 {
            let below = (j - 1) as nat;
            lemma_bit_at_succ(mask, below);
            lemma_bits_of_mask((level - 1) as nat, below);
            assert(bit_at(mask, below + 1) == bit_at(half, below));
            assert(below + 1 == j);
        } else {
            assert(pow2(0) == 1);
            assert(mask as int / 1 == mask);
            assert(bit_at(mask, 0));
        }
    }
}

/// The largest machine word is `2^BITS - 1`.
pub proof fn lemma_word_max()
    ensures
        usize::MAX == pow2(usize::BITS as nat) - 1,
{
    lemma2_to64();
    lemma2_to64_rest();
}

/// The word whose `level` lowest bits are set, and all of them where `level`
/// reaches the word's width.
pub fn thermometer_word(level: usize) -> (code: usize)
    ensures
        code == pow2(if level < usize::BITS { level as nat } else { usize::BITS as nat }) - 1,
        forall|width: nat|
            width <= usize::BITS ==> #[trigger] low_bits(code as nat, 0, width) == thermometer(
                level as nat,
                width,
            ),
{
    let code = if level >= usize::BITS as usize {
        usize::MAX
    } else {
        proof {
            vstd::bits::lemma_usize_pow2_no_overflow(level as nat);
            lemma_usize_shl_is_mul(1, level);
        }
        (1usize << level) - 1
    };
    proof {
        lemma_word_max();
        let top: nat = if level >= usize::BITS { usize::BITS as nat } else { level as nat };
        assert(code == pow2(top) - 1);
        assert forall|width: nat| width <= usize::BITS implies #[trigger] low_bits(
            code as nat,
            0,
            width,
        ) == thermometer(level as nat, width) by {
            assert forall|j: int| 0 <= j < width implies low_bits(code as nat, 0, width)[j] == (j
                < level) by {
                lemma_bits_of_mask(top, j as nat);
            }
            assert(low_bits(code as nat, 0, width) =~= thermometer(level as nat, width));
        }
    }
    code
}

} // verus!
