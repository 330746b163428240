//! The bit buffer that samples and packed tables are stored in, and the
//! handful of operations on it that the rest of the library is built from.

use crate::word::{low_bits, value_of};
use bitvec::order::Lsb0;
use bitvec::vec::BitVec;
use bitvec::view::BitView;
use vstd::prelude::*;

verus! {

/// A growable bit buffer: a `bitvec::vec::BitVec` over machine words in
/// which position `i` of a word is its bit of weight `2^i`.
#[verifier::external_body]
#[derive(Debug, PartialEq, Eq, Hash)]
pub struct Bits {
    raw: BitVec<usize, Lsb0>,
}

/// The bits that a buffer holds, first position first.
pub uninterp spec fn bits_of(buffer: Bits) -> Seq<bool>;

/// The longest run of bits that one buffer can hold.
pub open spec fn max_bits() -> nat {
    (usize::MAX / 8) as nat
}

/// `BitVec::len`: the number of bits held, which never exceeds what a buffer
/// can address.
#[verifier::external_body]
pub(crate) fn raw_len(buffer: &Bits) -> (n: usize)
    ensures
        n == bits_of(*buffer).len(),
        n <= max_bits(),
{
    buffer.raw.len()
}

/// `BitVec::with_capacity`: an empty buffer with room reserved.
#[verifier::external_body]
pub(crate) fn raw_with_capacity(capacity: usize) -> (buffer: Bits)
    requires
        capacity <= max_bits(),
    ensures
        bits_of(buffer) == Seq::<bool>::empty(),
{
    Bits { raw: BitVec::with_capacity(capacity) }
}

/// `BitVec::repeat`: `len` copies of one bit.
#[verifier::external_body]
pub(crate) fn raw_repeat(bit: bool, len: usize) -> (buffer: Bits)
    requires
        len <= max_bits(),
    ensures
        bits_of(buffer) == Seq::new(len as nat, |i: int| bit),
{
    Bits { raw: BitVec::repeat(bit, len) }
}

/// `BitVec::push`: one more bit at the end.
#[verifier::external_body]
pub(crate) fn raw_push(buffer: &mut Bits, bit: bool)
    requires
        bits_of(*old(buffer)).len() < max_bits(),
    ensures
        bits_of(*final(buffer)) == bits_of(*old(buffer)).push(bit),
{
    buffer.raw.push(bit)
}

/// Indexing a `BitVec` by position: the bit held there.
#[verifier::external_body]
pub(crate) fn raw_get(buffer: &Bits, index: usize) -> (bit: bool)
    requires
        index < bits_of(*buffer).len(),
    ensures
        bit == bits_of(*buffer)[index as int],
{
    buffer.raw[index]
}

/// `BitSlice::swap`: the bits at two positions change places.
#[verifier::external_body]
pub(crate) fn raw_swap(buffer: &mut Bits, a: usize, b: usize)
    requires
        a < bits_of(*old(buffer)).len(),
        b < bits_of(*old(buffer)).len(),
    ensures
        bits_of(*final(buffer)) == bits_of(*old(buffer)).update(
            a as int,
            bits_of(*old(buffer))[b as int],
        ).update(b as int, bits_of(*old(buffer))[a as int]),
{
    buffer.raw.swap(a, b)
}

/// `BitSlice::clone_from_bitslice` into the low end of a zeroed word, seen
/// through `BitView::view_bits_mut`: the number that the bits at positions
/// `start..end` spell.
#[verifier::external_body]
pub(crate) fn raw_load(buffer: &Bits, start: usize, end: usize) -> (value: usize)
    requires
        start <= end <= bits_of(*buffer).len(),
        end - start <= usize::BITS,
    ensures
        value == value_of(bits_of(*buffer).subrange(start as int, end as int)),
{
    let mut value = 0usize;
    let part = &buffer.raw[start..end];
    value.view_bits_mut::<Lsb0>()[..part.len()].clone_from_bitslice(part);
    value
}

/// `BitVec::extend_from_bitslice` with a range of a word seen through
/// `BitView::view_bits`: bits `start..end` of `value` are appended.
#[verifier::external_body]
pub(crate) fn raw_extend(buffer: &mut Bits, value: usize, start: usize, end: usize)
    requires
        start <= end <= usize::BITS,
        bits_of(*old(buffer)).len() + (end - start) <= max_bits(),
    ensures
        bits_of(*final(buffer)) == bits_of(*old(buffer)) + low_bits(
            value as nat,
            start as nat,
            end as nat,
        ),
{
    buffer.raw.extend_from_bitslice(&value.view_bits::<Lsb0>()[start..end])
}

/// `BitSlice::clone_from_bitslice` onto a range of the buffer: the low bits
/// of `value` replace the bits at positions `start..end`, and no other bit
/// changes.
#[verifier::external_body]
pub(crate) fn raw_store(buffer: &mut Bits, start: usize, end: usize, value: usize)
    requires
        start <= end <= bits_of(*old(buffer)).len(),
        end - start <= usize::BITS,
    ensures
        bits_of(*final(buffer)) == bits_of(*old(buffer)).subrange(0, start as int) + low_bits(
            value as nat,
            0,
            (end - start) as nat,
        ) + bits_of(*old(buffer)).subrange(end as int, bits_of(*old(buffer)).len() as int),
{
    let part = &mut buffer.raw[start..end];
    let width = part.len();
    part.clone_from_bitslice(&value.view_bits::<Lsb0>()[..width])
}

/// `BitSlice::to_bitvec`: a buffer of its own holding positions `start..end`.
#[verifier::external_body]
pub(crate) fn raw_slice(buffer: &Bits, start: usize, end: usize) -> (part: Bits)
    requires
        start <= end <= bits_of(*buffer).len(),
    ensures
        bits_of(part) == bits_of(*buffer).subrange(start as int, end as int),
{
    Bits { raw: buffer.raw[start..end].to_bitvec() }
}

impl Bits {
    /// A buffer that holds no bit.
    pub fn new() -> (buffer: Self)
        ensures
            bits_of(buffer) == Seq::<bool>::empty(),
    {
        raw_with_capacity(0)
    }

    /// A buffer that holds `values`, in their order.
    pub fn from_bools(values: &Vec<bool>) -> (buffer: Self)
        requires
            values.len() <= max_bits(),
        ensures
            bits_of(buffer) == values@,
    {
        let mut buffer = raw_with_capacity(values.len());
        let mut i: usize = 0;
        while i < values.len()
            invariant
                i <= values.len() <= max_bits(),
                bits_of(buffer) == values@.take(i as int),
            decreases values.len() - i,
        {
            raw_push(&mut buffer, values[i]);
            i += 1;
            assert(bits_of(buffer) =~= values@.take(i as int));
        }
        assert(values@.take(i as int) =~= values@);
        buffer
    }

    /// The bits held, in their order.
    pub fn to_bools(&self) -> (values: Vec<bool>)
        ensures
            values@ == bits_of(*self),
    {
        let n = raw_len(self);
        let mut values: Vec<bool> = Vec::with_capacity(n);
        let mut i: usize = 0;
        while i < n
            invariant
                i <= n == bits_of(*self).len(),
                values@ == bits_of(*self).take(i as int),
            decreases n - i,
        {
            values.push(raw_get(self, i));
            i += 1;
            assert(values@ =~= bits_of(*self).take(i as int));
        }
        assert(bits_of(*self).take(i as int) =~= bits_of(*self));
        values
    }

    /// The number of bits held.
    pub fn len(&self) -> (n: usize)
        ensures
            n == bits_of(*self).len(),
            n <= max_bits(),
    {
        raw_len(self)
    }

    /// Whether the buffer holds no bit.
    pub fn is_empty(&self) -> (empty: bool)
        ensures
            empty == (bits_of(*self).len() == 0),
    {
        raw_len(self) == 0
    }

    /// The bit at `index`, or nothing where the buffer ends before it.
    pub fn get(&self, index: usize) -> (bit: Option<bool>)
        ensures
            bit == if index < bits_of(*self).len() {
                Some(bits_of(*self)[index as int])
            } else {
                None
            },
    {
        if index < raw_len(self) {
            Some(raw_get(self, index))
        } else {
            None
        }
    }

    /// The number that the whole buffer spells, first position lowest, or
    /// nothing where it is longer than a machine word.
    pub fn value(&self) -> (value: Option<usize>)
        ensures
            value == if bits_of(*self).len() <= usize::BITS {
                Some(value_of(bits_of(*self)) as usize)
            } else {
                None
            },
            bits_of(*self).len() <= usize::BITS ==> value_of(bits_of(*self)) <= usize::MAX,
    {
        let n = raw_len(self);
        if n <= usize::BITS as usize {
            let value = raw_load(self, 0, n);
            assert(bits_of(*self).subrange(0, n as int) =~= bits_of(*self));
            Some(value)
        } else {
            None
        }
    }
}

impl Clone for Bits {
    fn clone(&self) -> (copy: Self)
        ensures
            bits_of(copy) == bits_of(*self),
    {
        let copy = raw_slice(self, 0, raw_len(self));
        assert(bits_of(copy) =~= bits_of(*self));
        copy
    }
}

} // verus!
