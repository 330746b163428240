//! Saturating counters, and the hasher that takes an integer for its own
//! hash.

use vstd::prelude::*;

verus! {

/// A primitive unsigned integer used as a saturating counter.
pub trait Counter: Copy {
    /// The number that the counter stands at.
    spec fn count(self) -> nat;

    /// The highest number that a counter of this type can stand at.
    spec fn limit() -> nat;

    /// No counter stands above the limit of its type.
    proof fn lemma_count_bounded(self)
        ensures
            self.count() <= Self::limit(),
    ;

    /// The counter that stands at 0.
    fn zero() -> (counter: Self)
        ensures
            counter.count() == 0,
    ;

    /// The counter one higher, or the same where it stands at the limit.
    fn saturating_succ(self) -> (counter: Self)
        ensures
            counter.count() == if self.count() < Self::limit() {
                self.count() + 1
            } else {
                Self::limit()
            },
    ;

    /// Whether the counter stands above `other`.
    fn exceeds(self, other: Self) -> (above: bool)
        ensures
            above == (self.count() > other.count()),
    ;

    /// The number that the counter stands at, as a machine word.
    fn into_usize(self) -> (count: usize)
        ensures
            count == self.count(),
    ;
}

impl Counter for u8 {
    open spec fn count(self) -> nat {
        self as nat
    }

    open spec fn limit() -> nat {
        u8::MAX as nat
    }

    proof fn lemma_count_bounded(self) {
    }

    fn zero() -> Self {
        0
    }

    fn saturating_succ(self) -> Self {
        if self < u8::MAX {
            self + 1
        } else {
            self
        }
    }

    fn exceeds(self, other: Self) -> bool {
        self > other
    }

    fn into_usize(self) -> usize {
        self as usize
    }
}

impl Counter for u16 {
    open spec fn count(self) -> nat {
        self as nat
    }

    open spec fn limit() -> nat {
        u16::MAX as nat
    }

    proof fn lemma_count_bounded(self) {
    }

    fn zero() -> Self {
        0
    }

    fn saturating_succ(self) -> Self {
        if self < u16::MAX {
            self + 1
        } else {
            self
        }
    }

    fn exceeds(self, other: Self) -> bool {
        self > other
    }

    fn into_usize(self) -> usize {
        self as usize
    }
}

impl Counter for usize {
    open spec fn count(self) -> nat {
        self as nat
    }

    open spec fn limit() -> nat {
        usize::MAX as nat
    }

    proof fn lemma_count_bounded(self) {
    }

    fn zero() -> Self {
        0
    }

    fn saturating_succ(self) -> Self {
        if self < usize::MAX {
            self + 1
        } else {
            self
        }
    }

    fn exceeds(self, other: Self) -> bool {
        self > other
    }

    fn into_usize(self) -> usize {
        self
    }
}

/// A hasher that only accepts integers and uses their raw values as indices:
/// it takes one integer, once, and gives it back as the hash.
#[derive(Copy, Clone, Debug)]
pub struct RawIntHasher(Option<u64>);

impl Default for RawIntHasher {
    fn default() -> (hasher: Self)
        ensures
            hasher.hashed() is None,
    {
        Self(None)
    }
}

impl RawIntHasher {
    /// The integer that the hasher has taken, if any.
    pub closed spec fn hashed(&self) -> Option<u64> {
        self.0
    }

    /// The integer that the hasher has taken.
    pub fn finish(&self) -> (hash: u64)
        requires
            self.hashed() is Some,
        ensures
            Some(hash) == self.hashed(),
    {
        self.0.unwrap()
    }

    /// Takes `i`, which must be the first integer offered.
    pub fn write_u64(&mut self, i: u64)
        requires
            old(self).hashed() is None,
        ensures
            final(self).hashed() == Some(i),
    {
        self.0 = Some(i);
    }

    /// Takes `i`, which must be the first integer offered.
    pub fn write_u32(&mut self, i: u32)
        requires
            old(self).hashed() is None,
        ensures
            final(self).hashed() == Some(i as u64),
    {
        self.write_u64(i as u64)
    }

    /// Takes `i`, which must be the first integer offered.
    pub fn write_u16(&mut self, i: u16)
        requires
            old(self).hashed() is None,
        ensures
            final(self).hashed() == Some(i as u64),
    {
        self.write_u64(i as u64)
    }

    /// Takes `i`, which must be the first integer offered.
    pub fn write_u8(&mut self, i: u8)
        requires
            old(self).hashed() is None,
        ensures
            final(self).hashed() == Some(i as u64),
    {
        self.write_u64(i as u64)
    }

    /// Takes `i`, which must be the first integer offered.
    pub fn write_usize(&mut self, i: usize)
        requires
            old(self).hashed() is None,
        ensures
            final(self).hashed() == Some(i as u64),
    {
        self.write_u64(i as u64)
    }
}

/// The table index that an address hashes to: the address itself.
pub fn raw_index(address: usize) -> (index: usize)
    ensures
        index == address,
{
    let mut hasher = RawIntHasher::default();
    hasher.write_usize(address);
    let hash = hasher.finish();
    hash as usize
}

} // verus!
