//! The hasher for primitive unsigned values.

use vstd::prelude::*;

verus! {

/// A hasher that only accepts primitive unsigned values and uses their raw
/// values as indices: it takes one value, once, and gives it back as the
/// hash.
#[derive(Copy, Clone, Debug)]
pub struct PrimitiveHasher(Option<u64>);

impl Default for PrimitiveHasher {
    fn default() -> (hasher: Self)
        ensures
            hasher.hashed() is None,
    {
        Self(None)
    }
}

impl PrimitiveHasher {
    /// The value that the hasher has taken, if any.
    pub closed spec fn hashed(&self) -> Option<u64> {
        self.0
    }

    /// The value that the hasher has taken.
    pub fn finish(&self) -> (hash: u64)
        requires
            self.hashed() is Some,
        ensures
            Some(hash) == self.hashed(),
    {
        self.0.unwrap()
    }

    /// Takes `i`, which must be the first value offered.
    pub fn write_u64(&mut self, i: u64)
        requires
            old(self).hashed() is None,
        ensures
            final(self).hashed() == Some(i),
    {
        self.0 = Some(i);
    }

    /// Takes `i`, which must be the first value offered.
    pub fn write_u8(&mut self, i: u8)
        requires
            old(self).hashed() is None,
        ensures
            final(self).hashed() == Some(i as u64),
    {
        self.write_u64(i as u64)
    }

    /// Takes `i`, which must be the first value offered.
    pub fn write_u16(&mut self, i: u16)
        requires
            old(self).hashed() is None,
        ensures
            final(self).hashed() == Some(i as u64),
    {
        self.write_u64(i as u64)
    }

    /// Takes `i`, which must be the first value offered.
    pub fn write_u32(&mut self, i: u32)
        requires
            old(self).hashed() is None,
        ensures
            final(self).hashed() == Some(i as u64),
    {
        self.write_u64(i as u64)
    }

    /// Takes `i`, which must be the first value offered.
    pub fn write_usize(&mut self, i: usize)
        requires
            old(self).hashed() is None,
        ensures
            final(self).hashed() == Some(i as u64),
    {
        self.write_u64(i as u64)
    }
}

} // verus!
