//! The identity-style hasher state used for Morton addresses: the last
//! value written is returned by `finish` unmixed. Morton addresses hash by
//! their significant bits with a marker bit (see `MortonRegion::hash_bits`),
//! which are already well-distributed bit patterns from spatial subdivision,
//! so avalanche mixing would be redundant overhead. Valid only for inputs
//! with that near-uniform distribution, and not for anything wider than 64
//! bits. State is local and single-use per hashed value.

use vstd::prelude::*;

verus! {

/// A passthrough hasher: holds the one value written to it.
#[derive(Debug, Clone, Copy)]
pub struct PassthroughHash {
    value: u64,
}

impl Default for PassthroughHash {
    /// A fresh hasher with nothing written yet.
    fn default() -> (r: Self)
        ensures
            r.spec_value() == 0,
    {
        PassthroughHash { value: 0 }
    }
}

impl PassthroughHash {
    /// The value written so far, returned by `finish` unchanged.
    pub closed spec fn spec_value(self) -> u64 {
        self.value
    }

    /// The hash: the written value, unmixed.
    pub fn finish(&self) -> (r: u64)
        ensures
            r == self.spec_value(),
    {
        self.value
    }

    /// Takes the first byte of the slice as the value.
    pub fn write(&mut self, bytes: &[u8])
        requires
            bytes@.len() >= 1,
        ensures
            final(self).spec_value() == bytes@[0] as u64,
    {
        self.value = bytes[0] as u64;
    }

    /// Takes the byte as the value.
    pub fn write_u8(&mut self, i: u8)
        ensures
            final(self).spec_value() == i as u64,
    {
        self.value = i as u64;
    }

    /// Takes the word as the value.
    pub fn write_u16(&mut self, i: u16)
        ensures
            final(self).spec_value() == i as u64,
    {
        self.value = i as u64;
    }

    /// Takes the word as the value.
    pub fn write_u32(&mut self, i: u32)
        ensures
            final(self).spec_value() == i as u64,
    {
        self.value = i as u64;
    }

    /// Takes the word as the value: the one write the Morton map performs.
    pub fn write_u64(&mut self, i: u64)
        ensures
            final(self).spec_value() == i,
    {
        self.value = i;
    }

    /// Truncates the word to its low 64 bits.
    pub fn write_u128(&mut self, i: u128)
        ensures
            final(self).spec_value() == i as u64,
    {
        self.value = i as u64;
    }

    /// Takes the word as the value.
    pub fn write_usize(&mut self, i: usize)
        ensures
            final(self).spec_value() == i as u64,
    {
        self.value = i as u64;
    }

    /// Reinterprets the signed byte's bits, sign-extended to 64 bits.
    pub fn write_i8(&mut self, i: i8)
        ensures
            final(self).spec_value() == i as u64,
    {
        self.value = i as u64;
    }

    /// Reinterprets the signed word's bits, sign-extended to 64 bits.
    pub fn write_i16(&mut self, i: i16)
        ensures
            final(self).spec_value() == i as u64,
    {
        self.value = i as u64;
    }

    /// Reinterprets the signed word's bits, sign-extended to 64 bits.
    pub fn write_i32(&mut self, i: i32)
        ensures
            final(self).spec_value() == i as u64,
    {
        self.value = i as u64;
    }

    /// Reinterprets the signed word's bits.
    pub fn write_i64(&mut self, i: i64)
        ensures
            final(self).spec_value() == i as u64,
    {
        self.value = i as u64;
    }

    /// Truncates the signed word to its low 64 bits.
    pub fn write_i128(&mut self, i: i128)
        ensures
            final(self).spec_value() == i as u64,
    {
        self.value = i as u64;
    }

    /// Reinterprets the signed word's bits.
    pub fn write_isize(&mut self, i: isize)
        ensures
            final(self).spec_value() == i as u64,
    {
        self.value = i as u64;
    }
}

} // verus!
