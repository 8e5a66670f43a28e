//! The Morton (Z-order) spatial code: a 64-bit word whose bit 63 is
//! permanently reserved as zero and whose remaining 63 bits are 21
//! consecutive 3-bit octant triplets, most significant (coarsest) first.

use vstd::prelude::*;

verus! {

/// Number of octree levels a 64-bit code can hold: 21 triplets of 3 bits,
/// leaving bit 63 permanently zero.
pub const NUM_BITS_PER_DIM: usize = 64 / 3;

/// The 3-bit octant stored at depth `level` of `code`. Triplet 0 is the
/// most significant (coarsest); triplet 20 is the finest.
pub open spec fn triplet_of(code: u64, level: u64) -> u64
    recommends
        level < 21,
{
    (code >> ((3 * (20 - level)) as u64)) & 7
}

/// Mask over the bits that an address of depth `level` leaves unused:
/// every triplet at or beyond `level`. Bit 63 is not included; the
/// reserved-bit condition is stated separately.
pub open spec fn unused_mask(level: u64) -> u64
    recommends
        level <= 21,
{
    ((1u64 << ((3 * (21 - level)) as u64)) - 1) as u64
}

/// A Z-order (Morton) encoding: partitions a bounded space into finite,
/// localized boxes. Plain value type; no identity beyond its bits.
#[derive(Debug, Clone, Copy, PartialEq, Eq, Structural, PartialOrd, Ord, Hash)]
pub struct Morton(pub u64);

impl Morton {
    /// The reserved top bit is zero: every code produced by encoding
    /// satisfies this, and all triplet operations preserve it.
    pub open spec fn inv(self) -> bool {
        self.0 >> 63u64 == 0
    }

    /// The first `level` triplets of the code, shifted down to the low
    /// bits: the canonical form of a `level`-deep prefix.
    pub open spec fn spec_significant_bits(self, level: u64) -> u64
        recommends
            level <= 21,
    {
        self.0 >> ((3 * (21 - level)) as u64)
    }

    /// Discards all trailing unused bits, keeping only the `level`
    /// populated triplets.
    pub fn get_significant_bits(self, level: usize) -> (r: u64)
        requires
            level <= 21,
        ensures
            r == self.spec_significant_bits(level as u64),
    {
        self.0 >> ((3 * (21 - level)) as u64)
    }

    /// Reads the 3-bit octant at depth `level`, leaving the code untouched.
    pub fn get_level(self, level: usize) -> (r: usize)
        requires
            level < 21,
        ensures
            r as u64 == triplet_of(self.0, level as u64),
            r < 8,
    {
        let c: u64 = self.0;
        let sh: u64 = 3 * (20 - level as u64);
        let t: u64 = (c >> sh) & 7;
        proof {
            assert(t < 8) by (bit_vector)
                requires
                    t == (c >> sh) & 7,
            ;
        }
        t as usize
    }

    /// Overwrites exactly the 3-bit octant at depth `level` with `val`,
    /// leaving all other triplets and the reserved bit untouched.
    pub fn set_level(&mut self, level: usize, val: usize)
        requires
            level < 21,
            val < 8,
        ensures
            triplet_of(final(self).0, level as u64) == val as u64,
            forall|l: u64|
                l < 21 && l != level ==> triplet_of(final(self).0, l) == triplet_of(old(self).0, l),
            final(self).0 >> 63u64 == old(self).0 >> 63u64,
    {
        let c: u64 = self.0;
        let v: u64 = val as u64;
        let n: u64 = (c & !(0x7000_0000_0000_0000u64 >> (3 * level as u64))) | (v << (3 * (20
            - level as u64)));
        proof {
            assert forall|l: u64| l < 21 implies (l == level ==> triplet_of(n, l) == v) && (l
                != level ==> triplet_of(n, l) == triplet_of(c, l)) && n >> 63u64 == c
                >> 63u64 by {
                lemma_set_triplet(c, level as u64, v, n, l);
            }
        }
        self.0 = n;
    }

    /// Bitwise complement of the raw code.
    pub fn bit_not(self) -> (r: Morton)
        ensures
            r.0 == !self.0,
    {
        Morton(!self.0)
    }

    /// Bitwise conjunction of the raw codes: used with a mask to clear
    /// triplet groups.
    pub fn bit_and(self, other: Morton) -> (r: Morton)
        ensures
            r.0 == self.0 & other.0,
    {
        Morton(self.0 & other.0)
    }

    /// Bitwise disjunction of the raw codes: used to combine a cleared code
    /// with a new triplet.
    pub fn bit_or(self, other: Morton) -> (r: Morton)
        ensures
            r.0 == self.0 | other.0,
    {
        Morton(self.0 | other.0)
    }

    /// The raw code shifted left by `n` bits.
    pub fn shl(self, n: usize) -> (r: Morton)
        requires
            n < 64,
        ensures
            r.0 == self.0 << n,
    {
        Morton(self.0 << n)
    }

    /// The raw code shifted right by `n` bits: used to build masks such as
    /// "all triplets at or above a level".
    pub fn shr(self, n: usize) -> (r: Morton)
        requires
            n < 64,
        ensures
            r.0 == self.0 >> n,
    {
        Morton(self.0 >> n)
    }

    /// Zeroes exactly the 3-bit octant at depth `level`, leaving all other
    /// triplets and the reserved bit untouched.
    pub fn reset_level(&mut self, level: usize)
        requires
            level < 21,
        ensures
            triplet_of(final(self).0, level as u64) == 0,
            forall|l: u64|
                l < 21 && l != level ==> triplet_of(final(self).0, l) == triplet_of(old(self).0, l),
            final(self).0 >> 63u64 == old(self).0 >> 63u64,
    {
        let c: u64 = self.0;
        let n: u64 = c & !(0x7000_0000_0000_0000u64 >> (3 * level as u64));
        proof {
            assert forall|l: u64| l < 21 implies (l == level ==> triplet_of(n, l) == 0) && (l
                != level ==> triplet_of(n, l) == triplet_of(c, l)) && n >> 63u64 == c
                >> 63u64 by {
                lemma_reset_triplet(c, level as u64, n, l);
            }
        }
        self.0 = n;
    }
}

/// Overwriting the triplet at `level` changes that triplet to `val` and
/// nothing else: not the other twenty triplets, not the reserved bit.
proof fn lemma_set_triplet(c: u64, level: u64, val: u64, n: u64, l: u64)
    by (bit_vector)
    requires
        level < 21,
        val < 8,
        l < 21,
        n == (c & !(0x7000_0000_0000_0000u64 >> ((3 * level) as u64))) | (val << ((3 * (20
            - level)) as u64)),
    ensures
        l == level ==> triplet_of(n, l) == val,
        l != level ==> triplet_of(n, l) == triplet_of(c, l),
        n >> 63u64 == c >> 63u64,
{
}

/// A triplet is three bits: its value is always an octant below eight.
pub proof fn lemma_triplet_bound(c: u64, l: u64)
    by (bit_vector)
    requires
        l < 21,
    ensures
        triplet_of(c, l) < 8,
{
}

/// The significant bits of a code at depth `level` are a function of its
/// first `level` triplets and the reserved bit alone: bits beyond `level`
/// do not matter.
pub proof fn lemma_significant_bits_prefix(m1: Morton, m2: Morton, level: u64)
    requires
        level <= 21,
        m1.0 >> 63u64 == m2.0 >> 63u64,
        forall|l: u64| l < level ==> triplet_of(m1.0, l) == triplet_of(m2.0, l),
    ensures
        m1.spec_significant_bits(level) == m2.spec_significant_bits(level),
    decreases level,
{
    if level > 0 {
        lemma_significant_bits_prefix(m1, m2, (level - 1) as u64);
        lemma_prefix_step(m1.0, level);
        lemma_prefix_step(m2.0, level);
        assert(triplet_of(m1.0, (level - 1) as u64) == triplet_of(m2.0, (level - 1) as u64));
    }
}

/// One step of prefix growth: the `level`-deep prefix is the
/// `level - 1`-deep prefix shifted up three bits, with triplet
/// `level - 1` in the new low bits.
proof fn lemma_prefix_step(c: u64, level: u64)
    by (bit_vector)
    requires
        1 <= level <= 21,
    ensures
        c >> ((3 * (21 - level)) as u64) == ((c >> ((3 * (22 - level)) as u64)) << 3u64)
            | triplet_of(c, (level - 1) as u64),
{
}

/// Zeroing the triplet at `level` changes that triplet to zero and
/// nothing else: not the other twenty triplets, not the reserved bit.
proof fn lemma_reset_triplet(c: u64, level: u64, n: u64, l: u64)
    by (bit_vector)
    requires
        level < 21,
        l < 21,
        n == c & !(0x7000_0000_0000_0000u64 >> ((3 * level) as u64)),
    ensures
        l == level ==> triplet_of(n, l) == 0,
        l != level ==> triplet_of(n, l) == triplet_of(c, l),
        n >> 63u64 == c >> 63u64,
{
}

} // verus!
