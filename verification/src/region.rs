//! Octree node addressing: a Morton code plus a level, navigated by
//! `enter` / `exit` / `get` / `next`. The invariant is that every triplet at
//! or beyond the level, and the reserved top bit, are zero, so two addresses
//! with the same prefix and level are equal bit for bit.

use vstd::prelude::*;
use crate::codec::{deinterleave_coords, interleave3};
use crate::morton::{lemma_significant_bits_prefix, triplet_of, unused_mask, Morton};

verus! {

/// The octree node reached from the root by the first `level` octants of
/// `morton`. A plain value type, copied and mutated by the navigation
/// operators.
#[derive(Debug, Clone, Copy, PartialEq, Eq, Structural, PartialOrd, Ord)]
pub struct MortonRegion {
    pub morton: Morton,
    pub level: usize,
}

impl MortonRegion {
    /// Well-formedness: the level fits, the reserved bit is zero, and every
    /// triplet at or beyond `level` is zero. Maintained by every operator.
    pub open spec fn inv(self) -> bool {
        &&& self.level <= 21
        &&& self.morton.0 >> 63u64 == 0
        &&& self.morton.0 & unused_mask(self.level as u64) == 0
    }

    /// The `level` populated triplets, shifted down to the low bits.
    pub open spec fn spec_significant_bits(self) -> u64 {
        self.morton.0 >> ((3 * (21 - self.level)) as u64)
    }

    /// The significant bits with a marker bit ORed in above them, so that a
    /// short prefix of zero octants is still told apart from a shorter one:
    /// the value the map hashes and keys addresses by.
    pub open spec fn spec_hash_bits(self) -> u64 {
        (self.morton.0 | 0x8000_0000_0000_0000u64) >> ((3 * (21 - self.level)) as u64)
    }

    /// The deepest populated octant.
    pub open spec fn spec_get(self) -> u64
        recommends
            self.level >= 1,
    {
        triplet_of(self.morton.0, (self.level - 1) as u64)
    }

    /// The child of this node in octant `o`.
    pub open spec fn spec_enter(self, o: u64) -> MortonRegion
        recommends
            self.level < 21,
            o < 8,
    {
        MortonRegion {
            morton: Morton(self.morton.0 | (o << ((3 * (20 - self.level)) as u64))),
            level: (self.level + 1) as usize,
        }
    }

    /// The parent of this node: one level up, with the vacated octant
    /// cleared again.
    pub open spec fn spec_exit(self) -> MortonRegion
        recommends
            self.level >= 1,
    {
        MortonRegion {
            morton: Morton(
                self.morton.0 & !(0x7000_0000_0000_0000u64 >> ((3 * (self.level - 1)) as u64)),
            ),
            level: (self.level - 1) as usize,
        }
    }

    /// The next sibling at the same level: advances the deepest octant by
    /// one, or nothing if this is the root or octant 7. One level only: it
    /// never climbs past an exhausted level to retry the parent's sibling.
    pub open spec fn spec_next(self) -> Option<MortonRegion> {
        if self.level == 0 {
            None
        } else {
            let k = self.spec_get();
            if k == 7 {
                None
            } else {
                Some(self.spec_exit().spec_enter((k + 1) as u64))
            }
        }
    }

    /// The canonical form used for equality and hashing: only the `level`
    /// populated triplets, shifted down.
    pub fn significant_bits(self) -> (r: u64)
        requires
            self.inv(),
        ensures
            r == self.spec_significant_bits(),
    {
        self.morton.get_significant_bits(self.level)
    }

    /// The value hashed for this address: the significant bits with the
    /// reserved bit forced on as a marker above them, passed through unmixed.
    pub fn hash_bits(self) -> (r: u64)
        requires
            self.inv(),
        ensures
            r == self.spec_hash_bits(),
    {
        Morton(self.morton.0 | 0x8000_0000_0000_0000u64).get_significant_bits(self.level)
    }

    /// Descends into octant `section` of this node: writes the octant at
    /// the current level and deepens the level by one.
    pub fn enter(self, section: usize) -> (r: Self)
        requires
            self.inv(),
            self.level < 21,
            section < 8,
        ensures
            r == self.spec_enter(section as u64),
            r.inv(),
            r.level == self.level + 1,
            r.spec_get() == section as u64,
            forall|l: u64|
                l < 21 && l != self.level ==> triplet_of(r.morton.0, l) == triplet_of(
                    self.morton.0,
                    l,
                ),
    {
        let c: u64 = self.morton.0;
        let n: u64 = c | ((section as u64) << (3 * (20 - self.level as u64)));
        proof {
            assert forall|l: u64| l < 21 implies (l == self.level ==> triplet_of(n, l)
                == section as u64) && (l != self.level ==> triplet_of(n, l) == triplet_of(
                c,
                l,
            )) && n & unused_mask((self.level + 1) as u64) == 0 && n >> 63u64 == 0 by {
                lemma_enter_bits(c, self.level as u64, section as u64, n, l);
            }
            lemma_enter_bits(c, self.level as u64, section as u64, n, 0);
        }
        MortonRegion { morton: Morton(n), level: self.level + 1 }
    }

    /// Climbs to the parent: shallows the level by one, clears the vacated
    /// octant, and returns that octant's value.
    pub fn exit(&mut self) -> (r: usize)
        requires
            old(self).inv(),
            old(self).level >= 1,
        ensures
            *final(self) == old(self).spec_exit(),
            final(self).inv(),
            final(self).level == old(self).level - 1,
            r < 8,
            r as u64 == old(self).spec_get(),
            forall|l: u64|
                l < 21 && l != old(self).level - 1 ==> triplet_of(final(self).morton.0, l)
                    == triplet_of(old(self).morton.0, l),
            triplet_of(final(self).morton.0, (old(self).level - 1) as u64) == 0,
    {
        let lev: usize = self.level - 1;
        let c: u64 = self.morton.0;
        let o: u64 = (c >> (3 * (20 - lev as u64))) & 7;
        let n: u64 = c & !(0x7000_0000_0000_0000u64 >> (3 * (lev as u64)));
        proof {
            assert(o < 8) by (bit_vector)
                requires
                    o == (c >> ((3 * (20 - lev as u64)) as u64)) & 7,
            ;
            assert forall|l: u64| l < 21 implies (l == lev ==> triplet_of(n, l) == 0) && (l != lev
                ==> triplet_of(n, l) == triplet_of(c, l)) && n & unused_mask(lev as u64) == 0 && n
                >> 63u64 == 0 by {
                lemma_exit_bits(c, lev as u64, n, l);
            }
            lemma_exit_bits(c, lev as u64, n, 0);
        }
        self.morton = Morton(n);
        self.level = lev;
        o as usize
    }

    /// Reads the deepest populated octant without mutation.
    pub fn get(&self) -> (r: usize)
        requires
            self.inv(),
            self.level >= 1,
        ensures
            r as u64 == self.spec_get(),
            r < 8,
    {
        self.morton.get_level(self.level - 1)
    }

    /// Advances to the next sibling within the current level only: exits
    /// one level, and re-enters with the vacated octant plus one, or yields
    /// nothing at the root or when octant 7 is exhausted. Each frontier
    /// entry in a traversal owns exactly one such advance, which is why no
    /// multi-level climb happens here.
    pub fn next(self) -> (r: Option<Self>)
        requires
            self.inv(),
        ensures
            r == self.spec_next(),
            r is Some ==> r->Some_0.inv() && r->Some_0.level == self.level,
    {
        if self.level == 0 {
            None
        } else {
            let mut s = self;
            let last: usize = s.exit();
            if last == 7 {
                None
            } else {
                Some(s.enter(last + 1))
            }
        }
    }

    /// The per-axis cell indices of this node's cube at its own level: the
    /// deinterleaving of the significant bits. The centre of the cube on
    /// each axis is `(index + 1/2) / 2^level` of the unit cube.
    pub fn cell_coords(self) -> (r: (u64, u64, u64))
        requires
            self.inv(),
        ensures
            interleave3(r.0 as int, r.1 as int, r.2 as int, 21)
                == self.spec_significant_bits() as int,
            r.0 < 0x20_0000,
            r.1 < 0x20_0000,
            r.2 < 0x20_0000,
    {
        let c: u64 = self.morton.0;
        let sb: u64 = self.significant_bits();
        proof {
            let sh = ((3 * (21 - self.level)) as u64);
            assert(c >> sh < 0x8000_0000_0000_0000u64) by (bit_vector)
                requires
                    c >> 63u64 == 0,
            ;
        }
        deinterleave_coords(sb)
    }
}

impl Default for MortonRegion {
    /// The root address: level zero, all bits zero.
    fn default() -> (r: Self)
        ensures
            r == (MortonRegion { morton: Morton(0), level: 0 }),
            r.inv(),
    {
        proof {
            assert(0u64 >> 63u64 == 0 && 0u64 & unused_mask(0) == 0) by (bit_vector);
        }
        MortonRegion { morton: Morton(0), level: 0 }
    }
}

/// Entering an octant writes exactly the triplet at the parent's level,
/// keeps every other triplet and the reserved bit, and leaves the deeper
/// triplets zero, so the child is well formed.
proof fn lemma_enter_bits(c: u64, level: u64, o: u64, n: u64, l: u64)
    by (bit_vector)
    requires
        level < 21,
        o < 8,
        l < 21,
        c & unused_mask(level) == 0,
        c >> 63u64 == 0,
        n == c | (o << ((3 * (20 - level)) as u64)),
    ensures
        l == level ==> triplet_of(n, l) == o,
        l != level ==> triplet_of(n, l) == triplet_of(c, l),
        n & unused_mask((level + 1) as u64) == 0,
        n >> 63u64 == 0,
{
}

/// Exiting clears exactly the vacated triplet, keeps every other triplet
/// and the reserved bit, and leaves the triplets at or beyond the parent's
/// level zero, so the parent is well formed.
proof fn lemma_exit_bits(c: u64, lev: u64, n: u64, l: u64)
    by (bit_vector)
    requires
        lev < 21,
        l < 21,
        c & unused_mask((lev + 1) as u64) == 0,
        c >> 63u64 == 0,
        n == c & !(0x7000_0000_0000_0000u64 >> ((3 * lev) as u64)),
    ensures
        l == lev ==> triplet_of(n, l) == 0,
        l != lev ==> triplet_of(n, l) == triplet_of(c, l),
        n & unused_mask(lev) == 0,
        n >> 63u64 == 0,
{
}

/// Entering an octant and exiting again returns exactly the original
/// address and the octant that was entered.
pub proof fn lemma_enter_exit(r: MortonRegion, o: u64)
    requires
        r.inv(),
        r.level < 21,
        o < 8,
    ensures
        r.spec_enter(o).inv(),
        r.spec_enter(o).spec_exit() == r,
        r.spec_enter(o).spec_get() == o,
{
    let c = r.morton.0;
    let lv = r.level as u64;
    let n = r.spec_enter(o).morton.0;
    assert forall|l: u64| l < 21 implies (l == lv ==> triplet_of(n, l) == o) && (l != lv
        ==> triplet_of(n, l) == triplet_of(c, l)) && n & unused_mask((lv + 1) as u64) == 0 && n
        >> 63u64 == 0 by {
        lemma_enter_bits(c, lv, o, n, l);
    }
    lemma_enter_bits(c, lv, o, n, 0);
    assert(n & !(0x7000_0000_0000_0000u64 >> ((3 * lv) as u64)) == c) by (bit_vector)
        requires
            lv < 21,
            o < 8,
            c & unused_mask(lv) == 0,
            n == c | (o << ((3 * (20 - lv)) as u64)),
    ;
}

/// The next sibling lives at the same level, carries the next octant, and
/// agrees with the original on every other triplet (the ancestor prefix).
pub proof fn lemma_next_sibling(r: MortonRegion)
    requires
        r.inv(),
        r.level >= 1,
        r.spec_get() < 7,
    ensures
        r.spec_next() is Some,
        ({
            let n = r.spec_next()->Some_0;
            &&& n.inv()
            &&& n.level == r.level
            &&& n.spec_get() == r.spec_get() + 1
            &&& forall|l: u64|
                l < 21 && l != r.level - 1 ==> triplet_of(n.morton.0, l) == triplet_of(
                    r.morton.0,
                    l,
                )
        }),
{
    let c = r.morton.0;
    let lv = (r.level - 1) as u64;
    let p = r.spec_exit();
    let m = p.morton.0;
    assert forall|l: u64| l < 21 implies (l == lv ==> triplet_of(m, l) == 0) && (l != lv
        ==> triplet_of(m, l) == triplet_of(c, l)) && m & unused_mask(lv) == 0 && m >> 63u64
        == 0 by {
        lemma_exit_bits(c, lv, m, l);
    }
    lemma_exit_bits(c, lv, m, 0);
    let k = (r.spec_get() + 1) as u64;
    let n = p.spec_enter(k).morton.0;
    let g = r.spec_get();
    assert(g < 8) by (bit_vector)
        requires
            g == (c >> ((3 * (20 - lv)) as u64)) & 7,
            lv < 21,
    ;
    assert forall|l: u64| l < 21 implies (l == lv ==> triplet_of(n, l) == k) && (l != lv
        ==> triplet_of(n, l) == triplet_of(m, l)) && n & unused_mask((lv + 1) as u64) == 0 && n
        >> 63u64 == 0 by {
        lemma_enter_bits(m, lv, k, n, l);
    }
    lemma_enter_bits(m, lv, k, n, 0);
}

/// Two well-formed addresses with equal level and equal octant prefix are
/// equal outright — the same map key, the same hash — no matter how each
/// was constructed.
pub proof fn lemma_eq_of_prefix(a: MortonRegion, b: MortonRegion)
    requires
        a.inv(),
        b.inv(),
        a.level == b.level,
        forall|l: u64| l < a.level ==> triplet_of(a.morton.0, l) == triplet_of(b.morton.0, l),
    ensures
        a == b,
        a.spec_significant_bits() == b.spec_significant_bits(),
        a.spec_hash_bits() == b.spec_hash_bits(),
{
    lemma_significant_bits_prefix(a.morton, b.morton, a.level as u64);
    let c1 = a.morton.0;
    let c2 = b.morton.0;
    let lv = a.level as u64;
    assert(c1 == c2) by (bit_vector)
        requires
            lv <= 21,
            c1 >> ((3 * (21 - lv)) as u64) == c2 >> ((3 * (21 - lv)) as u64),
            c1 & unused_mask(lv) == 0,
            c2 & unused_mask(lv) == 0,
    ;
}

/// The hash value is injective over well-formed addresses: the marker bit
/// sits directly above the significant bits, so it recovers the level, and
/// the significant bits recover the code.
pub proof fn lemma_hash_bits_injective(a: MortonRegion, b: MortonRegion)
    requires
        a.inv(),
        b.inv(),
        a.spec_hash_bits() == b.spec_hash_bits(),
    ensures
        a == b,
{
    let c1 = a.morton.0;
    let c2 = b.morton.0;
    let l1 = a.level as u64;
    let l2 = b.level as u64;
    if l1 < l2 {
        lemma_hash_bits_level(c1, c2, l1, l2);
    } else if l2 < l1 {
        lemma_hash_bits_level(c2, c1, l2, l1);
    } else {
        assert(c1 >> ((3 * (21 - l1)) as u64) == c2 >> ((3 * (21 - l1)) as u64)) by (bit_vector)
            requires
                l1 <= 21,
                c1 >> 63u64 == 0,
                c2 >> 63u64 == 0,
                (c1 | 0x8000_0000_0000_0000u64) >> ((3 * (21 - l1)) as u64) == (c2
                    | 0x8000_0000_0000_0000u64) >> ((3 * (21 - l1)) as u64),
        ;
        assert(c1 == c2) by (bit_vector)
            requires
                l1 <= 21,
                c1 >> ((3 * (21 - l1)) as u64) == c2 >> ((3 * (21 - l1)) as u64),
                c1 & unused_mask(l1) == 0,
                c2 & unused_mask(l1) == 0,
        ;
    }
}

/// The marker bit lands at a position that grows with the level, so hash
/// values of addresses at different levels never collide.
proof fn lemma_hash_bits_level(c1: u64, c2: u64, l1: u64, l2: u64)
    by (bit_vector)
    requires
        l1 < l2,
        l2 <= 21,
        c1 >> 63u64 == 0,
        c2 >> 63u64 == 0,
    ensures
        (c1 | 0x8000_0000_0000_0000u64) >> ((3 * (21 - l1)) as u64) != (c2
            | 0x8000_0000_0000_0000u64) >> ((3 * (21 - l2)) as u64),
{
}

} // verus!
