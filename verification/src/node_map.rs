//! The sparse node container: a hash table from node address to payload.
//! Only non-empty subtrees are stored; an absent key means "this subtree is
//! empty / unsubdivided". Whether a present child implies present ancestors
//! is a consumer contract, assumed by the traversals but not checked here.
//!
//! An address is keyed by its hash value: its significant bits with the
//! reserved bit forced on as a marker directly above them. Morton addresses
//! are already well-distributed bit patterns from spatial subdivision, so
//! the value is used unmixed, and it is injective over well-formed
//! addresses (`lemma_hash_bits_injective`), so keying by it loses nothing.

use vstd::prelude::*;
use std::collections::HashMap;
use crate::region::{lemma_hash_bits_injective, MortonRegion};

verus! {

broadcast use vstd::std_specs::hash::group_hash_axioms;

/// Sparse map from octree node address to payload.
pub struct MortonMap<V> {
    inner: HashMap<u64, V>,
}

impl<V> View for MortonMap<V> {
    type V = Map<MortonRegion, V>;

    /// The map, seen as a mathematical map over well-formed addresses.
    closed spec fn view(&self) -> Map<MortonRegion, V> {
        Map::new(
            |r: MortonRegion| r.inv() && self.inner@.contains_key(r.spec_hash_bits()),
            |r: MortonRegion| self.inner@[r.spec_hash_bits()],
        )
    }
}

impl<V> MortonMap<V> {
    /// An empty map.
    pub fn new() -> (r: Self)
        ensures
            r@ == Map::<MortonRegion, V>::empty(),
    {
        let r = MortonMap { inner: HashMap::new() };
        proof {
            assert(r@ =~= Map::<MortonRegion, V>::empty());
        }
        r
    }

    /// Inserts a payload for an address, returning the payload it replaces,
    /// if any.
    pub fn insert(&mut self, region: MortonRegion, value: V) -> (prev: Option<V>)
        requires
            region.inv(),
        ensures
            final(self)@ == old(self)@.insert(region, value),
            match prev {
                Some(p) => old(self)@.contains_key(region) && p == old(self)@[region],
                None => !old(self)@.contains_key(region),
            },
    {
        let k: u64 = region.hash_bits();
        let prev = self.inner.insert(k, value);
        proof {
            assert forall|r2: MortonRegion|
                #[trigger] self@.contains_key(r2) <==> old(self)@.insert(
                    region,
                    value,
                ).contains_key(r2) by {
                if r2.inv() && r2.spec_hash_bits() == region.spec_hash_bits() {
                    lemma_hash_bits_injective(r2, region);
                }
            }
            assert forall|r2: MortonRegion| self@.contains_key(r2) implies #[trigger] self@[r2]
                == old(self)@.insert(region, value)[r2] by {
                if r2.inv() && r2.spec_hash_bits() == region.spec_hash_bits() {
                    lemma_hash_bits_injective(r2, region);
                }
            }
            assert(self@ =~= old(self)@.insert(region, value));
        }
        prev
    }

    /// Looks an address up: the payload stored for it, or nothing if its
    /// subtree is empty.
    pub fn get(&self, region: &MortonRegion) -> (r: Option<&V>)
        requires
            region.inv(),
        ensures
            match r {
                Some(v) => self@.contains_key(*region) && *v == self@[*region],
                None => !self@.contains_key(*region),
            },
    {
        let k: u64 = region.hash_bits();
        self.inner.get(&k)
    }

    /// Whether the address is populated.
    pub fn contains(&self, region: &MortonRegion) -> (r: bool)
        requires
            region.inv(),
        ensures
            r == self@.contains_key(*region),
    {
        let k: u64 = region.hash_bits();
        self.inner.contains_key(&k)
    }

    /// Removes an address, returning the payload that was stored for it, if
    /// any.
    pub fn remove(&mut self, region: &MortonRegion) -> (prev: Option<V>)
        requires
            region.inv(),
        ensures
            final(self)@ == old(self)@.remove(*region),
            match prev {
                Some(p) => old(self)@.contains_key(*region) && p == old(self)@[*region],
                None => !old(self)@.contains_key(*region),
            },
    {
        let k: u64 = region.hash_bits();
        let prev = self.inner.remove(&k);
        proof {
            assert forall|r2: MortonRegion|
                #[trigger] self@.contains_key(r2) <==> old(self)@.remove(*region).contains_key(
                    r2,
                ) by {
                if r2.inv() && r2.spec_hash_bits() == region.spec_hash_bits() {
                    lemma_hash_bits_injective(r2, *region);
                }
            }
            assert forall|r2: MortonRegion| self@.contains_key(r2) implies #[trigger] self@[r2]
                == old(self)@.remove(*region)[r2] by {
                if r2.inv() && r2.spec_hash_bits() == region.spec_hash_bits() {
                    lemma_hash_bits_injective(r2, *region);
                }
            }
            assert(self@ =~= old(self)@.remove(*region));
        }
        prev
    }
}

/// Sparse set of octree node addresses: presence only, no payload.
pub struct MortonSet {
    inner: MortonMap<()>,
}

impl View for MortonSet {
    type V = Set<MortonRegion>;

    /// The set of populated addresses.
    closed spec fn view(&self) -> Set<MortonRegion> {
        self.inner@.dom()
    }
}

impl MortonSet {
    /// An empty set.
    pub fn new() -> (r: Self)
        ensures
            r@ == Set::<MortonRegion>::empty(),
    {
        let r = MortonSet { inner: MortonMap::new() };
        proof {
            assert(r@ =~= Set::<MortonRegion>::empty());
        }
        r
    }

    /// Inserts an address; reports whether it was new.
    pub fn insert(&mut self, region: MortonRegion) -> (new: bool)
        requires
            region.inv(),
        ensures
            final(self)@ == old(self)@.insert(region),
            new == !old(self)@.contains(region),
    {
        let prev = self.inner.insert(region, ());
        proof {
            assert(self@ =~= old(self)@.insert(region));
        }
        prev.is_none()
    }

    /// Whether the address is present.
    pub fn contains(&self, region: &MortonRegion) -> (r: bool)
        requires
            region.inv(),
        ensures
            r == self@.contains(*region),
    {
        self.inner.contains(region)
    }

    /// Removes an address; reports whether it was present.
    pub fn remove(&mut self, region: &MortonRegion) -> (was: bool)
        requires
            region.inv(),
        ensures
            final(self)@ == old(self)@.remove(*region),
            was == old(self)@.contains(*region),
    {
        let prev = self.inner.remove(region);
        proof {
            assert(self@ =~= old(self)@.remove(*region));
        }
        prev.is_some()
    }
}

} // verus!
