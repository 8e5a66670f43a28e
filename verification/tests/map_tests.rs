use morton_octree::{MortonMap, MortonRegion, MortonSet, PassthroughHash};

#[test]
fn map_insert_get_remove() {
    let root = MortonRegion::default();
    let a = root.enter(3);
    let b = a.enter(5);
    let mut map: MortonMap<u32> = MortonMap::new();
    assert_eq!(map.get(&root), None);
    assert_eq!(map.insert(root, 1), None);
    assert_eq!(map.insert(a, 2), None);
    assert_eq!(map.get(&root), Some(&1));
    assert_eq!(map.get(&a), Some(&2));
    assert_eq!(map.get(&b), None);
    assert!(map.contains(&a));
    assert!(!map.contains(&b));
    // overwrite returns the previous payload
    assert_eq!(map.insert(a, 20), Some(2));
    assert_eq!(map.get(&a), Some(&20));
    assert_eq!(map.remove(&a), Some(20));
    assert_eq!(map.remove(&a), None);
    assert_eq!(map.get(&a), None);
    assert_eq!(map.get(&root), Some(&1));
}

#[test]
fn absent_key_means_empty_subtree() {
    let root = MortonRegion::default();
    let mut map: MortonMap<u32> = MortonMap::new();
    map.insert(root.enter(2).enter(4), 9);
    // the parent was never inserted: the map does not invent ancestors
    assert_eq!(map.get(&root.enter(2)), None);
    assert_eq!(map.get(&root.enter(2).enter(4)), Some(&9));
}

#[test]
fn set_insert_contains_remove() {
    let root = MortonRegion::default();
    let a = root.enter(6);
    let mut set = MortonSet::new();
    assert!(!set.contains(&a));
    assert!(set.insert(a));
    assert!(!set.insert(a));
    assert!(set.contains(&a));
    assert!(!set.contains(&root));
    assert!(set.remove(&a));
    assert!(!set.remove(&a));
    assert!(!set.contains(&a));
}

#[test]
fn passthrough_hash_returns_written_value() {
    let mut h = PassthroughHash::default();
    assert_eq!(h.finish(), 0);
    h.write_u64(0xDEAD_BEEF_0000_0001);
    assert_eq!(h.finish(), 0xDEAD_BEEF_0000_0001);
    h.write_u8(7);
    assert_eq!(h.finish(), 7);
    h.write_u32(0xFFFF_FFFF);
    assert_eq!(h.finish(), 0xFFFF_FFFF);
    h.write(&[9, 1, 2]);
    assert_eq!(h.finish(), 9);
    h.write_i8(-1);
    assert_eq!(h.finish(), u64::MAX);
    h.write_u128(0x1_0000_0000_0000_0003);
    assert_eq!(h.finish(), 3);
}

#[test]
fn region_hash_bits_match_manual_formula() {
    let root = MortonRegion::default();
    let a = root.enter(3).enter(5);
    let manual: u64 = (a.morton.0 | 0x8000_0000_0000_0000) >> (3 * (21 - a.level));
    let mut h = PassthroughHash::default();
    h.write_u64(a.hash_bits());
    assert_eq!(h.finish(), manual);
}
