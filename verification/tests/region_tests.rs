use morton_octree::{Morton, MortonMap, MortonRegion};

#[test]
fn default_region_is_root() {
    let root = MortonRegion::default();
    assert_eq!(root.morton, Morton(0));
    assert_eq!(root.level, 0);
}

#[test]
fn enter_then_exit_returns_region_and_octant() {
    let root = MortonRegion::default();
    for o in 0..8usize {
        let mut child = root.enter(o);
        assert_eq!(child.level, 1);
        assert_eq!(child.get(), o);
        let out: usize = child.exit();
        assert_eq!(out, o);
        assert_eq!(child, root);
    }
    let base = root.enter(3).enter(6);
    for o in 0..8usize {
        let mut child = base.enter(o);
        assert_eq!(child.level, 3);
        let out: usize = child.exit();
        assert_eq!(out, o);
        assert_eq!(child, base);
    }
}

#[test]
fn next_advances_one_sibling() {
    let root = MortonRegion::default();
    let base = root.enter(2);
    for k in 0..7usize {
        let r = base.enter(k);
        let n = r.next().expect("octant below seven has a successor");
        assert_eq!(n.level, r.level);
        assert_eq!(n.get(), k + 1);
        // ancestor prefix kept
        let mut m = n;
        m.exit();
        assert_eq!(m, base);
    }
}

#[test]
fn next_stops_at_last_octant_and_root() {
    let root = MortonRegion::default();
    assert_eq!(root.next(), None);
    let last = root.enter(7);
    assert_eq!(last.next(), None);
    let deep_last = root.enter(1).enter(7);
    assert_eq!(deep_last.next(), None);
    // it does not climb past the exhausted level to retry the parent
    let parent_has_room = root.enter(1);
    assert_eq!(parent_has_room.next(), Some(root.enter(2)));
}

#[test]
fn significant_bits_known_values() {
    let root = MortonRegion::default();
    assert_eq!(root.significant_bits(), 0);
    assert_eq!(root.hash_bits(), 1);
    let a = root.enter(3);
    assert_eq!(a.significant_bits(), 3);
    assert_eq!(a.hash_bits(), 11);
    let b = a.enter(5);
    assert_eq!(b.significant_bits(), 29);
    assert_eq!(b.hash_bits(), 93);
}

#[test]
fn equal_prefix_and_level_equal_address_any_construction_path() {
    let root = MortonRegion::default();
    let a = root.enter(3).enter(5);
    // build the same address by a detour through other octants
    let mut b = root.enter(3).enter(7);
    b.exit();
    let b = b.enter(5);
    assert_eq!(a, b);
    assert_eq!(a.significant_bits(), b.significant_bits());
    assert_eq!(a.hash_bits(), b.hash_bits());
    let mut map: MortonMap<u32> = MortonMap::new();
    map.insert(a, 17);
    assert_eq!(map.get(&b), Some(&17));
}

#[test]
fn hash_bits_distinguish_levels_of_zero_prefix() {
    let root = MortonRegion::default();
    let z1 = root.enter(0);
    let z2 = z1.enter(0);
    // all three have an all-zero code, only the level differs
    assert_eq!(root.morton, z1.morton);
    assert_eq!(z1.morton, z2.morton);
    assert_ne!(root.hash_bits(), z1.hash_bits());
    assert_ne!(z1.hash_bits(), z2.hash_bits());
    let mut map: MortonMap<&str> = MortonMap::new();
    map.insert(root, "root");
    map.insert(z1, "one");
    map.insert(z2, "two");
    assert_eq!(map.get(&root), Some(&"root"));
    assert_eq!(map.get(&z1), Some(&"one"));
    assert_eq!(map.get(&z2), Some(&"two"));
}

#[test]
fn cell_coords_at_level() {
    let root = MortonRegion::default();
    assert_eq!(root.cell_coords(), (0, 0, 0));
    let a = root.enter(3);
    // octant 3: x and y halves set, z low
    assert_eq!(a.cell_coords(), (1, 1, 0));
    let b = a.enter(5);
    // level 2: x = 1*2 + 1, y = 1*2 + 0, z = 0*2 + 1
    assert_eq!(b.cell_coords(), (3, 2, 1));
    let g = root.enter(7);
    assert_eq!(g.cell_coords(), (1, 1, 1));
}
