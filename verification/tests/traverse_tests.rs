use morton_octree::{
    MortonMap, MortonRegion, MortonRegionFurtherIterator, MortonRegionFurtherLeavesIterator,
    MortonRegionIterator,
};

fn three_node_map() -> (MortonMap<u32>, MortonRegion, MortonRegion, MortonRegion) {
    let root = MortonRegion::default();
    let a = root.enter(3);
    let b = a.enter(5);
    let mut map: MortonMap<u32> = MortonMap::new();
    map.insert(root, 0);
    map.insert(a, 1);
    map.insert(b, 2);
    (map, root, a, b)
}

fn collect_bounded(
    root: MortonRegion,
    limit: usize,
    map: &MortonMap<u32>,
) -> Vec<(MortonRegion, u32)> {
    let mut it = MortonRegionIterator::new(root, limit, map);
    let mut out = Vec::new();
    while let Some((r, v)) = it.next() {
        out.push((r, *v));
    }
    out
}

#[test]
fn bounded_traversal_end_to_end() {
    let (map, root, a, b) = three_node_map();
    let out = collect_bounded(root, 2, &map);
    assert_eq!(out, vec![(root, 0), (a, 1), (b, 2)]);
}

#[test]
fn bounded_traversal_respects_limit() {
    let (map, root, a, _b) = three_node_map();
    let out = collect_bounded(root, 1, &map);
    assert_eq!(out, vec![(root, 0), (a, 1)]);
    let out = collect_bounded(root, 0, &map);
    assert_eq!(out, vec![(root, 0)]);
}

#[test]
fn traversal_is_deterministic() {
    let (map, root, _a, _b) = three_node_map();
    let first = collect_bounded(root, 2, &map);
    let second = collect_bounded(root, 2, &map);
    assert_eq!(first, second);
}

#[test]
fn absent_subtree_is_pruned_without_reaching_descendants() {
    let root = MortonRegion::default();
    let deep = root.enter(2).enter(4);
    let mut map: MortonMap<u32> = MortonMap::new();
    map.insert(root, 0);
    map.insert(deep, 9);
    // deep's parent root.enter(2) is absent, so its subtree is never opened
    let out = collect_bounded(root, 2, &map);
    assert_eq!(out, vec![(root, 0)]);
    assert!(map.contains(&deep));
}

#[test]
fn absent_root_yields_nothing() {
    let root = MortonRegion::default();
    let a = root.enter(3);
    let mut map: MortonMap<u32> = MortonMap::new();
    map.insert(a, 1);
    // the traversal root itself is absent: the whole walk is pruned
    let out = collect_bounded(root, 2, &map);
    assert_eq!(out, vec![]);
}

#[test]
fn predicate_traversal_end_to_end() {
    let (map, root, a, _b) = three_node_map();
    let mut it = MortonRegionFurtherIterator::new(root, |r: MortonRegion| r.level < 1, &map);
    let mut out = Vec::new();
    while let Some((r, v)) = it.next() {
        out.push((r, *v));
    }
    // A is yielded but not descended into, so B stays unseen though present
    assert_eq!(out, vec![(root, 0), (a, 1)]);
}

#[test]
fn predicate_traversal_descends_where_allowed() {
    let (map, root, a, b) = three_node_map();
    let mut it = MortonRegionFurtherIterator::new(root, |r: MortonRegion| r.level < 2, &map);
    let mut out = Vec::new();
    while let Some((r, v)) = it.next() {
        out.push((r, *v));
    }
    assert_eq!(out, vec![(root, 0), (a, 1), (b, 2)]);
}

#[test]
fn leaves_traversal_yields_only_refused_nodes() {
    let (map, root, a, _b) = three_node_map();
    let mut it = MortonRegionFurtherLeavesIterator::new(root, |r: MortonRegion| r.level < 1, &map);
    let mut out = Vec::new();
    while let Some((r, v)) = it.next() {
        out.push((r, *v));
    }
    // root is descended through silently; A is the effective leaf; B unseen
    assert_eq!(out, vec![(a, 1)]);
    let mut it = MortonRegionFurtherLeavesIterator::new(root, |r: MortonRegion| r.level < 2, &map);
    let mut out = Vec::new();
    while let Some((r, v)) = it.next() {
        out.push((r, *v));
    }
    let b = a.enter(5);
    assert_eq!(out, vec![(b, 2)]);
}

#[test]
fn leaves_traversal_never_yields_descended_node_with_present_child() {
    let (map, root, _a, _b) = three_node_map();
    let should_descend = |r: MortonRegion| r.level < 2;
    let mut it = MortonRegionFurtherLeavesIterator::new(root, should_descend, &map);
    while let Some((r, _v)) = it.next() {
        // every yielded address was refused by the predicate (or is at the
        // deepest level, which has no children at all)
        assert!(r.level == 21 || !should_descend(r));
    }
}

#[test]
fn leaves_traversal_yields_deepest_level_despite_descending_predicate() {
    let root = MortonRegion::default();
    let mut map: MortonMap<u32> = MortonMap::new();
    let mut a = root;
    map.insert(a, 0);
    for i in 1..=21u32 {
        a = a.enter(1);
        map.insert(a, i);
    }
    // the predicate always asks to descend, but a node at level 21 has no
    // children, so the chain's deepest node is the one effective leaf
    let mut it = MortonRegionFurtherLeavesIterator::new(root, |_r: MortonRegion| true, &map);
    let mut out = Vec::new();
    while let Some((r, v)) = it.next() {
        out.push((r, *v));
    }
    assert_eq!(out, vec![(a, 21)]);
}

#[test]
fn empty_map_traversal_ends_immediately() {
    let root = MortonRegion::default();
    let map: MortonMap<u32> = MortonMap::new();
    let mut it = MortonRegionIterator::new(root, 21, &map);
    assert!(it.next().is_none());
    assert!(it.next().is_none());
}
