//! Pruning traversals: pre-order, octant-ascending, depth-first walks over
//! the populated addresses of a map, driven by an explicit frontier stack
//! instead of recursion. Each pull pops one address; the address's one
//! `next()` sibling is pushed back first, so the sibling subtree is visited
//! after the popped node's descendants. An address absent from the map
//! yields nothing and opens no child frontier — whole empty subtrees are
//! pruned in one step, and every pull strictly shrinks the frontier's
//! total weight (`stack_measure`), so a drain always ends.

use vstd::prelude::*;
use crate::morton::lemma_triplet_bound;
use crate::node_map::MortonMap;
use crate::region::{lemma_enter_exit, lemma_next_sibling, MortonRegion};

verus! {

/// All frontier entries are well-formed addresses.
pub open spec fn frontier_inv(nodes: Seq<MortonRegion>) -> bool {
    forall|i: int| 0 <= i < nodes.len() ==> (#[trigger] nodes[i]).inv()
}

/// The sparse-pruning guarantee over a frontier: every entry is the
/// traversal root itself, a sibling successor (octant one or higher), or
/// the first child of an address populated in the map. A child frontier is
/// never materialized for a subtree whose root address is absent.
pub open spec fn frontier_pruned<V>(
    nodes: Seq<MortonRegion>,
    root: MortonRegion,
    map: Map<MortonRegion, V>,
) -> bool {
    forall|i: int|
        0 <= i < nodes.len() ==> (#[trigger] nodes[i]) == root || nodes[i].spec_get() >= 1
            || map.contains_key(nodes[i].spec_exit())
}

/// Popping the top entry keeps the pruning guarantee.
proof fn lemma_pruned_drop<V>(s: Seq<MortonRegion>, root: MortonRegion, map: Map<MortonRegion, V>)
    requires
        s.len() > 0,
        frontier_pruned(s, root, map),
    ensures
        frontier_pruned(s.subrange(0, s.len() - 1), root, map),
{
    let t = s.subrange(0, s.len() - 1);
    assert forall|i: int| 0 <= i < t.len() implies (#[trigger] t[i]) == root || t[i].spec_get()
        >= 1 || map.contains_key(t[i].spec_exit()) by {
        assert(t[i] == s[i]);
    }
}

/// Pushing an entry that itself satisfies the pruning guarantee keeps it.
proof fn lemma_pruned_push<V>(
    s: Seq<MortonRegion>,
    x: MortonRegion,
    root: MortonRegion,
    map: Map<MortonRegion, V>,
)
    requires
        frontier_pruned(s, root, map),
        x == root || x.spec_get() >= 1 || map.contains_key(x.spec_exit()),
    ensures
        frontier_pruned(s.push(x), root, map),
{
    let t = s.push(x);
    assert forall|i: int| 0 <= i < t.len() implies (#[trigger] t[i]) == root || t[i].spec_get()
        >= 1 || map.contains_key(t[i].spec_exit()) by {
        if i < s.len() {
            assert(t[i] == s[i]);
        } else {
            assert(t[i] == x);
        }
    }
}

/// A sibling successor carries octant one or higher: it satisfies the
/// pruning guarantee by itself.
proof fn lemma_sibling_octant(region: MortonRegion, n: MortonRegion)
    requires
        region.inv(),
        region.spec_next() == Some(n),
    ensures
        n.spec_get() >= 1,
{
    lemma_triplet_bound(region.morton.0, (region.level - 1) as u64);
    lemma_next_sibling(region);
}

/// Number of nodes of a complete octree subtree with `rem` levels below
/// its root.
pub open spec fn subtree_size(rem: nat) -> nat
    decreases rem,
{
    if rem == 0 {
        1
    } else {
        1 + 8 * subtree_size((rem - 1) as nat)
    }
}

/// Weight of one frontier entry: the virtual nodes it is still responsible
/// for — its own subtree and those of its later siblings. Replacing an
/// entry by its `next()` sibling, with or without opening the entry's first
/// child, strictly shrinks the frontier's total weight, which bounds the
/// traversal loops.
pub open spec fn region_measure(r: MortonRegion) -> nat {
    if r.level > 21 {
        0
    } else if r.level == 0 {
        subtree_size(21)
    } else {
        let k = r.spec_get();
        if k < 8 {
            ((8 - k) as nat) * subtree_size((21 - r.level) as nat)
        } else {
            0
        }
    }
}

/// Total weight of a frontier stack.
pub open spec fn stack_measure(nodes: Seq<MortonRegion>) -> nat
    decreases nodes.len(),
{
    if nodes.len() == 0 {
        0
    } else {
        stack_measure(nodes.drop_last()) + region_measure(nodes.last())
    }
}

/// Pushing adds exactly the pushed entry's weight.
proof fn lemma_stack_measure_push(s: Seq<MortonRegion>, x: MortonRegion)
    ensures
        stack_measure(s.push(x)) == stack_measure(s) + region_measure(x),
{
    assert(s.push(x).drop_last() =~= s);
    assert(s.push(x).last() == x);
}

/// What one traversal step may push weighs strictly less than the entry it
/// popped: the sibling alone, the first child alone, or both together.
#[verifier::rlimit(50)]
proof fn lemma_measure_step(region: MortonRegion)
    requires
        region.inv(),
    ensures
        region_measure(region) >= 1,
        region.spec_next() is Some ==> (region_measure(region.spec_next()->Some_0) as int) < (
        region_measure(region) as int),
        region.spec_next() is Some && region.level < 21 ==> (region_measure(
            region.spec_next()->Some_0,
        ) as int) + (region_measure(region.spec_enter(0)) as int) < (region_measure(
            region,
        ) as int),
        region.spec_next() is None && region.level < 21 ==> (region_measure(
            region.spec_enter(0),
        ) as int) < (region_measure(region) as int),
{
    if region.level == 0 {
        lemma_enter_exit(region, 0);
        assert(subtree_size(21) == 1 + 8 * subtree_size(20));
        assert(region_measure(region) == subtree_size(21));
        assert(region_measure(region.spec_enter(0)) == 8 * subtree_size(20));
        assert(region_measure(region.spec_enter(0)) < region_measure(region));
    } else {
        let l = region.level as int;
        let k = region.spec_get() as int;
        lemma_triplet_bound(region.morton.0, (region.level - 1) as u64);
        let s = subtree_size((21 - l) as nat);
        assert(s >= 1);
        assert((8 - k) * s >= 1) by (nonlinear_arith)
            requires
                s >= 1,
                k < 8,
        ;
        if region.spec_next() is Some {
            let n = region.spec_next()->Some_0;
            lemma_next_sibling(region);
            assert(region_measure(n) == ((7 - k) as nat) * s);
            assert((7 - k) * s < (8 - k) * s) by (nonlinear_arith)
                requires
                    s >= 1,
                    k < 7,
            ;
        }
        if region.level < 21 {
            let c = region.spec_enter(0);
            lemma_enter_exit(region, 0);
            assert(c.level == l + 1 && c.spec_get() == 0);
            assert(subtree_size((21 - l) as nat) == 1 + 8 * subtree_size((20 - l) as nat));
            assert(region_measure(c) == 8 * subtree_size((20 - l) as nat));
            assert(region_measure(c) == s - 1);
            if region.spec_next() is None {
                assert(k == 7);
                assert(region_measure(region) == ((8 - k) as nat) * s);
                assert(((8 - k) as nat) * s == s) by (nonlinear_arith)
                    requires
                        k == 7,
                ;
                assert(region_measure(c) < region_measure(region));
            }
            if region.spec_next() is Some {
                let n = region.spec_next()->Some_0;
                assert((7 - k) * s + (s - 1) < (8 - k) * s) by (nonlinear_arith)
                    requires
                        s >= 1,
                        0 <= k < 7,
                ;
            }
        }
    }
}

/// One step of the shared traversal loop on a non-empty frontier: the top
/// entry is popped, and its one sibling successor, if any, is pushed back.
pub open spec fn sibling_step(nodes: Seq<MortonRegion>) -> Seq<MortonRegion>
    recommends
        nodes.len() > 0,
{
    match nodes.last().spec_next() {
        Some(n) => nodes.drop_last().push(n),
        None => nodes.drop_last(),
    }
}

/// Popping the top entry of a well-formed frontier, with its sibling step,
/// strictly shrinks the frontier's total weight.
proof fn lemma_sibling_step_measure(nodes: Seq<MortonRegion>)
    requires
        frontier_inv(nodes),
        nodes.len() > 0,
    ensures
        stack_measure(sibling_step(nodes)) < stack_measure(nodes),
{
    let r = nodes.last();
    assert(nodes[nodes.len() - 1].inv());
    lemma_measure_step(r);
    assert(nodes.drop_last().push(r) =~= nodes);
    lemma_stack_measure_push(nodes.drop_last(), r);
    match r.spec_next() {
        Some(n) => {
            lemma_stack_measure_push(nodes.drop_last(), n);
        },
        None => {},
    }
}

/// A non-empty well-formed frontier carries positive weight.
proof fn lemma_stack_measure_pos(nodes: Seq<MortonRegion>)
    requires
        frontier_inv(nodes),
        nodes.len() > 0,
    ensures
        stack_measure(nodes) >= 1,
{
    let r = nodes.last();
    assert(nodes[nodes.len() - 1].inv());
    lemma_measure_step(r);
    assert(nodes.drop_last().push(r) =~= nodes);
    lemma_stack_measure_push(nodes.drop_last(), r);
}

/// What the shared traversal loop does up to its yield decision: absent
/// entries are popped, each leaving only its sibling successor behind,
/// until the top of the frontier is a populated address. Returns that
/// address, if any, and the frontier as it stands right after that
/// address's own sibling step — before any descent push, which each
/// iterator decides for itself. On a frontier with a malformed entry the
/// walk is unspecified (no navigation produces one).
pub open spec fn seek_populated<V>(
    nodes: Seq<MortonRegion>,
    map: Map<MortonRegion, V>,
) -> (Option<MortonRegion>, Seq<MortonRegion>)
    decreases stack_measure(nodes),
    via seek_populated_decreases::<V>
{
    if !frontier_inv(nodes) {
        (None, Seq::empty())
    } else if nodes.len() == 0 {
        (None, nodes)
    } else if map.contains_key(nodes.last()) {
        (Some(nodes.last()), sibling_step(nodes))
    } else {
        seek_populated(sibling_step(nodes), map)
    }
}

#[via_fn]
proof fn seek_populated_decreases<V>(nodes: Seq<MortonRegion>, map: Map<MortonRegion, V>) {
    if frontier_inv(nodes) && nodes.len() > 0 && !map.contains_key(nodes.last()) {
        lemma_sibling_step_measure(nodes);
    }
}

/// A sibling step keeps every frontier entry well formed.
proof fn lemma_sibling_step_inv(nodes: Seq<MortonRegion>)
    requires
        frontier_inv(nodes),
        nodes.len() > 0,
    ensures
        frontier_inv(sibling_step(nodes)),
{
    let r = nodes.last();
    assert(nodes[nodes.len() - 1].inv());
    let t = sibling_step(nodes);
    if r.spec_next() is Some {
        lemma_triplet_bound(r.morton.0, (r.level - 1) as u64);
        lemma_next_sibling(r);
    }
    assert forall|i: int| 0 <= i < t.len() implies (#[trigger] t[i]).inv() by {
        if i < nodes.len() - 1 {
            assert(t[i] == nodes[i]);
            assert(nodes[i].inv());
        }
    }
}

/// Seeking the next populated address keeps the frontier well formed,
/// shrinks its weight, and — when an address was found — leaves room for
/// its first child: even with the child pushed, the weight has shrunk.
proof fn lemma_seek_step<V>(nodes: Seq<MortonRegion>, map: Map<MortonRegion, V>)
    requires
        frontier_inv(nodes),
    ensures
        ({
            let (found, rest) = seek_populated(nodes, map);
            &&& frontier_inv(rest)
            &&& stack_measure(rest) <= stack_measure(nodes)
            &&& found is Some ==> {
                &&& found->Some_0.inv()
                &&& map.contains_key(found->Some_0)
                &&& stack_measure(rest) < stack_measure(nodes)
                &&& stack_measure(rest.push(found->Some_0.spec_enter(0))) < stack_measure(nodes)
            }
            &&& found is None ==> rest.len() == 0
        }),
    decreases stack_measure(nodes),
{
    if nodes.len() > 0 {
        let r = nodes.last();
        assert(nodes[nodes.len() - 1].inv());
        lemma_sibling_step_inv(nodes);
        lemma_sibling_step_measure(nodes);
        if map.contains_key(r) {
            let rest = sibling_step(nodes);
            let c = r.spec_enter(0);
            lemma_measure_step(r);
            lemma_stack_measure_push(rest, c);
            assert(nodes.drop_last().push(r) =~= nodes);
            lemma_stack_measure_push(nodes.drop_last(), r);
            if r.spec_next() is Some {
                lemma_stack_measure_push(nodes.drop_last(), r.spec_next()->Some_0);
            }
            if r.level >= 21 {
                assert(region_measure(c) == 0);
            }
        } else {
            lemma_seek_step(sibling_step(nodes), map);
        }
    }
}

/// The complete yield sequence of a bounded traversal drain, as a function
/// of the frontier, the depth limit, and the map's contents: each pull
/// yields the next populated address and continues on the frontier with
/// that address's first child pushed exactly when its level is below the
/// limit. Pre-order, ascending octant, by construction; and one fixed
/// sequence for fixed arguments, which is the determinism of the traversal.
pub open spec fn bounded_drain<V>(
    nodes: Seq<MortonRegion>,
    limit: usize,
    map: Map<MortonRegion, V>,
) -> Seq<MortonRegion>
    decreases stack_measure(nodes),
    via bounded_drain_decreases::<V>
{
    if !frontier_inv(nodes) {
        Seq::empty()
    } else {
        let (found, rest) = seek_populated(nodes, map);
        match found {
            None => Seq::empty(),
            Some(r) => seq![r] + bounded_drain(
                if r.level < limit {
                    rest.push(r.spec_enter(0))
                } else {
                    rest
                },
                limit,
                map,
            ),
        }
    }
}

#[via_fn]
proof fn bounded_drain_decreases<V>(nodes: Seq<MortonRegion>, limit: usize, map: Map<
    MortonRegion,
    V,
>) {
    if frontier_inv(nodes) {
        lemma_seek_step(nodes, map);
    }
}

/// One pull of the leaves iterator, as a relation on frontiers, cut off at
/// `fuel` loop steps: the walk seeks a populated address; one call of the
/// predicate — any result the predicate's contract admits, related by
/// `call_ensures` — then either sends the walk silently into the address's
/// first child, or ends the pull by yielding the address. An address at
/// the deepest level is always yielded: it can have no children.
pub open spec fn leaves_pull_steps<V, F: Fn(MortonRegion) -> bool>(
    further: F,
    map: Map<MortonRegion, V>,
    s0: Seq<MortonRegion>,
    y: Option<MortonRegion>,
    s1: Seq<MortonRegion>,
    fuel: nat,
) -> bool
    decreases fuel,
{
    if fuel == 0 {
        false
    } else if !frontier_inv(s0) {
        true
    } else if s0.len() == 0 {
        y is None && s1 == s0
    } else {
        let r = s0.last();
        let rest = sibling_step(s0);
        if !map.contains_key(r) {
            leaves_pull_steps(further, map, rest, y, s1, (fuel - 1) as nat)
        } else if r.level == 21 {
            y == Some(r) && s1 == rest
        } else {
            exists|b: bool|
                #[trigger] call_ensures(further, (r,), b) && if b {
                    leaves_pull_steps(
                        further,
                        map,
                        rest.push(r.spec_enter(0)),
                        y,
                        s1,
                        (fuel - 1) as nat,
                    )
                } else {
                    y == Some(r) && s1 == rest
                }
        }
    }
}

/// The first populated address of the walk is one the predicate can only
/// refuse — every answer its contract admits is false — or one at the
/// deepest level. Such an address is owed as the pull's yield.
pub open spec fn definite_leaf<F: Fn(MortonRegion) -> bool>(
    further: F,
    found: Option<MortonRegion>,
) -> bool {
    found is Some && (found->Some_0.level == 21 || forall|b: bool|
        #[trigger] call_ensures(further, (found->Some_0,), b) ==> !b)
}

/// One pull of the leaves iterator, after any finite number of loop steps.
pub open spec fn leaves_pull<V, F: Fn(MortonRegion) -> bool>(
    further: F,
    map: Map<MortonRegion, V>,
    s0: Seq<MortonRegion>,
    y: Option<MortonRegion>,
    s1: Seq<MortonRegion>,
) -> bool {
    exists|fuel: nat| leaves_pull_steps(further, map, s0, y, s1, fuel)
}

/// Walks the populated addresses under a root, descending only while the
/// level is below a fixed limit; yields every populated address it reaches.
pub struct MortonRegionIterator<'a, V> {
    nodes: Vec<MortonRegion>,
    root: Ghost<MortonRegion>,
    limit: usize,
    map: &'a MortonMap<V>,
}

impl<'a, V> MortonRegionIterator<'a, V> {
    /// The private frontier stack of addresses awaiting processing.
    pub closed spec fn frontier(self) -> Seq<MortonRegion> {
        self.nodes@
    }

    /// The depth cutoff: no descent happens at or beyond this level.
    pub closed spec fn depth_limit(self) -> usize {
        self.limit
    }

    /// The traversed map's contents.
    pub closed spec fn map_view(self) -> Map<MortonRegion, V> {
        self.map@
    }

    /// The root address the traversal was started from.
    pub closed spec fn traversal_root(self) -> MortonRegion {
        self.root@
    }

    /// Sparse pruning, visible to callers: see `frontier_pruned`.
    pub open spec fn pruned(self) -> bool {
        frontier_pruned(self.frontier(), self.traversal_root(), self.map_view())
    }

    /// Well-formedness, established by `new` and preserved by `next`.
    pub closed spec fn inv(self) -> bool {
        &&& frontier_inv(self.nodes@)
        &&& frontier_pruned(self.nodes@, self.root@, self.map@)
        &&& self.limit <= 21
    }

    /// A traversal of the regions within `region`, bounded in depth by
    /// `limit`. It can visit up to `8/7 * 8^(limit - region.level)` nodes,
    /// so mind the limit.
    pub fn new(region: MortonRegion, limit: usize, map: &'a MortonMap<V>) -> (r: Self)
        requires
            region.inv(),
            limit <= 21,
        ensures
            r.inv(),
            r.frontier() == seq![region],
            r.depth_limit() == limit,
            r.map_view() == map@,
            r.traversal_root() == region,
            r.pruned(),
    {
        let mut nodes: Vec<MortonRegion> = Vec::with_capacity(limit);
        nodes.push(region);
        proof {
            assert(nodes@ =~= seq![region]);
        }
        MortonRegionIterator { nodes, limit, map, root: Ghost(region) }
    }

    /// Produces the next populated address and its payload, or nothing once
    /// the frontier is exhausted. One pull does exactly this: absent
    /// entries are popped down to the first populated address
    /// (`seek_populated`), that address is yielded, and its first child is
    /// pushed exactly when its level is below the limit. The frontier's
    /// total weight strictly shrinks with every pull, so a drain ends.
    pub fn next(&mut self) -> (r: Option<(MortonRegion, &'a V)>)
        requires
            old(self).inv(),
        ensures
            final(self).inv(),
            final(self).map_view() == old(self).map_view(),
            final(self).depth_limit() == old(self).depth_limit(),
            final(self).traversal_root() == old(self).traversal_root(),
            final(self).pruned(),
            frontier_inv(final(self).frontier()),
            old(self).frontier().len() > 0 ==> stack_measure(final(self).frontier())
                < stack_measure(old(self).frontier()),
            ({
                let (found, rest) = seek_populated(old(self).frontier(), old(self).map_view());
                match r {
                    Some(item) => {
                        &&& found == Some(item.0)
                        &&& item.0.inv()
                        &&& old(self).map_view().contains_key(item.0)
                        &&& *item.1 == old(self).map_view()[item.0]
                        &&& final(self).frontier() == (if item.0.level < old(self).depth_limit() {
                            rest.push(item.0.spec_enter(0))
                        } else {
                            rest
                        })
                        &&& final(self).frontier().len() <= old(self).frontier().len() + 1
                    },
                    None => found is None && final(self).frontier().len() == 0,
                }
            }),
            ({
                let drained = bounded_drain(
                    old(self).frontier(),
                    old(self).depth_limit(),
                    old(self).map_view(),
                );
                match r {
                    Some(item) => drained == seq![item.0] + bounded_drain(
                        final(self).frontier(),
                        old(self).depth_limit(),
                        old(self).map_view(),
                    ),
                    None => drained.len() == 0,
                }
            }),
    {
        loop
            invariant
                old(self).inv(),
                self.inv(),
                self.map == old(self).map,
                self.limit == old(self).limit,
                self.root == old(self).root,
                self.nodes@.len() <= old(self).nodes@.len(),
                stack_measure(self.nodes@) <= stack_measure(old(self).nodes@),
                seek_populated(self.nodes@, self.map@) == seek_populated(
                    old(self).nodes@,
                    old(self).map@,
                ),
            decreases stack_measure(self.nodes@),
        {
            let ghost prev_nodes = self.nodes@;
            match self.nodes.pop() {
                None => {
                    proof {
                        if old(self).nodes@.len() > 0 {
                            lemma_stack_measure_pos(old(self).nodes@);
                        }
                        assert(seek_populated(self.nodes@, self.map@) == (
                            None::<MortonRegion>,
                            self.nodes@,
                        ));
                        assert(bounded_drain(
                            old(self).frontier(),
                            old(self).depth_limit(),
                            old(self).map_view(),
                        ).len() == 0);
                    }
                    return None;
                },
                Some(region) => {
                    proof {
                        assert(prev_nodes =~= self.nodes@.push(region));
                        lemma_stack_measure_push(self.nodes@, region);
                        lemma_measure_step(region);
                        lemma_pruned_drop(prev_nodes, self.root@, self.map@);
                    }
                    // Push this address's one sibling successor first, so the
                    // sibling subtree is visited after this node's descendants.
                    match region.next() {
                        Some(n) => {
                            proof {
                                lemma_stack_measure_push(self.nodes@, n);
                                lemma_sibling_octant(region, n);
                                lemma_pruned_push(self.nodes@, n, self.root@, self.map@);
                            }
                            self.nodes.push(n);
                        },
                        None => {},
                    }
                    proof {
                        assert(self.nodes@ =~= sibling_step(prev_nodes));
                        lemma_sibling_step_measure(prev_nodes);
                    }
                    match self.map.get(&region) {
                        Some(item) => {
                            proof {
                                assert(seek_populated(prev_nodes, self.map@) == (
                                    Some(region),
                                    self.nodes@,
                                ));
                            }
                            // Populated: descend into its first child so long
                            // as the level stays below the limit.
                            if region.level < self.limit {
                                let child = region.enter(0);
                                proof {
                                    lemma_enter_exit(region, 0);
                                    lemma_pruned_push(
                                        self.nodes@,
                                        child,
                                        self.root@,
                                        self.map@,
                                    );
                                    lemma_stack_measure_push(self.nodes@, child);
                                }
                                self.nodes.push(child);
                            }
                            proof {
                                assert(bounded_drain(
                                    old(self).frontier(),
                                    old(self).depth_limit(),
                                    old(self).map_view(),
                                ) == seq![region] + bounded_drain(
                                    self.nodes@,
                                    old(self).depth_limit(),
                                    old(self).map_view(),
                                ));
                            }
                            return Some((region, item));
                        },
                        None => {
                            // Empty subtree: produce nothing and open no
                            // child frontier for it.
                            proof {
                                assert(seek_populated(prev_nodes, self.map@) == seek_populated(
                                    self.nodes@,
                                    self.map@,
                                ));
                            }
                        },
                    }
                },
            }
        }
    }
}

/// Walks the populated addresses under a root, descending where a caller
/// predicate allows it; yields every populated address it reaches.
pub struct MortonRegionFurtherIterator<'a, V, F> {
    nodes: Vec<MortonRegion>,
    root: Ghost<MortonRegion>,
    further: F,
    map: &'a MortonMap<V>,
}

impl<'a, V, F: Fn(MortonRegion) -> bool> MortonRegionFurtherIterator<'a, V, F> {
    /// The private frontier stack of addresses awaiting processing.
    pub closed spec fn frontier(self) -> Seq<MortonRegion> {
        self.nodes@
    }

    /// The caller-supplied descent predicate.
    pub closed spec fn predicate(self) -> F {
        self.further
    }

    /// The traversed map's contents.
    pub closed spec fn map_view(self) -> Map<MortonRegion, V> {
        self.map@
    }

    /// The root address the traversal was started from.
    pub closed spec fn traversal_root(self) -> MortonRegion {
        self.root@
    }

    /// Sparse pruning, visible to callers: see `frontier_pruned`.
    pub open spec fn pruned(self) -> bool {
        frontier_pruned(self.frontier(), self.traversal_root(), self.map_view())
    }

    /// Well-formedness: the frontier holds well-formed addresses and the
    /// predicate accepts every well-formed address.
    pub closed spec fn inv(self) -> bool {
        &&& frontier_inv(self.nodes@)
        &&& frontier_pruned(self.nodes@, self.root@, self.map@)
        &&& forall|r: MortonRegion| r.inv() ==> call_requires(self.further, (r,))
    }

    /// A traversal of the regions within `region`, descending into a
    /// populated node exactly where `further` allows it (and the node can
    /// have children at all).
    pub fn new(region: MortonRegion, further: F, map: &'a MortonMap<V>) -> (r: Self)
        requires
            region.inv(),
            forall|q: MortonRegion| q.inv() ==> call_requires(further, (q,)),
        ensures
            r.inv(),
            r.frontier() == seq![region],
            r.predicate() == further,
            r.map_view() == map@,
            r.traversal_root() == region,
            r.pruned(),
    {
        let nodes: Vec<MortonRegion> = vec![region];
        proof {
            assert(nodes@ =~= seq![region]);
        }
        MortonRegionFurtherIterator { nodes, further, map, root: Ghost(region) }
    }

    /// Produces the next populated address and its payload, or nothing once
    /// the frontier is exhausted. One pull does exactly this: absent
    /// entries are popped down to the first populated address
    /// (`seek_populated`), that address is yielded, and its first child is
    /// pushed exactly when the predicate returned true for it (an address
    /// at the deepest level has no children, whatever the predicate says).
    /// The frontier's total weight strictly shrinks with every pull, so a
    /// drain ends.
    #[verifier::rlimit(100)]
    pub fn next(&mut self) -> (r: Option<(MortonRegion, &'a V)>)
        requires
            old(self).inv(),
        ensures
            final(self).inv(),
            final(self).map_view() == old(self).map_view(),
            final(self).predicate() == old(self).predicate(),
            final(self).traversal_root() == old(self).traversal_root(),
            final(self).pruned(),
            frontier_inv(final(self).frontier()),
            old(self).frontier().len() > 0 ==> stack_measure(final(self).frontier())
                < stack_measure(old(self).frontier()),
            ({
                let (found, rest) = seek_populated(old(self).frontier(), old(self).map_view());
                match r {
                    Some(item) => {
                        &&& found == Some(item.0)
                        &&& item.0.inv()
                        &&& old(self).map_view().contains_key(item.0)
                        &&& *item.1 == old(self).map_view()[item.0]
                        &&& item.0.level < 21 ==> exists|b: bool|
                            #[trigger] call_ensures(old(self).predicate(), (item.0,), b)
                                && final(self).frontier() == (if b {
                                rest.push(item.0.spec_enter(0))
                            } else {
                                rest
                            })
                        &&& item.0.level == 21 ==> final(self).frontier() == rest
                        &&& final(self).frontier().len() <= old(self).frontier().len() + 1
                    },
                    None => found is None && final(self).frontier().len() == 0,
                }
            }),
    {
        loop
            invariant
                old(self).inv(),
                self.inv(),
                self.map == old(self).map,
                self.further == old(self).further,
                self.root == old(self).root,
                self.nodes@.len() <= old(self).nodes@.len(),
                stack_measure(self.nodes@) <= stack_measure(old(self).nodes@),
                seek_populated(self.nodes@, self.map@) == seek_populated(
                    old(self).nodes@,
                    old(self).map@,
                ),
            decreases stack_measure(self.nodes@),
        {
            let ghost prev_nodes = self.nodes@;
            match self.nodes.pop() {
                None => {
                    proof {
                        if old(self).nodes@.len() > 0 {
                            lemma_stack_measure_pos(old(self).nodes@);
                        }
                        assert(seek_populated(self.nodes@, self.map@) == (
                            None::<MortonRegion>,
                            self.nodes@,
                        ));
                    }
                    return None;
                },
                Some(region) => {
                    proof {
                        assert(prev_nodes =~= self.nodes@.push(region));
                        lemma_stack_measure_push(self.nodes@, region);
                        lemma_measure_step(region);
                        lemma_pruned_drop(prev_nodes, self.root@, self.map@);
                    }
                    match region.next() {
                        Some(n) => {
                            proof {
                                lemma_stack_measure_push(self.nodes@, n);
                                lemma_sibling_octant(region, n);
                                lemma_pruned_push(self.nodes@, n, self.root@, self.map@);
                            }
                            self.nodes.push(n);
                        },
                        None => {},
                    }
                    proof {
                        assert(self.nodes@ =~= sibling_step(prev_nodes));
                        lemma_sibling_step_measure(prev_nodes);
                    }
                    match self.map.get(&region) {
                        Some(item) => {
                            proof {
                                assert(seek_populated(prev_nodes, self.map@) == (
                                    Some(region),
                                    self.nodes@,
                                ));
                            }
                            let ghost rest = self.nodes@;
                            // A node at the deepest level has no children to
                            // descend into, whatever the predicate says.
                            if region.level < 21 {
                                let descend = (self.further)(region);
                                if descend {
                                    let child = region.enter(0);
                                    proof {
                                        lemma_enter_exit(region, 0);
                                        lemma_pruned_push(
                                            self.nodes@,
                                            child,
                                            self.root@,
                                            self.map@,
                                        );
                                        lemma_stack_measure_push(self.nodes@, child);
                                    }
                                    self.nodes.push(child);
                                }
                                proof {
                                    let ghost fr = seek_populated(
                                        old(self).frontier(),
                                        old(self).map_view(),
                                    );
                                    assert(fr.1 == rest);
                                    assert(call_ensures(old(self).predicate(), (region,), descend));
                                    assert(self.nodes@ == (if descend {
                                        fr.1.push(region.spec_enter(0))
                                    } else {
                                        fr.1
                                    }));
                                    assert(exists|b: bool|
                                        #[trigger] call_ensures(old(self).predicate(), (region,), b)
                                            && self.nodes@ == (if b {
                                            fr.1.push(region.spec_enter(0))
                                        } else {
                                            fr.1
                                        }));
                                }
                            }
                            return Some((region, item));
                        },
                        None => {
                            // Empty subtree: produce nothing and open no
                            // child frontier for it.
                            proof {
                                assert(seek_populated(prev_nodes, self.map@) == seek_populated(
                                    self.nodes@,
                                    self.map@,
                                ));
                            }
                        },
                    }
                },
            }
        }
    }
}

/// Walks like `MortonRegionFurtherIterator`, but yields an address only
/// where the predicate refuses descent: only the effective leaves of the
/// pruned walk are produced; inner addresses are traversed silently.
pub struct MortonRegionFurtherLeavesIterator<'a, V, F> {
    nodes: Vec<MortonRegion>,
    root: Ghost<MortonRegion>,
    further: F,
    map: &'a MortonMap<V>,
}

impl<'a, V, F: Fn(MortonRegion) -> bool> MortonRegionFurtherLeavesIterator<'a, V, F> {
    /// The private frontier stack of addresses awaiting processing.
    pub closed spec fn frontier(self) -> Seq<MortonRegion> {
        self.nodes@
    }

    /// The caller-supplied descent predicate.
    pub closed spec fn predicate(self) -> F {
        self.further
    }

    /// The traversed map's contents.
    pub closed spec fn map_view(self) -> Map<MortonRegion, V> {
        self.map@
    }

    /// The root address the traversal was started from.
    pub closed spec fn traversal_root(self) -> MortonRegion {
        self.root@
    }

    /// Sparse pruning, visible to callers: see `frontier_pruned`.
    pub open spec fn pruned(self) -> bool {
        frontier_pruned(self.frontier(), self.traversal_root(), self.map_view())
    }

    /// Well-formedness: the frontier holds well-formed addresses and the
    /// predicate accepts every well-formed address.
    pub closed spec fn inv(self) -> bool {
        &&& frontier_inv(self.nodes@)
        &&& frontier_pruned(self.nodes@, self.root@, self.map@)
        &&& forall|r: MortonRegion| r.inv() ==> call_requires(self.further, (r,))
    }

    /// A traversal of the regions within `region` that produces only the
    /// effective leaves: populated nodes where `further` refuses to go
    /// deeper, or that can have no children at all.
    pub fn new(region: MortonRegion, further: F, map: &'a MortonMap<V>) -> (r: Self)
        requires
            region.inv(),
            forall|q: MortonRegion| q.inv() ==> call_requires(further, (q,)),
        ensures
            r.inv(),
            r.frontier() == seq![region],
            r.predicate() == further,
            r.map_view() == map@,
            r.traversal_root() == region,
            r.pruned(),
    {
        let nodes: Vec<MortonRegion> = vec![region];
        proof {
            assert(nodes@ =~= seq![region]);
        }
        MortonRegionFurtherLeavesIterator { nodes, further, map, root: Ghost(region) }
    }

    /// Produces the next populated effective leaf: an address the predicate
    /// refused to descend from (witnessed by `call_ensures` of the
    /// predicate returning false), or one at the deepest level, which has
    /// no children in any map. One pull takes the frontier along the
    /// `leaves_pull` relation; where the first populated address can only
    /// be a leaf, it is owed as the yield. The frontier's total weight
    /// strictly shrinks with every pull, so a drain ends.
    pub fn next(&mut self) -> (r: Option<(MortonRegion, &'a V)>)
        requires
            old(self).inv(),
        ensures
            final(self).inv(),
            final(self).map_view() == old(self).map_view(),
            final(self).predicate() == old(self).predicate(),
            final(self).traversal_root() == old(self).traversal_root(),
            final(self).pruned(),
            frontier_inv(final(self).frontier()),
            old(self).frontier().len() > 0 ==> stack_measure(final(self).frontier())
                < stack_measure(old(self).frontier()),
            leaves_pull(
                old(self).predicate(),
                old(self).map_view(),
                old(self).frontier(),
                (match r {
                    Some(item) => Some(item.0),
                    None => None,
                }),
                final(self).frontier(),
            ),
            ({
                let (found, rest) = seek_populated(old(self).frontier(), old(self).map_view());
                definite_leaf(old(self).predicate(), found) ==> {
                    &&& r is Some
                    &&& r->Some_0.0 == found->Some_0
                    &&& final(self).frontier() == rest
                }
            }),
            match r {
                Some(item) => {
                    &&& item.0.inv()
                    &&& old(self).map_view().contains_key(item.0)
                    &&& *item.1 == old(self).map_view()[item.0]
                    &&& (item.0.level == 21 || call_ensures(
                        old(self).predicate(),
                        (item.0,),
                        false,
                    ))
                },
                None => final(self).frontier().len() == 0,
            },
    {
        loop
            invariant
                old(self).inv(),
                self.inv(),
                self.map == old(self).map,
                self.further == old(self).further,
                self.root == old(self).root,
                stack_measure(self.nodes@) <= stack_measure(old(self).nodes@),
                forall|y: Option<MortonRegion>, s1: Seq<MortonRegion>|
                    #[trigger] leaves_pull(
                        old(self).predicate(),
                        old(self).map_view(),
                        self.nodes@,
                        y,
                        s1,
                    ) ==> leaves_pull(
                        old(self).predicate(),
                        old(self).map_view(),
                        old(self).nodes@,
                        y,
                        s1,
                    ),
                definite_leaf(
                    old(self).predicate(),
                    seek_populated(old(self).nodes@, old(self).map_view()).0,
                ) ==> seek_populated(self.nodes@, old(self).map_view()) == seek_populated(
                    old(self).nodes@,
                    old(self).map_view(),
                ),
            decreases stack_measure(self.nodes@),
        {
            let ghost prev_nodes = self.nodes@;
            match self.nodes.pop() {
                None => {
                    proof {
                        if old(self).nodes@.len() > 0 {
                            lemma_stack_measure_pos(old(self).nodes@);
                        }
                        assert(leaves_pull_steps(
                            old(self).predicate(),
                            old(self).map_view(),
                            self.nodes@,
                            None,
                            self.nodes@,
                            1,
                        ));
                        assert(leaves_pull(
                            old(self).predicate(),
                            old(self).map_view(),
                            self.nodes@,
                            None,
                            self.nodes@,
                        ));
                        assert(seek_populated(self.nodes@, old(self).map_view()) == (
                            None::<MortonRegion>,
                            self.nodes@,
                        ));
                    }
                    return None;
                },
                Some(region) => {
                    proof {
                        assert(prev_nodes =~= self.nodes@.push(region));
                        lemma_stack_measure_push(self.nodes@, region);
                        lemma_measure_step(region);
                        lemma_pruned_drop(prev_nodes, self.root@, self.map@);
                    }
                    match region.next() {
                        Some(n) => {
                            proof {
                                lemma_stack_measure_push(self.nodes@, n);
                                lemma_sibling_octant(region, n);
                                lemma_pruned_push(self.nodes@, n, self.root@, self.map@);
                            }
                            self.nodes.push(n);
                        },
                        None => {},
                    }
                    proof {
                        assert(self.nodes@ =~= sibling_step(prev_nodes));
                        lemma_sibling_step_measure(prev_nodes);
                    }
                    match self.map.get(&region) {
                        Some(item) => {
                            let ghost rest = self.nodes@;
                            proof {
                                assert(seek_populated(prev_nodes, old(self).map_view()) == (
                                    Some(region),
                                    rest,
                                ));
                            }
                            let descend = if region.level < 21 {
                                (self.further)(region)
                            } else {
                                false
                            };
                            if descend {
                                // Inner node of the pruned walk: descend,
                                // produce nothing for it.
                                let child = region.enter(0);
                                proof {
                                    lemma_stack_measure_push(self.nodes@, child);
                                    lemma_enter_exit(region, 0);
                                    lemma_pruned_push(
                                        self.nodes@,
                                        child,
                                        self.root@,
                                        self.map@,
                                    );
                                }
                                self.nodes.push(child);
                                proof {
                                    assert(call_ensures(old(self).predicate(), (region,), true));
                                    assert(self.nodes@ == rest.push(region.spec_enter(0)));
                                    assert forall|y: Option<MortonRegion>, s1: Seq<MortonRegion>|
                                        #[trigger] leaves_pull(
                                            old(self).predicate(),
                                            old(self).map_view(),
                                            self.nodes@,
                                            y,
                                            s1,
                                        ) implies leaves_pull(
                                        old(self).predicate(),
                                        old(self).map_view(),
                                        old(self).nodes@,
                                        y,
                                        s1,
                                    ) by {
                                        let fuel = choose|fuel: nat|
                                            leaves_pull_steps(
                                                old(self).predicate(),
                                                old(self).map_view(),
                                                self.nodes@,
                                                y,
                                                s1,
                                                fuel,
                                            );
                                        assert(leaves_pull_steps(
                                            old(self).predicate(),
                                            old(self).map_view(),
                                            prev_nodes,
                                            y,
                                            s1,
                                            fuel + 1,
                                        ));
                                        assert(leaves_pull(
                                            old(self).predicate(),
                                            old(self).map_view(),
                                            prev_nodes,
                                            y,
                                            s1,
                                        ));
                                    }
                                    if definite_leaf(
                                        old(self).predicate(),
                                        seek_populated(old(self).nodes@, old(self).map_view()).0,
                                    ) {
                                        assert(seek_populated(
                                            old(self).nodes@,
                                            old(self).map_view(),
                                        ).0 == Some(region));
                                        assert(false);
                                    }
                                }
                            } else {
                                proof {
                                    if region.level < 21 {
                                        assert(call_ensures(
                                            old(self).predicate(),
                                            (region,),
                                            false,
                                        ));
                                    }
                                    assert(leaves_pull_steps(
                                        old(self).predicate(),
                                        old(self).map_view(),
                                        prev_nodes,
                                        Some(region),
                                        rest,
                                        1,
                                    ));
                                    assert(leaves_pull(
                                        old(self).predicate(),
                                        old(self).map_view(),
                                        prev_nodes,
                                        Some(region),
                                        rest,
                                    ));
                                }
                                return Some((region, item));
                            }
                        },
                        None => {
                            // Empty subtree: produce nothing and open no
                            // child frontier for it.
                            proof {
                                assert forall|y: Option<MortonRegion>, s1: Seq<MortonRegion>|
                                    #[trigger] leaves_pull(
                                        old(self).predicate(),
                                        old(self).map_view(),
                                        self.nodes@,
                                        y,
                                        s1,
                                    ) implies leaves_pull(
                                    old(self).predicate(),
                                    old(self).map_view(),
                                    old(self).nodes@,
                                    y,
                                    s1,
                                ) by {
                                    let fuel = choose|fuel: nat|
                                        leaves_pull_steps(
                                            old(self).predicate(),
                                            old(self).map_view(),
                                            self.nodes@,
                                            y,
                                            s1,
                                            fuel,
                                        );
                                    assert(leaves_pull_steps(
                                        old(self).predicate(),
                                        old(self).map_view(),
                                        prev_nodes,
                                        y,
                                        s1,
                                        fuel + 1,
                                    ));
                                    assert(leaves_pull(
                                        old(self).predicate(),
                                        old(self).map_view(),
                                        prev_nodes,
                                        y,
                                        s1,
                                    ));
                                }
                                assert(seek_populated(prev_nodes, old(self).map_view())
                                    == seek_populated(self.nodes@, old(self).map_view()));
                            }
                        },
                    }
                },
            }
        }
    }
}

} // verus!
