//! Spatial indexing core for a sparse voxel octree: Z-order (Morton) bit
//! codes, an octree node addressing scheme over them, a sparse map keyed by
//! node address, and pruning pre-order traversals over that map.

pub mod codec;
pub mod morton;
pub mod node_map;
pub mod passthrough;
pub mod region;
pub mod traverse;

pub use codec::interleave3;
pub use codec::lemma_interleave3_bound;
pub use codec::lemma_interleave3_injective;
pub use morton::lemma_significant_bits_prefix;
pub use morton::lemma_triplet_bound;
pub use morton::triplet_of;
pub use morton::unused_mask;
pub use morton::Morton;
pub use morton::NUM_BITS_PER_DIM;
pub use node_map::MortonMap;
pub use node_map::MortonSet;
pub use passthrough::PassthroughHash;
pub use region::lemma_enter_exit;
pub use region::lemma_eq_of_prefix;
pub use region::lemma_hash_bits_injective;
pub use region::lemma_next_sibling;
pub use region::MortonRegion;
pub use traverse::bounded_drain;
pub use traverse::definite_leaf;
pub use traverse::frontier_inv;
pub use traverse::frontier_pruned;
pub use traverse::leaves_pull;
pub use traverse::leaves_pull_steps;
pub use traverse::region_measure;
pub use traverse::seek_populated;
pub use traverse::sibling_step;
pub use traverse::stack_measure;
pub use traverse::subtree_size;
pub use traverse::MortonRegionFurtherIterator;
pub use traverse::MortonRegionFurtherLeavesIterator;
pub use traverse::MortonRegionIterator;
