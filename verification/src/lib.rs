//! A versioned key-value store for spatially keyed data, layered on a
//! transactional embedded key-value engine.
//!
//! Keys identify nodes of a quadtree/octree (a detail level plus a
//! Morton-encoded coordinate); values are opaque byte blobs. On top of plain
//! CRUD the store maintains a version graph: every committed state is a node
//! whose edges store the differential changes needed to move between adjacent
//! versions.

use vstd::prelude::*;

pub mod backup_tree;
pub mod bytes;
pub mod change_encoder;
pub mod db;
pub mod db_key;
pub mod engine;
pub mod meta_tree;
pub mod staging;
pub mod version_change_tree;
pub mod version_graph_tree;
pub mod working_tree;

verus! {

/// Level of detail.
pub type Level = u8;

/// Identifier of a particular archived set of version changes.
#[derive(Clone, Copy, Debug, PartialEq, Eq, Structural, PartialOrd, Ord, Hash)]
pub struct Version {
    pub number: u64,
}

impl Version {
    pub fn new(number: u64) -> (r: Self)
        ensures
            r.number == number,
    {
        Self { number }
    }

    /// The fixed-width big-endian form under which a version is stored.
    pub fn into_sled_key(self) -> (r: Vec<u8>)
        ensures
            r@ == crate::bytes::be_bytes(self.number as nat, 8),
    {
        proof {
            crate::bytes::lemma_pow256_widths();
        }
        crate::bytes::u128_to_be_bytes(self.number as u128, 8)
    }
}

} // verus!
