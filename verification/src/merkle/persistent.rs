//! Persistent Merkle internal node records.
//!
//! Internal sparse-Merkle nodes are stored under the `merkle_nodes` column family keyed by
//! `level || path`; the committed state root lives in the metadata column family under
//! [`MERKLE_STATE_ROOT_META_KEY`].
use crate::bytes::Bytes32;
use vstd::prelude::*;

verus! {

/// Metadata key holding the 32-byte state root.
pub const MERKLE_STATE_ROOT_META_KEY: &'static str = "merkle_state_root";

/// What to apply for one `merkle_nodes` row when flushing the tree.
#[derive(Debug, Clone, PartialEq, Eq)]
pub enum MerkleNodePersistOp {
    /// Upsert the 32-byte node hash at this `(level, path)` key.
    Put(Bytes32),
    /// Remove the key from `merkle_nodes` (the subtree collapsed to the empty digest).
    Delete,
}

} // verus!
