//! The values that the library hands back.
use vstd::prelude::*;

verus! {

/// Why a call was refused. Both are detected before any output is built.
#[derive(Debug, Clone, Copy, PartialEq, Eq)]
pub enum MyError {
    /// The number of leaves and of Merkle trees differ: `(leaves, trees)`.
    LeavesTreesNotEqual(usize, usize),
    /// A batch must be able to hold at least one leaf.
    InvalidBatchSize,
}

/// Set of changelogs for different Merkle trees, holding at most one
/// batch worth of leaves.
#[derive(Debug, PartialEq, Eq, PartialOrd, Ord)]
pub struct Changelogs {
    pub changelogs: Vec<ChangelogEvent>,
}

/// Changelog event for one Merkle tree: a contiguous run of leaves
/// appended to that tree.
#[derive(Debug, PartialEq, Eq, PartialOrd, Ord)]
pub struct ChangelogEvent {
    pub merkle_tree_pubkey: [u8; 32],
    pub leaves: Vec<[u8; 32]>,
}

} // verus!
