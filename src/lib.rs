//! Partitioning of Merkle tree leaves into fixed-capacity batches of
//! per-tree changelog events.
//!
//! Leaves arrive as two parallel arrays (`leaves[i]` goes to `trees[i]`).
//! They are first grouped by tree, in ascending tree order, and then cut
//! into batches of at most `batch_size` leaves; inside a batch each maximal
//! run of leaves of one tree forms one changelog event.
pub mod batching;
pub mod grouping;
pub mod key_order;
pub mod laws;
pub mod stream;
pub mod types;

pub use batching::append_leaves;
pub use grouping::build_merkle_tree_map;
pub use types::{ChangelogEvent, Changelogs, MyError};
