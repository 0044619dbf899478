//! An incremental Merkle authentication structure.
//!
//! An append-only sequence of keys is summarized by a forest of perfect
//! (power-of-two-sized) binary Merkle subtrees, one optional subtree per bit
//! of the element count. The forest commits to all keys through a single
//! aggregate root, supports O(log n) single-key appends by carry-propagating
//! merges, and produces compact membership proofs that account for the
//! repeat-hash padding used where a slot is empty.

pub mod forest;
pub mod hashes;
pub mod laws;
pub mod subtree;

pub use forest::Merkle;
pub use subtree::MerklePow2;
