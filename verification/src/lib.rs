//! An append-oriented probabilistic ordered index.
//!
//! A skip list that maps monotonically increasing numeric keys (timestamps)
//! to string payloads (commands). New entries are appended at the high end
//! in O(1) amortized time thanks to per-level tail tracking; exact-key
//! lookups descend the level structure in the classic skip-list fashion.

pub mod rng;
pub mod skiplist;
