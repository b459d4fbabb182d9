//! Storage core of a single-file, paged database: fixed-size records are
//! organised on pages into a sorted, searchable B-tree.  The crate provides
//! the node layer (ordered cells, binary search, capacity-overflow splits),
//! an in-memory page store, and the tree-level orchestration that keeps the
//! root consistent as the tree grows.

pub mod btree;
pub mod cursor;
pub mod node;
pub mod pager;
pub mod row;
