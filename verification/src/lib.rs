//! Classic in-memory algorithms with verified contracts: a disjoint-set
//! structure, two in-place partitioning schemes, quickselect, an array-backed
//! range-sum tree, longest-increasing-subsequence length, and topological
//! sorting with cycle detection.

pub mod lis;
pub mod partition;
pub mod segment_tree;
pub mod select;
pub mod toposort;
pub mod union_find;

pub use lis::is_chain;
pub use lis::lis_len;
pub use partition::hoare_partition;
pub use partition::lomuto_partition;
pub use partition::permutes_within;
pub use segment_tree::range_total;
pub use segment_tree::SegmentTree;
pub use select::kth_smallest;
pub use select::quickselect;
pub use toposort::has_cycle;
pub use toposort::order_respects;
pub use toposort::toposort;
pub use union_find::UnionFind;
