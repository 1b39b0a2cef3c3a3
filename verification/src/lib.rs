//! Competitive-programming building blocks with verified contracts.
//!
//! The centre piece is the rerooting engine in [`rerooting`], which computes,
//! for every vertex of an unrooted tree, the aggregate that a downward tree
//! DP would produce if that vertex were the root, in linear work.  Around it
//! stand a parsing helper for whitespace-separated integer input, a
//! size-weighted disjoint-set forest with path compression, a point-update
//! range-query segment tree, and a deterministic Miller-Rabin primality
//! test.

pub mod input;
pub mod primality_check;
pub mod rerooting;
pub mod segment_tree;
pub mod union_find;

