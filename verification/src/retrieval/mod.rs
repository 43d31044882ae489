//! Retrieval pipeline helpers: query-text hashing, result ordering keys,
//! section grouping, reach-set merging and path materialization.
pub mod cache;
pub mod diversify;
pub mod expand;
pub mod pagerank;
pub mod rerank;
pub mod score;
pub mod seed;
