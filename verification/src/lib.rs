//! Serving-tier core of a blockchain read-replica: a byte-budgeted LRU cache,
//! the memory-budget allocator that partitions a RAM ceiling across caches,
//! the adapter that exposes a cache to a contract-execution engine, and the
//! synchronizer logic that keeps the finalized-tip value and the block cache
//! consistent with the chain's progress.

pub mod budget;
pub mod cache;
pub mod config;
pub mod finality;
pub mod types;
