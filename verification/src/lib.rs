//! Remote cache profiling and tracking engine.
//!
//! The crate builds eviction sets for a last-level cache from timed remote
//! memory accesses, learns to tell a cached access from an uncached one, and
//! follows the head of a receive ring through the cache sets it touches.
pub mod connection;
pub mod error;
pub mod offline_extractor;
pub mod online_tracker;
pub mod output;
pub mod rpp;
