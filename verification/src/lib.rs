//! High-performance in-process caching with multiple eviction policies:
//! LRU, LFU, TinyLFU, TTL and size-bounded.
//!
//! Every cache type implements the [`Cache`] trait; constructors return
//! [`CacheError`] for a zero capacity.
//!
//! Keys are `Copy` types whose hashing and equality follow vstd's key model
//! (`obeys_key_model`), which vstd grants to the primitive integer types and
//! `bool`: every constructor requires it. Operations take `&mut self`; the
//! caches carry no lock of their own.

use vstd::prelude::*;

mod cache;
mod clock;
mod error;
mod hashing;
mod lfu;
mod lru;
mod recency;
pub mod sharding;
mod sized;
mod sketch;
mod tinylfu;
mod ttl;

pub use cache::Cache;
pub use error::CacheError;
pub use lfu::LfuCache;
pub use lru::LruCache;
pub use sized::SizedCache;
pub use tinylfu::TinyLfuCache;
pub use ttl::{deadline_after, TtlCache, FAR_FUTURE_NANOS, FAR_FUTURE_SECS};

verus! {

/// Crate version string.
pub const VERSION: &'static str = "1.0.0";

} // verus!
