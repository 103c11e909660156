//! Error type returned by the cache constructors.

use vstd::prelude::*;

verus! {

/// Errors produced by the cache constructors.
///
/// New variants may be added as more cache types land.
#[non_exhaustive]
#[derive(Debug, Clone, Copy, PartialEq, Eq, Hash)]
pub enum CacheError {
    /// A cache constructor was called with a capacity of zero; every eviction
    /// policy needs room for at least one entry.
    InvalidCapacity,
}

impl CacheError {
    /// Human-readable description of the error.
    pub fn message(&self) -> (r: String)
        ensures
            *self == CacheError::InvalidCapacity ==> r@ == "cache capacity must be non-zero"@,
    {
        match self {
            CacheError::InvalidCapacity => String::from_str("cache capacity must be non-zero"),
        }
    }
}

} // verus!
