//! Hashing of keys with the standard library's `DefaultHasher`.
//!
//! Keys are generic, so nothing is stated of the digests: callers use them
//! only to pick a shard or a sketch column, and state what holds for every
//! digest.

use vstd::prelude::*;
use core::hash::Hash;
use std::collections::hash_map::DefaultHasher;
use core::hash::Hasher;
use vstd::std_specs::hash::DefaultHasherAdditionalSpecFns;

verus! {

/// Feeds `value` to `hasher` through its `Hash` impl (`core::hash::Hash::hash`).
///
/// Trusted: the bytes written depend on the `Hash` impl of `T`, so the
/// contract states nothing about the hasher's state afterwards.
#[verifier::external_body]
fn feed<T: Hash>(value: &T, hasher: &mut DefaultHasher) {
    value.hash(hasher)
}

/// `h` is what `DefaultHasher::finish` returns for some sequence of writes.
pub open spec fn is_digest(h: u64) -> bool {
    exists|writes: Seq<Seq<u8>>| h == #[trigger] DefaultHasher::spec_finish(writes)
}

/// Digest of `key` under a fresh `DefaultHasher`.
pub fn hash_key<K: Hash>(key: &K) -> (r: u64)
    ensures
        is_digest(r),
{
    let mut hasher = DefaultHasher::new();
    feed(key, &mut hasher);
    let r = hasher.finish();
    proof {
        assert(r == DefaultHasher::spec_finish(hasher@));
    }
    r
}

/// Digest of `key` under a fresh `DefaultHasher` fed `seed` first; the seed
/// selects one of several independent hash functions.
pub fn hash_with_seed<K: Hash>(key: &K, seed: u64) -> (r: u64)
    ensures
        is_digest(r),
{
    let mut hasher = DefaultHasher::new();
    feed(&seed, &mut hasher);
    feed(key, &mut hasher);
    let r = hasher.finish();
    proof {
        assert(r == DefaultHasher::spec_finish(hasher@));
    }
    r
}

} // verus!
