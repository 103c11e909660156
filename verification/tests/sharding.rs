use std::collections::HashSet;

use cache_mod::sharding::{per_shard_capacity, shard_count, Sharded};

#[test]
fn shard_count_tiny_caches_use_one_shard() {
    for cap in [1usize, 2, 3, 4, 8, 16, 24, 31] {
        assert_eq!(
            shard_count(cap),
            1,
            "capacity {cap} should give 1 shard (below MIN_PER_SHARD * 2 = 32)",
        );
    }
}

#[test]
fn shard_count_scales_with_capacity() {
    assert_eq!(shard_count(32), 2);
    assert_eq!(shard_count(48), 2);
    assert_eq!(shard_count(64), 4);
    assert_eq!(shard_count(127), 4);
    assert_eq!(shard_count(128), 8);
    assert_eq!(shard_count(256), 16);
    // Capped at DEFAULT_SHARDS even for very large caches.
    assert_eq!(shard_count(1_000_000), 16);
}

#[test]
fn shard_count_is_always_power_of_two() {
    for cap in [1usize, 16, 32, 33, 64, 100, 256, 1024, 65_536] {
        assert!(
            shard_count(cap).is_power_of_two(),
            "shard_count({cap}) must be a power of two",
        );
    }
}

#[test]
fn per_shard_capacity_distributes_evenly_when_divisible() {
    assert_eq!(per_shard_capacity(64, 4), 16);
    assert_eq!(per_shard_capacity(256, 16), 16);
    assert_eq!(per_shard_capacity(1024, 16), 64);
}

#[test]
fn per_shard_capacity_floors_when_not_divisible() {
    // 17 / 16 = 1 (floor), so total effective capacity is 16.
    assert_eq!(per_shard_capacity(17, 16), 1);
    // 100 / 8 = 12, total = 96.
    assert_eq!(per_shard_capacity(100, 8), 12);
}

#[test]
fn per_shard_capacity_never_returns_zero() {
    // Capacity 1 with many shards is floored to 1, never to 0.
    assert_eq!(per_shard_capacity(1, 16), 1);
}

#[test]
fn from_factory_creates_requested_number_of_shards() {
    let sharded: Sharded<usize> = Sharded::from_factory(4, |i| i * 10);
    assert_eq!(sharded.iter().count(), 4);
    let values: Vec<usize> = sharded.iter().copied().collect();
    assert_eq!(values, vec![0, 10, 20, 30]);
}

#[test]
fn shard_for_routes_deterministically() {
    let sharded: Sharded<usize> = Sharded::from_factory(16, |_| 0);
    let key = "hello";
    let first = sharded.shard_index(&key);
    for _ in 0..32 {
        assert_eq!(sharded.shard_index(&key), first);
    }
}

#[test]
fn shard_for_distributes_keys_across_shards() {
    let sharded: Sharded<usize> = Sharded::from_factory(16, |_| 0);
    let mut distinct = HashSet::new();
    for i in 0..1024u32 {
        let _ = distinct.insert(sharded.shard_index(&i));
    }
    // Statistical: at least 8 of 16 shards must be hit by 1024 distinct keys.
    assert!(
        distinct.len() >= 8,
        "expected at least 8 distinct shards across 1024 keys, hit {}",
        distinct.len(),
    );
}
