use std::time::Duration;

use cache_mod::{
    deadline_after, Cache, LfuCache, LruCache, SizedCache, TinyLfuCache, TtlCache,
    FAR_FUTURE_NANOS, FAR_FUTURE_SECS,
};

/// A deterministic stream of (operation, key, value) triples.
fn script(len: usize) -> Vec<(u8, u8, u8)> {
    let mut state: u32 = 0x2545_f491;
    let mut out = Vec::new();
    for _ in 0..len {
        state ^= state << 13;
        state ^= state >> 17;
        state ^= state << 5;
        let op = (state % 4) as u8;
        let key = ((state >> 8) % 24) as u8;
        let value = (state >> 16) as u8;
        out.push((op, key, value));
    }
    out
}

fn drive<C: Cache<u8, u8>>(cache: &mut C, bound: usize) {
    for (op, k, v) in script(600) {
        match op {
            0 => {
                let _ = cache.insert(k, v);
            }
            1 => {
                let _ = cache.get(&k);
            }
            2 => {
                let _ = cache.remove(&k);
            }
            _ => {
                let _ = cache.contains_key(&k);
            }
        }
        assert!(cache.len() <= bound);
    }
    cache.clear();
    assert_eq!(cache.len(), 0);
    assert!(cache.is_empty());
}

#[test]
fn every_cache_stays_within_capacity() {
    drive(&mut LruCache::<u8, u8>::new(8).expect("capacity > 0"), 8);
    drive(&mut LfuCache::<u8, u8>::new(8).expect("capacity > 0"), 8);
    drive(&mut TtlCache::<u8, u8>::new(8, Duration::from_secs(60)).expect("capacity > 0"), 8);
    drive(&mut TinyLfuCache::<u8, u8>::new(8).expect("capacity > 0"), 8);
    fn unit(_: &u8) -> usize {
        1
    }
    drive(&mut SizedCache::<u8, u8, _>::new(8, unit).expect("max_weight > 0"), 8);
}

#[test]
fn sharded_caches_stay_within_capacity() {
    drive(&mut LruCache::<u8, u8>::new(64).expect("capacity > 0"), 64);
    drive(&mut LfuCache::<u8, u8>::new(64).expect("capacity > 0"), 64);
    let mut lru: LruCache<u32, u32> = LruCache::new(40).expect("capacity > 0");
    for i in 0..1000u32 {
        let _ = lru.insert(i, i);
        assert!(lru.len() <= 40);
    }
}

#[test]
fn insert_then_get_round_trips_for_every_key() {
    for k in 0..=255u8 {
        let mut lru: LruCache<u8, u8> = LruCache::new(16).expect("capacity > 0");
        let _ = lru.insert(k, k ^ 0x5a);
        assert_eq!(lru.get(&k), Some(k ^ 0x5a));

        let mut lfu: LfuCache<u8, u8> = LfuCache::new(16).expect("capacity > 0");
        let _ = lfu.insert(k, k ^ 0x5a);
        assert_eq!(lfu.get(&k), Some(k ^ 0x5a));

        let mut ttl: TtlCache<u8, u8> =
            TtlCache::new(16, Duration::from_secs(60)).expect("capacity > 0");
        let _ = ttl.insert(k, k ^ 0x5a);
        assert_eq!(ttl.get(&k), Some(k ^ 0x5a));

        fn unit(_: &u8) -> usize {
            1
        }
        let mut sized: SizedCache<u8, u8, _> = SizedCache::new(16, unit).expect("max_weight > 0");
        let _ = sized.insert(k, k ^ 0x5a);
        assert_eq!(sized.get(&k), Some(k ^ 0x5a));
    }
}

#[test]
fn remove_then_contains_key_is_false() {
    let mut lru: LruCache<u8, u8> = LruCache::new(16).expect("capacity > 0");
    let _ = lru.insert(7, 70);
    assert!(lru.contains_key(&7));
    assert_eq!(lru.remove(&7), Some(70));
    assert!(!lru.contains_key(&7));
    assert_eq!(lru.get(&7), None);

    let mut lfu: LfuCache<u8, u8> = LfuCache::new(16).expect("capacity > 0");
    let _ = lfu.insert(7, 70);
    assert_eq!(lfu.remove(&7), Some(70));
    assert!(!lfu.contains_key(&7));
    assert_eq!(lfu.get(&7), None);

    let mut tiny: TinyLfuCache<u8, u8> = TinyLfuCache::new(16).expect("capacity > 0");
    let _ = tiny.insert(7, 70);
    assert_eq!(tiny.remove(&7), Some(70));
    assert!(!tiny.contains_key(&7));
    assert_eq!(tiny.get(&7), None);
}

#[test]
fn lru_single_entry_capacity_keeps_latest() {
    let mut cache: LruCache<u32, u32> = LruCache::new(1).expect("capacity > 0");
    assert_eq!(cache.insert(1, 10), None);
    assert_eq!(cache.insert(2, 20), None);
    assert_eq!(cache.get(&1), None);
    assert_eq!(cache.get(&2), Some(20));
    assert_eq!(cache.len(), 1);
}

#[test]
fn lru_update_promotes_key() {
    let mut cache: LruCache<u32, u32> = LruCache::new(2).expect("capacity > 0");
    cache.insert(1, 10);
    cache.insert(2, 20);
    // Re-inserting 1 makes it most recent, so 2 is evicted next.
    assert_eq!(cache.insert(1, 11), Some(10));
    cache.insert(3, 30);
    assert!(!cache.contains_key(&2));
    assert_eq!(cache.get(&1), Some(11));
}

#[test]
fn lru_with_capacity_matches_new() {
    let cache: LruCache<u32, u32> = LruCache::with_capacity(5);
    assert_eq!(cache.capacity(), 5);
    let lfu: LfuCache<u32, u32> = LfuCache::with_capacity(6);
    assert_eq!(lfu.capacity(), 6);
    let tiny: TinyLfuCache<u32, u32> = TinyLfuCache::with_capacity(7);
    assert_eq!(tiny.capacity(), 7);
    let ttl: TtlCache<u32, u32> = TtlCache::with_capacity(8, Duration::from_secs(1));
    assert_eq!(ttl.capacity(), 8);
}

#[test]
fn lfu_update_counts_as_access() {
    let mut cache: LfuCache<u32, u32> = LfuCache::new(2).expect("capacity > 0");
    cache.insert(1, 10);
    cache.insert(2, 20);
    // Updating 1 bumps its counter to 2; 2 keeps counter 1 and is evicted.
    assert_eq!(cache.insert(1, 11), Some(10));
    cache.insert(3, 30);
    assert_eq!(cache.get(&2), None);
    assert_eq!(cache.get(&1), Some(11));
}

#[test]
fn lfu_clear_resets_counters() {
    let mut cache: LfuCache<u32, u32> = LfuCache::new(2).expect("capacity > 0");
    cache.insert(1, 10);
    for _ in 0..5 {
        let _ = cache.get(&1);
    }
    cache.clear();
    // After clear, 1 starts again at counter 1 and loses the tie to nobody:
    // it is the oldest of two equally-cold keys.
    cache.insert(1, 10);
    cache.insert(2, 20);
    cache.insert(3, 30);
    assert!(!cache.contains_key(&1));
    assert!(cache.contains_key(&2));
}

#[test]
fn ttl_deadline_formula() {
    assert_eq!(deadline_after(5, 7, true, true), 12);
    assert_eq!(deadline_after(0, 0, true, false), 0);
    // `now + ttl` is past what an `Instant` can hold: about 100 years from now.
    let max_ttl = Duration::MAX.as_nanos();
    assert_eq!(deadline_after(10, max_ttl, false, true), 10 + FAR_FUTURE_NANOS);
    // Even the fallback cannot be represented: the deadline is now.
    assert_eq!(deadline_after(10, max_ttl, false, false), 10);
    assert_eq!(FAR_FUTURE_NANOS, 100 * 365 * 24 * 60 * 60 * 1_000_000_000u128);
    assert_eq!(FAR_FUTURE_SECS as u128 * 1_000_000_000, FAR_FUTURE_NANOS);
}

#[test]
fn ttl_live_entry_is_kept_and_updated() {
    let mut cache: TtlCache<u32, u32> =
        TtlCache::new(2, Duration::from_secs(60)).expect("capacity > 0");
    assert_eq!(cache.insert_at(1, 10, 100, 0), None);
    // A live entry is updated in place and its deadline re-armed.
    assert_eq!(cache.insert_at(1, 11, 300, 50), Some(10));
    assert_eq!(cache.get_at(&1, 200), Some(11));
    assert!(cache.contains_key_at(&1, 299));
    assert!(!cache.contains_key_at(&1, 300));
}

#[test]
fn ttl_len_counts_only_live_entries() {
    let mut cache: TtlCache<u32, u32> =
        TtlCache::new(4, Duration::from_secs(60)).expect("capacity > 0");
    cache.insert_at(1, 10, 100, 0);
    cache.insert_at(2, 20, 200, 0);
    cache.insert_at(3, 30, 300, 0);
    assert_eq!(cache.len_at(150), 2);
    assert_eq!(cache.len_at(250), 1);
    assert_eq!(cache.get_at(&3, 250), Some(30));
}

#[test]
fn ttl_remove_returns_expired_value_too() {
    let mut cache: TtlCache<u32, u32> =
        TtlCache::new(4, Duration::from_secs(60)).expect("capacity > 0");
    cache.insert_at(1, 10, 100, 0);
    assert_eq!(cache.remove(&1), Some(10));
    assert_eq!(cache.remove(&1), None);
}

#[test]
fn tinylfu_cold_candidate_is_rejected() {
    let mut cache: TinyLfuCache<u32, u32> = TinyLfuCache::new(2).expect("capacity > 0");
    cache.insert(1, 10);
    cache.insert(2, 20);
    for _ in 0..5 {
        let _ = cache.get(&1);
        let _ = cache.get(&2);
    }
    // Key 3 has been seen once; both residents are warmer.
    assert_eq!(cache.insert(3, 30), None);
    assert!(!cache.contains_key(&3));
    assert_eq!(cache.len(), 2);
    assert_eq!(cache.get(&1), Some(10));
    assert_eq!(cache.get(&2), Some(20));
}

#[test]
fn tinylfu_fills_without_admission_test() {
    let mut cache: TinyLfuCache<u32, u32> = TinyLfuCache::new(3).expect("capacity > 0");
    for k in 0..3u32 {
        assert_eq!(cache.insert(k, k * 10), None);
    }
    for k in 0..3u32 {
        assert_eq!(cache.get(&k), Some(k * 10));
    }
}

#[test]
fn sized_zero_weight_values_do_not_count() {
    fn weightless(_: &u32) -> usize {
        0
    }
    let mut cache: SizedCache<u32, u32, _> = SizedCache::new(2, weightless).expect("max_weight > 0");
    for k in 0..5u32 {
        let _ = cache.insert(k, k);
    }
    assert_eq!(cache.len(), 5);
    assert_eq!(cache.total_weight(), 0);
}

#[test]
fn sized_oversized_update_keeps_old_value() {
    #[allow(clippy::ptr_arg)]
    fn bytes(v: &Vec<u8>) -> usize {
        v.len()
    }
    let mut cache: SizedCache<u32, Vec<u8>, _> = SizedCache::new(10, bytes).expect("max_weight > 0");
    cache.insert(1, vec![1u8; 4]);
    assert_eq!(cache.insert(1, vec![2u8; 11]), None);
    assert_eq!(cache.get(&1), Some(vec![1u8; 4]));
    assert_eq!(cache.total_weight(), 4);
}

#[test]
fn sized_update_evicts_others_to_fit() {
    #[allow(clippy::ptr_arg)]
    fn bytes(v: &Vec<u8>) -> usize {
        v.len()
    }
    let mut cache: SizedCache<u32, Vec<u8>, _> = SizedCache::new(10, bytes).expect("max_weight > 0");
    cache.insert(1, vec![0u8; 3]);
    cache.insert(2, vec![0u8; 3]);
    cache.insert(3, vec![0u8; 3]);
    // Growing 3 to 8 bytes needs 8 + 3 <= 10 at most: 1 and then 2 go.
    assert!(cache.insert(3, vec![0u8; 8]).is_some());
    assert_eq!(cache.total_weight(), 8);
    assert!(!cache.contains_key(&1));
    assert!(!cache.contains_key(&2));
    assert_eq!(cache.len(), 1);
}

#[test]
fn sized_insert_weighed_uses_given_weight() {
    fn unit(_: &u32) -> usize {
        1
    }
    let mut cache: SizedCache<u32, u32, _> = SizedCache::new(10, unit).expect("max_weight > 0");
    assert_eq!(cache.insert_weighed(1, 10, 6), None);
    assert_eq!(cache.insert_weighed(2, 20, 5), None);
    assert!(!cache.contains_key(&1));
    assert_eq!(cache.total_weight(), 5);
    assert_eq!(cache.insert_weighed(2, 21, 11), None);
    assert_eq!(cache.get(&2), Some(20));
}

#[test]
fn ttl_unrepresentable_lifetime_keeps_entry_live() {
    // `now + Duration::MAX` is past what an `Instant` can hold; the entry gets
    // the far-future fallback and stays readable.
    let mut cache: TtlCache<u32, u32> =
        TtlCache::new(2, Duration::from_secs(60)).expect("capacity > 0");
    assert_eq!(cache.insert_with_ttl(1, 10, Duration::MAX), None);
    assert_eq!(cache.get(&1), Some(10));
    assert!(cache.contains_key(&1));
}
