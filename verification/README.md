# cache_mod

In-process caches with five eviction policies (LRU, LFU, TinyLFU, TTL and
weight-bounded), written in Verus: every operation carries a contract and is
proved against it.

## Layout

- `src/cache.rs`: the `Cache` trait, with the capacity invariant every cache keeps.
- `src/recency.rs`: an arena-backed recency list (doubly linked list plus key
  index) shared by the LRU, TinyLFU and weight-bounded caches.
- `src/sharding.rs`: shard count and per-shard capacity, and the `Sharded` container.
- `src/lru.rs`, `src/lfu.rs`, `src/tinylfu.rs`, `src/ttl.rs`, `src/sized.rs`: the
  caches. Each describes its operations as step predicates over an abstract
  view (keys in recency order, contents, counters, deadlines) and proves laws
  over them, such as read-after-write and which entry an eviction removes.
- `src/sketch.rs`: the Count-Min Sketch used by TinyLFU for admission.
- `src/clock.rs`, `src/hashing.rs`: the trusted wrappers around `std::time` and
  `DefaultHasher`.
- `app/`: thread-safe front ends (`Mutex`-wrapped caches usable through `&self`)
  and the `Display`/`Error` impls for the error type.
- `tests/`: scenario tests.

The caches take `&mut self`; sharing across threads is the job of the wrappers
in `app/`.

## Keys

Keys must be `Copy` and obey vstd's key model (`obeys_key_model`), which vstd
grants to the primitive integer types and `bool`; every constructor requires it,
so `String` and `&str` keys cannot be used from verified code.
