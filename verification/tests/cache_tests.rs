use read_rpc_server::cache::LruMemoryCache;

fn bytes(n: usize, fill: u8) -> Vec<u8> {
    vec![fill; n]
}

#[test]
fn budget_eviction_in_insertion_order() {
    // budget = 200 bytes, three entries of 100 bytes each inserted in order
    // A, B, C: A is evicted, the cache holds {B, C} totaling 200 bytes.
    let mut cache: LruMemoryCache<u64, Vec<u8>> = LruMemoryCache::new(200);
    cache.put(1, bytes(100, b'a'));
    cache.put(2, bytes(100, b'b'));
    cache.put(3, bytes(100, b'c'));
    assert_eq!(cache.len(), 2);
    assert_eq!(cache.used_bytes(), 200);
    assert!(!cache.contains(&1));
    assert!(cache.contains(&2));
    assert!(cache.contains(&3));
}

#[test]
fn touched_entry_survives_eviction() {
    // budget = 200 bytes, entries A(100), B(100) inserted, then A is read via
    // `get`, then C(100) inserted: B is evicted, the cache holds {A, C}.
    let mut cache: LruMemoryCache<u64, Vec<u8>> = LruMemoryCache::new(200);
    cache.put(1, bytes(100, b'a'));
    cache.put(2, bytes(100, b'b'));
    assert_eq!(cache.get(&1), Some(&bytes(100, b'a')));
    cache.put(3, bytes(100, b'c'));
    assert!(cache.contains(&1));
    assert!(!cache.contains(&2));
    assert!(cache.contains(&3));
}

#[test]
fn contains_perturbs_recency_like_get() {
    // `contains` is an access with the same side effects as `get`: checking
    // for A protects it from the eviction that the insertion of C forces.
    let mut cache: LruMemoryCache<u64, Vec<u8>> = LruMemoryCache::new(200);
    cache.put(1, bytes(100, b'a'));
    cache.put(2, bytes(100, b'b'));
    assert!(cache.contains(&1));
    cache.put(3, bytes(100, b'c'));
    assert!(cache.contains(&1));
    assert!(!cache.contains(&2));
    assert!(cache.contains(&3));
}

#[test]
fn get_miss_is_not_an_error() {
    let mut cache: LruMemoryCache<u64, Vec<u8>> = LruMemoryCache::new(100);
    assert_eq!(cache.get(&7), None);
    cache.put(7, bytes(10, b'x'));
    assert_eq!(cache.get(&8), None);
    assert_eq!(cache.len(), 1);
}

#[test]
fn get_returns_the_stored_value() {
    let mut cache: LruMemoryCache<u64, Vec<u8>> = LruMemoryCache::new(100);
    cache.put(5, vec![7u8, 8u8, 9u8]);
    assert_eq!(cache.get(&5), Some(&vec![7u8, 8u8, 9u8]));
}

#[test]
fn put_replaces_an_existing_key() {
    let mut cache: LruMemoryCache<u64, Vec<u8>> = LruMemoryCache::new(200);
    cache.put(1, bytes(80, b'a'));
    cache.put(1, bytes(120, b'b'));
    assert_eq!(cache.len(), 1);
    assert_eq!(cache.used_bytes(), 120);
    assert_eq!(cache.get(&1), Some(&bytes(120, b'b')));
}

#[test]
fn oversized_entry_is_stored_alone() {
    // A single entry larger than the whole budget is stored anyway and
    // becomes the sole eviction candidate of the next insertion.
    let mut cache: LruMemoryCache<u64, Vec<u8>> = LruMemoryCache::new(100);
    cache.put(1, bytes(150, b'a'));
    assert_eq!(cache.len(), 1);
    assert_eq!(cache.used_bytes(), 150);
    assert!(cache.contains(&1));
    cache.put(2, bytes(40, b'b'));
    assert!(!cache.contains(&1));
    assert!(cache.contains(&2));
    assert_eq!(cache.used_bytes(), 40);
}

#[test]
fn budget_is_respected_throughout_a_workload() {
    // Budget invariant: after every put whose value fits the budget, the sum
    // of resident entry sizes stays at or under the budget.
    let mut cache: LruMemoryCache<u64, Vec<u8>> = LruMemoryCache::new(200);
    let sizes = [60usize, 150, 1, 200, 199, 40, 40, 40, 40, 40, 120, 7];
    for (i, n) in sizes.iter().enumerate() {
        cache.put((i % 7) as u64, bytes(*n, b'w'));
        assert!(cache.used_bytes() <= 200);
    }
}

#[test]
fn new_cache_starts_empty() {
    let mut cache: LruMemoryCache<u64, Vec<u8>> = LruMemoryCache::new(1000);
    assert_eq!(cache.len(), 0);
    assert_eq!(cache.used_bytes(), 0);
    assert!(!cache.contains(&0));
}

#[test]
fn zero_budget_cache_holds_one_entry_at_a_time() {
    // The allocator may degrade a cache to a zero-byte budget; every entry
    // is then oversized and lives alone until the next insertion.
    let mut cache: LruMemoryCache<u64, Vec<u8>> = LruMemoryCache::new(0);
    cache.put(1, bytes(10, b'a'));
    assert!(cache.contains(&1));
    cache.put(2, bytes(10, b'b'));
    assert!(!cache.contains(&1));
    assert!(cache.contains(&2));
    assert_eq!(cache.len(), 1);
}
