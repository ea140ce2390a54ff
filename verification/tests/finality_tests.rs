use read_rpc_server::cache::LruMemoryCache;
use read_rpc_server::finality::bootstrap_finality;
use read_rpc_server::finality::handle_finalized_block;
use read_rpc_server::types::CacheBlock;
use read_rpc_server::types::CryptoHash;

fn hash(seed: u64) -> CryptoHash {
    CryptoHash { w0: seed, w1: seed.wrapping_mul(3), w2: seed.wrapping_mul(5), w3: seed.wrapping_mul(7) }
}

fn block(height: u64) -> CacheBlock {
    CacheBlock {
        block_hash: hash(height),
        block_height: height,
        block_timestamp: 1_600_000_000 + height,
        gas_price: 100_000_000,
        latest_protocol_version: 62,
        chunks_included: 4,
        state_root: hash(height + 1),
    }
}

#[test]
fn finality_value_is_monotonic() {
    // Heights delivered in the order [10, 12, 11, 15]: the finality value
    // observed after each delivery is [10, 12, 12, 15] — 11 is discarded as
    // stale.
    let mut height: u64 = 0;
    let mut cache: LruMemoryCache<u64, CacheBlock> = LruMemoryCache::new(10_000);
    let mut observed: Vec<u64> = Vec::new();
    for h in [10u64, 12, 11, 15] {
        handle_finalized_block(&mut height, &mut cache, block(h));
        observed.push(height);
    }
    assert_eq!(observed, vec![10u64, 12, 12, 15]);
}

#[test]
fn stale_delivery_is_discarded() {
    let mut height: u64 = 0;
    let mut cache: LruMemoryCache<u64, CacheBlock> = LruMemoryCache::new(10_000);
    handle_finalized_block(&mut height, &mut cache, block(10));
    handle_finalized_block(&mut height, &mut cache, block(12));
    handle_finalized_block(&mut height, &mut cache, block(11));
    assert_eq!(height, 12);
    // The stale block was not stored either.
    assert!(cache.contains(&10));
    assert!(cache.contains(&12));
    assert!(!cache.contains(&11));
}

#[test]
fn duplicate_delivery_changes_nothing() {
    let mut height: u64 = 0;
    let mut cache: LruMemoryCache<u64, CacheBlock> = LruMemoryCache::new(10_000);
    handle_finalized_block(&mut height, &mut cache, block(10));
    handle_finalized_block(&mut height, &mut cache, block(10));
    assert_eq!(height, 10);
    assert_eq!(cache.len(), 1);
}

#[test]
fn advancing_delivery_stores_the_block() {
    let mut height: u64 = 0;
    let mut cache: LruMemoryCache<u64, CacheBlock> = LruMemoryCache::new(10_000);
    handle_finalized_block(&mut height, &mut cache, block(10));
    assert_eq!(height, 10);
    assert_eq!(cache.get(&10), Some(&block(10)));
}

#[test]
fn bootstrap_seeds_height_and_cache() {
    let (height, mut cache) = bootstrap_finality(block(42), 10_000);
    assert_eq!(height, 42);
    assert_eq!(cache.len(), 1);
    assert_eq!(cache.get(&42), Some(&block(42)));
}

#[test]
fn bootstrap_is_idempotent() {
    // Re-running the bootstrap with the same upstream response yields the
    // same seeded finality value and the same initial cache contents.
    let (first_height, mut first_cache) = bootstrap_finality(block(42), 10_000);
    let (second_height, mut second_cache) = bootstrap_finality(block(42), 10_000);
    assert_eq!(first_height, second_height);
    assert_eq!(first_cache.len(), second_cache.len());
    assert_eq!(first_cache.used_bytes(), second_cache.used_bytes());
    assert_eq!(first_cache.get(&42), second_cache.get(&42));
}
