use read_rpc_server::budget::calculate_contract_code_cache_sizes;
use read_rpc_server::config::CompiledCodeCache;
use read_rpc_server::config::ServerContext;
use read_rpc_server::types::CacheBlock;
use read_rpc_server::types::CompiledContract;
use read_rpc_server::types::CryptoHash;

fn hash(seed: u64) -> CryptoHash {
    CryptoHash { w0: seed, w1: seed + 1, w2: seed + 2, w3: seed + 3 }
}

fn artifact(len: usize, fill: u8) -> CompiledContract {
    CompiledContract { code: vec![fill; len] }
}

fn block(height: u64) -> CacheBlock {
    CacheBlock {
        block_hash: hash(height),
        block_height: height,
        block_timestamp: 1_600_000_000 + height,
        gas_price: 100_000_000,
        latest_protocol_version: 62,
        chunks_included: 4,
        state_root: hash(height + 1),
    }
}

#[test]
fn allocator_splits_the_ceiling() {
    // ceiling = 1.0 GB, reserved = 0.25 GB, block cache = 0.125 GB: the
    // remaining budget handed independently to each contract-related cache
    // is 0.625 GB.
    let remaining = calculate_contract_code_cache_sizes(
        268_435_456,
        134_217_728,
        Some(1_073_741_824),
        0,
    );
    assert_eq!(remaining, 671_088_640);
}

#[test]
fn allocator_without_limit_uses_available_memory() {
    let remaining = calculate_contract_code_cache_sizes(
        268_435_456,
        134_217_728,
        None,
        1_073_741_824,
    );
    assert_eq!(remaining, 671_088_640);
}

#[test]
fn allocator_floors_at_zero() {
    // A ceiling smaller than the reservations is not an error: the caches
    // degrade to a zero-byte budget rather than failing startup.
    assert_eq!(
        calculate_contract_code_cache_sizes(2_000_000_000, 134_217_728, Some(1_073_741_824), 0),
        0
    );
    assert_eq!(
        calculate_contract_code_cache_sizes(1_000_000_000, 100_000_000, Some(1_073_741_824), 0),
        0
    );
    assert_eq!(calculate_contract_code_cache_sizes(1, 0, None, 0), 0);
}

#[test]
fn adapter_roundtrip() {
    let mut cache = CompiledCodeCache::new(1_000);
    let key = hash(9);
    assert!(!cache.has(&key));
    assert_eq!(cache.get(&key), None);
    cache.put(&key, artifact(100, b'k'));
    assert!(cache.has(&key));
    assert_eq!(cache.get(&key), Some(artifact(100, b'k')));
}

#[test]
fn adapter_has_tracks_puts_and_evictions() {
    // `has(hash)` is true exactly when a prior `put(hash, _)` occurred and
    // that entry has not since been evicted.
    let mut cache = CompiledCodeCache::new(10);
    let first = hash(1);
    let second = hash(2);
    assert!(!cache.has(&first));
    cache.put(&first, artifact(6, b'a'));
    assert!(cache.has(&first));
    cache.put(&second, artifact(6, b'b'));
    assert!(!cache.has(&first));
    assert!(cache.has(&second));
    cache.put(&first, artifact(6, b'a'));
    assert!(cache.has(&first));
    assert!(!cache.has(&second));
}

#[test]
fn adapter_get_returns_a_copy_of_the_artifact() {
    let mut cache = CompiledCodeCache::new(1_000);
    let key = hash(3);
    cache.put(&key, CompiledContract { code: vec![1u8, 2, 3, 4] });
    let got = cache.get(&key).unwrap();
    assert_eq!(got.code, vec![1u8, 2, 3, 4]);
}

#[test]
fn server_context_assembly() {
    let mut ctx = ServerContext::new(
        String::from("near-lake-data"),
        block(77),
        134_217_728,
        671_088_640,
        300_000_000_000_000,
    );
    assert_eq!(ctx.s3_bucket_name, "near-lake-data");
    assert_eq!(ctx.final_block_height, 77);
    assert_eq!(ctx.max_gas_burnt, 300_000_000_000_000);
    assert!(ctx.blocks_cache.contains(&77));
    assert_eq!(ctx.blocks_cache.len(), 1);
    assert_eq!(ctx.contract_code_cache.len(), 0);
    let key = hash(5);
    assert!(!ctx.compiled_contract_code_cache.has(&key));
    ctx.contract_code_cache.put(key, vec![0u8; 64]);
    assert!(ctx.contract_code_cache.contains(&key));
}
