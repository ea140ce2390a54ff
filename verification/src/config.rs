//! The process-wide aggregate shared by every request handler — one bounded
//! cache per cacheable resource, the finality value, and the plain-valued
//! configuration it serves — together with the adapter that narrows a cache
//! to the capability set a contract-execution engine requires.
//!
//! Handles to external collaborators (the durable store, the object store,
//! the upstream node client, the genesis snapshot) are opaque connections
//! owned by the unverified process wiring around this library.

use crate::cache::put_model;
use crate::cache::touch_model;
use crate::cache::CacheEntry;
use crate::cache::find_key;
use crate::cache::has_key;
use crate::cache::LruMemoryCache;
use crate::finality::bootstrap_finality;
use crate::types::CacheBlock;
use crate::types::CompiledContract;
use crate::types::CryptoHash;
use vstd::prelude::*;

verus! {

/// Narrows a bounded cache of compiled contract artifacts to the three
/// operations an external contract-execution engine requires: `put`, `get`
/// and `has`, keyed by the content hash of the contract bytecode. None of
/// the three can fail — capacity pressure is absorbed by eviction, absence
/// is reported as absence — and none exposes eviction, sizing or recency
/// details to the caller.
pub struct CompiledCodeCache {
    pub local_cache: LruMemoryCache<CryptoHash, CompiledContract>,
}

impl CompiledCodeCache {
    pub open spec fn inv(&self) -> bool {
        self.local_cache.inv()
    }

    pub open spec fn entries(&self) -> Seq<CacheEntry<CryptoHash, CompiledContract>> {
        self.local_cache.entries()
    }

    pub open spec fn budget(&self) -> u64 {
        self.local_cache.budget()
    }

    /// An empty compiled-contract cache with the given byte budget.
    pub fn new(budget: u64) -> (c: Self)
        ensures
            c.inv(),
            c.budget() == budget,
            c.entries() == Seq::<CacheEntry<CryptoHash, CompiledContract>>::empty(),
    {
        CompiledCodeCache { local_cache: LruMemoryCache::new(budget) }
    }

    /// Stores a compiled artifact under the hash of its bytecode.
    pub fn put(&mut self, key: &CryptoHash, value: CompiledContract)
        requires
            old(self).inv(),
        ensures
            final(self).inv(),
            final(self).budget() == old(self).budget(),
            final(self).entries() == put_model(
                old(self).entries(),
                *key,
                value,
                old(self).budget(),
            ),
    {
        self.local_cache.put(*key, value)
    }

    /// Returns a copy of the artifact stored under `*key`, or absence —
    /// never a transport-level error. A hit marks the entry most recently
    /// used.
    pub fn get(&mut self, key: &CryptoHash) -> (r: Option<CompiledContract>)
        requires
            old(self).inv(),
        ensures
            final(self).inv(),
            final(self).budget() == old(self).budget(),
            has_key(old(self).entries(), *key) ==> {
                &&& r matches Some(c) && c@ == old(self).entries()[find_key(
                    old(self).entries(),
                    *key,
                )].value@
                &&& final(self).entries() == touch_model(old(self).entries(), *key)
            },
            !has_key(old(self).entries(), *key) ==> r is None && final(self).entries() == old(
                self,
            ).entries(),
    {
        match self.local_cache.get(key) {
            Some(artifact) => Some(artifact.duplicate()),
            None => None,
        }
    }

    /// Whether an artifact is stored under `*key`: true exactly when a prior
    /// `put` of that hash occurred and the entry has not since been evicted.
    /// Like `get`, a hit marks the entry most recently used.
    pub fn has(&mut self, key: &CryptoHash) -> (r: bool)
        requires
            old(self).inv(),
        ensures
            final(self).inv(),
            final(self).budget() == old(self).budget(),
            r == has_key(old(self).entries(), *key),
            r ==> final(self).entries() == touch_model(old(self).entries(), *key),
            !r ==> final(self).entries() == old(self).entries(),
    {
        self.local_cache.contains(key)
    }
}

/// The shared server context: constructed once, after the initial finalized
/// block is fetched, and then read and written by every concurrently handled
/// request for the life of the process. It holds one bounded cache for
/// finalized-block metadata, one for raw contract code, one for compiled
/// contract artifacts, the finality value, and the fixed configuration the
/// request handlers read.
pub struct ServerContext {
    /// Object-storage bucket the chain data is indexed under.
    pub s3_bucket_name: String,
    /// Finalized-block metadata, keyed by block height.
    pub blocks_cache: LruMemoryCache<u64, CacheBlock>,
    /// Highest block height known to be finalized.
    pub final_block_height: u64,
    /// Compiled contract artifacts, behind the execution-engine adapter.
    pub compiled_contract_code_cache: CompiledCodeCache,
    /// Raw contract bytecode, keyed by its content hash.
    pub contract_code_cache: LruMemoryCache<CryptoHash, Vec<u8>>,
    /// Gas ceiling for contract function calls.
    pub max_gas_burnt: u64,
}

impl ServerContext {
    /// Every cache of the context satisfies its invariant.
    pub open spec fn inv(&self) -> bool {
        &&& self.blocks_cache.inv()
        &&& self.compiled_contract_code_cache.inv()
        &&& self.contract_code_cache.inv()
    }

    /// Assembles the context at startup: the block cache is seeded with the
    /// current finalized block, the finality value with its height, and the
    /// two contract-related caches start empty, each with the budget the
    /// allocator handed out.
    pub fn new(
        s3_bucket_name: String,
        final_block: CacheBlock,
        block_cache_size: u64,
        contract_code_cache_size: u64,
        max_gas_burnt: u64,
    ) -> (r: Self)
        ensures
            r.inv(),
            r.s3_bucket_name == s3_bucket_name,
            r.final_block_height == final_block.block_height,
            r.blocks_cache.budget() == block_cache_size,
            r.blocks_cache.entries() == put_model(
                Seq::<CacheEntry<u64, CacheBlock>>::empty(),
                final_block.block_height,
                final_block,
                block_cache_size,
            ),
            r.compiled_contract_code_cache.budget() == contract_code_cache_size,
            r.compiled_contract_code_cache.entries() == Seq::<
                CacheEntry<CryptoHash, CompiledContract>,
            >::empty(),
            r.contract_code_cache.budget() == contract_code_cache_size,
            r.contract_code_cache.entries() == Seq::<CacheEntry<CryptoHash, Vec<u8>>>::empty(),
            r.max_gas_burnt == max_gas_burnt,
    {
        let (final_block_height, blocks_cache) = bootstrap_finality(final_block, block_cache_size);
        ServerContext {
            s3_bucket_name,
            blocks_cache,
            final_block_height,
            compiled_contract_code_cache: CompiledCodeCache::new(contract_code_cache_size),
            contract_code_cache: LruMemoryCache::new(contract_code_cache_size),
            max_gas_burnt,
        }
    }
}

} // verus!
