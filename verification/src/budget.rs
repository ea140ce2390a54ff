//! The memory-budget allocator: a pure computation, run once before any
//! cache is constructed, that turns a total memory ceiling, a reservation
//! and the fixed block-cache allocation into the byte budget handed to each
//! of the contract-related caches.

use vstd::prelude::*;

verus! {

/// The ceiling the allocator works under: the configured hard limit if one
/// was given, otherwise all memory available on the host.
pub open spec fn cache_ceiling(limit_memory_cache: Option<u64>, available_memory: u64) -> u64 {
    match limit_memory_cache {
        Some(limit) => limit,
        None => available_memory,
    }
}

/// What is left of `ceiling` after the reservation and the block-cache
/// allocation, floored at zero.
pub open spec fn remaining_budget(ceiling: u64, reserved: u64, block_cache: u64) -> u64 {
    if ceiling >= reserved + block_cache {
        (ceiling - reserved - block_cache) as u64
    } else {
        0
    }
}

/// Byte budget for each of the two contract-related caches (raw contract
/// code and compiled contracts): the ceiling minus the reserved memory and
/// the block-cache allocation, floored at zero. The same figure is handed
/// to each cache independently, which is the observed contract of the
/// allocator. A ceiling smaller than the reservations is not an error: the
/// caches degrade to a zero-byte budget rather than failing startup.
pub fn calculate_contract_code_cache_sizes(
    reserved_memory: u64,
    block_cache_size: u64,
    limit_memory_cache: Option<u64>,
    available_memory: u64,
) -> (r: u64)
    ensures
        r == remaining_budget(
            cache_ceiling(limit_memory_cache, available_memory),
            reserved_memory,
            block_cache_size,
        ),
{
    let ceiling = match limit_memory_cache {
        Some(limit) => limit,
        None => available_memory,
    };
    let after_reserved = if ceiling >= reserved_memory {
        ceiling - reserved_memory
    } else {
        0
    };
    if after_reserved >= block_cache_size {
        after_reserved - block_cache_size
    } else {
        0
    }
}

} // verus!
