//! The finality tracker and synchronizer logic: the decision taken for each
//! finalized block delivered by the chain-data stream, and the one-time
//! bootstrap that seeds the finality value and the block cache before the
//! server context exists.
//!
//! The surrounding long-running task — consuming the stream, retrying
//! transient fetch failures — performs I/O and lives outside this library;
//! it feeds each delivered block to [`handle_finalized_block`].

use crate::cache::put_model;
use crate::cache::LruMemoryCache;
use crate::types::CacheBlock;
use vstd::prelude::*;

verus! {

/// The finality value after one delivery: it advances to the delivered
/// height only when that height is strictly greater.
pub open spec fn next_height(current: u64, delivered: u64) -> u64 {
    if delivered > current {
        delivered
    } else {
        current
    }
}

/// The finality value after a whole sequence of deliveries.
pub open spec fn height_after(initial: u64, delivered: Seq<u64>) -> u64
    decreases delivered.len(),
{
    if delivered.len() == 0 {
        initial
    } else {
        height_after(next_height(initial, delivered[0]), delivered.drop_first())
    }
}

/// `value` is the maximum of `initial` and the heights of `delivered`: it is
/// at least each of them, and it is one of them.
pub open spec fn is_max_height(value: u64, initial: u64, delivered: Seq<u64>) -> bool {
    &&& value >= initial
    &&& forall|i: int| 0 <= i < delivered.len() ==> value >= delivered[i]
    &&& (value == initial || exists|i: int| 0 <= i < delivered.len() && value == delivered[i])
}

/// The finality value never falls below where it started.
pub proof fn lemma_height_after_ge(initial: u64, delivered: Seq<u64>)
    ensures
        height_after(initial, delivered) >= initial,
    decreases delivered.len(),
{
    if delivered.len() != 0 {
        lemma_height_after_ge(next_height(initial, delivered[0]), delivered.drop_first());
    }
}

/// The finality value after a prefix of the deliveries never exceeds the
/// value after all of them.
pub proof fn lemma_height_after_prefix(initial: u64, delivered: Seq<u64>, i: int)
    requires
        0 <= i <= delivered.len(),
    ensures
        height_after(initial, delivered.take(i)) <= height_after(initial, delivered),
    decreases delivered.len(),
{
    if i == 0 {
        assert(delivered.take(0) =~= Seq::<u64>::empty());
        lemma_height_after_ge(initial, delivered);
    } else {
        let next = next_height(initial, delivered[0]);
        assert(delivered.take(i).drop_first() =~= delivered.drop_first().take(i - 1));
        assert(delivered.take(i)[0] == delivered[0]);
        lemma_height_after_prefix(next, delivered.drop_first(), i - 1);
    }
}

/// The finality value equals the maximum of the initial height and every
/// height delivered.
pub proof fn lemma_height_after_is_max(initial: u64, delivered: Seq<u64>)
    ensures
        is_max_height(height_after(initial, delivered), initial, delivered),
    decreases delivered.len(),
{
    if delivered.len() != 0 {
        let rest = delivered.drop_first();
        let next = next_height(initial, delivered[0]);
        lemma_height_after_is_max(next, rest);
        let v = height_after(initial, delivered);
        assert(forall|i: int| 0 <= i < rest.len() ==> rest[i] == delivered[i + 1]);
        assert forall|i: int| 0 <= i < delivered.len() implies v >= delivered[i] by {
            if i == 0 {
                assert(v >= next);
            } else {
                assert(v >= rest[i - 1]);
            }
        }
        if v != initial {
            if v == next {
                assert(next == delivered[0]);
                assert(v == delivered[0]);
            } else {
                let i = choose|i: int| 0 <= i < rest.len() && v == rest[i];
                assert(v == delivered[i + 1]);
            }
        }
    }
}

/// Monotonic finality: for every sequence of delivered block heights, the
/// finality values observed after each delivery form a non-decreasing
/// sequence, and the value after any prefix equals the maximum of the
/// initial height and the heights delivered so far.
pub proof fn lemma_monotonic_finality(initial: u64, delivered: Seq<u64>)
    ensures
        forall|i: int, j: int|
            0 <= i <= j <= delivered.len() ==> #[trigger] height_after(initial, delivered.take(i))
                <= #[trigger] height_after(initial, delivered.take(j)),
        forall|i: int|
            0 <= i <= delivered.len() ==> is_max_height(
                #[trigger] height_after(initial, delivered.take(i)),
                initial,
                delivered.take(i),
            ),
{
    assert forall|i: int, j: int| 0 <= i <= j <= delivered.len() implies #[trigger] height_after(
        initial,
        delivered.take(i),
    ) <= #[trigger] height_after(initial, delivered.take(j)) by {
        assert(delivered.take(j).take(i) =~= delivered.take(i));
        lemma_height_after_prefix(initial, delivered.take(j), i);
    }
    assert forall|i: int| 0 <= i <= delivered.len() implies is_max_height(
        #[trigger] height_after(initial, delivered.take(i)),
        initial,
        delivered.take(i),
    ) by {
        lemma_height_after_is_max(initial, delivered.take(i));
    }
}

/// One step of the synchronizer in its tracking state: if the delivered
/// block's height is strictly greater than the current finality value, the
/// block's metadata is stored in the block cache and the finality value
/// advances to that height; otherwise (a reordered or duplicate delivery)
/// the update is discarded and nothing changes.
pub fn handle_finalized_block(
    final_block_height: &mut u64,
    blocks_cache: &mut LruMemoryCache<u64, CacheBlock>,
    block: CacheBlock,
)
    requires
        old(blocks_cache).inv(),
    ensures
        final(blocks_cache).inv(),
        final(blocks_cache).budget() == old(blocks_cache).budget(),
        *final(final_block_height) == next_height(*old(final_block_height), block.block_height),
        block.block_height > *old(final_block_height) ==> final(blocks_cache).entries()
            == put_model(
            old(blocks_cache).entries(),
            block.block_height,
            block,
            old(blocks_cache).budget(),
        ),
        block.block_height <= *old(final_block_height) ==> final(blocks_cache).entries() == old(
            blocks_cache,
        ).entries(),
{
    if block.block_height > *final_block_height {
        blocks_cache.put(block.block_height, block);
        *final_block_height = block.block_height;
    }
}

/// The bootstrap step that moves the synchronizer from its bootstrapping
/// state to its tracking state: the current finalized block, fetched once
/// from the upstream node, seeds the finality value with its height and
/// becomes the first entry of a fresh block cache. The result is a function
/// of the fetched block and the configured budget alone, so re-running the
/// bootstrap with the same upstream response yields the same seeded finality
/// value and the same initial cache contents.
pub fn bootstrap_finality(final_block: CacheBlock, block_cache_size: u64) -> (r: (
    u64,
    LruMemoryCache<u64, CacheBlock>,
))
    ensures
        r.0 == final_block.block_height,
        r.1.inv(),
        r.1.budget() == block_cache_size,
        r.1.entries() == put_model(
            Seq::<crate::cache::CacheEntry<u64, CacheBlock>>::empty(),
            final_block.block_height,
            final_block,
            block_cache_size,
        ),
{
    let mut blocks_cache = LruMemoryCache::<u64, CacheBlock>::new(block_cache_size);
    blocks_cache.put(final_block.block_height, final_block);
    (final_block.block_height, blocks_cache)
}

/// Idempotent bootstrap: the state `bootstrap_finality` establishes is a
/// function of the fetched block and the configured budget alone, so two
/// bootstraps from the same upstream response seed the same finality value
/// and the same initial block-cache contents.
pub proof fn lemma_bootstrap_idempotent(
    final_block: CacheBlock,
    block_cache_size: u64,
    first_height: u64,
    first_entries: Seq<crate::cache::CacheEntry<u64, CacheBlock>>,
    second_height: u64,
    second_entries: Seq<crate::cache::CacheEntry<u64, CacheBlock>>,
)
    requires
        first_height == final_block.block_height,
        first_entries == put_model(
            Seq::<crate::cache::CacheEntry<u64, CacheBlock>>::empty(),
            final_block.block_height,
            final_block,
            block_cache_size,
        ),
        second_height == final_block.block_height,
        second_entries == put_model(
            Seq::<crate::cache::CacheEntry<u64, CacheBlock>>::empty(),
            final_block.block_height,
            final_block,
            block_cache_size,
        ),
    ensures
        first_height == second_height,
        first_entries == second_entries,
{
}

} // verus!
