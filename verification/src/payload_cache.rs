//! Single-entry caches for the execution results of payloads.
//!
//! When a leader finishes building a block, it caches the execution output
//! here. When it later processes the same block as a new payload, it can skip
//! executing it again by taking the cached result.
//!
//! There are two caches: one is consumed by the leader's own processing, the
//! other by the broadcast to followers. They are separate so that the leader's
//! taking does not consume the data needed for the broadcast.
use crate::primitives::B256;
use vstd::prelude::*;

verus! {

/// An execution result and the hash of its block.
#[derive(Debug)]
pub struct CachedPayload<D> {
    pub block_hash: B256,
    pub data: D,
}

/// The content of a cache: the hash of a block and its execution result.
pub struct CacheEntry<D> {
    pub block_hash: Seq<u8>,
    pub data: D,
}

/// The content of a cache.
pub open spec fn cache_view<D>(slot: Option<CachedPayload<D>>) -> Option<CacheEntry<D>> {
    match slot {
        Some(payload) => Some(
            CacheEntry { block_hash: payload.block_hash@, data: payload.data },
        ),
        None => None,
    }
}

/// Whether the cache holds a result for the block of this hash.
pub open spec fn holds<D>(slot: Option<CacheEntry<D>>, block_hash: Seq<u8>) -> bool {
    slot is Some && slot->0.block_hash == block_hash
}

/// What taking the result of a block gives, and what it leaves of the cache:
/// all of it, unless the result is the block's and is of the kind asked for.
pub open spec fn taken<D>(slot: Option<CacheEntry<D>>, block_hash: Seq<u8>, fits: bool) -> (
    Option<D>,
    Option<CacheEntry<D>>,
) {
    if holds(slot, block_hash) && fits {
        (Some(slot->0.data), None)
    } else {
        (None, slot)
    }
}

/// Whether `data` and the cache `after` are what taking the result of a block
/// comes to, where `fits` says of a result whether it is of the kind asked for.
pub open spec fn takes<D, F: FnOnce(&D) -> bool>(
    before: Option<CacheEntry<D>>,
    after: Option<CacheEntry<D>>,
    block_hash: Seq<u8>,
    fits: F,
    data: Option<D>,
) -> bool {
    if holds(before, block_hash) {
        exists|verdict: bool| #[trigger]
            call_ensures(fits, (&before->0.data,), verdict) && (data, after) == taken(
                before,
                block_hash,
                verdict,
            )
    } else {
        (data, after) == taken(before, block_hash, false)
    }
}

/// The two caches.
#[derive(Debug)]
pub struct PayloadCaches<D> {
    own: Option<CachedPayload<D>>,
    broadcast: Option<CachedPayload<D>>,
}

impl<D> PayloadCaches<D> {
    /// The cache for the leader's own processing.
    pub closed spec fn own(&self) -> Option<CacheEntry<D>> {
        cache_view(self.own)
    }

    /// The cache for the broadcast to followers.
    pub closed spec fn broadcast_cache(&self) -> Option<CacheEntry<D>> {
        cache_view(self.broadcast)
    }

    /// Two empty caches.
    pub fn new() -> (caches: Self)
        ensures
            caches.own() is None,
            caches.broadcast_cache() is None,
    {
        PayloadCaches { own: None, broadcast: None }
    }
}

/// Puts a result in a cache, in place of what it held.
fn store<D>(slot: &mut Option<CachedPayload<D>>, block_hash: B256, data: D)
    ensures
        cache_view(*final(slot)) == Some(CacheEntry { block_hash: block_hash@, data }),
{
    *slot = Some(CachedPayload { block_hash, data });
}

/// Takes the result of a block from a cache, if it holds one that `fits`.
fn take<D, F>(slot: &mut Option<CachedPayload<D>>, block_hash: &B256, fits: F) -> (data: Option<
    D,
>) where F: FnOnce(&D) -> bool
    requires
        forall|data: &D| #[trigger] call_requires(fits, (data,)),
    ensures
        takes(cache_view(*old(slot)), cache_view(*final(slot)), block_hash@, fits, data),
{
    let ghost before = cache_view(*slot);
    match slot.take() {
        Some(entry) => {
            if !entry.block_hash.same(block_hash) {
                *slot = Some(entry);
                return None;
            }
            let verdict = fits(&entry.data);
            assert(entry.data == before->0.data);
            assert(call_ensures(fits, (&before->0.data,), verdict));
            if !verdict {
                *slot = Some(entry);
                return None;
            }
            Some(entry.data)
        },
        None => None,
    }
}

/// Stores an execution result by its block's hash, for the leader's own
/// processing.
pub fn store_payload_execution<D>(caches: &mut PayloadCaches<D>, block_hash: B256, data: D)
    ensures
        final(caches).own() == Some(CacheEntry { block_hash: block_hash@, data }),
        final(caches).broadcast_cache() == old(caches).broadcast_cache(),
{
    store(&mut caches.own, block_hash, data);
}

/// Takes (removes) the execution result of a block, if the cache for the
/// leader's own processing holds it and it `fits`: is of the kind asked for.
pub fn take_payload_execution<D, F>(caches: &mut PayloadCaches<D>, block_hash: &B256, fits: F) -> (data: Option<
    D,
>) where F: FnOnce(&D) -> bool
    requires
        forall|data: &D| #[trigger] call_requires(fits, (data,)),
    ensures
        takes(old(caches).own(), final(caches).own(), block_hash@, fits, data),
        final(caches).broadcast_cache() == old(caches).broadcast_cache(),
{
    take(&mut caches.own, block_hash, fits)
}

/// Stores an execution result by its block's hash, for the broadcast to
/// followers.
pub fn store_broadcast_execution<D>(caches: &mut PayloadCaches<D>, block_hash: B256, data: D)
    ensures
        final(caches).broadcast_cache() == Some(CacheEntry { block_hash: block_hash@, data }),
        final(caches).own() == old(caches).own(),
{
    store(&mut caches.broadcast, block_hash, data);
}

/// Takes (removes) the execution result of a block, if the cache for the
/// broadcast to followers holds it and it `fits`: is of the kind asked for.
pub fn take_broadcast_execution<D, F>(caches: &mut PayloadCaches<D>, block_hash: &B256, fits: F) -> (data: Option<
    D,
>) where F: FnOnce(&D) -> bool
    requires
        forall|data: &D| #[trigger] call_requires(fits, (data,)),
    ensures
        takes(old(caches).broadcast_cache(), final(caches).broadcast_cache(), block_hash@, fits, data),
        final(caches).own() == old(caches).own(),
{
    take(&mut caches.broadcast, block_hash, fits)
}

/// A result is taken once: whatever is asked for then, the cache is empty.
pub proof fn law_a_result_is_taken_once<D>(
    entry: CacheEntry<D>,
    block_hash: Seq<u8>,
    fits: bool,
)
    ensures
        taken(Some(entry), entry.block_hash, true) == (Some(entry.data), None::<CacheEntry<D>>),
        taken(None::<CacheEntry<D>>, block_hash, fits) == (None::<D>, None::<CacheEntry<D>>),
{
}

/// Asking for another block, or for another kind of result, gets nothing and
/// leaves the cache as it is.
pub proof fn law_a_miss_leaves_the_cache<D>(
    slot: Option<CacheEntry<D>>,
    block_hash: Seq<u8>,
    fits: bool,
)
    requires
        !holds(slot, block_hash) || !fits,
    ensures
        taken(slot, block_hash, fits) == (None::<D>, slot),
{
}

/// What taking comes to. What is taken is the result that the cache held for
/// the block, found to be of the kind asked for, and the cache is empty then.
/// Where nothing is taken, the cache is what it was, and held no result for the
/// block or one that was found to be of another kind.
pub proof fn law_what_is_taken<D, F: FnOnce(&D) -> bool>(
    before: Option<CacheEntry<D>>,
    after: Option<CacheEntry<D>>,
    block_hash: Seq<u8>,
    fits: F,
    data: Option<D>,
)
    requires
        takes(before, after, block_hash, fits, data),
    ensures
        data is Some ==> {
            &&& before is Some
            &&& before->0.block_hash == block_hash
            &&& before->0.data == data->0
            &&& call_ensures(fits, (&data->0,), true)
            &&& after is None
        },
        data is None ==> {
            &&& after == before
            &&& before is None || before->0.block_hash != block_hash || call_ensures(
                fits,
                (&before->0.data,),
                false,
            )
        },
{
    if holds(before, block_hash) {
        let verdict = choose|verdict: bool| #[trigger]
            call_ensures(fits, (&before->0.data,), verdict) && (data, after) == taken(
                before,
                block_hash,
                verdict,
            );
        assert(call_ensures(fits, (&before->0.data,), verdict));
    }
}

/// A cache has a result for one block: that of the hash it was stored under.
pub proof fn law_what_a_cache_holds<D>(payload: CachedPayload<D>, block_hash: B256)
    ensures
        cache_view(None::<CachedPayload<D>>) is None,
        cache_view(Some(payload)) matches Some(entry) && entry.block_hash == payload.block_hash@
            && entry.data == payload.data,
        holds(cache_view(Some(payload)), block_hash@) <==> payload.block_hash@ == block_hash@,
        !holds(cache_view(None::<CachedPayload<D>>), block_hash@),
{
}

} // verus!
