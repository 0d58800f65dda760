//! `BufferManager`: an LRU-bounded blob cache over a [`Backend`].
//!
//! It is itself a [`Backend`], so callers see the same calls, but reads of
//! recently touched blobs are served from the cache. `write_blob` is
//! write-through; edits under a pin stay in the cache until
//! [`BufferManager::commit`] hands them to the backend.
//!
//! Every edit is noted with the log sequence number that authored it; the map
//! keeps the lowest unflushed number per blob, which is how far the log may be
//! trimmed.
//!
//! When the cache holds more than `capacity` blobs, the oldest one that is neither
//! pinned nor dirty is dropped: a dirty image is newer than the stored one, so it
//! stays until it is flushed. While every entry is pinned or dirty the cache may
//! exceed its capacity.
//!
//! An entry that leaves the cache while it is pinned, because its blob is deleted
//! or the cache is cleared, is kept aside for its pins until the last of them is
//! given back.
use vstd::prelude::*;

use crate::api::errors::{Error, Result};
use crate::bytes::same_bytes;
use crate::layout::{guid_key, key_guid, BlobGuid, PAGE_SIZE};
use crate::store::backend::{AlignedBlobBuf, Backend, Call};
use crate::store::blob_frame::BlobFrame;
use crate::store::cached_blob::{BlobState, CachedBlob};
use crate::store::dirty::DirtyMap;

verus! {

/// Sequence number of shape changes that no log record authored. It is above
/// every log sequence number, so a later logged edit lowers it.
pub const STRUCTURAL_SEQ: u64 = u64::MAX;

// ---------- the model ----------

/// One cache entry.
pub struct CachedModel {
    /// Map key of the blob's guid.
    pub id: u128,
    pub blob: BlobState,
    /// Outstanding pins.
    pub pins: u64,
    /// Tells an entry from an earlier one of the same blob.
    pub serial: u64,
}

/// Everything a [`BufferManager`] remembers besides its backend.
pub struct BufferState {
    /// The cache, least recently used first.
    pub cache: Seq<CachedModel>,
    /// Pinned entries that left the cache.
    pub aside: Seq<CachedModel>,
    /// Lowest unflushed sequence number per dirty blob.
    pub dirty: Map<u128, u64>,
    /// The next tick.
    pub clock: u64,
    pub capacity: nat,
    pub next_serial: u64,
    /// Frames created in an epoch up to this one may be visible to a live
    /// snapshot; 0 when there is none.
    pub fork_barrier: u64,
    /// The epoch that new frames are created in.
    pub epoch: u64,
    /// Blobs to delete once the log has passed a number.
    pub deletes: Seq<(BlobGuid, u64)>,
    /// Children to reclaim once their rewritten parent is durable.
    pub structural: Seq<(BlobGuid, BlobGuid)>,
    /// Children forked away, by parent, child and the child's epoch.
    pub cow: Seq<(BlobGuid, BlobGuid, u64)>,
}

/// Whether entry `i` is that of `id`.
pub open spec fn is_entry(cache: Seq<CachedModel>, id: u128, i: int) -> bool {
    0 <= i < cache.len() && cache[i].id == id
}

/// Whether `id` is cached.
pub open spec fn is_cached(cache: Seq<CachedModel>, id: u128) -> bool {
    exists|i: int| is_entry(cache, id, i)
}

/// Where `id` is cached.
pub open spec fn place(cache: Seq<CachedModel>, id: u128) -> int {
    choose|i: int| is_entry(cache, id, i)
}

/// No blob is cached twice.
pub open spec fn distinct(cache: Seq<CachedModel>) -> bool {
    forall|i: int, j: int|
        #![trigger cache[i], cache[j]]
        0 <= i < j < cache.len() ==> cache[i].id != cache[j].id
}

/// The next value of a wrapping counter.
pub open spec fn ticked(n: u64) -> u64 {
    if n == u64::MAX {
        0
    } else {
        (n + 1) as u64
    }
}

/// One more, up to the greatest number.
pub open spec fn one_more(n: u64) -> u64 {
    if n == u64::MAX {
        n
    } else {
        (n + 1) as u64
    }
}

/// Entry `i` made the most recently used.
pub open spec fn to_back(cache: Seq<CachedModel>, i: int) -> Seq<CachedModel> {
    cache.remove(i).push(cache[i])
}

/// The entry with its lookup stamped.
pub open spec fn stamped(e: CachedModel, tick: u64) -> CachedModel {
    CachedModel { blob: BlobState { last_touched: tick, ..e.blob }, ..e }
}

/// The state after a lookup of `id`: a cached entry is stamped and becomes the
/// most recently used.
pub open spec fn looked_up(s: BufferState, id: u128) -> BufferState {
    if is_cached(s.cache, id) {
        let i = place(s.cache, id);
        BufferState {
            cache: s.cache.remove(i).push(stamped(s.cache[i], s.clock)),
            clock: ticked(s.clock),
            ..s
        }
    } else {
        s
    }
}

/// Whether an entry may be dropped to make room: it is neither pinned nor dirty.
pub open spec fn idle(e: CachedModel, dirty: Map<u128, u64>) -> bool {
    e.pins == 0 && !dirty.dom().contains(e.id)
}

/// The first idle entry from `i` on, or the length where there is none.
pub open spec fn idle_from(cache: Seq<CachedModel>, dirty: Map<u128, u64>, i: int) -> int
    decreases cache.len() - i,
{
    if i >= cache.len() {
        cache.len() as int
    } else if idle(cache[i], dirty) {
        i
    } else {
        idle_from(cache, dirty, i + 1)
    }
}

/// The cache once the oldest idle entries are dropped down to `capacity`.
pub open spec fn trimmed(
    cache: Seq<CachedModel>,
    dirty: Map<u128, u64>,
    capacity: nat,
) -> Seq<CachedModel>
    decreases cache.len(),
{
    let j = idle_from(cache, dirty, 0);
    if cache.len() <= capacity || j < 0 || j >= cache.len() {
        cache
    } else {
        trimmed(cache.remove(j), dirty, capacity)
    }
}

/// A fresh entry.
pub open spec fn fresh(id: u128, bytes: Seq<u8>, tick: u64, pins: u64, serial: u64) -> CachedModel {
    CachedModel { id, blob: BlobState { bytes, version: 0, last_touched: tick }, pins, serial }
}

/// The state after `bytes` were loaded for `id`.
pub open spec fn loaded(s: BufferState, id: u128, bytes: Seq<u8>) -> BufferState {
    if is_cached(s.cache, id) {
        BufferState { cache: to_back(s.cache, place(s.cache, id)), ..s }
    } else {
        BufferState {
            cache: trimmed(
                s.cache.push(fresh(id, bytes, s.clock, 0, s.next_serial)),
                s.dirty,
                s.capacity,
            ),
            clock: ticked(s.clock),
            next_serial: one_more(s.next_serial),
            ..s
        }
    }
}

/// The state with one more pin on the entry of `id`, which is cached.
pub open spec fn with_pin(s: BufferState, id: u128) -> BufferState {
    let i = place(s.cache, id);
    BufferState {
        cache: s.cache.update(
            i,
            CachedModel { pins: one_more(s.cache[i].pins), ..s.cache[i] },
        ),
        ..s
    }
}

/// The state after a pin of `id` whose image, where it had to be loaded, was
/// `bytes`.
pub open spec fn pinned(s: BufferState, id: u128, bytes: Seq<u8>) -> BufferState {
    if is_cached(s.cache, id) {
        with_pin(looked_up(s, id), id)
    } else {
        let l = loaded(s, id, bytes);
        if is_cached(l.cache, id) {
            with_pin(looked_up(l, id), id)
        } else {
            // Everything else is pinned or dirty, so the loaded entry was dropped
            // again: it is put back, over capacity.
            BufferState {
                cache: l.cache.push(fresh(id, bytes, 0, 1, l.next_serial)),
                next_serial: one_more(l.next_serial),
                ..l
            }
        }
    }
}

/// Without the entry of `id`.
pub open spec fn dropped(cache: Seq<CachedModel>, id: u128) -> Seq<CachedModel> {
    if is_cached(cache, id) {
        cache.remove(place(cache, id))
    } else {
        cache
    }
}

/// The entry of `id` among the pinned ones to keep aside, where it is one.
pub open spec fn kept_aside(cache: Seq<CachedModel>, id: u128) -> Seq<CachedModel> {
    if is_cached(cache, id) && cache[place(cache, id)].pins > 0 {
        seq![cache[place(cache, id)]]
    } else {
        Seq::empty()
    }
}

/// The pinned entries of a cache.
pub open spec fn all_pinned(cache: Seq<CachedModel>) -> Seq<CachedModel>
    decreases cache.len(),
{
    if cache.len() == 0 {
        Seq::empty()
    } else if cache.last().pins > 0 {
        all_pinned(cache.drop_last()).push(cache.last())
    } else {
        all_pinned(cache.drop_last())
    }
}

/// The state once `id` is out of the cache and no longer dirty; pins on it keep
/// their entry.
pub open spec fn evicted(s: BufferState, id: u128) -> BufferState {
    BufferState {
        cache: dropped(s.cache, id),
        aside: s.aside + kept_aside(s.cache, id),
        dirty: s.dirty.remove(id),
        ..s
    }
}

/// Whether the entry of `id` can be dropped: it is cached, clean and not pinned.
pub open spec fn is_cold(s: BufferState, id: u128) -> bool {
    !s.dirty.dom().contains(id) && is_cached(s.cache, id) && s.cache[place(s.cache, id)].pins == 0
}

/// The state once the entry of `id` was dropped, where it could be.
pub open spec fn cold_evicted(s: BufferState, id: u128) -> BufferState {
    if is_cold(s, id) {
        BufferState { cache: dropped(s.cache, id), ..s }
    } else {
        s
    }
}

/// The state once `id` was marked dirty at `txn`.
pub open spec fn marked(s: BufferState, id: u128, txn: u64) -> BufferState {
    BufferState { dirty: crate::store::dirty::noted(s.dirty, id, txn), ..s }
}

/// The state once all dirty marks were taken.
pub open spec fn drained(s: BufferState) -> BufferState {
    BufferState { dirty: Map::empty(), ..s }
}

/// The state once dirty marks were put back.
pub open spec fn restored(s: BufferState, marks: Map<u128, u64>) -> BufferState {
    BufferState { dirty: crate::store::dirty::merged(s.dirty, marks), ..s }
}

/// The state once `bytes` were written to `id`, and the backend took them or
/// refused them.
pub open spec fn blob_written(s: BufferState, id: u128, bytes: Seq<u8>, ok: bool) -> BufferState {
    let l = looked_up(s, id);
    let i = place(l.cache, id);
    BufferState {
        cache: if is_cached(s.cache, id) {
            l.cache.update(
                i,
                CachedModel {
                    blob: crate::store::cached_blob::written(l.cache[i].blob, bytes),
                    ..l.cache[i]
                },
            )
        } else {
            l.cache
        },
        dirty: if ok {
            l.dirty.remove(id)
        } else {
            l.dirty
        },
        ..l
    }
}

/// The state once the cache is empty and nothing is dirty; pins keep their
/// entries.
pub open spec fn cleared(s: BufferState) -> BufferState {
    BufferState {
        cache: Seq::empty(),
        aside: s.aside + all_pinned(s.cache),
        dirty: Map::empty(),
        ..s
    }
}

/// What holds of every cache: no blob twice, whole pages only.
pub open spec fn cache_ok(cache: Seq<CachedModel>) -> bool {
    &&& distinct(cache)
    &&& forall|i: int| 0 <= i < cache.len() ==> (#[trigger] cache[i]).blob.bytes.len() == PAGE_SIZE
}

/// Every cached image is the stored one.
pub open spec fn coherent(cache: Seq<CachedModel>, blobs: Map<u128, Seq<u8>>) -> bool {
    forall|i: int|
        0 <= i < cache.len() ==> blobs.dom().contains((#[trigger] cache[i]).id)
            && blobs[cache[i].id] == cache[i].blob.bytes
}

// ---------- facts about the model ----------

/// In a cache without doubles, an entry is at its place.
pub proof fn lemma_place(cache: Seq<CachedModel>, id: u128, i: int)
    requires
        distinct(cache),
        is_entry(cache, id, i),
    ensures
        is_cached(cache, id),
        place(cache, id) == i,
{
    let p = place(cache, id);
    assert(is_entry(cache, id, p));
}

/// Dropping and appending keep a cache sound.
pub proof fn lemma_cache_remove(cache: Seq<CachedModel>, i: int)
    requires
        cache_ok(cache),
        0 <= i < cache.len(),
    ensures
        cache_ok(cache.remove(i)),
        !is_cached(cache.remove(i), cache[i].id),
        forall|id: u128|
            id != cache[i].id ==> #[trigger] is_cached(cache.remove(i), id) == is_cached(cache, id),
{
    let less = cache.remove(i);
    assert(forall|j: int|
        0 <= j < less.len() ==> #[trigger] less[j] == (if j < i {
            cache[j]
        } else {
            cache[j + 1]
        }));
    assert(!is_cached(less, cache[i].id)) by {
        if is_cached(less, cache[i].id) {
            let j = place(less, cache[i].id);
            assert(is_entry(less, cache[i].id, j));
            if j < i {
                assert(cache[j].id == cache[i].id);
            } else {
                assert(cache[j + 1].id == cache[i].id);
            }
        }
    }
    assert forall|id: u128| id != cache[i].id implies #[trigger] is_cached(less, id) == is_cached(
        cache,
        id,
    ) by {
        if is_cached(cache, id) {
            let j = place(cache, id);
            assert(is_entry(cache, id, j));
            assert(is_entry(less, id, if j < i {
                j
            } else {
                j - 1
            }));
        }
        if is_cached(less, id) {
            let j = place(less, id);
            assert(is_entry(less, id, j));
            assert(is_entry(cache, id, if j < i {
                j
            } else {
                j + 1
            }));
        }
    }
}

/// Appending an entry of a blob that is not cached keeps a cache sound.
pub proof fn lemma_cache_push(cache: Seq<CachedModel>, e: CachedModel)
    requires
        cache_ok(cache),
        !is_cached(cache, e.id),
        e.blob.bytes.len() == PAGE_SIZE,
    ensures
        cache_ok(cache.push(e)),
        is_entry(cache.push(e), e.id, cache.len() as int),
        forall|id: u128|
            id != e.id ==> #[trigger] is_cached(cache.push(e), id) == is_cached(cache, id),
{
    let more = cache.push(e);
    assert forall|i: int, j: int|
        #![trigger more[i], more[j]]
        0 <= i < j < more.len() implies more[i].id != more[j].id by {
        if j == cache.len() {
            assert(!is_entry(cache, e.id, i));
        }
    }
    assert forall|id: u128| id != e.id implies #[trigger] is_cached(more, id) == is_cached(
        cache,
        id,
    ) by {
        if is_cached(cache, id) {
            assert(is_entry(more, id, place(cache, id)));
        }
        if is_cached(more, id) {
            let j = place(more, id);
            assert(is_entry(more, id, j));
            assert(is_entry(cache, id, j));
        }
    }
}

/// The first idle entry is idle, and none before it is.
pub proof fn lemma_idle_from(cache: Seq<CachedModel>, dirty: Map<u128, u64>, i: int)
    requires
        0 <= i <= cache.len(),
    ensures
        i <= idle_from(cache, dirty, i) <= cache.len(),
        idle_from(cache, dirty, i) < cache.len() ==> idle(
            cache[idle_from(cache, dirty, i)],
            dirty,
        ),
        forall|j: int| i <= j < idle_from(cache, dirty, i) ==> !idle(#[trigger] cache[j], dirty),
    decreases cache.len() - i,
{
    if i < cache.len() && !idle(cache[i], dirty) {
        lemma_idle_from(cache, dirty, i + 1);
    }
}

/// Trimming only drops idle entries, and reaches the capacity unless none is
/// left that is idle.
pub proof fn lemma_trimmed(cache: Seq<CachedModel>, dirty: Map<u128, u64>, capacity: nat)
    requires
        cache_ok(cache),
    ensures
        cache_ok(trimmed(cache, dirty, capacity)),
        trimmed(cache, dirty, capacity).len() <= cache.len(),
        trimmed(cache, dirty, capacity).len() > capacity ==> forall|j: int|
            0 <= j < trimmed(cache, dirty, capacity).len() ==> !idle(
                #[trigger] trimmed(cache, dirty, capacity)[j],
                dirty,
            ),
        forall|e: CachedModel| #[trigger]
            trimmed(cache, dirty, capacity).contains(e) ==> cache.contains(e),
        forall|e: CachedModel|
            cache.contains(e) && !idle(e, dirty) ==> #[trigger] trimmed(
                cache,
                dirty,
                capacity,
            ).contains(e),
    decreases cache.len(),
{
    lemma_idle_from(cache, dirty, 0);
    let j = idle_from(cache, dirty, 0);
    if cache.len() > capacity && j < cache.len() {
        let less = cache.remove(j);
        lemma_cache_remove(cache, j);
        lemma_trimmed(less, dirty, capacity);
        assert forall|e: CachedModel| #[trigger] trimmed(cache, dirty, capacity).contains(
            e,
        ) implies cache.contains(e) by {
            assert(less.contains(e));
            let k = choose|k: int| 0 <= k < less.len() && less[k] == e;
            assert(cache[if k < j {
                k
            } else {
                k + 1
            }] == e);
        }
        assert forall|e: CachedModel| cache.contains(e) && !idle(e, dirty) implies
            #[trigger] trimmed(cache, dirty, capacity).contains(e) by {
            let k = choose|k: int| 0 <= k < cache.len() && cache[k] == e;
            assert(k != j);
            assert(less[if k < j {
                k
            } else {
                k - 1
            }] == e);
            assert(less.contains(e));
        }
    }
}

// ---------- the names of entries ----------

/// Whether no entry is called `serial`.
pub open spec fn unused(cache: Seq<CachedModel>, aside: Seq<CachedModel>, serial: u64) -> bool {
    &&& forall|i: int| 0 <= i < cache.len() ==> (#[trigger] cache[i]).serial != serial
    &&& forall|i: int| 0 <= i < aside.len() ==> (#[trigger] aside[i]).serial != serial
}

/// Whether all entries have different serials, below `next`.
pub open spec fn names_apart(
    cache: Seq<CachedModel>,
    aside: Seq<CachedModel>,
    next: u64,
) -> bool {
    &&& forall|i: int| 0 <= i < cache.len() ==> (#[trigger] cache[i]).serial < next
    &&& forall|i: int| 0 <= i < aside.len() ==> (#[trigger] aside[i]).serial < next
    &&& forall|i: int, j: int|
        #![trigger cache[i], cache[j]]
        0 <= i < j < cache.len() ==> cache[i].serial != cache[j].serial
    &&& forall|i: int, j: int|
        #![trigger aside[i], aside[j]]
        0 <= i < j < aside.len() ==> aside[i].serial != aside[j].serial
    &&& forall|i: int, j: int|
        #![trigger cache[i], aside[j]]
        0 <= i < cache.len() && 0 <= j < aside.len() ==> cache[i].serial != aside[j].serial
}

/// Whether pins tell all entries apart. They do until the serials run out.
#[verifier::opaque]
pub open spec fn named(cache: Seq<CachedModel>, aside: Seq<CachedModel>, next: u64) -> bool {
    next < u64::MAX ==> names_apart(cache, aside, next)
}

proof fn lemma_named_remove(cache: Seq<CachedModel>, aside: Seq<CachedModel>, next: u64, i: int)
    requires
        named(cache, aside, next),
        0 <= i < cache.len(),
    ensures
        named(cache.remove(i), aside, next),
        next < u64::MAX ==> unused(cache.remove(i), aside, cache[i].serial) && cache[i].serial
            < next,
{
    reveal(named);
}

proof fn lemma_named_push(
    cache: Seq<CachedModel>,
    aside: Seq<CachedModel>,
    next: u64,
    e: CachedModel,
)
    requires
        named(cache, aside, next),
        next < u64::MAX ==> unused(cache, aside, e.serial) && e.serial < next,
    ensures
        named(cache.push(e), aside, next),
        named(cache, aside.push(e), next),
{
    reveal(named);
}

/// An entry called by the next serial.
proof fn lemma_named_fresh(
    cache: Seq<CachedModel>,
    aside: Seq<CachedModel>,
    next: u64,
    e: CachedModel,
)
    requires
        named(cache, aside, next),
        e.serial == next,
    ensures
        named(cache.push(e), aside, one_more(next)),
{
    reveal(named);
}

proof fn lemma_named_update(
    cache: Seq<CachedModel>,
    aside: Seq<CachedModel>,
    next: u64,
    i: int,
    e: CachedModel,
)
    requires
        named(cache, aside, next),
    ensures
        0 <= i < cache.len() && e.serial == cache[i].serial ==> named(
            cache.update(i, e),
            aside,
            next,
        ),
        0 <= i < aside.len() && e.serial == aside[i].serial ==> named(
            cache,
            aside.update(i, e),
            next,
        ),
        0 <= i < aside.len() ==> named(cache, aside.remove(i), next),
{
    reveal(named);
}

proof fn lemma_named_trimmed(
    cache: Seq<CachedModel>,
    aside: Seq<CachedModel>,
    next: u64,
    dirty: Map<u128, u64>,
    capacity: nat,
)
    requires
        named(cache, aside, next),
    ensures
        named(trimmed(cache, dirty, capacity), aside, next),
    decreases cache.len(),
{
    let j = idle_from(cache, dirty, 0);
    if !(cache.len() <= capacity || j < 0 || j >= cache.len()) {
        lemma_named_remove(cache, aside, next, j);
        lemma_named_trimmed(cache.remove(j), aside, next, dirty, capacity);
    }
}

// ---------- the cache ----------

struct CacheEntry {
    id: u128,
    blob: CachedBlob,
    pins: u64,
    serial: u64,
}

spec fn model(e: CacheEntry) -> CachedModel {
    CachedModel { id: e.id, blob: e.blob@, pins: e.pins, serial: e.serial }
}

spec fn models(entries: Seq<CacheEntry>) -> Seq<CachedModel> {
    entries.map_values(|e: CacheEntry| model(e))
}

/// A claim on a cache entry, which keeps it from being evicted.
pub struct Pin {
    id: u128,
    serial: u64,
}

impl Pin {
    /// The blob that is pinned.
    pub closed spec fn id(&self) -> u128 {
        self.id
    }

    /// The entry that is pinned.
    pub closed spec fn serial(&self) -> u64 {
        self.serial
    }
}

/// Whether `pin` claims entry `i`.
pub open spec fn claims(cache: Seq<CachedModel>, pin: Pin, i: int) -> bool {
    is_entry(cache, pin.id(), i) && cache[i].serial == pin.serial()
}

/// The first entry from `i` on that `pin` claims, or the length where there is
/// none.
pub open spec fn claim_from(entries: Seq<CachedModel>, pin: Pin, i: int) -> int
    decreases entries.len() - i,
{
    if i >= entries.len() {
        entries.len() as int
    } else if claims(entries, pin, i) {
        i
    } else {
        claim_from(entries, pin, i + 1)
    }
}

/// The entry that `pin` claims: one in the cache, or one kept aside.
pub open spec fn held(s: BufferState, pin: Pin) -> Option<CachedModel> {
    let i = claim_from(s.cache, pin, 0);
    let j = claim_from(s.aside, pin, 0);
    if i < s.cache.len() {
        Some(s.cache[i])
    } else if j < s.aside.len() {
        Some(s.aside[j])
    } else {
        None
    }
}

/// The state with the entry that `pin` claims replaced by `e`, or dropped where
/// it is aside and has no pin left.
pub open spec fn with_held(s: BufferState, pin: Pin, e: CachedModel) -> BufferState {
    let i = claim_from(s.cache, pin, 0);
    let j = claim_from(s.aside, pin, 0);
    if i < s.cache.len() {
        BufferState { cache: s.cache.update(i, e), ..s }
    } else if e.pins == 0 {
        BufferState { aside: s.aside.remove(j), ..s }
    } else {
        BufferState { aside: s.aside.update(j, e), ..s }
    }
}

/// The state once `pin` is given back.
pub open spec fn unpinned(s: BufferState, pin: Pin) -> BufferState {
    match held(s, pin) {
        Some(e) if e.pins > 0 => with_held(
            s,
            pin,
            CachedModel { pins: (e.pins - 1) as u64, ..e },
        ),
        _ => s,
    }
}

/// The first claimed entry is claimed, and none before it is.
pub proof fn lemma_claim_from(entries: Seq<CachedModel>, pin: Pin, i: int)
    requires
        0 <= i <= entries.len(),
    ensures
        i <= claim_from(entries, pin, i) <= entries.len(),
        claim_from(entries, pin, i) < entries.len() ==> claims(
            entries,
            pin,
            claim_from(entries, pin, i),
        ),
        forall|j: int|
            i <= j < claim_from(entries, pin, i) ==> !#[trigger] claims(entries, pin, j),
    decreases entries.len() - i,
{
    if i < entries.len() && !claims(entries, pin, i) {
        lemma_claim_from(entries, pin, i + 1);
    }
}

/// LRU-bounded blob cache; see the module docs.
pub struct BufferManager<B> {
    backend: B,
    capacity: usize,
    cache: Vec<CacheEntry>,
    aside: Vec<CacheEntry>,
    dirty: DirtyMap,
    clock: u64,
    next_serial: u64,
    fork_barrier: u64,
    epoch: u64,
    deletes: Vec<(BlobGuid, u64)>,
    structural: Vec<(BlobGuid, BlobGuid)>,
    cow: Vec<(BlobGuid, BlobGuid, u64)>,
}

impl<B> View for BufferManager<B> {
    type V = BufferState;

    closed spec fn view(&self) -> BufferState {
        BufferState {
            cache: models(self.cache@),
            aside: models(self.aside@),
            dirty: self.dirty@,
            clock: self.clock,
            capacity: self.capacity as nat,
            next_serial: self.next_serial,
            fork_barrier: self.fork_barrier,
            epoch: self.epoch,
            deletes: self.deletes@,
            structural: self.structural@,
            cow: self.cow@,
        }
    }
}

/// What holds of every buffer manager's state.
pub open spec fn state_ok(s: BufferState) -> bool {
    &&& cache_ok(s.cache)
    &&& forall|i: int|
        0 <= i < s.aside.len() ==> (#[trigger] s.aside[i]).blob.bytes.len() == PAGE_SIZE
    &&& named(s.cache, s.aside, s.next_serial)
    &&& s.capacity >= 1
    &&& s.fork_barrier < s.epoch
}

/// The state of a manager that has done nothing yet.
pub open spec fn started(capacity: nat) -> BufferState {
    BufferState {
        cache: Seq::empty(),
        aside: Seq::empty(),
        dirty: Map::empty(),
        clock: 1,
        capacity: if capacity == 0 {
            1
        } else {
            capacity
        },
        next_serial: 0,
        fork_barrier: 0,
        epoch: 1,
        deletes: Seq::empty(),
        structural: Seq::empty(),
        cow: Seq::empty(),
    }
}

impl<B: Backend> BufferManager<B> {
    /// The backend underneath.
    pub closed spec fn inner(&self) -> B {
        self.backend
    }

    /// Wrap `backend` with a cache of at most `capacity` blobs; a capacity of 0
    /// counts as 1.
    pub fn new(backend: B, capacity: usize) -> (bm: Self)
        requires
            backend.wf(),
        ensures
            bm.wf(),
            bm.inner() == backend,
            bm@ == started(capacity as nat),
    {
        let bm = BufferManager {
            backend,
            capacity: if capacity == 0 {
                1
            } else {
                capacity
            },
            cache: Vec::new(),
            aside: Vec::new(),
            dirty: DirtyMap::new(),
            clock: 1,
            next_serial: 0,
            fork_barrier: 0,
            epoch: 1,
            deletes: Vec::new(),
            structural: Vec::new(),
            cow: Vec::new(),
        };
        assert(bm@.cache =~= Seq::empty());
        assert(bm@.aside =~= Seq::empty());
        assert(named(bm@.cache, bm@.aside, bm@.next_serial)) by {
            reveal(named);
        }
        assert(bm@.deletes =~= Seq::empty());
        assert(bm@.structural =~= Seq::empty());
        assert(bm@.cow =~= Seq::empty());
        bm
    }

    /// The backend underneath, given up with the cache.
    pub fn into_inner(self) -> (backend: B)
        ensures
            backend == self.inner(),
    {
        self.backend
    }

    /// The next tick.
    pub fn clock_tick(&self) -> (tick: u64)
        ensures
            tick == self@.clock,
    {
        self.clock
    }

    /// Most blobs that the cache keeps.
    pub fn capacity(&self) -> (n: usize)
        ensures
            n == self@.capacity,
    {
        self.capacity
    }

    /// Blobs in the cache.
    pub fn cached_count(&self) -> (n: usize)
        ensures
            n == self@.cache.len(),
    {
        self.cache.len()
    }

    /// Whether the blob is in the cache.
    pub fn is_resident(&self, guid: BlobGuid) -> (yes: bool)
        ensures
            yes == is_cached(self@.cache, crate::layout::guid_id(guid)),
    {
        self.find(guid_key(&guid)).is_some()
    }

    /// Cached blobs with the tick of their last lookup, least recently used
    /// first.
    pub fn snapshot_entries(&self) -> (list: Vec<(BlobGuid, u64)>)
        ensures
            list@.len() == self@.cache.len(),
            forall|i: int|
                0 <= i < list@.len() ==> crate::layout::guid_id((#[trigger] list@[i]).0)
                    == self@.cache[i].id && list@[i].1 == self@.cache[i].blob.last_touched,
    {
        let mut list: Vec<(BlobGuid, u64)> = Vec::with_capacity(self.cache.len());
        let mut i: usize = 0;
        while i < self.cache.len()
            invariant
                i <= self.cache@.len(),
                list@.len() == i,
                forall|j: int|
                    0 <= j < i ==> crate::layout::guid_id((#[trigger] list@[j]).0)
                        == self@.cache[j].id && list@[j].1 == self@.cache[j].blob.last_touched,
            decreases self.cache@.len() - i,
        {
            assert(self@.cache[i as int] == model(self.cache@[i as int]));
            list.push((key_guid(self.cache[i].id), self.cache[i].blob.last_touched()));
            i += 1;
        }
        list
    }

    fn find(&self, id: u128) -> (found: Option<usize>)
        ensures
            match found {
                Some(i) => is_entry(self@.cache, id, i as int),
                None => !is_cached(self@.cache, id),
            },
    {
        let mut i: usize = 0;
        while i < self.cache.len()
            invariant
                i <= self.cache@.len(),
                forall|j: int| 0 <= j < i ==> !is_entry(self@.cache, id, j),
            decreases self.cache@.len() - i,
        {
            assert(self@.cache[i as int] == model(self.cache@[i as int]));
            if self.cache[i].id == id {
                return Some(i);
            }
            i += 1;
        }
        None
    }

    /// Drop the cache entry of `guid` unless it is dirty or pinned. Says whether
    /// one was dropped.
    pub fn try_evict_cold(&mut self, guid: BlobGuid) -> (evicted: bool)
        requires
            old(self).wf(),
        ensures
            final(self).wf(),
            final(self).inner() == old(self).inner(),
            evicted == is_cold(old(self)@, crate::layout::guid_id(guid)),
            final(self)@ == cold_evicted(old(self)@, crate::layout::guid_id(guid)),
    {
        if self.dirty.get(&guid).is_some() {
            return false;
        }
        let id: u128 = guid_key(&guid);
        match self.find(id) {
            Some(i) => {
                let ghost before = self@.cache;
                proof {
                    lemma_place(before, id, i as int);
                    assert(before[i as int] == model(self.cache@[i as int]));
                }
                if self.cache[i].pins > 0 {
                    return false;
                }
                proof {
                    lemma_cache_remove(before, i as int);
                    lemma_named_remove(before, self@.aside, self.next_serial, i as int);
                }
                self.cache.remove(i);
                assert(self@.cache =~= before.remove(i as int));
                true
            },
            None => false,
        }
    }

    /// Drop every cached entry and every dirty mark. The backend is untouched, and
    /// pins keep their entries.
    pub fn clear(&mut self)
        requires
            old(self).wf(),
        ensures
            final(self).wf(),
            final(self).inner() == old(self).inner(),
            final(self)@ == cleared(old(self)@),
    {
        let ghost s = self@;
        let ghost mut k: int = 0;
        assert(s.cache.take(0) =~= Seq::empty());
        assert(s.cache.skip(0) =~= s.cache);
        assert(s.aside + all_pinned(s.cache.take(0)) =~= s.aside);
        while self.cache.len() > 0
            invariant
                self.wf(),
                self.inner() == old(self).inner(),
                s == old(self)@,
                0 <= k <= s.cache.len(),
                self@.cache == s.cache.skip(k),
                self@ == (BufferState {
                    cache: s.cache.skip(k),
                    aside: s.aside + all_pinned(s.cache.take(k)),
                    ..s
                }),
            decreases self.cache@.len(),
        {
            let ghost now = self@;
            proof {
                assert(now.cache[0] == model(self.cache@[0]));
                lemma_cache_remove(now.cache, 0);
                lemma_named_remove(now.cache, now.aside, now.next_serial, 0);
                assert(s.cache.skip(k).remove(0) =~= s.cache.skip(k + 1));
                assert(s.cache.take(k + 1).drop_last() =~= s.cache.take(k));
            }
            let e: CacheEntry = self.cache.remove(0);
            assert(self@.cache =~= s.cache.skip(k + 1));
            if e.pins > 0 {
                proof {
                    lemma_named_push(self@.cache, now.aside, now.next_serial, model(e));
                }
                self.aside.push(e);
                assert(self@.aside =~= now.aside.push(model(e)));
            }
            assert(self@.aside =~= s.aside + all_pinned(s.cache.take(k + 1)));
            proof {
                k = k + 1;
            }
        }
        assert(s.cache.take(k) =~= s.cache);
        self.dirty.clear();
        assert(self@.cache =~= Seq::empty());
    }

    /// Look `guid` up. A hit becomes the most recently used entry and is stamped
    /// with the next tick.
    fn get_cached(&mut self, guid: BlobGuid) -> (hit: Option<usize>)
        requires
            old(self).wf(),
        ensures
            final(self).wf(),
            final(self).inner() == old(self).inner(),
            final(self)@ == looked_up(old(self)@, crate::layout::guid_id(guid)),
            match hit {
                Some(i) => {
                    &&& is_cached(old(self)@.cache, crate::layout::guid_id(guid))
                    &&& is_entry(final(self)@.cache, crate::layout::guid_id(guid), i as int)
                    &&& final(self)@.cache[i as int].blob.bytes == old(self)@.cache[place(
                        old(self)@.cache,
                        crate::layout::guid_id(guid),
                    )].blob.bytes
                },
                None => !is_cached(old(self)@.cache, crate::layout::guid_id(guid))
                    && *final(self) == *old(self),
            },
    {
        let id: u128 = guid_key(&guid);
        match self.find(id) {
            Some(i) => {
                let ghost before = self@.cache;
                let ghost tick = self.clock;
                proof {
                    lemma_place(before, id, i as int);
                    lemma_cache_remove(before, i as int);
                    lemma_named_remove(before, self@.aside, self.next_serial, i as int);
                    lemma_named_push(
                        before.remove(i as int),
                        self@.aside,
                        self.next_serial,
                        stamped(before[i as int], tick),
                    );
                    assert(before[i as int] == model(self.cache@[i as int]));
                }
                let mut e: CacheEntry = self.cache.remove(i);
                e.blob.touch(self.clock);
                self.clock = self.clock.wrapping_add(1);
                proof {
                    assert(models(self.cache@) =~= before.remove(i as int));
                    assert(model(e) == stamped(before[i as int], tick));
                    lemma_cache_push(before.remove(i as int), model(e));
                }
                self.cache.push(e);
                assert(self@.cache =~= before.remove(i as int).push(
                    stamped(before[i as int], tick),
                ));
                Some(self.cache.len() - 1)
            },
            None => None,
        }
    }

    /// Drop the oldest idle entry. Says whether there was one.
    fn try_evict_lru(&mut self) -> (evicted: bool)
        requires
            old(self).wf(),
        ensures
            final(self).wf(),
            final(self).inner() == old(self).inner(),
            ({
                let cache = old(self)@.cache;
                let j = idle_from(cache, old(self)@.dirty, 0);
                &&& evicted == (j < cache.len())
                &&& final(self)@ == (if evicted {
                    BufferState { cache: cache.remove(j), ..old(self)@ }
                } else {
                    old(self)@
                })
            }),
    {
        let ghost before = self@.cache;
        let ghost dirty = self@.dirty;
        let mut i: usize = 0;
        while i < self.cache.len()
            invariant
                self.wf(),
                *self == *old(self),
                before == self@.cache,
                dirty == self@.dirty,
                i <= self.cache@.len(),
                idle_from(before, dirty, 0) == idle_from(before, dirty, i as int),
            decreases self.cache@.len() - i,
        {
            assert(before[i as int] == model(self.cache@[i as int]));
            if self.cache[i].pins == 0 && !self.dirty.has(self.cache[i].id) {
                proof {
                    lemma_cache_remove(before, i as int);
                    lemma_named_remove(before, self@.aside, self.next_serial, i as int);
                }
                self.cache.remove(i);
                assert(self@.cache =~= before.remove(i as int));
                return true;
            }
            i += 1;
        }
        false
    }

    /// Put a freshly loaded image into the cache, dropping the oldest idle
    /// entries where it exceeds its capacity.
    fn insert_into_cache(&mut self, guid: BlobGuid, contents: &AlignedBlobBuf)
        requires
            old(self).wf(),
            contents@.len() == PAGE_SIZE,
        ensures
            final(self).wf(),
            final(self).inner() == old(self).inner(),
            final(self)@ == loaded(old(self)@, crate::layout::guid_id(guid), contents@),
    {
        let id: u128 = guid_key(&guid);
        let ghost before = self@;
        if let Some(i) = self.find(id) {
            proof {
                lemma_place(before.cache, id, i as int);
                lemma_cache_remove(before.cache, i as int);
                assert(before.cache[i as int] == model(self.cache@[i as int]));
            }
            let e: CacheEntry = self.cache.remove(i);
            proof {
                assert(models(self.cache@) =~= before.cache.remove(i as int));
                lemma_cache_push(before.cache.remove(i as int), model(e));
                lemma_named_remove(before.cache, before.aside, before.next_serial, i as int);
                lemma_named_push(
                    before.cache.remove(i as int),
                    before.aside,
                    before.next_serial,
                    model(e),
                );
            }
            self.cache.push(e);
            assert(self@.cache =~= to_back(before.cache, i as int));
            return;
        }
        let mut blob: CachedBlob = CachedBlob::new(contents.clone());
        blob.touch(self.clock);
        let e = CacheEntry { id, blob, pins: 0, serial: self.next_serial };
        let ghost tick = self.clock;
        self.clock = self.clock.wrapping_add(1);
        self.next_serial = self.next_serial.saturating_add(1);
        proof {
            assert(model(e) == fresh(id, contents@, tick, 0, before.next_serial));
            lemma_cache_push(before.cache, model(e));
            lemma_named_fresh(before.cache, before.aside, before.next_serial, model(e));
        }
        self.cache.push(e);
        let ghost full = before.cache.push(fresh(id, contents@, tick, 0, before.next_serial));
        assert(self@.cache =~= full);
        let mut room: bool = true;
        while room && self.cache.len() > self.capacity
            invariant
                self.wf(),
                self.inner() == old(self).inner(),
                before == old(self)@,
                self@ == (BufferState {
                    cache: self@.cache,
                    clock: ticked(before.clock),
                    next_serial: one_more(before.next_serial),
                    ..before
                }),
                trimmed(full, before.dirty, before.capacity) == trimmed(self@.cache, before.dirty, before.capacity),
                !room ==> self@.cache == trimmed(full, before.dirty, before.capacity),
            decreases
                self.cache@.len(),
                if room {
                    1int
                } else {
                    0
                },
        {
            let ghost now = self@.cache;
            proof {
                lemma_idle_from(now, self@.dirty, 0);
            }
            room = self.try_evict_lru();
        }
    }

    /// Drop `guid` from the cache and from the dirty marks; pins keep their entry.
    fn evict_from_cache(&mut self, guid: BlobGuid)
        requires
            old(self).wf(),
        ensures
            final(self).wf(),
            final(self).inner() == old(self).inner(),
            final(self)@ == evicted(old(self)@, crate::layout::guid_id(guid)),
            !is_cached(final(self)@.cache, crate::layout::guid_id(guid)),
    {
        let id: u128 = guid_key(&guid);
        let ghost s = self@;
        if let Some(i) = self.find(id) {
            proof {
                lemma_place(s.cache, id, i as int);
                lemma_cache_remove(s.cache, i as int);
                lemma_named_remove(s.cache, s.aside, s.next_serial, i as int);
                assert(s.cache[i as int] == model(self.cache@[i as int]));
            }
            let e: CacheEntry = self.cache.remove(i);
            assert(self@.cache =~= s.cache.remove(i as int));
            if e.pins > 0 {
                proof {
                    lemma_named_push(self@.cache, s.aside, s.next_serial, model(e));
                }
                self.aside.push(e);
                assert(self@.aside =~= s.aside.push(model(e)));
            }
        }
        self.dirty.remove(&guid);
        assert(self@.aside =~= s.aside + kept_aside(s.cache, id));
    }
}

/// Whether an entry of `cache` has the blob and image of `e`.
pub open spec fn has_image(cache: Seq<CachedModel>, e: CachedModel) -> bool {
    exists|j: int|
        0 <= j < cache.len() && (#[trigger] cache[j]).id == e.id && cache[j].blob.bytes
            == e.blob.bytes
}

/// Every entry of `b` has the blob and image of an entry of `a`.
pub open spec fn drawn_from(b: Seq<CachedModel>, a: Seq<CachedModel>) -> bool {
    forall|i: int| 0 <= i < b.len() ==> has_image(a, #[trigger] b[i])
}

/// A cache drawn from a coherent one is coherent.
pub proof fn lemma_drawn_from(b: Seq<CachedModel>, a: Seq<CachedModel>, blobs: Map<u128, Seq<u8>>)
    requires
        drawn_from(b, a),
        coherent(a, blobs),
    ensures
        coherent(b, blobs),
{
    assert forall|i: int| 0 <= i < b.len() implies blobs.dom().contains((#[trigger] b[i]).id)
        && blobs[b[i].id] == b[i].blob.bytes by {
        assert(has_image(a, b[i]));
        let j = choose|j: int|
            0 <= j < a.len() && (#[trigger] a[j]).id == b[i].id && a[j].blob.bytes
                == b[i].blob.bytes;
        assert(blobs.dom().contains(a[j].id));
    }
}

/// A lookup shuffles the cache only.
pub proof fn lemma_looked_up_drawn(s: BufferState, id: u128)
    requires
        cache_ok(s.cache),
    ensures
        drawn_from(looked_up(s, id).cache, s.cache),
        cache_ok(looked_up(s, id).cache),
        is_cached(s.cache, id) ==> is_entry(
            looked_up(s, id).cache,
            id,
            looked_up(s, id).cache.len() - 1,
        ),
{
    let b = looked_up(s, id).cache;
    if is_cached(s.cache, id) {
        let i = place(s.cache, id);
        assert(is_entry(s.cache, id, i));
        lemma_cache_remove(s.cache, i);
        lemma_cache_push(s.cache.remove(i), stamped(s.cache[i], s.clock));
        assert forall|k: int| 0 <= k < b.len() implies has_image(
            s.cache,
            #[trigger] b[k],
        ) by {
            let j = if k == b.len() - 1 {
                i
            } else if k < i {
                k
            } else {
                k + 1
            };
            assert(s.cache[j].id == b[k].id);
        }
    } else {
        assert forall|k: int| 0 <= k < b.len() implies has_image(
            s.cache,
            #[trigger] b[k],
        ) by {
            assert(s.cache[k].id == b[k].id);
        }
    }
}

/// What is loaded is the only thing new in the cache.
pub proof fn lemma_loaded_drawn(s: BufferState, id: u128, bytes: Seq<u8>)
    requires
        cache_ok(s.cache),
        !is_cached(s.cache, id),
        bytes.len() == PAGE_SIZE,
    ensures
        drawn_from(
            loaded(s, id, bytes).cache,
            s.cache.push(fresh(id, bytes, s.clock, 0, s.next_serial)),
        ),
        cache_ok(loaded(s, id, bytes).cache),
{
    let full = s.cache.push(fresh(id, bytes, s.clock, 0, s.next_serial));
    let b = loaded(s, id, bytes).cache;
    lemma_cache_push(s.cache, fresh(id, bytes, s.clock, 0, s.next_serial));
    lemma_trimmed(full, s.dirty, s.capacity);
    assert forall|k: int| 0 <= k < b.len() implies has_image(full, #[trigger] b[k]) by {
        assert(b.contains(b[k]));
        assert(full.contains(b[k]));
        let j = choose|j: int| 0 <= j < full.len() && full[j] == b[k];
        assert(full[j].id == b[k].id);
    }
}

/// Writing an image into the store, and into the cache where it is cached, is
/// what readers see then.
proof fn lemma_written(
    s: BufferState,
    cache: Seq<CachedModel>,
    id: u128,
    bytes: Seq<u8>,
    blobs: Map<u128, Seq<u8>>,
)
    requires
        cache_ok(s.cache),
        if is_cached(s.cache, id) {
            let i = place(s.cache, id);
            cache.len() == s.cache.len() && cache == s.cache.update(i, cache[i]) && cache[i].id
                == id && cache[i].blob.bytes == bytes
        } else {
            cache == s.cache
        },
    ensures
        contents(cache, blobs.insert(id, bytes)) == contents(s.cache, blobs).insert(id, bytes),
        edits_tracked(s.cache, s.dirty, blobs) ==> edits_tracked(
            cache,
            s.dirty.remove(id),
            blobs.insert(id, bytes),
        ),
{
    let i = place(s.cache, id);
    let stored = blobs.insert(id, bytes);
    if is_cached(s.cache, id) {
        assert(is_entry(s.cache, id, i));
    }
    assert(forall|k: int| 0 <= k < cache.len() ==> (#[trigger] cache[k]).id == s.cache[k].id);
    assert forall|x: u128| is_cached(cache, x) == is_cached(s.cache, x) && (is_cached(
        s.cache,
        x,
    ) ==> #[trigger] cache[place(cache, x)].blob.bytes == (if x == id {
        bytes
    } else {
        s.cache[place(s.cache, x)].blob.bytes
    })) by {
        if is_cached(s.cache, x) {
            let k = place(s.cache, x);
            assert(is_entry(s.cache, x, k));
            assert(is_entry(cache, x, k));
            assert(distinct(cache)) by {
                assert forall|p: int, q: int|
                    #![trigger cache[p], cache[q]]
                    0 <= p < q < cache.len() implies cache[p].id != cache[q].id by {
                    assert(s.cache[p].id != s.cache[q].id);
                }
            }
            lemma_place(cache, x, k);
        } else if is_cached(cache, x) {
            assert(is_entry(s.cache, x, place(cache, x)));
        }
    }
    assert forall|x: u128| #[trigger] is_cached(cache, x) == is_cached(s.cache, x) by {
        let y = cache[place(cache, x)].blob.bytes;
    }
    assert forall|x: u128| #[trigger] contents(cache, stored).dom().contains(x) implies contents(
        cache,
        stored,
    )[x] == contents(s.cache, blobs).insert(id, bytes)[x] by {
        let y = cache[place(cache, x)].blob.bytes;
    }
    assert(contents(cache, stored) =~= contents(s.cache, blobs).insert(id, bytes));
    if edits_tracked(s.cache, s.dirty, blobs) {
        let dirty = s.dirty.remove(id);
        assert forall|k: int|
            0 <= k < cache.len() && !dirty.dom().contains((#[trigger] cache[k]).id) implies
            stored.dom().contains(cache[k].id) && stored[cache[k].id] == cache[k].blob.bytes by {
            if cache[k].id == id {
                assert(is_entry(s.cache, id, k));
                lemma_place(s.cache, id, k);
            } else {
                if is_cached(s.cache, id) {
                    assert(k != i);
                }
                assert(!s.dirty.dom().contains(s.cache[k].id));
            }
        }
    }
}

/// A blob that is in neither the cache nor the store is seen no more.
proof fn lemma_deleted(s: BufferState, id: u128, blobs: Map<u128, Seq<u8>>)
    requires
        cache_ok(s.cache),
    ensures
        contents(dropped(s.cache, id), blobs.remove(id)) == contents(s.cache, blobs).remove(id),
        edits_tracked(s.cache, s.dirty, blobs) ==> edits_tracked(
            dropped(s.cache, id),
            s.dirty.remove(id),
            blobs.remove(id),
        ),
{
    let less = dropped(s.cache, id);
    let i = place(s.cache, id);
    if is_cached(s.cache, id) {
        assert(is_entry(s.cache, id, i));
        lemma_cache_remove(s.cache, i);
    }
    assert forall|x: u128| x != id implies is_cached(less, x) == is_cached(s.cache, x) && (
    is_cached(s.cache, x) ==> #[trigger] less[place(less, x)].blob.bytes == s.cache[place(
        s.cache,
        x,
    )].blob.bytes) by {
        if is_cached(s.cache, id) {
            lemma_other_entry(s.cache, i, x);
        }
    }
    assert(contents(less, blobs.remove(id)) =~= contents(s.cache, blobs).remove(id));
    if edits_tracked(s.cache, s.dirty, blobs) {
        let dirty = s.dirty.remove(id);
        assert forall|k: int|
            0 <= k < less.len() && !dirty.dom().contains((#[trigger] less[k]).id) implies
            blobs.remove(id).dom().contains(less[k].id) && blobs.remove(id)[less[k].id]
            == less[k].blob.bytes by {
            let j = if is_cached(s.cache, id) && k >= i {
                k + 1
            } else {
                k
            };
            assert(less[k] == s.cache[j]);
            assert(less[k].id != id) by {
                if less[k].id == id {
                    assert(is_entry(less, id, k));
                }
            }
            assert(!s.dirty.dom().contains(s.cache[j].id));
        }
    }
}

/// Dropping entry `i` leaves the entries of other blobs as they are.
proof fn lemma_other_entry(cache: Seq<CachedModel>, i: int, x: u128)
    requires
        cache_ok(cache),
        0 <= i < cache.len(),
        x != cache[i].id,
    ensures
        is_cached(cache.remove(i), x) == is_cached(cache, x),
        is_cached(cache, x) ==> cache.remove(i)[place(cache.remove(i), x)] == cache[place(
            cache,
            x,
        )],
{
    let less = cache.remove(i);
    lemma_cache_remove(cache, i);
    if is_cached(cache, x) {
        let j = place(cache, x);
        assert(is_entry(cache, x, j));
        let k = if j < i {
            j
        } else {
            j - 1
        };
        assert(less[k] == cache[j]);
        lemma_place(less, x, k);
    }
}

impl<B: Backend> Backend for BufferManager<B> {
    open spec fn wf(&self) -> bool {
        self.inner().wf() && state_ok(self@)
    }

    open spec fn blobs(&self) -> Map<u128, Seq<u8>> {
        self.inner().blobs()
    }

    open spec fn durable(&self) -> Map<u128, Seq<u8>> {
        self.inner().durable()
    }

    open spec fn faithful(&self) -> bool {
        self.inner().faithful() && coherent(self@.cache, self.inner().blobs())
    }

    open spec fn fault(&self, call: Call) -> Option<Error> {
        match call {
            Call::Read(id) => if is_cached(self@.cache, id) {
                None
            } else {
                self.inner().fault(call)
            },
            Call::Has(id) => if is_cached(self@.cache, id) {
                None
            } else {
                self.inner().fault(call)
            },
            _ => self.inner().fault(call),
        }
    }

    open spec fn steady(&self) -> bool {
        self.inner().steady()
    }

    fn read_blob(&mut self, guid: BlobGuid, dst: &mut AlignedBlobBuf) -> (r: Result<()>)
        ensures
            ({
                let id = crate::layout::guid_id(guid);
                let s = old(self)@;
                if is_cached(s.cache, id) {
                    &&& r is Ok
                    &&& final(dst)@ == s.cache[place(s.cache, id)].blob.bytes
                    &&& final(self)@ == looked_up(s, id)
                    &&& final(self).inner() == old(self).inner()
                } else {
                    final(self)@ == (if r is Ok {
                        loaded(s, id, final(dst)@)
                    } else {
                        s
                    })
                }
            }),
            old(self).inner().faithful() ==> {
                &&& final(self).inner().faithful()
                &&& final(self).inner().blobs() == old(self).inner().blobs()
                &&& final(self).inner().durable() == old(self).inner().durable()
                &&& r is Ok ==> old(self).seen().dom().contains(crate::layout::guid_id(guid))
                    && final(dst)@ == old(self).seen()[crate::layout::guid_id(guid)]
                &&& old(self).marks_edits() ==> final(self).marks_edits() && final(self).seen() == old(
                    self).seen()
            },
            match old(self).fault(Call::Read(crate::layout::guid_id(guid))) {
                Some(e) => r == Err::<(), Error>(e),
                None => old(self).inner().faithful() ==> r == (if old(self).seen().dom().contains(
                    crate::layout::guid_id(guid),
                ) {
                    Ok(())
                } else {
                    Err::<(), Error>(crate::store::backend::missing_blob())
                }),
            },
            old(self).inner().faithful() && old(self).inner().steady() ==> {
                &&& final(self).inner().steady()
                &&& old(self).seen().dom().contains(crate::layout::guid_id(guid)) ==> r is Ok
            },
    {
        let ghost id = crate::layout::guid_id(guid);
        let ghost s = self@;
        proof {
            lemma_looked_up_drawn(s, id);
            lookup_is_transparent(s, id, self.inner().blobs());
            if self.marks_edits() {
                lookups_keep_edits_tracked(s, id, self.inner().blobs());
            }
            if coherent(s.cache, self.inner().blobs()) {
                lemma_drawn_from(looked_up(s, id).cache, s.cache, self.inner().blobs());
            }
        }
        if let Some(i) = self.get_cached(guid) {
            assert(self@.cache[i as int] == model(self.cache@[i as int]));
            let bytes: Vec<u8> = vstd::slice::slice_to_vec(self.cache[i].blob.read().as_slice());
            *dst = AlignedBlobBuf::from_bytes(bytes);
            proof {
                assert(is_entry(s.cache, id, place(s.cache, id)));
            }
            return Ok(());
        }
        match self.backend.read_blob(guid, dst) {
            Ok(()) => {
                proof {
                    lemma_loaded_drawn(s, id, dst@);
                    let blobs = self.inner().blobs();
                    if edits_tracked(s.cache, s.dirty, blobs) && blobs.dom().contains(id)
                        && blobs[id] == dst@ {
                        a_load_is_transparent(s, id, blobs);
                    }
                    if coherent(s.cache, self.inner().blobs()) && self.inner().blobs().dom().contains(
                        id,
                    ) && self.inner().blobs()[id] == dst@ {
                        let full = s.cache.push(fresh(id, dst@, s.clock, 0, s.next_serial));
                        assert(coherent(full, self.inner().blobs()));
                        lemma_drawn_from(
                            loaded(s, id, dst@).cache,
                            full,
                            self.inner().blobs(),
                        );
                    }
                }
                self.insert_into_cache(guid, dst);
                Ok(())
            },
            Err(e) => Err(e),
        }
    }

    fn write_blob(&mut self, guid: BlobGuid, src: &AlignedBlobBuf) -> (r: Result<()>)
        ensures
            final(self)@ == blob_written(
                old(self)@,
                crate::layout::guid_id(guid),
                src@,
                r is Ok,
            ),
            old(self).inner().faithful() && r is Ok ==> {
                &&& final(self).inner().faithful()
                &&& final(self).inner().blobs() == old(self).inner().blobs().insert(
                    crate::layout::guid_id(guid),
                    src@,
                )
                &&& final(self).seen() == old(self).seen().insert(
                    crate::layout::guid_id(guid),
                    src@,
                )
                &&& old(self).marks_edits() ==> final(self).marks_edits()
            },
            old(self).inner().faithful() && old(self).inner().steady() ==> r is Ok && final(
                self).inner().steady(),
    {
        let ghost id = crate::layout::guid_id(guid);
        let ghost s0 = self@;
        proof {
            lemma_looked_up_drawn(s0, id);
            lookup_is_transparent(s0, id, self.inner().blobs());
            if self.marks_edits() {
                lookups_keep_edits_tracked(s0, id, self.inner().blobs());
            }
        }
        let ghost s = looked_up(s0, id);
        if let Some(i) = self.get_cached(guid) {
            proof {
                lemma_place(s.cache, id, i as int);
                assert(self@.cache[i as int] == model(self.cache@[i as int]));
            }
            let bytes: Vec<u8> = vstd::slice::slice_to_vec(src.as_slice());
            let guard = self.cache[i].blob.write();
            *guard.buf = AlignedBlobBuf::from_bytes(bytes);
            proof {
                let new = CachedModel {
                    blob: BlobState {
                        bytes: src@,
                        version: crate::store::cached_blob::next_version(
                            s.cache[i as int].blob.version,
                        ),
                        ..s.cache[i as int].blob
                    },
                    ..s.cache[i as int]
                };
                assert(self@.cache =~= s.cache.update(i as int, new));
                lemma_named_update(s.cache, s.aside, s.next_serial, i as int, new);
                assert(distinct(self@.cache)) by {
                    assert forall|p: int, q: int|
                        #![trigger self@.cache[p], self@.cache[q]]
                        0 <= p < q < self@.cache.len() implies self@.cache[p].id
                        != self@.cache[q].id by {
                        assert(self@.cache[p].id == s.cache[p].id);
                        assert(self@.cache[q].id == s.cache[q].id);
                    }
                }
            }
        }
        let ghost cache = self@.cache;
        let ghost blobs0 = self.inner().blobs();
        proof {
            if coherent(s0.cache, blobs0) {
                lemma_drawn_from(s.cache, s0.cache, blobs0);
                assert(coherent(cache, blobs0.insert(id, src@))) by {
                    assert forall|k: int| 0 <= k < cache.len() implies blobs0.insert(
                        id,
                        src@,
                    ).dom().contains((#[trigger] cache[k]).id) && blobs0.insert(
                        id,
                        src@,
                    )[cache[k].id] == cache[k].blob.bytes by {
                        assert(cache[k].id == s.cache[k].id);
                        if cache[k].id == id {
                            lemma_place(s.cache, id, k);
                            if !is_cached(s0.cache, id) {
                                assert(is_entry(s0.cache, id, k));
                            }
                        } else if is_cached(s0.cache, id) {
                            assert(k != place(s.cache, id));
                            assert(cache[k] == s.cache[k]);
                        }
                    }
                }
            }
        }
        proof {
            lemma_written(s, cache, id, src@, blobs0);
        }
        match self.backend.write_blob(guid, src) {
            Ok(()) => {
                self.dirty.remove(&guid);
                Ok(())
            },
            Err(e) => Err(e),
        }
    }

    fn delete_blob(&mut self, guid: BlobGuid) -> (r: Result<()>)
        ensures
            final(self)@ == evicted(old(self)@, crate::layout::guid_id(guid)),
            old(self).inner().faithful() && r is Ok ==> {
                &&& final(self).inner().faithful()
                &&& final(self).inner().blobs() == old(self).inner().blobs().remove(
                    crate::layout::guid_id(guid),
                )
                &&& final(self).seen() == old(self).seen().remove(crate::layout::guid_id(guid))
                &&& old(self).marks_edits() ==> final(self).marks_edits()
            },
            old(self).inner().faithful() && old(self).inner().steady() ==> r is Ok && final(
                self).inner().steady(),
    {
        let ghost id = crate::layout::guid_id(guid);
        let ghost s = self@;
        let ghost blobs0 = self.inner().blobs();
        self.evict_from_cache(guid);
        proof {
            let cache = self@.cache;
            lemma_deleted(s, id, blobs0);
            if coherent(s.cache, blobs0) {
                assert(coherent(cache, blobs0.remove(id))) by {
                    assert forall|k: int| 0 <= k < cache.len() implies blobs0.remove(
                        id,
                    ).dom().contains((#[trigger] cache[k]).id) && blobs0.remove(id)[cache[k].id]
                        == cache[k].blob.bytes by {
                        assert(!is_entry(cache, id, k));
                        if is_cached(s.cache, id) {
                            let p = place(s.cache, id);
                            assert(is_entry(s.cache, id, p));
                            assert(cache[k] == s.cache[if k < p {
                                k
                            } else {
                                k + 1
                            }]);
                        }
                    }
                }
            }
        }
        self.backend.delete_blob(guid)
    }

    fn list_blobs(&mut self) -> (r: Result<Vec<BlobGuid>>)
        ensures
            final(self)@ == old(self)@,
            old(self).inner().faithful() ==> {
                &&& final(self).inner().faithful()
                &&& final(self).inner().blobs() == old(self).inner().blobs()
                &&& final(self).inner().durable() == old(self).inner().durable()
                &&& r matches Ok(v) ==> crate::store::backend::lists(
                    v@,
                    old(self).inner().blobs(),
                )
            },
            old(self).inner().faithful() && old(self).inner().steady() ==> r is Ok && final(
                self).inner().steady(),
    {
        self.backend.list_blobs()
    }

    fn flush(&mut self) -> (r: Result<()>)
        ensures
            final(self)@ == old(self)@,
            old(self).inner().faithful() ==> final(self).inner().faithful() && final(
                self).inner().blobs() == old(self).inner().blobs(),
            old(self).inner().faithful() && r is Ok ==> final(self).inner().durable() == old(
                self).inner().blobs(),
            old(self).inner().faithful() && old(self).inner().steady() ==> r is Ok && final(
                self).inner().steady(),
    {
        self.backend.flush()
    }

    fn has_blob(&mut self, guid: BlobGuid) -> (r: Result<bool>)
        ensures
            final(self)@ == old(self)@,
            is_cached(old(self)@.cache, crate::layout::guid_id(guid)) ==> r == Ok::<
                bool,
                Error,
            >(true) && final(self).inner() == old(self).inner(),
            old(self).inner().faithful() ==> {
                &&& final(self).inner().faithful()
                &&& final(self).inner().blobs() == old(self).inner().blobs()
                &&& final(self).inner().durable() == old(self).inner().durable()
                &&& r matches Ok(found) ==> found == old(self).seen().dom().contains(
                    crate::layout::guid_id(guid),
                )
            },
            old(self).inner().faithful() && old(self).inner().steady() ==> r is Ok && final(
                self).inner().steady(),
    {
        if let Some(i) = self.find(guid_key(&guid)) {
            assert(self@.cache[i as int].id == crate::layout::guid_id(guid));
            assert(is_entry(self@.cache, crate::layout::guid_id(guid), i as int));
            return Ok(true);
        }
        self.backend.has_blob(guid)
    }
}

// ---------- pins ----------

/// The cache with the blob of entry `i` replaced.
pub open spec fn with_blob(cache: Seq<CachedModel>, i: int, blob: BlobState) -> Seq<CachedModel> {
    cache.update(i, CachedModel { blob, ..cache[i] })
}

/// Replacing a blob by a whole page keeps a cache sound.
proof fn lemma_with_blob(cache: Seq<CachedModel>, i: int, blob: BlobState)
    requires
        cache_ok(cache),
        0 <= i < cache.len(),
        blob.bytes.len() == PAGE_SIZE,
    ensures
        cache_ok(with_blob(cache, i, blob)),
{
    let new = with_blob(cache, i, blob);
    assert forall|p: int, q: int|
        #![trigger new[p], new[q]]
        0 <= p < q < new.len() implies new[p].id != new[q].id by {
        assert(new[p].id == cache[p].id && new[q].id == cache[q].id);
    }
}

/// Adding a pin keeps a cache sound.
proof fn lemma_with_pin(s: BufferState, id: u128)
    requires
        cache_ok(s.cache),
        is_cached(s.cache, id),
    ensures
        cache_ok(with_pin(s, id).cache),
        is_entry(with_pin(s, id).cache, id, place(s.cache, id)),
{
    let i = place(s.cache, id);
    assert(is_entry(s.cache, id, i));
    let new = with_pin(s, id).cache;
    assert forall|p: int, q: int|
        #![trigger new[p], new[q]]
        0 <= p < q < new.len() implies new[p].id != new[q].id by {
        assert(new[p].id == s.cache[p].id && new[q].id == s.cache[q].id);
    }
    assert forall|p: int| 0 <= p < new.len() implies (#[trigger] new[p]).blob.bytes.len()
        == PAGE_SIZE by {
        assert(new[p].blob == s.cache[p].blob);
    }
}

impl<B: Backend> BufferManager<B> {
    fn add_pin(&mut self, i: usize, Ghost(id): Ghost<u128>) -> (pin: Pin)
        requires
            old(self).wf(),
            is_entry(old(self)@.cache, id, i as int),
        ensures
            final(self).wf(),
            final(self).inner() == old(self).inner(),
            final(self)@ == with_pin(old(self)@, id),
            pin.id() == id,
            claims(final(self)@.cache, pin, i as int),
    {
        let ghost s = self@;
        proof {
            lemma_place(s.cache, id, i as int);
            lemma_with_pin(s, id);
            lemma_named_update(
                s.cache,
                s.aside,
                s.next_serial,
                i as int,
                CachedModel { pins: one_more(s.cache[i as int].pins), ..s.cache[i as int] },
            );
            assert(s.cache[i as int] == model(self.cache@[i as int]));
        }
        self.cache[i].pins = self.cache[i].pins.saturating_add(1);
        let pin = Pin { id: self.cache[i].id, serial: self.cache[i].serial };
        assert(self@.cache =~= with_pin(s, id).cache);
        pin
    }

    /// Pin `guid` in the cache, loading it where it is not cached. The pin keeps
    /// the entry from being evicted until [`Self::unpin`].
    pub fn pin(&mut self, guid: BlobGuid) -> (r: Result<Pin>)
        requires
            old(self).wf(),
        ensures
            final(self).wf(),
            ({
                let id = crate::layout::guid_id(guid);
                let s = old(self)@;
                &&& is_cached(s.cache, id) ==> r is Ok && final(self).inner() == old(self).inner()
                &&& old(self).inner().faithful() ==> {
                    &&& final(self).inner().faithful()
                    &&& final(self).inner().blobs() == old(self).inner().blobs()
                    &&& old(self).marks_edits() ==> final(self).marks_edits() && final(self).seen()
                        == old(self).seen()
                }
                &&& match old(self).fault(Call::Read(id)) {
                    Some(e) => r == Err::<Pin, Error>(e),
                    None => old(self).inner().faithful() ==> (if old(self).seen().dom().contains(
                        id,
                    ) {
                        r is Ok
                    } else {
                        r == Err::<Pin, Error>(crate::store::backend::missing_blob())
                    }),
                }
                &&& old(self).inner().faithful() && old(self).inner().steady() ==> {
                    &&& final(self).inner().steady()
                    &&& !is_cached(s.cache, id) ==> {
                        if old(self).inner().blobs().dom().contains(id) {
                            r is Ok
                        } else {
                            r == Err::<Pin, Error>(
                                crate::store::backend::missing_blob(),
                            )
                        }
                    }
                }
                &&& match r {
                    Ok(pin) => {
                        &&& pin.id() == id
                        &&& exists|bytes: Seq<u8>|
                            {
                                &&& final(self)@ == #[trigger] pinned(s, id, bytes)
                                &&& old(self).inner().faithful() && !is_cached(s.cache, id) ==> old(self).inner().blobs().dom().contains(id) && bytes == old(self).inner().blobs()[id]
                            }
                        &&& claims(final(self)@.cache, pin, place(final(self)@.cache, id))
                    },
                    Err(_) => final(self)@ == s,
                }
            }),
    {
        let ghost id = crate::layout::guid_id(guid);
        let ghost s = self@;
        proof {
            lemma_looked_up_drawn(s, id);
        }
        if let Some(i) = self.get_cached(guid) {
            let pin = self.add_pin(i, Ghost(id));
            proof {
                lemma_place(self@.cache, id, i as int);
                let bytes = Seq::<u8>::empty();
                assert(self@ == pinned(s, id, bytes));
                a_pin_is_transparent(s, id, bytes, self.inner().blobs());
            }
            return Ok(pin);
        }
        let mut scratch: AlignedBlobBuf = AlignedBlobBuf::zeroed();
        match self.backend.read_blob(guid, &mut scratch) {
            Ok(()) => {},
            Err(e) => {
                return Err(e);
            },
        }
        let ghost bytes = scratch@;
        proof {
            lemma_loaded_drawn(s, id, bytes);
            a_pin_is_transparent(s, id, bytes, self.inner().blobs());
        }
        self.insert_into_cache(guid, &scratch);
        let ghost l = self@;
        proof {
            lemma_looked_up_drawn(l, id);
        }
        if let Some(i) = self.get_cached(guid) {
            let pin = self.add_pin(i, Ghost(id));
            proof {
                lemma_place(self@.cache, id, i as int);
                assert(self@ == pinned(s, id, bytes));
            }
            return Ok(pin);
        }
        let blob: CachedBlob = CachedBlob::new(scratch);
        let e = CacheEntry { id: guid_key(&guid), blob, pins: 1, serial: self.next_serial };
        let pin = Pin { id: guid_key(&guid), serial: self.next_serial };
        proof {
            assert(model(e) == fresh(id, bytes, 0, 1, l.next_serial));
            lemma_cache_push(l.cache, model(e));
            lemma_named_fresh(l.cache, l.aside, l.next_serial, model(e));
        }
        self.next_serial = self.next_serial.saturating_add(1);
        self.cache.push(e);
        proof {
            assert(self@.cache =~= l.cache.push(fresh(id, bytes, 0, 1, l.next_serial)));
            lemma_place(self@.cache, id, l.cache.len() as int);
            assert(self@ == pinned(s, id, bytes));
        }
        Ok(pin)
    }

    fn claimed(&self, pin: &Pin) -> (found: Option<usize>)
        ensures
            match found {
                Some(i) => i == claim_from(self@.cache, *pin, 0) && i < self@.cache.len(),
                None => claim_from(self@.cache, *pin, 0) == self@.cache.len(),
            },
    {
        let mut i: usize = 0;
        while i < self.cache.len()
            invariant
                i <= self.cache@.len(),
                self@.cache.len() == self.cache@.len(),
                claim_from(self@.cache, *pin, 0) == claim_from(self@.cache, *pin, i as int),
            decreases self.cache@.len() - i,
        {
            assert(self@.cache[i as int] == model(self.cache@[i as int]));
            if self.cache[i].id == pin.id && self.cache[i].serial == pin.serial {
                return Some(i);
            }
            i += 1;
        }
        None
    }

    fn claimed_aside(&self, pin: &Pin) -> (found: Option<usize>)
        ensures
            match found {
                Some(i) => i == claim_from(self@.aside, *pin, 0) && i < self@.aside.len(),
                None => claim_from(self@.aside, *pin, 0) == self@.aside.len(),
            },
    {
        let mut i: usize = 0;
        while i < self.aside.len()
            invariant
                i <= self.aside@.len(),
                self@.aside.len() == self.aside@.len(),
                claim_from(self@.aside, *pin, 0) == claim_from(self@.aside, *pin, i as int),
            decreases self.aside@.len() - i,
        {
            assert(self@.aside[i as int] == model(self.aside@[i as int]));
            if self.aside[i].id == pin.id && self.aside[i].serial == pin.serial {
                return Some(i);
            }
            i += 1;
        }
        None
    }

    /// Give a pin back. An entry that was kept aside for it goes with its last
    /// pin.
    pub fn unpin(&mut self, pin: Pin)
        requires
            old(self).wf(),
        ensures
            final(self).wf(),
            final(self).inner() == old(self).inner(),
            final(self)@ == unpinned(old(self)@, pin),
    {
        let ghost s = self@;
        if let Some(i) = self.claimed(&pin) {
            assert(s.cache[i as int] == model(self.cache@[i as int]));
            if self.cache[i].pins > 0 {
                self.cache[i].pins = self.cache[i].pins - 1;
                proof {
                    let e = CachedModel {
                        pins: (s.cache[i as int].pins - 1) as u64,
                        ..s.cache[i as int]
                    };
                    let new = s.cache.update(i as int, e);
                    assert(self@.cache =~= new);
                    lemma_named_update(s.cache, s.aside, s.next_serial, i as int, e);
                    assert forall|p: int, q: int|
                        #![trigger new[p], new[q]]
                        0 <= p < q < new.len() implies new[p].id != new[q].id by {
                        assert(new[p].id == s.cache[p].id && new[q].id == s.cache[q].id);
                    }
                    assert forall|p: int| 0 <= p < new.len() implies (
                    #[trigger] new[p]).blob.bytes.len() == PAGE_SIZE by {
                        assert(new[p].blob == s.cache[p].blob);
                    }
                }
            }
        } else if let Some(j) = self.claimed_aside(&pin) {
            assert(s.aside[j as int] == model(self.aside@[j as int]));
            proof {
                let e = CachedModel {
                    pins: (s.aside[j as int].pins - 1) as u64,
                    ..s.aside[j as int]
                };
                lemma_named_update(s.cache, s.aside, s.next_serial, j as int, e);
            }
            if self.aside[j].pins > 1 {
                self.aside[j].pins = self.aside[j].pins - 1;
                proof {
                    let e = CachedModel {
                        pins: (s.aside[j as int].pins - 1) as u64,
                        ..s.aside[j as int]
                    };
                    assert(self@.aside =~= s.aside.update(j as int, e));
                }
            } else if self.aside[j].pins == 1 {
                self.aside.remove(j);
                assert(self@.aside =~= s.aside.remove(j as int));
            }
        }
    }

    /// The pinned blob, in the cache or kept aside.
    pub fn blob(&self, pin: &Pin) -> (blob: Option<&CachedBlob>)
        requires
            self.wf(),
        ensures
            match blob {
                Some(b) => held(self@, *pin) matches Some(e) && b@ == e.blob,
                None => held(self@, *pin) is None,
            },
    {
        match self.claimed(pin) {
            Some(i) => {
                assert(self@.cache[i as int] == model(self.cache@[i as int]));
                Some(&self.cache[i].blob)
            },
            None => match self.claimed_aside(pin) {
                Some(j) => {
                    assert(self@.aside[j as int] == model(self.aside@[j as int]));
                    Some(&self.aside[j].blob)
                },
                None => None,
            },
        }
    }

    /// The pinned blob, in the cache or kept aside, for writing.
    pub fn blob_mut(&mut self, pin: &Pin) -> (blob: Option<&mut CachedBlob>)
        requires
            old(self).wf(),
        ensures
            match blob {
                Some(b) => {
                    let s = old(self)@;
                    &&& held(s, *pin) matches Some(e) && b@ == e.blob && final(self)@ == (
                    if claim_from(s.cache, *pin, 0) < s.cache.len() {
                        BufferState {
                            cache: with_blob(
                                s.cache,
                                claim_from(s.cache, *pin, 0),
                                final(b)@,
                            ),
                            ..s
                        }
                    } else {
                        BufferState {
                            aside: with_blob(
                                s.aside,
                                claim_from(s.aside, *pin, 0),
                                final(b)@,
                            ),
                            ..s
                        }
                    })
                    &&& final(self).inner() == old(self).inner()
                    &&& final(b)@.bytes.len() == PAGE_SIZE ==> final(self).wf()
                },
                None => held(old(self)@, *pin) is None && *final(self) == *old(self),
            },
    {
        let ghost s = self@;
        proof {
            lemma_claim_from(s.cache, *pin, 0);
            lemma_claim_from(s.aside, *pin, 0);
        }
        match self.claimed(pin) {
            Some(i) => {
                assert(s.cache[i as int] == model(self.cache@[i as int]));
                let b = &mut self.cache[i].blob;
                proof {
                    assert forall|x: BlobState| x.bytes.len() == PAGE_SIZE implies
                        #[trigger] cache_ok(with_blob(s.cache, i as int, x)) by {
                        lemma_with_blob(s.cache, i as int, x);
                    }
                    assert forall|x: BlobState| named(
                        #[trigger] with_blob(s.cache, i as int, x),
                        s.aside,
                        s.next_serial,
                    ) by {
                        lemma_named_update(
                            s.cache,
                            s.aside,
                            s.next_serial,
                            i as int,
                            CachedModel { blob: x, ..s.cache[i as int] },
                        );
                    }
                    assert(models(after_borrow(self.cache)@) =~= with_blob(
                        s.cache,
                        i as int,
                        final(b)@,
                    ));
                }
                Some(b)
            },
            None => match self.claimed_aside(pin) {
                Some(j) => {
                    assert(s.aside[j as int] == model(self.aside@[j as int]));
                    let b = &mut self.aside[j].blob;
                    proof {
                        assert forall|x: BlobState| named(
                            s.cache,
                            #[trigger] with_blob(s.aside, j as int, x),
                            s.next_serial,
                        ) by {
                            lemma_named_update(
                                s.cache,
                                s.aside,
                                s.next_serial,
                                j as int,
                                CachedModel { blob: x, ..s.aside[j as int] },
                            );
                        }
                        assert(models(after_borrow(self.aside)@) =~= with_blob(
                            s.aside,
                            j as int,
                            final(b)@,
                        ));
                    }
                    Some(b)
                },
                None => None,
            },
        }
    }
}

// ---------- write-back and dirty tracking ----------

/// The state once the cached image of `id` was handed to the backend, which took
/// it or refused it.
pub open spec fn committed(s: BufferState, id: u128, ok: bool) -> BufferState {
    BufferState {
        dirty: if ok {
            s.dirty.remove(id)
        } else {
            s.dirty
        },
        ..looked_up(s, id)
    }
}

/// The state once the backend holds `bytes` for `id`: the mark is off, unless the
/// cached image is another one.
pub open spec fn wrote_through(s: BufferState, id: u128, bytes: Seq<u8>) -> BufferState {
    if is_cached(s.cache, id) && s.cache[place(s.cache, id)].blob.bytes != bytes {
        s
    } else {
        BufferState { dirty: s.dirty.remove(id), ..s }
    }
}

impl<B: Backend> BufferManager<B> {
    /// Hand the cached image of `guid` to the backend and take its dirty mark
    /// off; where the backend refuses, the mark stays. Nothing happens to a blob
    /// that is not cached.
    pub fn commit(&mut self, guid: BlobGuid) -> (r: Result<()>)
        requires
            old(self).wf(),
        ensures
            final(self).wf(),
            ({
                let id = crate::layout::guid_id(guid);
                let s = old(self)@;
                if is_cached(s.cache, id) {
                    &&& r == crate::store::backend::outcome(old(self).inner().fault(Call::Write(id)))
                    &&& final(self)@ == committed(s, id, r is Ok)
                    &&& old(self).inner().faithful() ==> {
                        &&& r is Ok ==> final(self).inner().faithful()
                            && final(self).inner().blobs() == old(self).inner().blobs().insert(
                            id,
                            s.cache[place(s.cache, id)].blob.bytes,
                        )
                        &&& old(self).inner().steady() ==> r is Ok && final(self).inner().steady()
                    }
                } else {
                    r is Ok && *final(self) == *old(self)
                }
            }),
    {
        let ghost id = crate::layout::guid_id(guid);
        let ghost s = self@;
        proof {
            lemma_looked_up_drawn(s, id);
        }
        if let Some(i) = self.get_cached(guid) {
            assert(self@.cache[i as int] == model(self.cache@[i as int]));
            let drained: Option<u64> = self.dirty.remove(&guid);
            let bytes: Vec<u8> = vstd::slice::slice_to_vec(self.cache[i].blob.read().as_slice());
            let image = AlignedBlobBuf::from_bytes(bytes);
            proof {
                assert(is_entry(s.cache, id, place(s.cache, id)));
            }
            match self.backend.write_blob(guid, &image) {
                Ok(()) => {},
                Err(e) => {
                    match drained {
                        Some(t) => {
                            self.dirty.mark(guid, t);
                            assert(self@.dirty =~= s.dirty);
                        },
                        None => {
                            assert(self@.dirty =~= s.dirty);
                        },
                    }
                    return Err(e);
                },
            }
        }
        Ok(())
    }

    /// Note that `guid` was edited by the record `txn_id`; the lowest number
    /// stays.
    pub fn mark_dirty(&mut self, guid: BlobGuid, txn_id: u64)
        requires
            old(self).wf(),
        ensures
            final(self).wf(),
            final(self).inner() == old(self).inner(),
            final(self)@ == marked(old(self)@, crate::layout::guid_id(guid), txn_id),
    {
        self.dirty.mark(guid, txn_id);
    }

    /// Take all dirty marks, leaving none.
    pub fn snapshot_dirty(&mut self) -> (all: DirtyMap)
        requires
            old(self).wf(),
        ensures
            final(self).wf(),
            final(self).inner() == old(self).inner(),
            all@ == old(self)@.dirty,
            final(self)@ == drained(old(self)@),
    {
        self.dirty.take()
    }

    /// Put dirty marks back, keeping the lowest number of each blob.
    pub fn restore_dirty(&mut self, entries: DirtyMap)
        requires
            old(self).wf(),
        ensures
            final(self).wf(),
            final(self).inner() == old(self).inner(),
            final(self)@ == restored(old(self)@, entries@),
    {
        self.dirty.merge(entries);
    }

    /// The lowest unflushed sequence number, or `None` where nothing is dirty.
    pub fn min_unflushed_txn(&self) -> (txn: Option<u64>)
        ensures
            crate::store::dirty::lowest_of(self@.dirty, txn),
    {
        self.dirty.lowest()
    }

    /// Number of dirty blobs.
    pub fn dirty_count(&self) -> (n: usize)
        ensures
            n == self@.dirty.len(),
            self@.dirty.dom().finite(),
    {
        self.dirty.len()
    }

    /// A copy of the cached image of `guid`, if it is cached.
    pub fn snapshot_bytes(&mut self, guid: BlobGuid) -> (image: Option<AlignedBlobBuf>)
        requires
            old(self).wf(),
        ensures
            final(self).wf(),
            final(self).inner() == old(self).inner(),
            final(self)@ == looked_up(old(self)@, crate::layout::guid_id(guid)),
            match image {
                Some(b) => {
                    let cache = old(self)@.cache;
                    let id = crate::layout::guid_id(guid);
                    is_cached(cache, id) && b@ == cache[place(cache, id)].blob.bytes
                },
                None => !is_cached(old(self)@.cache, crate::layout::guid_id(guid)),
            },
    {
        match self.get_cached(guid) {
            Some(i) => {
                assert(self@.cache[i as int] == model(self.cache@[i as int]));
                let bytes: Vec<u8> = vstd::slice::slice_to_vec(
                    self.cache[i].blob.read().as_slice(),
                );
                Some(AlignedBlobBuf::from_bytes(bytes))
            },
            None => None,
        }
    }

    /// Hand `bytes` to the backend past the cache, and take the dirty mark off
    /// where the backend took them and the cache holds nothing newer.
    pub fn write_through(&mut self, guid: BlobGuid, bytes: &AlignedBlobBuf) -> (r: Result<()>)
        requires
            old(self).wf(),
            bytes@.len() == PAGE_SIZE,
        ensures
            final(self).wf(),
            r == crate::store::backend::outcome(
                old(self).inner().fault(Call::Write(crate::layout::guid_id(guid))),
            ),
            final(self)@ == (if r is Ok {
                wrote_through(old(self)@, crate::layout::guid_id(guid), bytes@)
            } else {
                old(self)@
            }),
            old(self).inner().faithful() && r is Ok ==> final(self).inner().faithful() && final(
                self).inner().blobs() == old(self).inner().blobs().insert(
                crate::layout::guid_id(guid),
                bytes@,
            ),
            old(self).inner().faithful() && old(self).inner().steady() ==> r is Ok && final(
                self).inner().steady(),
    {
        match self.backend.write_blob(guid, bytes) {
            Ok(()) => {
                let settled: bool = match self.find(guid_key(&guid)) {
                    Some(i) => {
                        proof {
                            lemma_place(self@.cache, crate::layout::guid_id(guid), i as int);
                            assert(self@.cache[i as int] == model(self.cache@[i as int]));
                        }
                        same_bytes(self.cache[i].blob.read().as_slice(), bytes.as_slice())
                    },
                    None => true,
                };
                if settled {
                    self.dirty.remove(&guid);
                }
                Ok(())
            },
            Err(e) => Err(e),
        }
    }

    /// Flush the backend: what it stores is durable then. What is only in the cache
    /// stays there.
    pub fn backend_flush(&mut self) -> (r: Result<()>)
        requires
            old(self).wf(),
        ensures
            final(self).wf(),
            r == crate::store::backend::outcome(old(self).inner().fault(Call::Flush)),
            final(self)@ == old(self)@,
            old(self).inner().faithful() ==> final(self).inner().faithful() && final(
                self).inner().blobs() == old(self).inner().blobs(),
            old(self).inner().faithful() && r is Ok ==> final(self).inner().durable() == old(
                self).inner().blobs(),
            old(self).inner().faithful() && old(self).inner().steady() ==> r is Ok && final(
                self).inner().steady(),
    {
        self.backend.flush()
    }
}

// ---------- what readers see ----------

/// What readers see: the cached image of a blob, else the stored one.
pub open spec fn contents(cache: Seq<CachedModel>, blobs: Map<u128, Seq<u8>>) -> Map<
    u128,
    Seq<u8>,
> {
    Map::new(
        |id: u128| is_cached(cache, id) || blobs.dom().contains(id),
        |id: u128|
            if is_cached(cache, id) {
                cache[place(cache, id)].blob.bytes
            } else {
                blobs[id]
            },
    )
}

/// A lookup changes nothing that readers see.
pub proof fn lookup_is_transparent(s: BufferState, id: u128, blobs: Map<u128, Seq<u8>>)
    requires
        cache_ok(s.cache),
    ensures
        contents(looked_up(s, id).cache, blobs) == contents(s.cache, blobs),
{
    if is_cached(s.cache, id) {
        let i = place(s.cache, id);
        let e = stamped(s.cache[i], s.clock);
        let less = s.cache.remove(i);
        let new = less.push(e);
        assert(is_entry(s.cache, id, i));
        lemma_cache_remove(s.cache, i);
        lemma_cache_push(less, e);
        assert forall|x: u128| is_cached(new, x) == is_cached(s.cache, x) && (is_cached(
            s.cache,
            x,
        ) ==> #[trigger] new[place(new, x)].blob.bytes == s.cache[place(
            s.cache,
            x,
        )].blob.bytes) by {
            if x == id {
                lemma_place(new, x, less.len() as int);
            } else {
                assert(is_cached(less, x) == is_cached(s.cache, x));
                assert(is_cached(new, x) == is_cached(less, x));
                if is_cached(s.cache, x) {
                    let j = place(s.cache, x);
                    assert(is_entry(s.cache, x, j));
                    let k = if j < i {
                        j
                    } else {
                        j - 1
                    };
                    assert(new[k] == s.cache[j]);
                    lemma_place(new, x, k);
                }
            }
        }
        assert(contents(new, blobs) =~= contents(s.cache, blobs));
    }
}

impl<B: Backend> BufferManager<B> {
    /// What readers see through this manager.
    pub open spec fn seen(&self) -> Map<u128, Seq<u8>> {
        contents(self@.cache, self.inner().blobs())
    }

    /// Whether every cached image that is not the stored one is marked dirty.
    pub open spec fn marks_edits(&self) -> bool {
        edits_tracked(self@.cache, self@.dirty, self.inner().blobs())
    }

    /// A copy of the image of `guid`: the cached one, else the stored one, which
    /// is not cached by this.
    pub fn peek_image(&mut self, guid: BlobGuid) -> (r: Result<AlignedBlobBuf>)
        requires
            old(self).wf(),
        ensures
            final(self).wf(),
            final(self)@ == looked_up(old(self)@, crate::layout::guid_id(guid)),
            r matches Ok(b) ==> b@.len() == PAGE_SIZE,
            old(self).inner().faithful() ==> {
                &&& final(self).inner().faithful()
                &&& final(self).inner().blobs() == old(self).inner().blobs()
                &&& final(self).seen() == old(self).seen()
                &&& r matches Ok(b) ==> old(self).seen().dom().contains(
                    crate::layout::guid_id(guid),
                ) && b@ == old(self).seen()[crate::layout::guid_id(guid)]
            },
            match old(self).fault(Call::Read(crate::layout::guid_id(guid))) {
                Some(e) => r == Err::<AlignedBlobBuf, Error>(e),
                None => old(self).inner().faithful() ==> (if old(self).seen().dom().contains(
                    crate::layout::guid_id(guid),
                ) {
                    r is Ok
                } else {
                    r == Err::<AlignedBlobBuf, Error>(crate::store::backend::missing_blob())
                }),
            },
            old(self).inner().faithful() && old(self).inner().steady() ==> {
                &&& final(self).inner().steady()
                &&& if old(self).seen().dom().contains(crate::layout::guid_id(guid)) {
                    r is Ok
                } else {
                    r == Err::<AlignedBlobBuf, Error>(
                        crate::store::backend::missing_blob(),
                    )
                }
            },
    {
        let ghost id = crate::layout::guid_id(guid);
        let ghost s = self@;
        proof {
            lemma_looked_up_drawn(s, id);
            lookup_is_transparent(s, id, self.inner().blobs());
        }
        if let Some(i) = self.get_cached(guid) {
            assert(self@.cache[i as int] == model(self.cache@[i as int]));
            let bytes: Vec<u8> = vstd::slice::slice_to_vec(self.cache[i].blob.read().as_slice());
            return Ok(AlignedBlobBuf::from_bytes(bytes));
        }
        let mut scratch: AlignedBlobBuf = AlignedBlobBuf::zeroed();
        match self.backend.read_blob(guid, &mut scratch) {
            Ok(()) => Ok(scratch),
            Err(e) => Err(e),
        }
    }
}

// ---------- snapshots and reclaim ----------

/// The state once the fork `image` is cached as `id`, pinned and dirty at `seq`.
pub open spec fn fork_cached(s: BufferState, id: u128, image: Seq<u8>, seq: u64) -> BufferState {
    let dirty = crate::store::dirty::noted(s.dirty.remove(id), id, seq);
    BufferState {
        cache: trimmed(
            dropped(s.cache, id).push(fresh(id, image, s.clock, 1, s.next_serial)),
            dirty,
            s.capacity,
        ),
        aside: s.aside + kept_aside(s.cache, id),
        dirty,
        clock: ticked(s.clock),
        next_serial: one_more(s.next_serial),
        ..s
    }
}

/// The state once a snapshot is taken.
pub open spec fn snapshotted(s: BufferState) -> BufferState {
    BufferState { fork_barrier: s.epoch, epoch: (s.epoch + 1) as u64, ..s }
}

/// The state once the last snapshot is gone.
pub open spec fn unsnapshotted(s: BufferState) -> BufferState {
    BufferState { fork_barrier: 0, ..s }
}

/// The image of a fork: `bytes` under another guid and epoch.
pub open spec fn is_fork(bytes: Seq<u8>, image: Seq<u8>, guid: BlobGuid, epoch: u64) -> bool {
    &&& crate::store::blob_frame::frame_ok(image)
    &&& crate::store::blob_frame::header_update(bytes, image)
    &&& crate::store::blob_frame::root_of(image) == crate::store::blob_frame::root_of(bytes)
    &&& crate::store::blob_frame::guid_of(image) == guid@
    &&& crate::store::blob_frame::epoch_of(image) == epoch
    &&& crate::store::blob_frame::compactions_of(image)
        == crate::store::blob_frame::compactions_of(bytes)
    &&& crate::store::blob_frame::ext_blobs_of(image) == crate::store::blob_frame::ext_blobs_of(
        bytes,
    )
    &&& crate::store::blob_frame::gap_of(image) == crate::store::blob_frame::gap_of(bytes)
}

impl<B: Backend> BufferManager<B> {
    /// Frames created in an epoch up to this one may be visible to a live
    /// snapshot; 0 when there is none.
    pub fn fork_barrier(&self) -> (barrier: u64)
        ensures
            barrier == self@.fork_barrier,
    {
        self.fork_barrier
    }

    /// A snapshot is taken: every frame created so far may be visible to it.
    pub fn raise_fork_barrier(&mut self)
        requires
            old(self).wf(),
            old(self)@.epoch < u64::MAX,
        ensures
            final(self).wf(),
            final(self).inner() == old(self).inner(),
            final(self)@ == snapshotted(old(self)@),
    {
        self.fork_barrier = self.epoch;
        self.epoch = self.epoch + 1;
    }

    /// The last snapshot is gone.
    pub fn drop_fork_barrier(&mut self)
        requires
            old(self).wf(),
        ensures
            final(self).wf(),
            final(self).inner() == old(self).inner(),
            final(self)@ == unsnapshotted(old(self)@),
    {
        self.fork_barrier = 0;
    }

    /// Cache a private copy of the frame `bytes` as `guid`, created in the
    /// current epoch, pinned and dirty at `seq`.
    pub fn fork_frame(&mut self, bytes: &[u8], guid: BlobGuid, seq: u64) -> (r: Result<Pin>)
        requires
            old(self).wf(),
        ensures
            final(self).wf(),
            final(self).inner() == old(self).inner(),
            match r {
                Ok(pin) => {
                    let s = old(self)@;
                    let id = crate::layout::guid_id(guid);
                    &&& pin.id() == id
                    &&& claims(final(self)@.cache, pin, place(final(self)@.cache, id))
                    &&& crate::store::blob_frame::frame_ok(bytes@)
                    &&& exists|image: Seq<u8>| #[trigger]
                        is_fork(bytes@, image, guid, s.epoch) && final(self)@ == fork_cached(
                            s,
                            id,
                            image,
                            seq,
                        )
                },
                Err(e) => {
                    &&& final(self)@ == old(self)@
                    &&& !crate::store::blob_frame::frame_ok(bytes@)
                    &&& e == Error::corrupt("blob frame: bad layout")
                },
            },
    {
        let ghost s = self@;
        let ghost id = crate::layout::guid_id(guid);
        let mut frame: BlobFrame = match BlobFrame::wrap(vstd::slice::slice_to_vec(bytes)) {
            Ok(f) => f,
            Err(e) => {
                return Err(e);
            },
        };
        frame.set_identity(guid, self.epoch);
        let ghost image = frame@;
        assert(is_fork(bytes@, image, guid, s.epoch));
        self.evict_from_cache(guid);
        let ghost s1 = self@;
        let mut blob: CachedBlob = CachedBlob::new(AlignedBlobBuf::from_bytes(frame.into_bytes()));
        blob.touch(self.clock);
        let e = CacheEntry { id: guid_key(&guid), blob, pins: 1, serial: self.next_serial };
        let pin = Pin { id: guid_key(&guid), serial: self.next_serial };
        let ghost entry = fresh(id, image, s.clock, 1, s.next_serial);
        proof {
            assert(model(e) == entry);
            lemma_cache_push(s1.cache, entry);
            lemma_named_fresh(s1.cache, s1.aside, s1.next_serial, entry);
        }
        self.clock = self.clock.wrapping_add(1);
        self.next_serial = self.next_serial.saturating_add(1);
        self.cache.push(e);
        self.dirty.mark(guid, seq);
        let ghost full = s1.cache.push(entry);
        assert(self@.cache =~= full);
        let ghost before = self@;
        let mut room: bool = true;
        while room && self.cache.len() > self.capacity
            invariant
                self.wf(),
                self.inner() == old(self).inner(),
                self@ == (BufferState { cache: self@.cache, ..before }),
                trimmed(full, before.dirty, before.capacity) == trimmed(self@.cache, before.dirty, before.capacity),
                !room ==> self@.cache == trimmed(full, before.dirty, before.capacity),
            decreases
                self.cache@.len(),
                if room {
                    1int
                } else {
                    0
                },
        {
            let ghost now = self@.cache;
            proof {
                lemma_idle_from(now, self@.dirty, 0);
            }
            room = self.try_evict_lru();
        }
        proof {
            lemma_trimmed(full, self@.dirty, s.capacity);
            assert(full[s1.cache.len() as int] == entry);
            assert(full.contains(entry));
            assert(self@.cache == trimmed(full, self@.dirty, s.capacity));
            assert(self@.cache.contains(entry));
            let i = choose|i: int| 0 <= i < self@.cache.len() && self@.cache[i] == entry;
            lemma_place(self@.cache, id, i);
        }
        Ok(pin)
    }

    /// Delete `guid` once the log has passed `seq`.
    pub fn mark_for_delete(&mut self, guid: BlobGuid, seq: u64)
        requires
            old(self).wf(),
        ensures
            final(self).wf(),
            final(self).inner() == old(self).inner(),
            final(self)@ == (BufferState {
                deletes: old(self)@.deletes.push((guid, seq)),
                ..old(self)@
            }),
    {
        self.deletes.push((guid, seq));
    }

    /// Reclaim `child` once its rewritten `parent` is durable.
    pub fn stage_structural_reclaim(&mut self, parent: BlobGuid, child: BlobGuid)
        requires
            old(self).wf(),
        ensures
            final(self).wf(),
            final(self).inner() == old(self).inner(),
            final(self)@ == (BufferState {
                structural: old(self)@.structural.push((parent, child)),
                ..old(self)@
            }),
    {
        self.structural.push((parent, child));
    }

    /// Reclaim `child`, forked away from `parent`, once no snapshot sees it.
    pub fn stage_cow_reclaim(&mut self, parent: BlobGuid, child: BlobGuid, child_epoch: u64)
        requires
            old(self).wf(),
        ensures
            final(self).wf(),
            final(self).inner() == old(self).inner(),
            final(self)@ == (BufferState {
                cow: old(self)@.cow.push((parent, child, child_epoch)),
                ..old(self)@
            }),
    {
        self.cow.push((parent, child, child_epoch));
    }

    /// Blobs to delete once the log has passed a number.
    pub fn pending_deletes(&self) -> (list: &[(BlobGuid, u64)])
        ensures
            list@ == self@.deletes,
    {
        self.deletes.as_slice()
    }

    /// Children to reclaim once their rewritten parent is durable.
    pub fn structural_reclaims(&self) -> (list: &[(BlobGuid, BlobGuid)])
        ensures
            list@ == self@.structural,
    {
        self.structural.as_slice()
    }

    /// Children forked away, by parent, child and the child's epoch.
    pub fn cow_reclaims(&self) -> (list: &[(BlobGuid, BlobGuid, u64)])
        ensures
            list@ == self@.cow,
    {
        self.cow.as_slice()
    }
}

// ---------- laws ----------

/// Loading a blob never evicts an entry that is pinned or dirty.
pub proof fn pinned_and_dirty_entries_stay(
    s: BufferState,
    id: u128,
    bytes: Seq<u8>,
    e: CachedModel,
)
    requires
        cache_ok(s.cache),
        !is_cached(s.cache, id),
        bytes.len() == PAGE_SIZE,
        s.cache.contains(e),
        e.pins > 0 || s.dirty.dom().contains(e.id),
    ensures
        loaded(s, id, bytes).cache.contains(e),
{
    let new = fresh(id, bytes, s.clock, 0, s.next_serial);
    let full = s.cache.push(new);
    lemma_cache_push(s.cache, new);
    lemma_trimmed(full, s.dirty, s.capacity);
    let i = choose|i: int| 0 <= i < s.cache.len() && s.cache[i] == e;
    assert(full[i] == e);
    assert(full.contains(e));
}

/// Loading a blob leaves the cache within its capacity, unless all that is left
/// is pinned or dirty.
pub proof fn cache_stays_within_capacity(s: BufferState, id: u128, bytes: Seq<u8>)
    requires
        cache_ok(s.cache),
        !is_cached(s.cache, id),
        bytes.len() == PAGE_SIZE,
    ensures
        loaded(s, id, bytes).cache.len() <= s.capacity || forall|i: int|
            0 <= i < loaded(s, id, bytes).cache.len() ==> !idle(
                #[trigger] loaded(s, id, bytes).cache[i],
                s.dirty,
            ),
{
    let new = fresh(id, bytes, s.clock, 0, s.next_serial);
    lemma_cache_push(s.cache, new);
    lemma_trimmed(s.cache.push(new), s.dirty, s.capacity);
}

/// A pinned entry outlives the clearing of the cache, and the deletion of its
/// blob: its pins still lead to it.
pub proof fn a_pin_outlives_the_cache(s: BufferState, pin: Pin, e: CachedModel)
    requires
        state_ok(s),
        s.next_serial < u64::MAX,
        held(s, pin) == Some(e),
        e.pins > 0,
    ensures
        held(cleared(s), pin) == Some(e),
        held(evicted(s, pin.id()), pin) == Some(e),
{
    let i = claim_from(s.cache, pin, 0);
    let j = claim_from(s.aside, pin, 0);
    lemma_claim_from(s.cache, pin, 0);
    lemma_claim_from(s.aside, pin, 0);
    assert(names_apart(s.cache, s.aside, s.next_serial)) by {
        reveal(named);
    }
    let c = cleared(s).aside;
    let d = evicted(s, pin.id()).aside;
    let less = dropped(s.cache, pin.id());
    lemma_all_pinned(s.cache);
    if i < s.cache.len() {
        lemma_place(s.cache, pin.id(), i);
        let n = choose|n: int|
            0 <= n < all_pinned(s.cache).len() && all_pinned(s.cache)[n] == s.cache[i];
        assert(c[s.aside.len() + n] == e);
        assert(d[s.aside.len() as int] == e);
        lemma_cache_remove(s.cache, i);
        assert(claim_from(less, pin, 0) == less.len()) by {
            lemma_claim_from(less, pin, 0);
            let k = claim_from(less, pin, 0);
            if k < less.len() {
                assert(is_entry(less, pin.id(), k));
            }
        }
        lemma_only_claim(c, pin, s.aside.len() + n);
        lemma_only_claim(d, pin, s.aside.len() as int);
    } else {
        assert(c[j] == e);
        assert(d[j] == e);
        assert(claim_from(less, pin, 0) == less.len()) by {
            lemma_claim_from(less, pin, 0);
            let k = claim_from(less, pin, 0);
            if k < less.len() {
                assert(is_entry(less, pin.id(), k));
                if is_cached(s.cache, pin.id()) {
                    let p = place(s.cache, pin.id());
                    assert(is_entry(s.cache, pin.id(), p));
                    lemma_cache_remove(s.cache, p);
                } else {
                    assert(is_entry(s.cache, pin.id(), k));
                }
            }
        }
        lemma_only_claim(c, pin, j);
        if is_cached(s.cache, pin.id()) {
            assert(is_entry(s.cache, pin.id(), place(s.cache, pin.id())));
        }
        lemma_only_claim(d, pin, j);
    }
}

/// Among entries with different serials, the claimed one is the first.
proof fn lemma_only_claim(entries: Seq<CachedModel>, pin: Pin, i: int)
    requires
        claims(entries, pin, i),
        forall|k: int|
            0 <= k < entries.len() && k != i ==> (#[trigger] entries[k]).serial != pin.serial(),
    ensures
        claim_from(entries, pin, 0) == i,
{
    lemma_claim_from(entries, pin, 0);
    let k = claim_from(entries, pin, 0);
    if k != i {
        assert(k < entries.len()) by {
            if k >= entries.len() {
                assert(!claims(entries, pin, i));
            }
        }
        assert(entries[k].serial == pin.serial());
    }
}

/// The pinned entries of a cache are those of its entries that are pinned, each
/// as often as it is there.
proof fn lemma_all_pinned(cache: Seq<CachedModel>)
    requires
        forall|i: int, j: int|
            #![trigger cache[i], cache[j]]
            0 <= i < j < cache.len() ==> cache[i].serial != cache[j].serial,
    ensures
        forall|i: int|
            0 <= i < cache.len() && (#[trigger] cache[i]).pins > 0 ==> all_pinned(cache).contains(
                cache[i],
            ),
        forall|n: int|
            0 <= n < all_pinned(cache).len() ==> cache.contains(#[trigger] all_pinned(cache)[n]),
        forall|m: int, n: int|
            #![trigger all_pinned(cache)[m], all_pinned(cache)[n]]
            0 <= m < n < all_pinned(cache).len() ==> all_pinned(cache)[m].serial != all_pinned(
                cache,
            )[n].serial,
    decreases cache.len(),
{
    if cache.len() > 0 {
        let less = cache.drop_last();
        let all = all_pinned(cache);
        lemma_all_pinned(less);
        assert forall|n: int| 0 <= n < all.len() implies cache.contains(#[trigger] all[n]) by {
            if n < all_pinned(less).len() {
                assert(less.contains(all_pinned(less)[n]));
                let k = choose|k: int| 0 <= k < less.len() && less[k] == all_pinned(less)[n];
                assert(cache[k] == all[n]);
            } else {
                assert(cache[cache.len() - 1] == all[n]);
            }
        }
        assert forall|i: int| 0 <= i < cache.len() && (#[trigger] cache[i]).pins > 0 implies
            all.contains(cache[i]) by {
            if i < less.len() {
                assert(less[i] == cache[i]);
                assert(all_pinned(less).contains(less[i]));
                let n = choose|n: int|
                    0 <= n < all_pinned(less).len() && all_pinned(less)[n] == less[i];
                assert(all[n] == cache[i]);
            } else {
                assert(all[all.len() - 1] == cache[i]);
            }
        }
        assert forall|m: int, n: int|
            #![trigger all[m], all[n]]
            0 <= m < n < all.len() implies all[m].serial != all[n].serial by {
            if n == all_pinned(less).len() {
                assert(less.contains(all_pinned(less)[m]));
                let k = choose|k: int| 0 <= k < less.len() && less[k] == all_pinned(less)[m];
                assert(cache[k].serial != cache[cache.len() - 1].serial);
            } else {
                assert(all_pinned(less)[m] == all[m] && all_pinned(less)[n] == all[n]);
            }
        }
    }
}

/// Dropping an entry whose image is the stored one changes nothing that readers
/// see.
proof fn lemma_drop_stored(cache: Seq<CachedModel>, i: int, blobs: Map<u128, Seq<u8>>)
    requires
        cache_ok(cache),
        0 <= i < cache.len(),
        blobs.dom().contains(cache[i].id),
        blobs[cache[i].id] == cache[i].blob.bytes,
    ensures
        contents(cache.remove(i), blobs) == contents(cache, blobs),
{
    let less = cache.remove(i);
    let id = cache[i].id;
    lemma_cache_remove(cache, i);
    lemma_place(cache, id, i);
    assert forall|x: u128| x != id implies is_cached(less, x) == is_cached(cache, x) && (is_cached(
        cache,
        x,
    ) ==> #[trigger] less[place(less, x)].blob.bytes == cache[place(cache, x)].blob.bytes) by {
        lemma_other_entry(cache, i, x);
    }
    assert(contents(less, blobs) =~= contents(cache, blobs));
}

/// Trimming changes nothing that readers see, where edits are tracked.
proof fn lemma_trimmed_transparent(
    cache: Seq<CachedModel>,
    dirty: Map<u128, u64>,
    capacity: nat,
    blobs: Map<u128, Seq<u8>>,
)
    requires
        cache_ok(cache),
        edits_tracked(cache, dirty, blobs),
    ensures
        contents(trimmed(cache, dirty, capacity), blobs) == contents(cache, blobs),
        edits_tracked(trimmed(cache, dirty, capacity), dirty, blobs),
    decreases cache.len(),
{
    lemma_idle_from(cache, dirty, 0);
    let j = idle_from(cache, dirty, 0);
    if cache.len() > capacity && j < cache.len() {
        let less = cache.remove(j);
        lemma_cache_remove(cache, j);
        assert(!dirty.dom().contains(cache[j].id));
        lemma_drop_stored(cache, j, blobs);
        assert forall|k: int|
            0 <= k < less.len() && !dirty.dom().contains((#[trigger] less[k]).id) implies
            blobs.dom().contains(less[k].id) && blobs[less[k].id] == less[k].blob.bytes by {
            let p = if k < j {
                k
            } else {
                k + 1
            };
            assert(less[k] == cache[p]);
        }
        lemma_trimmed_transparent(less, dirty, capacity, blobs);
    }
}

/// Loading a blob changes nothing that readers see, and keeps edits tracked.
pub proof fn a_load_is_transparent(s: BufferState, id: u128, blobs: Map<u128, Seq<u8>>)
    requires
        cache_ok(s.cache),
        edits_tracked(s.cache, s.dirty, blobs),
        !is_cached(s.cache, id),
        blobs.dom().contains(id),
        blobs[id].len() == PAGE_SIZE,
    ensures
        contents(loaded(s, id, blobs[id]).cache, blobs) == contents(s.cache, blobs),
        edits_tracked(loaded(s, id, blobs[id]).cache, s.dirty, blobs),
{
    let e = fresh(id, blobs[id], s.clock, 0, s.next_serial);
    let full = s.cache.push(e);
    lemma_cache_push(s.cache, e);
    assert(full.remove(s.cache.len() as int) =~= s.cache);
    lemma_drop_stored(full, s.cache.len() as int, blobs);
    assert(edits_tracked(full, s.dirty, blobs));
    lemma_trimmed_transparent(full, s.dirty, s.capacity, blobs);
}

/// One more pin changes nothing that readers see.
proof fn lemma_with_pin_transparent(s: BufferState, id: u128, blobs: Map<u128, Seq<u8>>)
    requires
        cache_ok(s.cache),
        is_cached(s.cache, id),
    ensures
        contents(with_pin(s, id).cache, blobs) == contents(s.cache, blobs),
        edits_tracked(s.cache, s.dirty, blobs) ==> edits_tracked(
            with_pin(s, id).cache,
            s.dirty,
            blobs,
        ),
{
    lemma_with_pin(s, id);
    let i = place(s.cache, id);
    assert(is_entry(s.cache, id, i));
    let new = with_pin(s, id).cache;
    assert(forall|k: int|
        0 <= k < new.len() ==> (#[trigger] new[k]).id == s.cache[k].id && new[k].blob
            == s.cache[k].blob);
    assert forall|x: u128| is_cached(new, x) == is_cached(s.cache, x) && (is_cached(s.cache, x)
        ==> #[trigger] new[place(new, x)].blob.bytes == s.cache[place(s.cache, x)].blob.bytes) by {
        if is_cached(s.cache, x) {
            let k = place(s.cache, x);
            assert(is_entry(s.cache, x, k));
            lemma_place(new, x, k);
        } else if is_cached(new, x) {
            assert(is_entry(s.cache, x, place(new, x)));
        }
    }
    assert forall|x: u128| #[trigger] is_cached(new, x) == is_cached(s.cache, x) by {
        let y = new[place(new, x)].blob.bytes;
    }
    assert(contents(new, blobs) =~= contents(s.cache, blobs));
    if edits_tracked(s.cache, s.dirty, blobs) {
        assert forall|k: int|
            0 <= k < new.len() && !s.dirty.dom().contains((#[trigger] new[k]).id) implies
            blobs.dom().contains(new[k].id) && blobs[new[k].id] == new[k].blob.bytes by {
            assert(!s.dirty.dom().contains(s.cache[k].id));
        }
    }
}

/// Pinning a blob changes nothing that readers see, and keeps edits tracked.
pub proof fn a_pin_is_transparent(
    s: BufferState,
    id: u128,
    bytes: Seq<u8>,
    blobs: Map<u128, Seq<u8>>,
)
    requires
        cache_ok(s.cache),
    ensures
        edits_tracked(s.cache, s.dirty, blobs) && (is_cached(s.cache, id) || (
        blobs.dom().contains(id) && blobs[id] == bytes && bytes.len() == PAGE_SIZE)) ==> contents(
            pinned(s, id, bytes).cache,
            blobs,
        ) == contents(s.cache, blobs) && edits_tracked(
            pinned(s, id, bytes).cache,
            s.dirty,
            blobs,
        ),
{
    if edits_tracked(s.cache, s.dirty, blobs) {
        if is_cached(s.cache, id) {
            lookup_is_transparent(s, id, blobs);
            lookups_keep_edits_tracked(s, id, blobs);
            lemma_looked_up_drawn(s, id);
            lemma_with_pin_transparent(looked_up(s, id), id, blobs);
        } else if blobs.dom().contains(id) && blobs[id] == bytes && bytes.len() == PAGE_SIZE {
            let l = loaded(s, id, bytes);
            a_load_is_transparent(s, id, blobs);
            lemma_loaded_drawn(s, id, bytes);
            if is_cached(l.cache, id) {
                lookup_is_transparent(l, id, blobs);
                lookups_keep_edits_tracked(l, id, blobs);
                lemma_looked_up_drawn(l, id);
                lemma_with_pin_transparent(looked_up(l, id), id, blobs);
            } else {
                let e = fresh(id, bytes, 0, 1, l.next_serial);
                let full = l.cache.push(e);
                lemma_cache_push(l.cache, e);
                assert(full.remove(l.cache.len() as int) =~= l.cache);
                lemma_drop_stored(full, l.cache.len() as int, blobs);
            }
        }
    }
}

/// Every cached image that is not the stored one is marked dirty.
pub open spec fn edits_tracked(
    cache: Seq<CachedModel>,
    dirty: Map<u128, u64>,
    blobs: Map<u128, Seq<u8>>,
) -> bool {
    forall|i: int|
        0 <= i < cache.len() && !dirty.dom().contains((#[trigger] cache[i]).id)
            ==> blobs.dom().contains(cache[i].id) && blobs[cache[i].id] == cache[i].blob.bytes
}

proof fn lemma_drawn_tracked(
    b: Seq<CachedModel>,
    a: Seq<CachedModel>,
    dirty: Map<u128, u64>,
    blobs: Map<u128, Seq<u8>>,
)
    requires
        drawn_from(b, a),
        edits_tracked(a, dirty, blobs),
    ensures
        edits_tracked(b, dirty, blobs),
{
    assert forall|i: int|
        0 <= i < b.len() && !dirty.dom().contains((#[trigger] b[i]).id) implies
        blobs.dom().contains(b[i].id) && blobs[b[i].id] == b[i].blob.bytes by {
        assert(has_image(a, b[i]));
        let j = choose|j: int|
            0 <= j < a.len() && (#[trigger] a[j]).id == b[i].id && a[j].blob.bytes
                == b[i].blob.bytes;
        assert(!dirty.dom().contains(a[j].id));
    }
}

/// Looking a blob up keeps edits tracked.
pub proof fn lookups_keep_edits_tracked(s: BufferState, id: u128, blobs: Map<u128, Seq<u8>>)
    requires
        cache_ok(s.cache),
        edits_tracked(s.cache, s.dirty, blobs),
    ensures
        edits_tracked(looked_up(s, id).cache, s.dirty, blobs),
{
    lemma_looked_up_drawn(s, id);
    lemma_drawn_tracked(looked_up(s, id).cache, s.cache, s.dirty, blobs);
}

/// An edit of a cached image is tracked once it is marked.
pub proof fn a_marked_edit_is_tracked(
    s: BufferState,
    i: int,
    edited: CachedModel,
    txn_id: u64,
    blobs: Map<u128, Seq<u8>>,
)
    requires
        edits_tracked(s.cache, s.dirty, blobs),
        0 <= i < s.cache.len(),
        edited.id == s.cache[i].id,
    ensures
        edits_tracked(
            s.cache.update(i, edited),
            crate::store::dirty::noted(s.dirty, edited.id, txn_id),
            blobs,
        ),
{
    let cache = s.cache.update(i, edited);
    let dirty = crate::store::dirty::noted(s.dirty, edited.id, txn_id);
    assert forall|k: int|
        0 <= k < cache.len() && !dirty.dom().contains((#[trigger] cache[k]).id) implies
        blobs.dom().contains(cache[k].id) && blobs[cache[k].id] == cache[k].blob.bytes by {
        assert(k != i);
        assert(!s.dirty.dom().contains(s.cache[k].id));
    }
}

/// A commit of a cached blob that succeeds takes the mark off and keeps the other
/// edits tracked.
pub proof fn a_commit_keeps_edits_tracked(s: BufferState, id: u128, blobs: Map<u128, Seq<u8>>)
    requires
        cache_ok(s.cache),
        is_cached(s.cache, id),
        edits_tracked(s.cache, s.dirty, blobs),
    ensures
        edits_tracked(
            looked_up(s, id).cache,
            s.dirty.remove(id),
            blobs.insert(id, s.cache[place(s.cache, id)].blob.bytes),
        ),
{
    let i = place(s.cache, id);
    assert(is_entry(s.cache, id, i));
    assert(s.cache =~= s.cache.update(i, s.cache[i]));
    lemma_written(s, s.cache, id, s.cache[i].blob.bytes, blobs);
    lemma_looked_up_drawn(s, id);
    lemma_drawn_tracked(
        looked_up(s, id).cache,
        s.cache,
        s.dirty.remove(id),
        blobs.insert(id, s.cache[i].blob.bytes),
    );
}

/// Writing bytes past the cache keeps edits tracked: where the cache holds another
/// image by then, its mark stays.
pub proof fn writing_through_keeps_edits_tracked(
    s: BufferState,
    id: u128,
    bytes: Seq<u8>,
    blobs: Map<u128, Seq<u8>>,
)
    requires
        cache_ok(s.cache),
        edits_tracked(s.cache, s.dirty, blobs),
        is_cached(s.cache, id) && s.cache[place(s.cache, id)].blob.bytes != bytes
            ==> s.dirty.dom().contains(id),
    ensures
        edits_tracked(s.cache, wrote_through(s, id, bytes).dirty, blobs.insert(id, bytes)),
{
    let stored = blobs.insert(id, bytes);
    let dirty = wrote_through(s, id, bytes).dirty;
    assert forall|k: int|
        0 <= k < s.cache.len() && !dirty.dom().contains((#[trigger] s.cache[k]).id) implies
        stored.dom().contains(s.cache[k].id) && stored[s.cache[k].id] == s.cache[k].blob.bytes by {
        if s.cache[k].id == id {
            assert(is_entry(s.cache, id, k));
            lemma_place(s.cache, id, k);
        } else {
            assert(!s.dirty.dom().contains(s.cache[k].id));
        }
    }
}

/// Dropping a clean entry loses nothing: readers see what they saw.
pub proof fn evicting_a_clean_entry_loses_nothing(
    s: BufferState,
    id: u128,
    blobs: Map<u128, Seq<u8>>,
)
    requires
        cache_ok(s.cache),
        edits_tracked(s.cache, s.dirty, blobs),
        is_cached(s.cache, id),
        !s.dirty.dom().contains(id),
    ensures
        contents(dropped(s.cache, id), blobs) == contents(s.cache, blobs),
{
    let i = place(s.cache, id);
    assert(is_entry(s.cache, id, i));
    assert(!s.dirty.dom().contains(s.cache[i].id));
    lemma_drop_stored(s.cache, i, blobs);
}

/// With nothing dirty, readers see what is stored.
pub proof fn a_clean_manager_shows_what_is_stored(
    cache: Seq<CachedModel>,
    blobs: Map<u128, Seq<u8>>,
)
    requires
        edits_tracked(cache, Map::<u128, u64>::empty(), blobs),
    ensures
        coherent(cache, blobs),
        contents(cache, blobs) == blobs,
{
    assert(coherent(cache, blobs)) by {
        assert forall|i: int| 0 <= i < cache.len() implies blobs.dom().contains(
            (#[trigger] cache[i]).id,
        ) && blobs[cache[i].id] == cache[i].blob.bytes by {
            assert(!Map::<u128, u64>::empty().dom().contains(cache[i].id));
        }
    }
    assert forall|x: u128| is_cached(cache, x) implies blobs.dom().contains(x)
        && #[trigger] cache[place(cache, x)].blob.bytes == blobs[x] by {
        assert(is_entry(cache, x, place(cache, x)));
    }
    assert(contents(cache, blobs) =~= blobs);
}

} // verus!
