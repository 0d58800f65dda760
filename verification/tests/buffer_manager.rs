//! The buffer manager: caching, eviction, dirty tracking.
use holt::api::errors::{Error, StoreFault};
use holt::layout::{BlobGuid, PAGE_SIZE};
use holt::store::backend::{AlignedBlobBuf, Backend, MemoryBackend};
use holt::store::blob_frame::BlobFrame;
use holt::store::buffer_manager::{BufferManager, STRUCTURAL_SEQ};
use holt::store::dirty::DirtyMap;

fn make_buf(byte_at_100: u8) -> AlignedBlobBuf {
    let mut b = AlignedBlobBuf::zeroed();
    b.as_mut_slice()[100] = byte_at_100;
    b
}

fn numbered(i: u8) -> BlobGuid {
    let mut g = [0u8; 16];
    g[0] = i;
    g
}

#[test]
fn read_caches_after_first_load() {
    let mut inner = MemoryBackend::new();
    inner.write_blob([0xAB; 16], &make_buf(7)).unwrap();

    let mut bm = BufferManager::new(inner, 4);
    assert_eq!(bm.cached_count(), 0);

    // First read: miss and populate.
    let mut dst = AlignedBlobBuf::zeroed();
    bm.read_blob([0xAB; 16], &mut dst).unwrap();
    assert_eq!(dst.as_slice()[100], 7);
    assert_eq!(bm.cached_count(), 1);

    // Second read: hit, no growth in cache size.
    bm.read_blob([0xAB; 16], &mut dst).unwrap();
    assert_eq!(bm.cached_count(), 1);
}

#[test]
fn lru_eviction_at_capacity() {
    let mut inner = MemoryBackend::new();
    for i in 0..10u8 {
        inner.write_blob(numbered(i), &make_buf(i)).unwrap();
    }

    let mut bm = BufferManager::new(inner, 4);
    for i in 0..10u8 {
        let mut dst = AlignedBlobBuf::zeroed();
        bm.read_blob(numbered(i), &mut dst).unwrap();
    }
    assert_eq!(
        bm.cached_count(),
        4,
        "cache must shrink to capacity after over-fill",
    );

    // The most recently loaded blobs are the survivors.
    assert!(bm.is_resident(numbered(9)));
    assert!(!bm.is_resident(numbered(0)));
}

#[test]
fn write_through_propagates_to_inner_backend() {
    let inner = MemoryBackend::new();
    let mut bm = BufferManager::new(inner, 4);

    bm.write_blob([0xCD; 16], &make_buf(0x42)).unwrap();

    // The inner backend sees the blob.
    let mut inner = bm.into_inner();
    assert!(inner.has_blob([0xCD; 16]).unwrap());
    let mut dst = AlignedBlobBuf::zeroed();
    inner.read_blob([0xCD; 16], &mut dst).unwrap();
    assert_eq!(dst.as_slice()[100], 0x42);
}

#[test]
fn write_through_updates_cache_if_present() {
    let mut inner = MemoryBackend::new();
    inner.write_blob([0xEF; 16], &make_buf(1)).unwrap();
    let mut bm = BufferManager::new(inner, 4);

    // Prime the cache.
    let mut dst = AlignedBlobBuf::zeroed();
    bm.read_blob([0xEF; 16], &mut dst).unwrap();
    assert_eq!(dst.as_slice()[100], 1);

    // Overwrite through the manager.
    bm.write_blob([0xEF; 16], &make_buf(99)).unwrap();

    // A later read sees the updated value.
    bm.read_blob([0xEF; 16], &mut dst).unwrap();
    assert_eq!(dst.as_slice()[100], 99);
}

#[test]
fn delete_evicts_from_cache_and_inner() {
    let mut inner = MemoryBackend::new();
    inner.write_blob([0x33; 16], &make_buf(5)).unwrap();
    let mut bm = BufferManager::new(inner, 4);

    // Prime cache.
    let mut dst = AlignedBlobBuf::zeroed();
    bm.read_blob([0x33; 16], &mut dst).unwrap();
    assert_eq!(bm.cached_count(), 1);

    bm.delete_blob([0x33; 16]).unwrap();
    assert_eq!(bm.cached_count(), 0);
    assert!(!bm.has_blob([0x33; 16]).unwrap());
    assert!(!bm.into_inner().has_blob([0x33; 16]).unwrap());
}

#[test]
fn has_blob_fast_path_avoids_inner_when_cached() {
    let mut inner = MemoryBackend::new();
    inner.write_blob([0x77; 16], &make_buf(11)).unwrap();
    let mut bm = BufferManager::new(inner, 4);

    // Prime cache.
    let mut dst = AlignedBlobBuf::zeroed();
    bm.read_blob([0x77; 16], &mut dst).unwrap();

    assert!(bm.has_blob([0x77; 16]).unwrap());
    // An uncached blob is still asked for inside.
    assert!(!bm.has_blob([0x88; 16]).unwrap());
}

// ---------- dirty tracking ----------

#[test]
fn mark_dirty_keeps_lowest_txn_id() {
    let mut bm = BufferManager::new(MemoryBackend::new(), 4);
    bm.mark_dirty([0x01; 16], 50);
    bm.mark_dirty([0x01; 16], 30);
    bm.mark_dirty([0x01; 16], 99);
    assert_eq!(bm.min_unflushed_txn(), Some(30));
    assert_eq!(bm.dirty_count(), 1);
}

#[test]
fn min_unflushed_txn_returns_none_when_clean() {
    let bm = BufferManager::new(MemoryBackend::new(), 4);
    assert_eq!(bm.min_unflushed_txn(), None);
    assert_eq!(bm.dirty_count(), 0);
}

#[test]
fn snapshot_dirty_drains_atomically() {
    let mut bm = BufferManager::new(MemoryBackend::new(), 4);
    bm.mark_dirty([0x01; 16], 10);
    bm.mark_dirty([0x02; 16], 20);

    let snap = bm.snapshot_dirty();
    assert_eq!(snap.len(), 2);
    assert_eq!(snap.get(&[0x01; 16]), Some(10));
    assert_eq!(snap.get(&[0x02; 16]), Some(20));

    // After the snapshot the live map is empty.
    assert_eq!(bm.dirty_count(), 0);
    assert_eq!(bm.min_unflushed_txn(), None);

    // A later mark lands in the fresh empty map.
    bm.mark_dirty([0x03; 16], 99);
    assert_eq!(bm.dirty_count(), 1);
    assert_eq!(bm.min_unflushed_txn(), Some(99));
}

#[test]
fn restore_dirty_merges_keeping_min() {
    let mut bm = BufferManager::new(MemoryBackend::new(), 4);
    // A flush drained these:
    let mut snap = DirtyMap::new();
    snap.insert([0x01; 16], 10);
    snap.insert([0x02; 16], 20);
    // Meanwhile a writer added a newer entry for 0x01:
    bm.mark_dirty([0x01; 16], 50);
    // and a fresh blob 0x03:
    bm.mark_dirty([0x03; 16], 5);

    bm.restore_dirty(snap);

    // 0x01: min(50, 10) = 10. 0x02: 20. 0x03: 5 (untouched).
    assert_eq!(bm.dirty_count(), 3);
    let live = bm.snapshot_dirty();
    assert_eq!(live.get(&[0x01; 16]), Some(10));
    assert_eq!(live.get(&[0x02; 16]), Some(20));
    assert_eq!(live.get(&[0x03; 16]), Some(5));
}

#[test]
fn commit_clears_dirty_on_success() {
    let mut inner = MemoryBackend::new();
    inner.write_blob([0x77; 16], &make_buf(0)).unwrap();
    let mut bm = BufferManager::new(inner, 4);

    // Pin and write, to populate the cache, then mark dirty.
    let pin = bm.pin([0x77; 16]).unwrap();
    {
        let g = bm.blob_mut(&pin).unwrap().write();
        g.as_mut_slice()[200] = 0xCD;
    }
    bm.mark_dirty([0x77; 16], 42);
    assert_eq!(bm.dirty_count(), 1);

    bm.commit([0x77; 16]).unwrap();
    assert_eq!(bm.dirty_count(), 0, "successful commit must clear dirty");

    bm.unpin(pin);
    let mut dst = AlignedBlobBuf::zeroed();
    bm.into_inner().read_blob([0x77; 16], &mut dst).unwrap();
    assert_eq!(dst.as_slice()[200], 0xCD);
}

#[test]
fn write_blob_through_trait_clears_dirty() {
    let mut bm = BufferManager::new(MemoryBackend::new(), 4);

    bm.mark_dirty([0x88; 16], 100);
    assert_eq!(bm.dirty_count(), 1);

    // A write through the trait settles the dirty entry.
    Backend::write_blob(&mut bm, [0x88; 16], &make_buf(9)).unwrap();
    assert_eq!(bm.dirty_count(), 0);
}

#[test]
fn delete_blob_drops_dirty_entry() {
    let mut inner = MemoryBackend::new();
    inner.write_blob([0x99; 16], &make_buf(1)).unwrap();
    let mut bm = BufferManager::new(inner, 4);

    let _pin = bm.pin([0x99; 16]).unwrap();
    bm.mark_dirty([0x99; 16], 7);
    assert_eq!(bm.dirty_count(), 1);

    Backend::delete_blob(&mut bm, [0x99; 16]).unwrap();
    assert_eq!(
        bm.dirty_count(),
        0,
        "deleted blobs must not linger as flush candidates"
    );
}

#[test]
fn pinned_blobs_survive_eviction() {
    let mut inner = MemoryBackend::new();
    for i in 0..6u8 {
        inner.write_blob(numbered(i), &make_buf(i)).unwrap();
    }
    let mut bm = BufferManager::new(inner, 2);
    let pin = bm.pin(numbered(0)).unwrap();
    for i in 1..6u8 {
        let mut dst = AlignedBlobBuf::zeroed();
        bm.read_blob(numbered(i), &mut dst).unwrap();
    }
    assert!(bm.is_resident(numbered(0)));
    assert!(bm.is_resident(numbered(5)));
    assert_eq!(bm.cached_count(), 2);
    assert_eq!(bm.blob(&pin).unwrap().read().as_slice()[100], 0);
    bm.unpin(pin);
    let mut dst = AlignedBlobBuf::zeroed();
    bm.read_blob(numbered(1), &mut dst).unwrap();
    assert!(!bm.is_resident(numbered(0)));
}

#[test]
fn pinning_a_missing_blob_says_so() {
    let mut bm = BufferManager::new(MemoryBackend::new(), 4);
    assert!(matches!(
        bm.pin([1; 16]),
        Err(Error::BlobStoreIo(StoreFault::NotFound))
    ));
    assert_eq!(bm.cached_count(), 0);
}

#[test]
fn clear_forgets_the_cache() {
    let mut bm = BufferManager::new(MemoryBackend::new(), 3);
    bm.write_blob([1; 16], &make_buf(1)).unwrap();
    let mut dst = AlignedBlobBuf::zeroed();
    bm.read_blob([1; 16], &mut dst).unwrap();
    bm.clear();
    assert_eq!(bm.cached_count(), 0);
    assert_eq!(bm.capacity(), 3);
}

#[test]
fn optimistic_readers_notice_a_write() {
    let mut bm = BufferManager::new(MemoryBackend::new(), 4);
    bm.write_blob([1; 16], &make_buf(1)).unwrap();
    let pin = bm.pin([1; 16]).unwrap();
    let guard = bm.blob(&pin).unwrap().read_optimistic();
    assert!(guard.validate(bm.blob(&pin).unwrap()));
    bm.blob_mut(&pin).unwrap().write().as_mut_slice()[100] = 2;
    assert!(!guard.validate(bm.blob(&pin).unwrap()));
    assert_eq!(guard.as_slice(bm.blob(&pin).unwrap())[100], 2);
}

#[test]
fn a_fork_is_cached_pinned_and_dirty() {
    let mut bm = BufferManager::new(MemoryBackend::new(), 4);
    let frame = BlobFrame::init([1; 16], 0);
    bm.raise_fork_barrier();
    assert_eq!(bm.fork_barrier(), 1);
    let pin = bm.fork_frame(frame.as_slice(), [2; 16], STRUCTURAL_SEQ).unwrap();
    let fork = BlobFrame::wrap(bm.blob(&pin).unwrap().read().as_slice().to_vec()).unwrap();
    assert_eq!(fork.blob_guid(), [2; 16]);
    assert!(fork.created_epoch() > bm.fork_barrier());
    assert_eq!(bm.min_unflushed_txn(), Some(STRUCTURAL_SEQ));
    assert!(matches!(
        bm.fork_frame(&[0u8; 10], [3; 16], 1),
        Err(Error::NodeCorrupt { .. })
    ));
    bm.drop_fork_barrier();
    assert_eq!(bm.fork_barrier(), 0);
    assert_eq!(frame.as_slice().len(), PAGE_SIZE as usize);
}

#[test]
fn cold_eviction_spares_dirty_and_pinned_entries() {
    let mut inner = MemoryBackend::new();
    for i in 0..3u8 {
        inner.write_blob(numbered(i), &make_buf(i)).unwrap();
    }
    let mut bm = BufferManager::new(inner, 4);
    let _held = bm.pin(numbered(0)).unwrap();
    for i in 1..3u8 {
        let mut dst = AlignedBlobBuf::zeroed();
        bm.read_blob(numbered(i), &mut dst).unwrap();
    }
    bm.mark_dirty(numbered(1), 5);
    assert!(!bm.try_evict_cold(numbered(0)));
    assert!(!bm.try_evict_cold(numbered(1)));
    assert!(bm.try_evict_cold(numbered(2)));
    assert!(!bm.try_evict_cold(numbered(2)));
    assert!(bm.is_resident(numbered(0)));
    assert!(bm.is_resident(numbered(1)));
    assert!(!bm.is_resident(numbered(2)));
}

#[test]
fn entries_are_listed_least_recently_used_first() {
    let mut inner = MemoryBackend::new();
    for i in 0..3u8 {
        inner.write_blob(numbered(i), &make_buf(i)).unwrap();
    }
    let mut bm = BufferManager::new(inner, 4);
    let mut dst = AlignedBlobBuf::zeroed();
    for i in [0u8, 1, 2, 0] {
        bm.read_blob(numbered(i), &mut dst).unwrap();
    }
    let before = bm.clock_tick();
    let list = bm.snapshot_entries();
    let order: Vec<BlobGuid> = list.iter().map(|e| e.0).collect();
    assert_eq!(order, vec![numbered(1), numbered(2), numbered(0)]);
    assert!(list[0].1 < list[1].1 && list[1].1 < list[2].1);
    assert!(list[2].1 < before);
    assert_eq!(bm.snapshot_bytes(numbered(1)).unwrap().as_slice()[100], 1);
    assert!(bm.snapshot_bytes(numbered(7)).is_none());
    assert_eq!(bm.clock_tick(), before + 1);
    assert_eq!(bm.snapshot_entries()[2].0, numbered(1));
}

#[test]
fn writing_through_settles_the_mark_and_leaves_the_cache() {
    let mut inner = MemoryBackend::new();
    inner.write_blob([1; 16], &make_buf(1)).unwrap();
    let mut bm = BufferManager::new(inner, 4);
    let pin = bm.pin([1; 16]).unwrap();
    bm.mark_dirty([1; 16], 3);
    bm.blob_mut(&pin).unwrap().write().as_mut_slice()[100] = 8;
    let bytes = bm.snapshot_bytes([1; 16]).unwrap();
    bm.write_through([1; 16], &bytes).unwrap();
    bm.backend_flush().unwrap();
    assert_eq!(bm.dirty_count(), 0);
    assert_eq!(bm.blob(&pin).unwrap().read().as_slice()[100], 8);
    let mut dst = AlignedBlobBuf::zeroed();
    bm.into_inner().read_blob([1; 16], &mut dst).unwrap();
    assert_eq!(dst.as_slice()[100], 8);
}

#[test]
fn an_edit_that_is_marked_and_committed_is_stored() {
    let mut inner = MemoryBackend::new();
    inner.write_blob([1; 16], &make_buf(1)).unwrap();
    let mut bm = BufferManager::new(inner, 4);
    let pin = bm.pin([1; 16]).unwrap();
    bm.blob_mut(&pin).unwrap().write().as_mut_slice()[100] = 2;
    bm.mark_dirty([1; 16], 4);
    bm.unpin(pin);
    assert!(!bm.try_evict_cold([1; 16]));
    bm.commit([1; 16]).unwrap();
    assert_eq!(bm.dirty_count(), 0);
    assert!(bm.try_evict_cold([1; 16]));
    assert_eq!(bm.peek_image([1; 16]).unwrap().as_slice()[100], 2);
}

#[test]
fn an_unflushed_edit_is_not_evicted() {
    let mut inner = MemoryBackend::new();
    inner.write_blob([1; 16], &AlignedBlobBuf::zeroed()).unwrap();
    inner.write_blob([2; 16], &AlignedBlobBuf::zeroed()).unwrap();
    let mut bm = BufferManager::new(inner, 1);
    let p = bm.pin([1; 16]).unwrap();
    bm.blob_mut(&p).unwrap().write().as_mut_slice()[200] = 0xCD;
    bm.unpin(p);
    bm.mark_dirty([1; 16], 42);

    let mut dst = AlignedBlobBuf::zeroed();
    bm.read_blob([2; 16], &mut dst).unwrap();
    assert_eq!(dst.as_slice()[200], 0);
    bm.read_blob([1; 16], &mut dst).unwrap();
    assert_eq!(dst.as_slice()[200], 0xCD);

    // Once it is flushed it may go.
    bm.commit([1; 16]).unwrap();
    bm.read_blob([2; 16], &mut dst).unwrap();
    assert_eq!(bm.cached_count(), 1);
    bm.read_blob([1; 16], &mut dst).unwrap();
    assert_eq!(dst.as_slice()[200], 0xCD);
}

#[test]
fn committing_a_blob_that_is_not_cached_does_nothing() {
    let mut bm = BufferManager::new(MemoryBackend::new(), 4);
    bm.mark_dirty([5; 16], 9);
    bm.commit([5; 16]).unwrap();
    assert_eq!(bm.min_unflushed_txn(), Some(9));
    assert_eq!(bm.cached_count(), 0);
    assert!(!bm.into_inner().has_blob([5; 16]).unwrap());
}

#[test]
fn writing_an_older_snapshot_keeps_a_newer_mark() {
    let mut inner = MemoryBackend::new();
    inner.write_blob([1; 16], &make_buf(1)).unwrap();
    let mut bm = BufferManager::new(inner, 4);
    let p = bm.pin([1; 16]).unwrap();
    bm.blob_mut(&p).unwrap().write().as_mut_slice()[100] = 2;
    bm.mark_dirty([1; 16], 4);

    let round = bm.snapshot_dirty();
    assert_eq!(round.len(), 1);
    let bytes = bm.snapshot_bytes([1; 16]).unwrap();
    bm.blob_mut(&p).unwrap().write().as_mut_slice()[100] = 3;
    bm.mark_dirty([1; 16], 9);
    bm.write_through([1; 16], &bytes).unwrap();
    assert_eq!(bm.dirty_count(), 1);
    assert_eq!(bm.min_unflushed_txn(), Some(9));
    bm.unpin(p);
    let mut inner = bm.into_inner();
    let mut dst = AlignedBlobBuf::zeroed();
    inner.read_blob([1; 16], &mut dst).unwrap();
    assert_eq!(dst.as_slice()[100], 2);
}

#[test]
fn a_pinned_handle_outlives_clear_and_delete() {
    let mut inner = MemoryBackend::new();
    inner.write_blob([1; 16], &make_buf(1)).unwrap();
    inner.write_blob([2; 16], &make_buf(2)).unwrap();
    let mut bm = BufferManager::new(inner, 4);
    let p = bm.pin([1; 16]).unwrap();
    let q = bm.pin([2; 16]).unwrap();
    bm.mark_dirty([1; 16], 3);
    bm.clear();
    assert_eq!(bm.cached_count(), 0);
    assert_eq!(bm.dirty_count(), 0);
    assert_eq!(bm.capacity(), 4);
    assert_eq!(bm.blob(&p).unwrap().read().as_slice()[100], 1);

    // What is written through the handle stays with it.
    bm.blob_mut(&p).unwrap().write().as_mut_slice()[100] = 7;
    let again = bm.pin([1; 16]).unwrap();
    assert_eq!(bm.blob(&again).unwrap().read().as_slice()[100], 1);
    assert_eq!(bm.blob(&p).unwrap().read().as_slice()[100], 7);
    bm.unpin(p);
    assert_eq!(bm.blob(&again).unwrap().read().as_slice()[100], 1);

    bm.delete_blob([1; 16]).unwrap();
    assert_eq!(bm.blob(&again).unwrap().read().as_slice()[100], 1);
    assert!(!bm.has_blob([1; 16]).unwrap());
    assert_eq!(bm.blob(&q).unwrap().read().as_slice()[100], 2);
}

#[test]
fn other_blobs_are_served_while_one_is_edited() {
    let mut inner = MemoryBackend::new();
    inner.write_blob([1; 16], &make_buf(1)).unwrap();
    let mut bm = BufferManager::new(inner, 4);
    let p = bm.pin([1; 16]).unwrap();
    bm.blob_mut(&p).unwrap().write().as_mut_slice()[100] = 5;
    bm.mark_dirty([1; 16], 1);
    bm.write_blob([2; 16], &make_buf(2)).unwrap();
    let mut dst = AlignedBlobBuf::zeroed();
    bm.read_blob([2; 16], &mut dst).unwrap();
    assert_eq!(dst.as_slice()[100], 2);
    bm.read_blob([1; 16], &mut dst).unwrap();
    assert_eq!(dst.as_slice()[100], 5);
    assert_eq!(bm.list_blobs().unwrap().len(), 2);
}

#[test]
fn the_lowest_mark_is_none_exactly_while_nothing_is_dirty() {
    let mut bm = BufferManager::new(MemoryBackend::new(), 4);
    assert_eq!((bm.min_unflushed_txn(), bm.dirty_count()), (None, 0));
    bm.mark_dirty([1; 16], 8);
    assert_eq!((bm.min_unflushed_txn(), bm.dirty_count()), (Some(8), 1));
    bm.mark_dirty([2; 16], 11);
    assert_eq!((bm.min_unflushed_txn(), bm.dirty_count()), (Some(8), 2));
    bm.mark_dirty([2; 16], 3);
    assert_eq!((bm.min_unflushed_txn(), bm.dirty_count()), (Some(3), 2));
    bm.clear();
    assert_eq!((bm.min_unflushed_txn(), bm.dirty_count()), (None, 0));
}
