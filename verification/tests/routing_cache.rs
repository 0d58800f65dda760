//! Routing regions by blob and compaction stamp.
use holt::layout::BlobGuid;
use holt::store::routing_cache::{RoutingCache, SHARDS};

fn guid(n: u8) -> BlobGuid {
    let mut g = [0u8; 16];
    g[8] = n;
    g[0] = n;
    g
}

#[test]
fn hit_only_on_matching_compact_times() {
    let mut c = RoutingCache::new(1 << 20);
    let g = guid(1);
    c.put(g, 5, &[0xAB; 64]);

    let mut dst = [0u8; 64];
    assert!(c.fill(g, 5, &mut dst), "matching compact_times hits");
    assert_eq!(dst, [0xAB; 64]);
    assert_eq!(c.hits(), 1);

    // A stale generation is not served, and is dropped.
    assert!(!c.fill(g, 6, &mut [0u8; 64]), "stale compact_times misses");
    assert!(!c.fill(g, 5, &mut [0u8; 64]), "stale entry evicted");
    assert_eq!(c.misses(), 2);
}

#[test]
fn put_refreshes_to_new_generation() {
    let mut c = RoutingCache::new(1 << 20);
    let g = guid(2);
    c.put(g, 1, &[1u8; 32]);
    c.put(g, 2, &[2u8; 48]); // recompacted: new stamp, new region
    let mut dst = [0u8; 48];
    assert!(c.fill(g, 2, &mut dst));
    assert_eq!(dst, [2u8; 48]);
    assert!(!c.fill(g, 1, &mut [0u8; 32]), "old generation gone");
}

#[test]
fn routing_cache_stays_bounded_under_overflow() {
    let mut c = RoutingCache::new(SHARDS * 64 * 1024); // min per-shard budget
    let region = vec![0u8; 8192];
    for n in 0..2000u32 {
        let mut g = [0u8; 16];
        g[8..12].copy_from_slice(&n.to_le_bytes());
        c.put(g, 1, &region);
    }
    for i in 0..SHARDS {
        assert!(
            c.shard_bytes(i) <= c.shard_budget(),
            "shard over budget: {} > {}",
            c.shard_bytes(i),
            c.shard_budget()
        );
    }
}

#[test]
fn an_unknown_blob_misses_and_leaves_the_buffer_alone() {
    let mut c = RoutingCache::new(1 << 20);
    let mut dst = [9u8; 16];
    assert!(!c.fill(guid(3), 1, &mut dst));
    assert_eq!(dst, [9u8; 16]);
    assert_eq!((c.hits(), c.misses()), (0, 1));
}

#[test]
fn a_region_beyond_the_budget_is_not_kept() {
    let mut cache = RoutingCache::new(0);
    let budget = cache.shard_budget();
    cache.put(guid(1), 1, &vec![7; budget]);
    let mut dst = vec![0; budget];
    assert!(cache.fill(guid(1), 1, &mut dst));
    cache.put(guid(1), 2, &vec![7; budget + 1]);
    let mut longer = vec![0; budget + 1];
    assert!(!cache.fill(guid(1), 2, &mut longer));
    for i in 0..16 {
        assert!(cache.shard_bytes(i) <= budget);
    }
}
