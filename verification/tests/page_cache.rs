//! Cold pages, admitted and aged out.
use holt::layout::BlobGuid;
use holt::store::cold::page_cache::{ColdPageCache, PAGE_BYTES, SHARDS};

fn guid(n: u8) -> BlobGuid {
    let mut g = [0u8; 16];
    g[0] = n;
    g[8] = n;
    g
}

#[test]
fn page_round_trip() {
    let mut cache = ColdPageCache::new(1 << 20);
    let g = guid(1);
    let src = [7u8; PAGE_BYTES];
    let mut dst = [0u8; PAGE_BYTES];
    assert!(!cache.fill(g, 3, &mut dst));
    cache.put(g, 3, &src);
    assert!(cache.fill(g, 3, &mut dst));
    assert_eq!(dst, src);
}

#[test]
fn invalidate_drops_all_pages_for_guid() {
    let mut cache = ColdPageCache::new(1 << 20);
    let g = guid(2);
    let other = guid(3);
    let src = [9u8; PAGE_BYTES];
    cache.put(g, 1, &src);
    cache.put(g, 2, &src);
    cache.put(other, 1, &src);

    cache.invalidate(g);

    let mut dst = [0u8; PAGE_BYTES];
    assert!(!cache.fill(g, 1, &mut dst));
    assert!(!cache.fill(g, 2, &mut dst));
    assert!(cache.fill(other, 1, &mut dst));
}

#[test]
fn page_cache_stays_bounded_under_overflow() {
    let mut cache = ColdPageCache::new(SHARDS * 64 * 1024);
    let src = [1u8; PAGE_BYTES];
    for n in 0..2000u16 {
        let mut g = guid((n & 0xff) as u8);
        g[8..10].copy_from_slice(&n.to_le_bytes());
        cache.put(g, n % 128, &src);
    }
    for i in 0..SHARDS {
        assert!(cache.shard_bytes(i) <= cache.shard_budget());
    }
}

#[test]
fn zero_budget_disables_admission() {
    let mut cache = ColdPageCache::new(0);
    let g = guid(4);
    let src = [3u8; PAGE_BYTES];
    let mut dst = [0u8; PAGE_BYTES];

    cache.put(g, 1, &src);

    assert!(!cache.fill(g, 1, &mut dst));
    assert!((0..SHARDS).all(|i| cache.shard_bytes(i) == 0));
}

#[test]
fn second_touch_admits_leaf_page() {
    let mut cache = ColdPageCache::new(1 << 20);
    let g = guid(5);
    let src = [5u8; PAGE_BYTES];
    let mut dst = [0u8; PAGE_BYTES];

    cache.put_after_second_touch(g, 7, &src);
    assert!(!cache.fill(g, 7, &mut dst));

    cache.put_after_second_touch(g, 7, &src);
    assert!(cache.fill(g, 7, &mut dst));
    assert_eq!(dst, src);
}

#[test]
fn invalidate_drops_leaf_ghosts() {
    let mut cache = ColdPageCache::new(1 << 20);
    let g = guid(6);
    let src = [6u8; PAGE_BYTES];
    let mut dst = [0u8; PAGE_BYTES];

    cache.put_after_second_touch(g, 9, &src);
    cache.invalidate(g);
    cache.put_after_second_touch(g, 9, &src);

    assert!(!cache.fill(g, 9, &mut dst));
}

#[test]
fn putting_a_page_again_keeps_the_first() {
    let mut cache = ColdPageCache::new(1 << 20);
    let g = guid(7);
    cache.put(g, 1, &[1u8; PAGE_BYTES]);
    cache.put(g, 1, &[2u8; PAGE_BYTES]);
    let mut dst = [0u8; PAGE_BYTES];
    assert!(cache.fill(g, 1, &mut dst));
    assert_eq!(dst, [1u8; PAGE_BYTES]);
}
