//! Learned routes from the root to child blobs.
use holt::engine::route_cache::{RouteCache, ROUTE_CACHE_CAPACITY, ROUTE_PREFIX_MAX};
use holt::engine::search_key::SearchKey;
use holt::layout::BlobGuid;

const CHILD: BlobGuid = [7; 16];

#[test]
fn learns_and_matches_longest_prefix_for_same_root_version() {
    let mut cache = RouteCache::new();
    cache.learn(SearchKey::user(b"bucket-01/a"), 3, [1; 16], 10);
    cache.learn(SearchKey::user(b"bucket-01/path/file"), 3, CHILD, 15);

    let hit = cache
        .lookup(SearchKey::user(b"bucket-01/path/other"), 3)
        .unwrap();
    assert_eq!(hit.child_guid, CHILD);
    assert_eq!(hit.child_depth, 15);
}

#[test]
fn root_version_mismatch_misses() {
    let mut cache = RouteCache::new();
    cache.learn(SearchKey::user(b"bucket-01/path/file"), 3, CHILD, 15);

    assert!(cache
        .lookup(SearchKey::user(b"bucket-01/path/other"), 4)
        .is_none());
}

#[test]
fn new_root_version_drops_old_routes() {
    let mut cache = RouteCache::new();
    cache.learn(SearchKey::user(b"bucket-01/path/file"), 3, CHILD, 15);
    cache.learn(SearchKey::user(b"bucket-02/path/file"), 4, [9; 16], 15);

    assert!(cache
        .lookup(SearchKey::user(b"bucket-01/path/other"), 4)
        .is_none());
    let hit = cache
        .lookup(SearchKey::user(b"bucket-02/path/other"), 4)
        .unwrap();
    assert_eq!(hit.child_guid, [9; 16]);
}

#[test]
fn does_not_cache_prefix_past_user_key() {
    let mut cache = RouteCache::new();
    cache.learn(SearchKey::user(b"abc"), 1, CHILD, 4);

    assert!(cache.lookup(SearchKey::user(b"abc"), 1).is_none());
}

#[test]
fn learning_a_prefix_again_replaces_its_route() {
    let mut cache = RouteCache::new();
    cache.learn(SearchKey::user(b"bucket/a"), 1, [1; 16], 6);
    cache.learn(SearchKey::user(b"bucket/b"), 1, [2; 16], 6);
    let hit = cache.lookup(SearchKey::user(b"bucket/c"), 1).unwrap();
    assert_eq!(hit.child_guid, [2; 16]);
    assert_eq!(hit.child_depth, 6);
}

#[test]
fn prefixes_longer_than_the_limit_are_not_learned() {
    let mut cache = RouteCache::new();
    let key = vec![b'k'; ROUTE_PREFIX_MAX + 1];
    cache.learn(SearchKey::user(&key), 1, CHILD, ROUTE_PREFIX_MAX + 1);
    assert!(cache.lookup(SearchKey::user(&key), 1).is_none());
    cache.learn(SearchKey::user(&key), 1, CHILD, ROUTE_PREFIX_MAX);
    assert!(cache.lookup(SearchKey::user(&key), 1).is_some());
}

#[test]
fn a_full_cache_still_learns() {
    let mut cache = RouteCache::new();
    for i in 0..ROUTE_CACHE_CAPACITY as u8 + 10 {
        let key = [i, b'/', b'x'];
        cache.learn(SearchKey::user(&key), 1, [i; 16], 2);
        let hit = cache.lookup(SearchKey::user(&key), 1).unwrap();
        assert_eq!(hit.child_guid, [i; 16]);
    }
}

#[test]
fn search_keys_know_their_prefixes() {
    let key = SearchKey::user(b"abc");
    assert_eq!(key.user_prefix(2), Some(&b"ab"[..]));
    assert_eq!(key.user_prefix(3), Some(&b"abc"[..]));
    assert_eq!(key.user_prefix(4), None);
    assert!(key.starts_with_user_prefix(b"ab"));
    assert!(!key.starts_with_user_prefix(b"b"));
}
