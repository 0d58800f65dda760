//! The public tree API, end to end.
use holt::api::builder::TreeBuilder;
use holt::api::errors::{Error, StoreFault};
use holt::api::tree::{root_blob_guid, Tree};
use holt::api::value::Value;
use holt::engine::walker::put::get_in_frame;
use holt::layout::PAGE_SIZE;
use holt::store::backend::{AlignedBlobBuf, Backend, MemoryBackend};
use holt::store::blob_frame::BlobFrame;

#[test]
fn open_in_memory_then_get_on_empty_tree_returns_none() {
    let mut tree = Tree::open_in_memory().unwrap();
    assert!(tree.get(b"anything").unwrap().is_none());
    assert!(tree.get(b"").unwrap().is_none());
}

#[test]
fn builder_in_memory_path_works() {
    let mut tree = TreeBuilder::new("(in-memory)")
        .buffer_pool_size(32)
        .open_in_memory()
        .unwrap();
    assert!(tree.get(b"x").unwrap().is_none());
}

#[test]
fn open_with_explicit_backend_round_trips_root_blob() {
    let backend = MemoryBackend::new();

    // First open: should bootstrap the root blob.
    let t = TreeBuilder::new("ignored")
        .open_with_backend(backend)
        .unwrap();
    let mut backend = t.into_backend();
    let blobs_after_first = backend.list_blobs().unwrap().len();
    assert!(blobs_after_first >= 1, "root blob should be present");

    // Second open against the same backend: should not duplicate.
    let t2 = TreeBuilder::new("ignored")
        .open_with_backend(backend)
        .unwrap();
    assert_eq!(
        t2.into_backend().list_blobs().unwrap().len(),
        blobs_after_first,
        "re-open must not allocate a fresh root"
    );
}

#[test]
fn checkpoint_is_idempotent_on_memory_backend() {
    let mut tree = Tree::open_in_memory().unwrap();
    tree.checkpoint().unwrap();
    tree.checkpoint().unwrap();
    assert!(tree.get(b"k").unwrap().is_none());
}

#[test]
fn put_then_get_round_trip() {
    let mut tree = Tree::open_in_memory().unwrap();
    assert!(tree.put(b"hello", b"world").unwrap().is_none());
    assert_eq!(tree.get(b"hello").unwrap().as_deref(), Some(&b"world"[..]));
    assert!(tree.get(b"missing").unwrap().is_none());
}

#[test]
fn put_returns_previous_value_on_update() {
    let mut tree = Tree::open_in_memory().unwrap();
    assert!(tree.put(b"k", b"v1").unwrap().is_none());
    assert_eq!(tree.put(b"k", b"v2").unwrap().as_deref(), Some(&b"v1"[..]));
    assert_eq!(tree.get(b"k").unwrap().as_deref(), Some(&b"v2"[..]));
}

#[test]
fn many_keys_all_readable_via_public_api() {
    let mut tree = Tree::open_in_memory().unwrap();
    let pairs: Vec<(Vec<u8>, Vec<u8>)> = (0..100u32)
        .map(|i| (format!("img/{i:04}.jpg").into_bytes(), format!("blob#{i}").into_bytes()))
        .collect();
    for (k, v) in &pairs {
        tree.put(k, v).unwrap();
    }
    for (k, v) in &pairs {
        assert_eq!(tree.get(k).unwrap().as_deref(), Some(&v[..]));
    }
}

#[test]
fn strict_prefix_key_pair_surfaces_not_yet_implemented() {
    let mut tree = Tree::open_in_memory().unwrap();
    tree.put(b"abc", b"v1").unwrap();
    let r = tree.put(b"abcdef", b"v2");
    assert!(matches!(r, Err(Error::NotYetImplemented(_))));
}

// ---------- tagged values ----------

#[test]
fn put_inline_then_get_value_round_trip() {
    let mut tree = Tree::open_in_memory().unwrap();
    tree.put_inline(b"meta/foo", b"hello world").unwrap();
    match tree.get_value(b"meta/foo").unwrap() {
        Some(Value::Inline(b)) => assert_eq!(b, b"hello world"),
        other => panic!("expected Inline, got {other:?}"),
    }
}

#[test]
fn put_ref_then_get_value_round_trip() {
    let mut tree = Tree::open_in_memory().unwrap();
    tree.put_ref(b"img/big.png", "s3://photos/big.png").unwrap();
    match tree.get_value(b"img/big.png").unwrap() {
        Some(Value::External(url)) => assert_eq!(url, "s3://photos/big.png"),
        other => panic!("expected External, got {other:?}"),
    }
}

#[test]
fn put_value_replaces_and_returns_previous_with_tag() {
    let mut tree = Tree::open_in_memory().unwrap();
    let prev1 = tree.put_inline(b"k", b"v1").unwrap();
    assert!(prev1.is_none());

    // Replace inline value with an external reference.
    let prev2 = tree.put_ref(b"k", "https://example.org/v2").unwrap();
    assert_eq!(prev2, Some(Value::Inline(b"v1".to_vec())));

    // And read it back as External.
    assert_eq!(
        tree.get_value(b"k").unwrap(),
        Some(Value::External("https://example.org/v2".to_owned()))
    );
}

#[test]
fn mixed_inline_and_external_workload() {
    let mut tree = Tree::open_in_memory().unwrap();

    // 30 small entries inline + 30 big-file refs.
    for i in 0..30u32 {
        let k = format!("inode/small/{i:04}").into_bytes();
        tree.put_inline(&k, format!("size=42,mtime=now,owner=user{i}").as_bytes()).unwrap();
    }
    for i in 0..30u32 {
        let k = format!("inode/big/{i:04}").into_bytes();
        tree.put_ref(&k, &format!("s3://bucket/blob/{i:04}.bin")).unwrap();
    }

    // Read back, assert variant matches.
    for i in 0..30u32 {
        let k = format!("inode/small/{i:04}").into_bytes();
        let v = tree.get_value(&k).unwrap().unwrap();
        assert!(v.is_inline(), "key {k:?} should be Inline");
    }
    for i in 0..30u32 {
        let k = format!("inode/big/{i:04}").into_bytes();
        let v = tree.get_value(&k).unwrap().unwrap();
        let url = v.as_external().expect("should be External");
        assert_eq!(url, format!("s3://bucket/blob/{i:04}.bin"));
    }
}

#[test]
fn get_value_on_missing_key_returns_none() {
    let mut tree = Tree::open_in_memory().unwrap();
    assert!(tree.get_value(b"missing").unwrap().is_none());
}

#[test]
fn raw_put_then_get_value_errors_on_unknown_tag() {
    // If a caller writes raw bytes via put(), get_value should
    // surface the decode error rather than silently misinterpret.
    let mut tree = Tree::open_in_memory().unwrap();
    tree.put(b"k", &[0x99, 0xAB, 0xCD]).unwrap();
    let r = tree.get_value(b"k");
    assert!(matches!(r, Err(Error::InvalidValueEncoding { .. })));
}

// ---------- errors and limits ----------

#[test]
fn a_longer_stored_key_clashes_with_its_prefix() {
    let mut tree = Tree::open_in_memory().unwrap();
    tree.put(b"abcdef", b"v1").unwrap();
    assert!(matches!(tree.put(b"abc", b"v2"), Err(Error::NotYetImplemented(_))));
    assert_eq!(tree.get(b"abcdef").unwrap().as_deref(), Some(&b"v1"[..]));
    assert!(tree.get(b"abc").unwrap().is_none());
}

#[test]
fn keys_and_values_have_a_longest_length() {
    let mut tree = Tree::open_in_memory().unwrap();
    let long = vec![7u8; 65536];
    assert_eq!(tree.put(&long, b"v"), Err(Error::KeyTooLong));
    assert_eq!(tree.put(b"k", &long), Err(Error::ValueTooLong));
    assert_eq!(tree.put(b"k", &long[..65535]), Ok(None));
    assert_eq!(tree.get(b"k").unwrap().unwrap().len(), 65535);
}

#[test]
fn a_full_root_blob_says_so_and_keeps_its_entries() {
    let mut tree = Tree::open_in_memory().unwrap();
    let value = vec![1u8; 60000];
    let mut stored = 0u8;
    while tree.put(&[stored], &value).is_ok() {
        stored += 1;
    }
    assert!(stored >= 6, "stored only {stored}");
    assert_eq!(tree.put(&[stored], &value), Err(Error::OutOfSpace));
    for i in 0..stored {
        assert_eq!(tree.get(&[i]).unwrap().unwrap(), value);
    }
    assert!(tree.get(&[stored]).unwrap().is_none());
}

#[test]
fn overwriting_reuses_the_space_of_old_values() {
    let mut tree = Tree::open_in_memory().unwrap();
    tree.put(b"other", b"kept").unwrap();
    for i in 0..100u8 {
        tree.put(b"k", &vec![i; 60000]).unwrap();
    }
    assert_eq!(tree.get(b"k").unwrap().unwrap(), vec![99u8; 60000]);
    assert_eq!(tree.get(b"other").unwrap().as_deref(), Some(&b"kept"[..]));
}

#[test]
fn delete_and_rename_are_not_supported() {
    let mut tree = Tree::open_in_memory().unwrap();
    tree.put(b"k", b"v").unwrap();
    assert_eq!(
        tree.delete(b"k"),
        Err(Error::NotYetImplemented("Tree::delete — Stage 2c"))
    );
    assert_eq!(
        tree.rename(b"k", b"l", true),
        Err(Error::NotYetImplemented("Tree::rename — Stage 2c"))
    );
    assert_eq!(tree.get(b"k").unwrap().as_deref(), Some(&b"v"[..]));
}

#[test]
fn reopening_on_the_backend_finds_the_entries() {
    let mut tree = Tree::open_in_memory().unwrap();
    tree.put(b"k", b"v").unwrap();
    let backend = tree.into_backend();
    let mut again = TreeBuilder::new("x").open_with_backend(backend).unwrap();
    assert_eq!(again.get(b"k").unwrap().as_deref(), Some(&b"v"[..]));
}

#[test]
fn a_missing_or_broken_root_blob_is_an_error() {
    let mut backend = Tree::open_in_memory().unwrap().into_backend();
    backend.write_blob(root_blob_guid(), &AlignedBlobBuf::zeroed()).unwrap();
    let mut tree = TreeBuilder::new("x").open_with_backend(backend).unwrap();
    assert!(matches!(tree.get(b"k"), Err(Error::NodeCorrupt { .. })));
    assert!(matches!(tree.put(b"k", b"v"), Err(Error::NodeCorrupt { .. })));

    let mut dst = AlignedBlobBuf::zeroed();
    assert_eq!(
        MemoryBackend::new().read_blob(root_blob_guid(), &mut dst),
        Err(Error::BlobStoreIo(StoreFault::NotFound))
    );
}

#[test]
fn builder_and_config_keep_what_they_are_given() {
    let tree = TreeBuilder::new("dir")
        .buffer_pool_size(7)
        .wal_sync_on_commit(true)
        .checkpoint_byte_interval(99)
        .open_in_memory()
        .unwrap();
    assert_eq!(tree.config().data_dir, "dir");
    assert_eq!(tree.config().buffer_pool_size, 7);
    assert!(tree.config().wal_sync_on_commit);
    assert_eq!(tree.config().checkpoint_byte_interval, 99);
    assert_eq!(Tree::<MemoryBackend>::page_size(), PAGE_SIZE);

    let cfg = TreeBuilder::new("d").into_config();
    assert_eq!(cfg.buffer_pool_size, 64);
    assert!(!cfg.wal_sync_on_commit);
    assert_eq!(cfg.checkpoint_byte_interval, 16 * 1024 * 1024);
}

#[test]
fn the_root_image_is_the_root_blob() {
    let mut tree = Tree::open_in_memory().unwrap();
    tree.put(b"k", b"v").unwrap();
    let image = tree.root_image().unwrap();
    let frame = BlobFrame::wrap(image.into_bytes()).unwrap();
    assert_eq!(frame.blob_guid(), root_blob_guid());
    assert_eq!(get_in_frame(&frame, b"k"), Ok(Some(b"v".to_vec())));
}

#[test]
fn a_checkpointed_tree_is_found_again() {
    let mut tree = Tree::open_in_memory().unwrap();
    tree.put(b"a", b"1").unwrap();
    tree.put(b"b", b"2").unwrap();
    tree.checkpoint().unwrap();
    let cfg = TreeBuilder::new("again").into_config();
    let mut again = Tree::open_with_backend(cfg, tree.into_backend()).unwrap();
    assert_eq!(again.get(b"a").unwrap(), Some(b"1".to_vec()));
    assert_eq!(again.get(b"b").unwrap(), Some(b"2".to_vec()));
    assert_eq!(again.get(b"c").unwrap(), None);
}
