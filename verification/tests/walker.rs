//! Frames: reading, writing, merging and forking.
use holt::api::errors::Error;
use holt::engine::walker::cow::{child_is_snapshot_shared, fork_child_if_shared};
use holt::engine::walker::lookup::{lookup, LookupResult};
use holt::engine::walker::merge::{is_mergeable, try_merge_children, MergeStats};
use holt::engine::walker::migrate::compact;
use holt::engine::walker::put::{get_in_frame, put_in_frame};
use holt::engine::walker::readers::{
    child_pairs, leaf_any_key, leaf_extent, leaf_key_extent, ntype_of, read_leaf_key_ref,
    read_node4, read_prefix, resolve_typed,
};
use holt::engine::walker::writers::{alloc_blob_node, alloc_inner, alloc_leaf, alloc_prefix};
use holt::layout::{key_guid, BlobGuid, NodeType};
use holt::store::backend::{AlignedBlobBuf, Backend, MemoryBackend};
use holt::store::blob_frame::BlobFrame;
use holt::store::buffer_manager::{BufferManager, STRUCTURAL_SEQ};

fn guid(n: u128) -> BlobGuid {
    key_guid(n)
}

/// A frame that holds these entries.
fn frame_of(n: u128, entries: &[(&[u8], &[u8])]) -> BlobFrame {
    let mut frame = BlobFrame::init(guid(n), 0);
    for (k, v) in entries {
        put_in_frame(&mut frame, k, v, 1).unwrap();
    }
    frame
}

fn manager_of(frames: Vec<BlobFrame>) -> BufferManager<MemoryBackend> {
    let mut inner = MemoryBackend::new();
    for f in frames {
        let g = f.blob_guid();
        inner.write_blob(g, &AlignedBlobBuf::from_bytes(f.into_bytes())).unwrap();
    }
    BufferManager::new(inner, 8)
}

#[test]
fn a_fresh_frame_is_an_empty_root() {
    let frame = BlobFrame::init(guid(1), 5);
    assert_eq!(frame.root_slot(), 1);
    assert_eq!(frame.created_epoch(), 5);
    assert_eq!(ntype_of(&frame, 1), Ok(NodeType::EmptyRoot));
    assert!(matches!(ntype_of(&frame, 0), Err(Error::NodeCorrupt { .. })));
    assert!(matches!(ntype_of(&frame, 2), Err(Error::NodeCorrupt { .. })));
    assert_eq!(get_in_frame(&frame, b"k"), Ok(None));
    assert!(BlobFrame::wrap(vec![0; 100]).is_err());
    assert!(BlobFrame::wrap(frame.into_bytes()).is_ok());
}

#[test]
fn nodes_read_back_as_they_were_written() {
    let mut frame = BlobFrame::init(guid(1), 0);
    let leaf = alloc_leaf(&mut frame, b"key", b"value", 9).unwrap();
    assert_eq!(leaf_extent(&frame, leaf), Ok((&b"key"[..], &b"value"[..])));
    assert_eq!(leaf_any_key(&frame, leaf), Ok(&b"key"[..]));
    assert_eq!(leaf_key_extent(&frame, leaf), Ok(&b"key"[..]));
    let (key, header) = read_leaf_key_ref(&frame, leaf).unwrap();
    assert_eq!(key, &b"key"[..]);
    assert_eq!(header.seq, 9);
    assert_eq!(header.value_len, 5);
    let p = alloc_prefix(&mut frame, b"ab", leaf).unwrap();
    let prefix = read_prefix(&frame, p).unwrap();
    assert_eq!(prefix.child, leaf as u32);
    let other = alloc_leaf(&mut frame, b"other", b"", 9).unwrap();
    let inner = alloc_inner(&mut frame, &[(b'a', leaf), (b'z', other)]).unwrap();
    assert_eq!(ntype_of(&frame, inner), Ok(NodeType::Node4));
    assert_eq!(read_node4(&frame, inner).unwrap().count, 2);
    assert_eq!(
        child_pairs(&frame, inner, NodeType::Node4),
        Some(vec![(b'a', leaf), (b'z', other)])
    );
    assert_eq!(resolve_typed(&frame, p).unwrap().0, NodeType::Prefix);
}

#[test]
fn inner_nodes_grow_with_their_children() {
    let mut frame = BlobFrame::init(guid(1), 0);
    for i in 0..=255u8 {
        put_in_frame(&mut frame, &[i, 1], &[i], 1).unwrap();
    }
    for i in 0..=255u8 {
        assert_eq!(get_in_frame(&frame, &[i, 1]), Ok(Some(vec![i])));
        assert_eq!(get_in_frame(&frame, &[i, 2]), Ok(None));
    }
}

#[test]
fn compaction_keeps_the_entries_and_frees_the_rest() {
    let mut frame = BlobFrame::init(guid(1), 3);
    for i in 0..50u8 {
        put_in_frame(&mut frame, b"same", &[i; 100], 1).unwrap();
        put_in_frame(&mut frame, &[b'k', i], &[i], 1).unwrap();
    }
    let packed = compact(&frame).unwrap();
    assert!(packed.space_used() < frame.space_used());
    assert_eq!(packed.blob_guid(), guid(1));
    assert_eq!(packed.created_epoch(), 3);
    assert_eq!(get_in_frame(&packed, b"same"), Ok(Some(vec![49; 100])));
    for i in 0..50u8 {
        assert_eq!(get_in_frame(&packed, &[b'k', i]), Ok(Some(vec![i])));
    }
}

#[test]
fn a_crossing_is_folded_under_a_prefix_node() {
    let child = frame_of(2, &[(b"dir/a", b"1"), (b"dir/b", b"2")]);
    let mut bm = manager_of(vec![child]);
    let mut parent = BlobFrame::init(guid(1), 0);
    let bn = alloc_blob_node(&mut parent, guid(2), b"").unwrap();
    let root = alloc_prefix(&mut parent, b"d", bn).unwrap();
    parent.set_root_slot(root);
    parent.set_num_ext_blobs(1);
    assert!(matches!(get_in_frame(&parent, b"dir/a"), Err(Error::NotYetImplemented(_))));

    let stats = try_merge_children(&mut bm, &mut parent, STRUCTURAL_SEQ).unwrap();
    assert_eq!(stats, MergeStats { merged: 1, inspected: 1 });
    assert_eq!(parent.num_ext_blobs(), 0);
    assert_eq!(bm.structural_reclaims(), &[(guid(1), guid(2))]);
    assert!(bm.pending_deletes().is_empty());
}

#[test]
fn a_root_crossing_is_folded_and_answers_as_the_child() {
    let child = frame_of(2, &[(b"dir/a", b"1"), (b"dir/b", b"2")]);
    let mut bm = manager_of(vec![child]);
    let mut parent = BlobFrame::init(guid(1), 0);
    let bn = alloc_blob_node(&mut parent, guid(2), b"").unwrap();
    parent.set_root_slot(bn);
    parent.set_num_ext_blobs(1);

    assert_eq!(is_mergeable(&mut bm, &parent, guid(2)), Ok(true));
    let stats = try_merge_children(&mut bm, &mut parent, 17).unwrap();
    assert_eq!(stats, MergeStats { merged: 1, inspected: 1 });
    assert_ne!(parent.root_slot(), bn);
    assert_eq!(get_in_frame(&parent, b"dir/a"), Ok(Some(b"1".to_vec())));
    assert_eq!(get_in_frame(&parent, b"dir/b"), Ok(Some(b"2".to_vec())));
    assert_eq!(get_in_frame(&parent, b"dir/c"), Ok(None));
    assert_eq!(bm.pending_deletes(), &[(guid(2), 17)]);

    // Nothing is left to fold.
    let again = try_merge_children(&mut bm, &mut parent, 18).unwrap();
    assert_eq!(again, MergeStats::default());
}

#[test]
fn crossings_below_an_inner_node_are_folded_one_by_one() {
    let a = frame_of(2, &[(b"a/1", b"x")]);
    let mut b = frame_of(3, &[(b"b/1", b"y")]);
    b.set_num_ext_blobs(1); // has crossings of its own: stays
    let mut bm = manager_of(vec![a, b]);
    let mut parent = BlobFrame::init(guid(1), 0);
    let ba = alloc_blob_node(&mut parent, guid(2), b"").unwrap();
    let bb = alloc_blob_node(&mut parent, guid(3), b"").unwrap();
    let gone = alloc_blob_node(&mut parent, guid(9), b"").unwrap();
    let leaf = alloc_leaf(&mut parent, b"d/1", b"z", 1).unwrap();
    let root = alloc_inner(
        &mut parent,
        &[(b'a', ba), (b'b', bb), (b'c', gone), (b'd', leaf)],
    )
    .unwrap();
    parent.set_root_slot(root);
    parent.set_num_ext_blobs(3);

    let stats = try_merge_children(&mut bm, &mut parent, STRUCTURAL_SEQ).unwrap();
    assert_eq!(stats, MergeStats { merged: 1, inspected: 3 });
    assert_eq!(parent.num_ext_blobs(), 2);
    // Only the folded child is handed over, against its parent.
    assert_eq!(bm.structural_reclaims(), &[(guid(1), guid(2))]);
    assert!(bm.pending_deletes().is_empty());
    assert_eq!(parent.gap_space(), 128);
    let r = parent.root_slot();
    assert!(matches!(lookup(&parent, r, b"a/1"), Ok(LookupResult::Found(b"x"))));
    assert!(matches!(lookup(&parent, r, b"b/1"), Err(Error::NotYetImplemented(_))));
    assert!(matches!(lookup(&parent, r, b"d/1"), Ok(LookupResult::Found(b"z"))));
}

#[test]
fn a_child_that_does_not_fit_stays() {
    let mut child = BlobFrame::init(guid(2), 0);
    for i in 0..6u8 {
        put_in_frame(&mut child, &[i], &vec![i; 50000], 1).unwrap();
    }
    let mut bm = manager_of(vec![child]);
    let mut parent = BlobFrame::init(guid(1), 0);
    for i in 0..4u8 {
        put_in_frame(&mut parent, &[i], &vec![i; 50000], 1).unwrap();
    }
    let bn = alloc_blob_node(&mut parent, guid(2), b"").unwrap();
    parent.set_root_slot(bn);
    assert_eq!(is_mergeable(&mut bm, &parent, guid(2)), Ok(false));
    let stats = try_merge_children(&mut bm, &mut parent, 1).unwrap();
    assert_eq!(stats, MergeStats { merged: 0, inspected: 1 });
    assert_eq!(parent.root_slot(), bn);
}

#[test]
fn only_frames_up_to_the_barrier_are_forked() {
    let child = frame_of(2, &[(b"k", b"v")]);
    let bytes = child.as_slice().to_vec();
    let mut bm = manager_of(vec![child]);
    let mut parent = BlobFrame::init(guid(1), 0);
    let bn = alloc_blob_node(&mut parent, guid(2), b"").unwrap();

    // No snapshot: nothing is forked.
    let pin = bm.pin(guid(2)).unwrap();
    assert!(!child_is_snapshot_shared(&bm, bm.blob(&pin).unwrap()));
    let r = fork_child_if_shared(&mut bm, &mut parent, guid(2), &bytes, bn, guid(5));
    assert!(matches!(r, Ok(None)));

    bm.raise_fork_barrier();
    assert!(child_is_snapshot_shared(&bm, bm.blob(&pin).unwrap()));

    // The edge is checked before anything is forked.
    let wrong = fork_child_if_shared(&mut bm, &mut parent, guid(3), &bytes, bn, guid(5));
    assert!(matches!(
        wrong,
        Err(Error::NodeCorrupt { context: "COW parent edge child identity changed", .. })
    ));
    let no_crossing = fork_child_if_shared(&mut bm, &mut parent, guid(2), &bytes, 1, guid(5));
    assert!(matches!(
        no_crossing,
        Err(Error::NodeCorrupt { context: "COW parent edge is not a BlobNode", .. })
    ));
    assert_eq!(bm.dirty_count(), 0);
    assert!(!bm.is_resident(guid(5)));

    let (fork, fork_pin) =
        fork_child_if_shared(&mut bm, &mut parent, guid(2), &bytes, bn, guid(5)).unwrap().unwrap();
    assert_eq!(fork, guid(5));
    assert_eq!(&parent.body_of_slot(bn).unwrap()[..16], &guid(5));
    assert!(!child_is_snapshot_shared(&bm, bm.blob(&fork_pin).unwrap()));
    assert_eq!(bm.cow_reclaims(), &[(guid(1), guid(2), 0)]);
    assert_eq!(bm.min_unflushed_txn(), Some(STRUCTURAL_SEQ));
    let image = BlobFrame::wrap(bm.blob(&fork_pin).unwrap().read().as_slice().to_vec()).unwrap();
    assert_eq!(get_in_frame(&image, b"k"), Ok(Some(b"v".to_vec())));

    // The fork itself is private.
    let bytes = image.into_bytes();
    let again = fork_child_if_shared(&mut bm, &mut parent, guid(5), &bytes, bn, guid(6));
    assert!(matches!(again, Ok(None)));
}

#[test]
fn a_corrupt_index_stops_a_merge_pass() {
    let mut bm = manager_of(vec![]);
    let mut parent = BlobFrame::init(guid(1), 0);
    let mut pairs = Vec::new();
    for i in 0..20u8 {
        pairs.push((i, alloc_leaf(&mut parent, &[i], b"v", 1).unwrap()));
    }
    let root = alloc_inner(&mut parent, &pairs).unwrap();
    assert_eq!(ntype_of(&parent, root), Ok(NodeType::Node48));
    parent.set_root_slot(root);
    assert_eq!(try_merge_children(&mut bm, &mut parent, 1), Ok(MergeStats::default()));
    parent.write_body(root, 8 + 200, &[49]);
    let before = parent.as_slice().to_vec();
    assert!(matches!(
        try_merge_children(&mut bm, &mut parent, 1),
        Err(Error::NodeCorrupt { context: "merge_under_inner: Node48 index out of range", .. })
    ));
    assert_eq!(parent.as_slice(), &before[..]);
}

#[test]
fn a_child_that_cannot_be_read_stops_a_merge_pass() {
    let fine = frame_of(2, &[(b"a/1", b"x")]);
    let mut broken = BlobFrame::init(guid(3), 0);
    let root = alloc_prefix(&mut broken, b"b", 999).unwrap();
    broken.set_root_slot(root);
    let mut bm = manager_of(vec![fine, broken]);
    bm.write_blob(guid(4), &AlignedBlobBuf::zeroed()).unwrap();

    let mut parent = BlobFrame::init(guid(1), 0);
    let first = alloc_blob_node(&mut parent, guid(2), b"").unwrap();
    let second = alloc_blob_node(&mut parent, guid(3), b"").unwrap();
    let root = alloc_inner(&mut parent, &[(b'a', first), (b'b', second)]).unwrap();
    parent.set_root_slot(root);
    parent.set_num_ext_blobs(2);
    assert!(matches!(is_mergeable(&mut bm, &parent, guid(3)), Err(Error::NodeCorrupt { .. })));
    assert!(matches!(
        is_mergeable(&mut bm, &parent, guid(4)),
        Err(Error::NodeCorrupt { context: "blob frame: bad layout", .. })
    ));
    assert!(matches!(
        try_merge_children(&mut bm, &mut parent, 5),
        Err(Error::NodeCorrupt { .. })
    ));
    // The child before it is folded, and handed over once.
    assert_eq!(bm.pending_deletes(), &[(guid(2), 5)]);
    assert_eq!(parent.num_ext_blobs(), 1);
    let r = parent.root_slot();
    assert!(matches!(lookup(&parent, r, b"a/1"), Ok(LookupResult::Found(b"x"))));
}

#[test]
fn an_edge_follows_its_child_and_no_other_moves() {
    let a = frame_of(2, &[(b"a/1", b"x")]);
    let c = frame_of(4, &[(b"c/1", b"y")]);
    let mut bm = manager_of(vec![a, c]);
    let mut parent = BlobFrame::init(guid(1), 0);
    let ba = alloc_blob_node(&mut parent, guid(2), b"").unwrap();
    let leaf = alloc_leaf(&mut parent, b"b/1", b"z", 1).unwrap();
    let bc = alloc_blob_node(&mut parent, guid(4), b"").unwrap();
    let gone = alloc_blob_node(&mut parent, guid(9), b"").unwrap();
    let root = alloc_inner(
        &mut parent,
        &[(b'a', ba), (b'b', leaf), (b'c', bc), (b'd', gone)],
    )
    .unwrap();
    parent.set_root_slot(root);
    parent.set_num_ext_blobs(3);
    let slots = parent.num_slots();
    let stats = try_merge_children(&mut bm, &mut parent, 6).unwrap();
    assert_eq!(stats, MergeStats { merged: 2, inspected: 3 });
    assert_eq!(parent.root_slot(), root);
    let now = child_pairs(&parent, root, NodeType::Node4).unwrap();
    assert_eq!(now.len(), 4);
    assert!(now[0].0 == b'a' && now[0].1 >= slots);
    assert_eq!(now[1], (b'b', leaf));
    assert!(now[2].0 == b'c' && now[2].1 >= slots);
    assert_eq!(now[3], (b'd', gone));
    assert_eq!(bm.pending_deletes(), &[(guid(2), 6), (guid(4), 6)]);
}

#[test]
fn a_put_takes_the_room_of_what_it_writes() {
    let mut frame = BlobFrame::init(guid(1), 0);
    let start = frame.space_used();
    let long = vec![b'k'; 60000];
    put_in_frame(&mut frame, &long, &vec![1; 60000], 1).unwrap();
    // The leaf alone, rounded up to eight bytes.
    assert_eq!(frame.space_used() - start, 120016);
    assert_eq!(frame.num_slots(), 3);

    // A fork after 300 bytes: the leaf, a node of two children, three prefix nodes.
    let mut other = vec![b'k'; 300];
    other.push(b'z');
    let before = frame.space_used();
    put_in_frame(&mut frame, &other, b"", 2).unwrap();
    assert_eq!(frame.space_used() - before, 320 + 16 + 3 * 128);
    assert_eq!(frame.num_slots(), 8);
    assert_eq!(get_in_frame(&frame, &other), Ok(Some(vec![])));
    assert_eq!(get_in_frame(&frame, &long), Ok(Some(vec![1; 60000])));
}

#[test]
fn a_put_that_fits_only_once_compacted_takes_the_live_room() {
    let mut frame = BlobFrame::init(guid(1), 0);
    let start = frame.space_used();
    for i in 0..7u8 {
        put_in_frame(&mut frame, b"only", &vec![i; 60000], i as u64).unwrap();
    }
    let leaf = 60024;
    assert_eq!(frame.space_used() - start, 7 * leaf);
    put_in_frame(&mut frame, b"only", &vec![7; 60000], 7).unwrap();
    assert_eq!(frame.space_used() - start, 2 * leaf);
    assert_eq!(frame.num_slots(), 4);
    assert_eq!(get_in_frame(&frame, b"only"), Ok(Some(vec![7; 60000])));
}

#[test]
fn a_child_with_a_tombstone_stays() {
    let mut child = frame_of(2, &[(b"a/1", b"x"), (b"a/2", b"y")]);
    let mut dead = 0;
    for slot in 1..child.num_slots() {
        if ntype_of(&child, slot) == Ok(NodeType::Leaf)
            && &child.body_of_slot(slot).unwrap()[16..19] == b"a/2"
        {
            dead = slot;
        }
    }
    child.write_body(dead, 12, &[1]);
    assert_eq!(get_in_frame(&child, b"a/2"), Ok(None));
    assert_eq!(get_in_frame(&child, b"a/1"), Ok(Some(b"x".to_vec())));
    let mut bm = manager_of(vec![child]);
    let mut parent = BlobFrame::init(guid(1), 0);
    let bn = alloc_blob_node(&mut parent, guid(2), b"").unwrap();
    parent.set_root_slot(bn);
    parent.set_num_ext_blobs(1);
    assert_eq!(is_mergeable(&mut bm, &parent, guid(2)), Ok(false));
    let stats = try_merge_children(&mut bm, &mut parent, 1).unwrap();
    assert_eq!(stats, MergeStats { merged: 0, inspected: 1 });
    assert_eq!(parent.root_slot(), bn);
    assert_eq!(parent.num_ext_blobs(), 1);
    assert!(bm.pending_deletes().is_empty());
}

#[test]
fn a_byte_listed_twice_stops_a_merge_pass() {
    let a = frame_of(2, &[(b"a/1", b"x")]);
    let b = frame_of(3, &[(b"a/2", b"y")]);
    let mut bm = manager_of(vec![a, b]);
    let mut parent = BlobFrame::init(guid(1), 0);
    let first = alloc_blob_node(&mut parent, guid(2), b"").unwrap();
    let second = alloc_blob_node(&mut parent, guid(3), b"").unwrap();
    let root = alloc_inner(&mut parent, &[(b'a', first), (b'b', second)]).unwrap();
    parent.write_body(root, 5, &[b'a']);
    parent.set_root_slot(root);
    parent.set_num_ext_blobs(2);
    assert_eq!(
        child_pairs(&parent, root, NodeType::Node4),
        Some(vec![(b'a', first), (b'a', second)])
    );
    assert!(matches!(
        try_merge_children(&mut bm, &mut parent, 4),
        Err(Error::NodeCorrupt { context: "merge_under_inner: edge leads to another child", .. })
    ));
    // Only the child whose edge was moved is handed over, and no edge was lost.
    assert_eq!(bm.pending_deletes(), &[(guid(2), 4)]);
    assert_eq!(parent.num_ext_blobs(), 1);
    let now = child_pairs(&parent, root, NodeType::Node4).unwrap();
    assert_ne!(now[0].1, first);
    assert_eq!(now[1], (b'a', second));
}
