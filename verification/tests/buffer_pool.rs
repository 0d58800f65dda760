//! Leasing of fixed buffer slots.
use holt::layout::PAGE_SIZE;
use holt::store::blob_store::buffer_pool::{
    pack_free_head, unpack_free_head, BlobBufPool, SlotRegion,
};

#[test]
fn slots_are_leased_once_and_returned_on_top() {
    let mut pool = BlobBufPool::new(3).unwrap();
    let a = pool.alloc_slot().unwrap();
    let b = pool.alloc_slot().unwrap();
    let c = pool.alloc_slot().unwrap();
    assert_eq!((a, b, c), (0, 1, 2));
    assert_eq!(pool.alloc_slot(), None);
    pool.free_slot(b);
    assert_eq!(pool.alloc_slot(), Some(b));
    pool.free_slot(a);
    pool.free_slot(c);
    assert_eq!(pool.alloc_slot(), Some(c));
    assert_eq!(pool.alloc_slot(), Some(a));
}

#[test]
fn every_slot_has_its_frame() {
    let pool = BlobBufPool::new(2).unwrap();
    let page = PAGE_SIZE as usize;
    assert_eq!(pool.slots(), 2);
    assert_eq!(pool.slab_len(), 2 * page);
    assert_eq!(pool.offset_for_index(1), page);
    assert_eq!(
        pool.regions(),
        [SlotRegion { offset: 0, len: page }, SlotRegion { offset: page, len: page }]
    );
}

#[test]
fn pools_have_a_size_that_an_index_can_name() {
    assert!(BlobBufPool::new(0).is_none());
    assert!(BlobBufPool::new(65537).is_none());
    assert!(BlobBufPool::new(65536).is_some());
}

#[test]
fn heads_pack_and_unpack() {
    let head = pack_free_head(7, 9);
    assert_eq!(head, 0x0000_0007_0000_0009);
    assert_eq!(unpack_free_head(head), (7, 9));
    assert_eq!(unpack_free_head(pack_free_head(u32::MAX, u32::MAX)), (u32::MAX, u32::MAX));
}
