//! Byte layouts of the nodes that live inside a blob frame.
use vstd::prelude::*;

pub mod leaf;
pub mod node;

pub use leaf::{leaf_body_size, Leaf};
pub use node::{
    size_of_node, BlobNode, Node16, Node256, Node4, Node48, NodeType, Prefix, BLOB_MAX_INLINE,
    PREFIX_MAX_INLINE,
};

use crate::bytes::read_u64;

verus! {

/// Bytes of one blob frame.
pub const PAGE_SIZE: u32 = 524288;

/// Bytes of the frame header, at the front of the frame.
pub const HEADER_SIZE: u32 = 4096;

/// Entries of the slot table, which follows the header. Entry 0 is never used.
pub const MAX_SLOTS: u16 = 10240;

/// Where the slot table ends and node bodies begin.
pub const DATA_AREA_START: u32 = 45056;

/// Bytes available to node bodies.
pub const DATA_AREA_CAPACITY: u32 = 479232;

/// 16-byte name of a blob.
pub type BlobGuid = [u8; 16];

/// The number whose little-endian bytes are the guid. Maps are keyed by it.
pub open spec fn guid_id(guid: BlobGuid) -> u128 {
    vstd::bytes::spec_u128_from_le_bytes(guid@)
}

/// The map key of a guid.
pub fn guid_key(guid: &BlobGuid) -> (id: u128)
    ensures
        id == guid_id(*guid),
{
    vstd::bytes::u128_from_le_bytes(guid.as_slice())
}

/// The guid of a map key.
pub fn key_guid(id: u128) -> (guid: BlobGuid)
    ensures
        guid_id(guid) == id,
{
    let bytes: Vec<u8> = vstd::bytes::u128_to_le_bytes(id);
    proof {
        vstd::bytes::lemma_auto_spec_u128_to_from_le_bytes();
    }
    let mut guid: BlobGuid = [0u8; 16];
    let mut i: usize = 0;
    while i < 16
        invariant
            i <= 16,
            bytes@.len() == 16,
            forall|j: int| 0 <= j < i ==> guid@[j] == bytes@[j],
        decreases 16 - i,
    {
        guid[i] = bytes[i];
        i += 1;
    }
    assert(guid@ =~= bytes@);
    guid
}

/// The epoch in which the frame `bytes` was created.
pub fn frame_created_epoch(bytes: &[u8]) -> (epoch: u64)
    requires
        bytes@.len() >= 24,
    ensures
        epoch == crate::bytes::le64(bytes@, 16),
{
    read_u64(bytes, 16)
}

/// Different guids have different map keys.
pub proof fn guid_id_is_injective(a: BlobGuid, b: BlobGuid)
    requires
        guid_id(a) == guid_id(b),
    ensures
        a == b,
{
    vstd::bytes::lemma_auto_spec_u128_to_from_le_bytes();
    assert(a@.len() == 16 && b@.len() == 16);
    assert(vstd::bytes::spec_u128_to_le_bytes(guid_id(a)) == a@);
    assert(vstd::bytes::spec_u128_to_le_bytes(guid_id(b)) == b@);
    assert forall|i: int| 0 <= i < 16 implies a[i] == b[i] by {
        assert(a@[i] == b@[i]);
    }
    assert(a =~= b);
}

} // verus!
