//! Read-side helpers: decode slot bodies, or extract leaf extents. None of them
//! changes the frame.
use vstd::prelude::*;
use vstd::slice::slice_subrange;

use crate::api::errors::{Error, Result};
use crate::bytes::{read_u16, read_u32, read_u64};
use crate::layout::{Leaf, Node16, Node256, Node4, Node48, NodeType, Prefix, PAGE_SIZE};
use crate::store::blob_frame::BlobFrame;

verus! {

/// Type and body of `slot`, or what is wrong with it.
pub open spec fn resolved(img: Seq<u8>, slot: int) -> core::result::Result<
    (NodeType, Seq<u8>),
    Error,
> {
    if !crate::store::blob_frame::in_use(img, slot) {
        Err(Error::corrupt("walker: invalid slot"))
    } else if crate::store::blob_frame::type_at(img, slot) is None {
        Err(Error::corrupt("walker: undecodable node type"))
    } else if !crate::store::blob_frame::has_body(img, slot) {
        Err(Error::corrupt("walker: body resolution failed"))
    } else {
        Ok(
            (
                crate::store::blob_frame::type_at(img, slot)->0,
                crate::store::blob_frame::body_at(img, slot),
            ),
        )
    }
}

/// Type and body of `slot`.
pub fn resolve_typed(frame: &BlobFrame, slot: u16) -> (r: Result<(NodeType, &[u8])>)
    requires
        frame@.len() == PAGE_SIZE,
    ensures
        match r {
            Ok((t, body)) => resolved(frame@, slot as int) == Ok::<(NodeType, Seq<u8>), Error>(
                (t, body@),
            ),
            Err(e) => resolved(frame@, slot as int) == Err::<(NodeType, Seq<u8>), Error>(e),
        },
{
    let ntype: NodeType = match frame.slot_type(slot) {
        None => {
            return Err(Error::node_corrupt("walker: invalid slot"));
        },
        Some(None) => {
            return Err(Error::node_corrupt("walker: undecodable node type"));
        },
        Some(Some(t)) => t,
    };
    match frame.body_of_slot(slot) {
        Some(body) => Ok((ntype, body)),
        None => Err(Error::node_corrupt("walker: body resolution failed")),
    }
}

/// Type of `slot`, or what is wrong with it.
pub open spec fn type_of(img: Seq<u8>, slot: int) -> Result<NodeType> {
    if !crate::store::blob_frame::in_use(img, slot) {
        Err(Error::corrupt("walker: invalid slot"))
    } else {
        match crate::store::blob_frame::type_at(img, slot) {
            Some(t) => Ok(t),
            None => Err(Error::corrupt("walker: undecodable node type")),
        }
    }
}

/// Type of `slot`.
pub fn ntype_of(frame: &BlobFrame, slot: u16) -> (r: Result<NodeType>)
    requires
        frame@.len() == PAGE_SIZE,
    ensures
        r == type_of(frame@, slot as int),
{
    match frame.slot_type(slot) {
        None => Err(Error::node_corrupt("walker: invalid slot")),
        Some(None) => Err(Error::node_corrupt("walker: undecodable node type")),
        Some(Some(t)) => Ok(t),
    }
}

/// The leaf header in the first 16 bytes of `body`.
pub open spec fn leaf_header(body: Seq<u8>) -> Leaf {
    Leaf {
        seq: crate::bytes::le64(body, 0) as u64,
        value_len: crate::bytes::le16(body, 8) as u16,
        key_len: crate::bytes::le16(body, 10) as u16,
        tombstone: body[12],
        key_fp: body[13],
        _pad: crate::bytes::le16(body, 14) as u16,
    }
}

/// Decode the leaf header in the first 16 bytes of `body`.
pub fn read_leaf(body: &[u8]) -> (leaf: Leaf)
    requires
        body@.len() >= 16,
    ensures
        leaf == leaf_header(body@),
{
    Leaf {
        seq: read_u64(body, 0),
        value_len: read_u16(body, 8),
        key_len: read_u16(body, 10),
        tombstone: body[12],
        key_fp: body[13],
        _pad: read_u16(body, 14),
    }
}

/// Key and value of a leaf body with this header, where both lie inside it.
pub open spec fn leaf_split(body: Seq<u8>, leaf: Leaf) -> Option<(Seq<u8>, Seq<u8>)> {
    let key_end = 16 + leaf.key_len;
    let value_end = key_end + leaf.value_len;
    if value_end > body.len() {
        None
    } else {
        Some((body.subrange(16, key_end), body.subrange(key_end, value_end)))
    }
}

/// Split a leaf's self-describing body (`[16B header][key][value]`) into key and
/// value.
pub fn split_leaf_body<'a>(body: &'a [u8], leaf: &Leaf) -> (r: Result<(&'a [u8], &'a [u8])>)
    ensures
        match r {
            Ok((k, v)) => leaf_split(body@, *leaf) == Some((k@, v@)),
            Err(e) => leaf_split(body@, *leaf) is None && e == Error::corrupt(
                "leaf body: key/value out of range",
            ),
        },
{
    let key_end: usize = 16 + leaf.key_len as usize;
    let value_end: usize = key_end + leaf.value_len as usize;
    if value_end > body.len() {
        return Err(Error::node_corrupt("leaf body: key/value out of range"));
    }
    Ok((slice_subrange(body, 16, key_end), slice_subrange(body, key_end, value_end)))
}

/// Whether a body, where there is one, is long enough for a node of type `t`.
pub open spec fn long_enough(img: Seq<u8>, slot: int, t: NodeType) -> bool {
    crate::store::blob_frame::has_body(img, slot) ==> crate::store::blob_frame::len_at(img, slot)
        >= crate::layout::node::node_size(t)
}

/// Key and value of the leaf at `slot`, or what is wrong with it.
pub open spec fn extent_of(img: Seq<u8>, slot: int) -> Result<(Seq<u8>, Seq<u8>)> {
    let body = crate::store::blob_frame::body_at(img, slot);
    if !crate::store::blob_frame::has_body(img, slot) {
        Err(Error::corrupt("leaf body resolution failed"))
    } else {
        match leaf_split(body, leaf_header(body)) {
            Some(parts) => Ok(parts),
            None => Err(Error::corrupt("leaf body: key/value out of range")),
        }
    }
}

/// Key and header of the leaf at `slot`, or what is wrong with it.
pub open spec fn key_ref_of(img: Seq<u8>, slot: int) -> Result<(Seq<u8>, Leaf)> {
    let body = crate::store::blob_frame::body_at(img, slot);
    if !crate::store::blob_frame::has_body(img, slot) {
        Err(Error::corrupt("read_leaf_key_ref: body"))
    } else {
        match leaf_split(body, leaf_header(body)) {
            Some((key, value)) => Ok((key, leaf_header(body))),
            None => Err(Error::corrupt("leaf body: key/value out of range")),
        }
    }
}

/// Key of the leaf at `slot`, with the slot resolved step by step, or what is wrong
/// with it.
pub open spec fn any_key_of(img: Seq<u8>, slot: int) -> Result<Seq<u8>> {
    match resolved(img, slot) {
        Err(e) => Err(e),
        Ok((t, body)) => match leaf_split(body, leaf_header(body)) {
            Some((key, value)) => Ok(key),
            None => Err(Error::corrupt("leaf body: key/value out of range")),
        },
    }
}

/// Key and value of the leaf at `slot`.
pub fn leaf_extent(frame: &BlobFrame, slot: u16) -> (r: Result<(&[u8], &[u8])>)
    requires
        frame@.len() == PAGE_SIZE,
        long_enough(frame@, slot as int, NodeType::Leaf),
    ensures
        match extent_of(frame@, slot as int) {
            Ok((key, value)) => r is Ok && r->Ok_0.0@ == key && r->Ok_0.1@ == value,
            Err(e) => r == Err::<(&[u8], &[u8]), Error>(e),
        },
{
    match frame.body_of_slot(slot) {
        Some(body) => {
            proof {
                crate::store::blob_frame::lemma_len_at(frame@, slot as int);
            }
            let leaf: Leaf = read_leaf(body);
            split_leaf_body(body, &leaf)
        },
        None => Err(Error::node_corrupt("leaf body resolution failed")),
    }
}

/// Key of the leaf at `slot`.
pub fn leaf_key_extent(frame: &BlobFrame, slot: u16) -> (r: Result<&[u8]>)
    requires
        frame@.len() == PAGE_SIZE,
        long_enough(frame@, slot as int, NodeType::Leaf),
    ensures
        match extent_of(frame@, slot as int) {
            Ok((key, value)) => r is Ok && r->Ok_0@ == key,
            Err(e) => r == Err::<&[u8], Error>(e),
        },
{
    match leaf_extent(frame, slot) {
        Ok((key, _value)) => Ok(key),
        Err(e) => Err(e),
    }
}

/// Key and header of the leaf at `slot`.
pub fn read_leaf_key_ref(frame: &BlobFrame, slot: u16) -> (r: Result<(&[u8], Leaf)>)
    requires
        frame@.len() == PAGE_SIZE,
        long_enough(frame@, slot as int, NodeType::Leaf),
    ensures
        match key_ref_of(frame@, slot as int) {
            Ok((key, leaf)) => r is Ok && r->Ok_0.0@ == key && r->Ok_0.1 == leaf,
            Err(e) => r == Err::<(&[u8], Leaf), Error>(e),
        },
{
    match frame.body_of_slot(slot) {
        Some(body) => {
            proof {
                crate::store::blob_frame::lemma_len_at(frame@, slot as int);
            }
            let leaf: Leaf = read_leaf(body);
            match split_leaf_body(body, &leaf) {
                Ok((key, _value)) => Ok((key, leaf)),
                Err(e) => Err(e),
            }
        },
        None => Err(Error::node_corrupt("read_leaf_key_ref: body")),
    }
}

/// Key of a leaf slot, with the slot resolved step by step.
pub fn leaf_any_key(frame: &BlobFrame, slot: u16) -> (r: Result<&[u8]>)
    requires
        frame@.len() == PAGE_SIZE,
        long_enough(frame@, slot as int, NodeType::Leaf),
    ensures
        match any_key_of(frame@, slot as int) {
            Ok(key) => r is Ok && r->Ok_0@ == key,
            Err(e) => r == Err::<&[u8], Error>(e),
        },
{
    match resolve_typed(frame, slot) {
        Ok((_ntype, body)) => {
            proof {
                crate::store::blob_frame::lemma_len_at(frame@, slot as int);
            }
            let leaf: Leaf = read_leaf(body);
            match split_leaf_body(body, &leaf) {
                Ok((key, _value)) => Ok(key),
                Err(e) => Err(e),
            }
        },
        Err(e) => Err(e),
    }
}

/// Whether `p` is the prefix node in `body`.
pub open spec fn is_prefix_body(p: Prefix, body: Seq<u8>) -> bool {
    &&& p.child == crate::bytes::le32(body, 0)
    &&& p.len == crate::bytes::le32(body, 4)
    &&& p.bytes@ == body.subrange(8, 128)
}

/// Decode a prefix node.
pub fn read_prefix(frame: &BlobFrame, slot: u16) -> (r: Result<Prefix>)
    requires
        frame@.len() == PAGE_SIZE,
        long_enough(frame@, slot as int, NodeType::Prefix),
    ensures
        match r {
            Ok(p) => crate::store::blob_frame::has_body(frame@, slot as int) && is_prefix_body(
                p,
                crate::store::blob_frame::body_at(frame@, slot as int),
            ),
            Err(e) => !crate::store::blob_frame::has_body(frame@, slot as int) && e
                == Error::corrupt("read_prefix: body"),
        },
{
    let body: &[u8] = match frame.body_of_slot(slot) {
        Some(body) => body,
        None => {
            return Err(Error::node_corrupt("read_prefix: body"));
        },
    };
    proof {
        crate::store::blob_frame::lemma_len_at(frame@, slot as int);
    }
    let mut bytes: [u8; 120] = [0u8; 120];
    let mut i: usize = 0;
    while i < 120
        invariant
            i <= 120,
            body@.len() >= 128,
            forall|j: int| 0 <= j < i ==> bytes@[j] == body@[8 + j],
        decreases 120 - i,
    {
        bytes[i] = body[8 + i];
        i += 1;
    }
    assert(bytes@ =~= body@.subrange(8, 128));
    Ok(Prefix { child: read_u32(body, 0), len: read_u32(body, 4), bytes })
}

/// Whether `n` is the `Node4` in `body`.
pub open spec fn is_node4_body(n: Node4, body: Seq<u8>) -> bool {
    &&& n.count == body[0]
    &&& n.keys@ == body.subrange(4, 8)
    &&& forall|i: int| 0 <= i < 4 ==> #[trigger] n.children@[i] == crate::bytes::le16(
        body,
        8 + 2 * i,
    )
}

/// Decode a `Node4`.
pub fn read_node4(frame: &BlobFrame, slot: u16) -> (r: Result<Node4>)
    requires
        frame@.len() == PAGE_SIZE,
        long_enough(frame@, slot as int, NodeType::Node4),
    ensures
        match r {
            Ok(n) => crate::store::blob_frame::has_body(frame@, slot as int) && is_node4_body(
                n,
                crate::store::blob_frame::body_at(frame@, slot as int),
            ),
            Err(e) => !crate::store::blob_frame::has_body(frame@, slot as int) && e
                == Error::corrupt("read_node4: body"),
        },
{
    let body: &[u8] = match frame.body_of_slot(slot) {
        Some(body) => body,
        None => {
            return Err(Error::node_corrupt("read_node4: body"));
        },
    };
    proof {
        crate::store::blob_frame::lemma_len_at(frame@, slot as int);
    }
    let mut keys: [u8; 4] = [0u8; 4];
    let mut children: [u16; 4] = [0u16; 4];
    let mut i: usize = 0;
    while i < 4
        invariant
            i <= 4,
            body@.len() >= 16,
            forall|j: int| 0 <= j < i ==> keys@[j] == body@[4 + j],
            forall|j: int|
                0 <= j < i ==> #[trigger] children@[j] == crate::bytes::le16(body@, 8 + 2 * j),
        decreases 4 - i,
    {
        keys[i] = body[4 + i];
        children[i] = read_u16(body, 8 + 2 * i);
        i += 1;
    }
    assert(keys@ =~= body@.subrange(4, 8));
    Ok(Node4 { count: body[0], keys, children })
}

/// Whether `n` is the `Node16` in `body`.
pub open spec fn is_node16_body(n: Node16, body: Seq<u8>) -> bool {
    &&& n.count == body[0]
    &&& n.keys@ == body.subrange(8, 24)
    &&& forall|i: int| 0 <= i < 16 ==> #[trigger] n.children@[i] == crate::bytes::le16(
        body,
        24 + 2 * i,
    )
}

/// Decode a `Node16`.
pub fn read_node16(frame: &BlobFrame, slot: u16) -> (r: Result<Node16>)
    requires
        frame@.len() == PAGE_SIZE,
        long_enough(frame@, slot as int, NodeType::Node16),
    ensures
        match r {
            Ok(n) => crate::store::blob_frame::has_body(frame@, slot as int) && is_node16_body(
                n,
                crate::store::blob_frame::body_at(frame@, slot as int),
            ),
            Err(e) => !crate::store::blob_frame::has_body(frame@, slot as int) && e
                == Error::corrupt("read_node16: body"),
        },
{
    let body: &[u8] = match frame.body_of_slot(slot) {
        Some(body) => body,
        None => {
            return Err(Error::node_corrupt("read_node16: body"));
        },
    };
    proof {
        crate::store::blob_frame::lemma_len_at(frame@, slot as int);
    }
    let mut keys: [u8; 16] = [0u8; 16];
    let mut children: [u16; 16] = [0u16; 16];
    let mut i: usize = 0;
    while i < 16
        invariant
            i <= 16,
            body@.len() >= 56,
            forall|j: int| 0 <= j < i ==> keys@[j] == body@[8 + j],
            forall|j: int|
                0 <= j < i ==> #[trigger] children@[j] == crate::bytes::le16(body@, 24 + 2 * j),
        decreases 16 - i,
    {
        keys[i] = body[8 + i];
        children[i] = read_u16(body, 24 + 2 * i);
        i += 1;
    }
    assert(keys@ =~= body@.subrange(8, 24));
    Ok(Node16 { count: body[0], keys, children })
}

/// Whether `n` is the `Node48` in `body`.
pub open spec fn is_node48_body(n: Node48, body: Seq<u8>) -> bool {
    &&& n.index@ == body.subrange(8, 264)
    &&& forall|i: int| 0 <= i < 48 ==> #[trigger] n.children@[i] == crate::bytes::le16(
        body,
        264 + 2 * i,
    )
}

/// Decode a `Node48`.
pub fn read_node48(frame: &BlobFrame, slot: u16) -> (r: Result<Node48>)
    requires
        frame@.len() == PAGE_SIZE,
        long_enough(frame@, slot as int, NodeType::Node48),
    ensures
        match r {
            Ok(n) => crate::store::blob_frame::has_body(frame@, slot as int) && is_node48_body(
                n,
                crate::store::blob_frame::body_at(frame@, slot as int),
            ),
            Err(e) => !crate::store::blob_frame::has_body(frame@, slot as int) && e
                == Error::corrupt("read_node48: body"),
        },
{
    let body: &[u8] = match frame.body_of_slot(slot) {
        Some(body) => body,
        None => {
            return Err(Error::node_corrupt("read_node48: body"));
        },
    };
    proof {
        crate::store::blob_frame::lemma_len_at(frame@, slot as int);
    }
    let mut index: [u8; 256] = [0u8; 256];
    let mut i: usize = 0;
    while i < 256
        invariant
            i <= 256,
            body@.len() >= 360,
            forall|j: int| 0 <= j < i ==> index@[j] == body@[8 + j],
        decreases 256 - i,
    {
        index[i] = body[8 + i];
        i += 1;
    }
    assert(index@ =~= body@.subrange(8, 264));
    let mut children: [u16; 48] = [0u16; 48];
    let mut k: usize = 0;
    while k < 48
        invariant
            k <= 48,
            body@.len() >= 360,
            forall|j: int|
                0 <= j < k ==> #[trigger] children@[j] == crate::bytes::le16(body@, 264 + 2 * j),
        decreases 48 - k,
    {
        children[k] = read_u16(body, 264 + 2 * k);
        k += 1;
    }
    Ok(Node48 { index, children })
}

/// Whether `n` is the `Node256` in `body`.
pub open spec fn is_node256_body(n: Node256, body: Seq<u8>) -> bool {
    forall|i: int| 0 <= i < 256 ==> #[trigger] n.children@[i] == crate::bytes::le16(body, 8 + 2 * i)
}

/// Decode a `Node256`.
pub fn read_node256(frame: &BlobFrame, slot: u16) -> (r: Result<Node256>)
    requires
        frame@.len() == PAGE_SIZE,
        long_enough(frame@, slot as int, NodeType::Node256),
    ensures
        match r {
            Ok(n) => crate::store::blob_frame::has_body(frame@, slot as int) && is_node256_body(
                n,
                crate::store::blob_frame::body_at(frame@, slot as int),
            ),
            Err(e) => !crate::store::blob_frame::has_body(frame@, slot as int) && e
                == Error::corrupt("read_node256: body"),
        },
{
    let body: &[u8] = match frame.body_of_slot(slot) {
        Some(body) => body,
        None => {
            return Err(Error::node_corrupt("read_node256: body"));
        },
    };
    proof {
        crate::store::blob_frame::lemma_len_at(frame@, slot as int);
    }
    let mut children: [u16; 256] = [0u16; 256];
    let mut i: usize = 0;
    while i < 256
        invariant
            i <= 256,
            body@.len() >= 520,
            forall|j: int|
                0 <= j < i ==> #[trigger] children@[j] == crate::bytes::le16(body@, 8 + 2 * j),
        decreases 256 - i,
    {
        children[i] = read_u16(body, 8 + 2 * i);
        i += 1;
    }
    Ok(Node256 { children })
}

/// The child of one byte of a `Node256`; 0 where it has none.
pub fn read_node256_child(frame: &BlobFrame, slot: u16, byte: u8) -> (r: Result<u32>)
    requires
        frame@.len() == PAGE_SIZE,
    ensures
        r == (if !crate::store::blob_frame::has_body(frame@, slot as int) {
            Err::<u32, Error>(Error::corrupt("read_node256_child: body"))
        } else if crate::store::blob_frame::len_at(frame@, slot as int) != 520 {
            Err::<u32, Error>(Error::corrupt("read_node256_child: non-Node256 slot"))
        } else {
            Ok::<u32, Error>(
                crate::engine::walker::model::child256(
                    crate::store::blob_frame::body_at(frame@, slot as int),
                    byte as int,
                ) as u32,
            )
        }),
{
    let body: &[u8] = match frame.body_of_slot(slot) {
        Some(body) => body,
        None => {
            return Err(Error::node_corrupt("read_node256_child: body"));
        },
    };
    proof {
        crate::store::blob_frame::lemma_len_at(frame@, slot as int);
    }
    if body.len() != 520 {
        return Err(Error::node_corrupt("read_node256_child: non-Node256 slot"));
    }
    Ok(read_u16(body, 8 + 2 * byte as usize) as u32)
}

/// Whether nodes of type `t` have one child per byte.
pub open spec fn is_inner(t: NodeType) -> bool {
    t == NodeType::Node4 || t == NodeType::Node16 || t == NodeType::Node48 || t
        == NodeType::Node256
}

/// The children of an inner node as `(byte, slot)` pairs, or `None` for a
/// `Node48` whose index points outside its children.
pub fn child_pairs(frame: &BlobFrame, slot: u16, ntype: NodeType) -> (r: Option<Vec<(u8, u16)>>)
    requires
        frame@.len() == PAGE_SIZE,
        is_inner(ntype),
        crate::store::blob_frame::has_body(frame@, slot as int),
        crate::store::blob_frame::type_at(frame@, slot as int) == Some(ntype),
    ensures
        match r {
            Some(pairs) => {
                &&& crate::engine::walker::model::node(frame@, slot as int)
                    == (crate::engine::walker::model::Node::Inner { pairs: pairs@ })
                &&& ntype == NodeType::Node48 ==> crate::engine::walker::model::index48_ok(
                    crate::store::blob_frame::body_at(frame@, slot as int),
                    256,
                )
            },
            None => ntype == NodeType::Node48 && !crate::engine::walker::model::index48_ok(
                crate::store::blob_frame::body_at(frame@, slot as int),
                256,
            ),
        },
{
    let ghost body = crate::store::blob_frame::body_at(frame@, slot as int);
    let mut out: Vec<(u8, u16)> = Vec::new();
    match ntype {
        NodeType::Node4 => {
            if let Ok(n) = read_node4(frame, slot) {
                let count: usize = if n.count < 4 {
                    n.count as usize
                } else {
                    4
                };
                let ghost pairs = crate::engine::walker::model::pairs4(body);
                let mut i: usize = 0;
                while i < count
                    invariant
                        i <= count <= 4,
                        is_node4_body(n, body),
                        body.len() >= 16,
                        count == pairs.len(),
                        pairs == crate::engine::walker::model::pairs4(body),
                        out@ == pairs.take(i as int),
                    decreases count - i,
                {
                    proof {
                        assert(n.keys@[i as int] == body.subrange(4, 8)[i as int]);
                        assert(n.children@[i as int] == crate::bytes::le16(body, 8 + 2 * i));
                    }
                    out.push((n.keys[i], n.children[i]));
                    i += 1;
                    assert(out@ =~= pairs.take(i as int));
                }
                assert(out@ =~= pairs);
            }
        },
        NodeType::Node16 => {
            if let Ok(n) = read_node16(frame, slot) {
                let count: usize = if n.count < 16 {
                    n.count as usize
                } else {
                    16
                };
                let ghost pairs = crate::engine::walker::model::pairs16(body);
                let mut i: usize = 0;
                while i < count
                    invariant
                        i <= count <= 16,
                        is_node16_body(n, body),
                        body.len() >= 56,
                        count == pairs.len(),
                        pairs == crate::engine::walker::model::pairs16(body),
                        out@ == pairs.take(i as int),
                    decreases count - i,
                {
                    proof {
                        assert(n.keys@[i as int] == body.subrange(8, 24)[i as int]);
                        assert(n.children@[i as int] == crate::bytes::le16(body, 24 + 2 * i));
                    }
                    out.push((n.keys[i], n.children[i]));
                    i += 1;
                    assert(out@ =~= pairs.take(i as int));
                }
                assert(out@ =~= pairs);
            }
        },
        NodeType::Node48 => {
            if let Ok(n) = read_node48(frame, slot) {
                let mut b: usize = 0;
                while b < 256
                    invariant
                        b <= 256,
                        is_node48_body(n, body),
                        body.len() >= 360,
                        crate::engine::walker::model::index48_ok(body, b as int),
                        out@ == crate::engine::walker::model::pairs48(body, b as int),
                        ntype == NodeType::Node48,
                        body == crate::store::blob_frame::body_at(frame@, slot as int),
                    decreases 256 - b,
                {
                    let idx: u8 = n.index[b];
                    assert(idx == body[8 + b]) by {
                        assert(n.index@[b as int] == body.subrange(8, 264)[b as int]);
                    }
                    if idx > 48 {
                        assert(!crate::engine::walker::model::index48_ok(body, 256)) by {
                            assert(body[8 + b as int] > 48);
                        }
                        return None;
                    }
                    if idx != 0 {
                        assert(n.children@[idx - 1] == crate::bytes::le16(
                            body,
                            264 + 2 * (idx - 1),
                        ));
                        out.push((b as u8, n.children[idx as usize - 1]));
                    }
                    b += 1;
                }
            }
        },
        _ => {
            if let Ok(n) = read_node256(frame, slot) {
                let mut b: usize = 0;
                while b < 256
                    invariant
                        b <= 256,
                        is_node256_body(n, body),
                        body.len() >= 520,
                        out@ == crate::engine::walker::model::pairs256(body, b as int),
                    decreases 256 - b,
                {
                    let c: u16 = n.children[b];
                    assert(n.children@[b as int] == crate::bytes::le16(body, 8 + 2 * b));
                    if c != 0 {
                        out.push((b as u8, c));
                    }
                    b += 1;
                }
            }
        },
    }
    Some(out)
}

/// Whether children are listed in rising byte order and all refer to a slot.
pub fn pairs_in_order(pairs: &[(u8, u16)]) -> (yes: bool)
    ensures
        yes == crate::engine::walker::writers::pairs_ok(pairs@),
{
    let mut i: usize = 0;
    while i < pairs.len()
        invariant
            i <= pairs@.len(),
            crate::engine::walker::writers::pairs_ok(pairs@.take(i as int)),
        decreases pairs@.len() - i,
    {
        let (b, c): (u8, u16) = pairs[i];
        let ghost done = pairs@.take(i as int);
        if c == 0 {
            assert(pairs@[i as int].1 == 0);
            return false;
        }
        if i > 0 && pairs[i - 1].0 >= b {
            assert(pairs@[i - 1].0 >= pairs@[i as int].0);
            return false;
        }
        proof {
            let more = pairs@.take(i + 1);
            assert forall|p: int, q: int|
                #![trigger more[p], more[q]]
                0 <= p < q < more.len() implies more[p].0 < more[q].0 by {
                assert(more[p] == done[p] || p == i);
                if q < i {
                    assert(done[p].0 < done[q].0);
                } else if p < i - 1 {
                    assert(done[p].0 < done[i - 1].0);
                }
            }
            assert forall|p: int| 0 <= p < more.len() implies (#[trigger] more[p]).1 != 0 by {
                if p < i {
                    assert(more[p] == done[p]);
                }
            }
        }
        i += 1;
    }
    assert(pairs@.take(pairs@.len() as int) =~= pairs@);
    true
}

// ---------- laws ----------

/// A leaf starts with its sequence number, the length of its value, that of its
/// key, and a byte that is zero while it is live. The key follows behind 16 bytes,
/// and the value behind the key.
pub proof fn a_leaf_is_read_from_its_bytes(body: Seq<u8>)
    requires
        body.len() >= 16,
    ensures
        ({
            let leaf = leaf_header(body);
            let k = body[10] + 256 * body[11];
            let v = body[8] + 256 * body[9];
            &&& leaf.key_len == k && leaf.value_len == v
            &&& leaf.tombstone == body[12] && leaf.key_fp == body[13]
            &&& leaf.seq == body[0] + 0x100 * body[1] + 0x1_0000 * body[2] + 0x100_0000 * body[3]
                + 0x1_0000_0000 * body[4] + 0x100_0000_0000 * body[5] + 0x1_0000_0000_0000 * body[6]
                + 0x100_0000_0000_0000 * body[7]
            &&& leaf_split(body, leaf) is Some <==> 16 + k + v <= body.len()
            &&& 16 + k + v <= body.len() ==> leaf_split(body, leaf) == Some(
                (body.subrange(16, 16 + k), body.subrange(16 + k, 16 + k + v)),
            ) && crate::engine::walker::model::parse(NodeType::Leaf, body) == (
            crate::engine::walker::model::Node::Leaf {
                key: body.subrange(16, 16 + k),
                value: crate::engine::walker::model::Stamped {
                    bytes: body.subrange(16 + k, 16 + k + v),
                    seq: leaf.seq as int,
                },
                live: body[12] == 0,
            })
        }),
{
    crate::bytes::lemma_le16(body, 8);
    crate::bytes::lemma_le16(body, 10);
    crate::bytes::lemma_le64(body, 0);
}

/// A prefix node holds the slot of its child in its first bytes, and up to 120
/// bytes behind their number.
pub proof fn a_prefix_is_read_from_its_bytes(p: Prefix, body: Seq<u8>)
    requires
        body.len() == 128,
        is_prefix_body(p, body),
    ensures
        p.len == body[4] + 0x100 * body[5] + 0x1_0000 * body[6] + 0x100_0000 * body[7],
        p.child % 65536 == body[0] + 256 * body[1],
        1 <= p.len <= 120 ==> crate::engine::walker::model::parse(NodeType::Prefix, body) == (
        crate::engine::walker::model::Node::Prefix {
            bytes: p.bytes@.subrange(0, p.len as int),
            child: body[0] + 256 * body[1],
        }),
        p.len == 0 || p.len > 120 ==> crate::engine::walker::model::parse(NodeType::Prefix, body)
            is Bad,
{
    if 1 <= p.len <= 120 {
        assert(p.bytes@.subrange(0, p.len as int) =~= body.subrange(8, 8 + p.len));
    }
}

/// A node of up to four children, and one of up to sixteen, lists the byte and the
/// slot of each in the same order.
pub proof fn a_small_node_lists_its_children(
    n: Node4,
    body: Seq<u8>,
    m: Node16,
    wide: Seq<u8>,
    i: int,
)
    requires
        body.len() == 16,
        is_node4_body(n, body),
        wide.len() == 56,
        is_node16_body(m, wide),
    ensures
        ({
            let pairs = crate::engine::walker::model::parse(NodeType::Node4, body)->pairs;
            &&& n.count <= 4 ==> pairs.len() == n.count
            &&& 0 <= i < n.count && i < 4 ==> pairs[i] == (n.keys@[i], n.children@[i])
            &&& 0 <= i < 4 ==> n.keys@[i] == body[4 + i] && n.children@[i] == body[8 + 2 * i] + 256
                * body[9 + 2 * i]
        }),
        ({
            let pairs = crate::engine::walker::model::parse(NodeType::Node16, wide)->pairs;
            &&& m.count <= 16 ==> pairs.len() == m.count
            &&& 0 <= i < m.count && i < 16 ==> pairs[i] == (m.keys@[i], m.children@[i])
            &&& 0 <= i < 16 ==> m.keys@[i] == wide[8 + i] && m.children@[i] == wide[24 + 2 * i]
                + 256 * wide[25 + 2 * i]
        }),
{
    if 0 <= i < 4 {
        assert(n.keys@[i] == body.subrange(4, 8)[i]);
        assert(n.children@[i] == crate::bytes::le16(body, 8 + 2 * i));
        crate::bytes::lemma_le16(body, 8 + 2 * i);
    }
    if 0 <= i < 16 {
        assert(m.keys@[i] == wide.subrange(8, 24)[i]);
        assert(m.children@[i] == crate::bytes::le16(wide, 24 + 2 * i));
        crate::bytes::lemma_le16(wide, 24 + 2 * i);
    }
}

/// A node of up to 48 children finds the child of a byte by its index, one more
/// than the place of the child, or zero; one of 256 finds it at the byte's place.
pub proof fn a_large_node_finds_its_children(
    n: Node48,
    body: Seq<u8>,
    m: Node256,
    wide: Seq<u8>,
    b: u8,
)
    requires
        body.len() == 360,
        is_node48_body(n, body),
        wide.len() == 520,
        is_node256_body(m, wide),
    ensures
        ({
            let pairs = crate::engine::walker::model::parse(NodeType::Node48, body)->pairs;
            let i = n.index@[b as int];
            &&& i == 0 ==> crate::engine::walker::model::child_of(pairs, b) is None
            &&& 1 <= i <= 48 ==> crate::engine::walker::model::child_of(pairs, b) == Some(
                n.children@[i - 1],
            )
        }),
        ({
            let pairs = crate::engine::walker::model::parse(NodeType::Node256, wide)->pairs;
            let c = m.children@[b as int];
            &&& c == 0 ==> crate::engine::walker::model::child_of(pairs, b) is None
            &&& c != 0 ==> crate::engine::walker::model::child_of(pairs, b) == Some(c)
        }),
{
    let p = crate::engine::walker::model::pairs48(body, 256);
    crate::engine::walker::model::lemma_pairs48(body, 256);
    crate::engine::walker::model::lemma_child_of(p, b);
    assert(n.index@[b as int] == body.subrange(8, 264)[b as int]);
    assert(body[8 + b] == n.index@[b as int]);
    let i = n.index@[b as int];
    if crate::engine::walker::model::has_child(p, b) {
        let k = choose|k: int| 0 <= k < p.len() && (#[trigger] p[k]).0 == b;
        assert(crate::engine::walker::model::is_child(p, b, k));
        assert(p[k].1 == crate::engine::walker::model::child48(body, b as int));
    }
    if 1 <= i <= 48 {
        assert(n.children@[i - 1] == crate::bytes::le16(body, 264 + 2 * (i - 1)));
        crate::bytes::lemma_le16(body, 264 + 2 * (i - 1));
    }
    let q = crate::engine::walker::model::pairs256(wide, 256);
    crate::engine::walker::model::lemma_pairs256(wide, 256);
    crate::engine::walker::model::lemma_child_of(q, b);
    assert(m.children@[b as int] == crate::bytes::le16(wide, 8 + 2 * b));
    crate::bytes::lemma_le16(wide, 8 + 2 * b as int);
    assert(crate::engine::walker::model::child256(wide, b as int) == m.children@[b as int]);
    if crate::engine::walker::model::has_child(q, b) {
        let k = choose|k: int| 0 <= k < q.len() && (#[trigger] q[k]).0 == b;
        assert(crate::engine::walker::model::is_child(q, b, k));
        assert(q[k].1 == crate::engine::walker::model::child256(wide, b as int));
    }
}

/// Reading the leaf in a slot gives the key and the value that a search finds there,
/// and its header the sequence number; a slot that is not in use gives an error.
pub proof fn a_leaf_is_read_as_it_is_found(img: Seq<u8>, slot: int)
    requires
        img.len() == 524288,
    ensures
        crate::engine::walker::model::node(img, slot)
            matches crate::engine::walker::model::Node::Leaf { key, value, live } ==> {
            &&& extent_of(img, slot) == Ok::<(Seq<u8>, Seq<u8>), Error>((key, value.bytes))
            &&& any_key_of(img, slot) == Ok::<Seq<u8>, Error>(key)
            &&& key_ref_of(img, slot) is Ok && key_ref_of(img, slot)->Ok_0.0 == key
            &&& key_ref_of(img, slot)->Ok_0.1.seq == value.seq
            &&& (key_ref_of(img, slot)->Ok_0.1.tombstone == 0) == live
            &&& type_of(img, slot) == Ok::<NodeType, Error>(NodeType::Leaf)
        },
        !crate::store::blob_frame::in_use(img, slot) ==> extent_of(img, slot) is Err && key_ref_of(
            img,
            slot,
        ) is Err && any_key_of(img, slot) is Err && type_of(img, slot) is Err,
{
    if crate::engine::walker::model::node(img, slot) is Leaf {
        crate::store::blob_frame::lemma_len_at(img, slot);
        let body = crate::store::blob_frame::body_at(img, slot);
        a_leaf_is_read_from_its_bytes(body);
        crate::bytes::lemma_le16(body, 8);
        crate::bytes::lemma_le16(body, 10);
        crate::layout::leaf::leaf_size_is_tight(
            crate::bytes::le16(body, 10),
            crate::bytes::le16(body, 8),
        );
    }
}

} // verus!
