//! Write-side helpers: append nodes to a frame, or change a child reference in
//! place.
use vstd::prelude::*;

use crate::api::errors::{Error, Result};
use crate::bytes::{push_slice, push_u16, push_u32, push_u64, read_u16, write_u16};
use crate::engine::walker::readers::resolve_typed;
use crate::layout::leaf::leaf_body_size;
use crate::layout::{BlobGuid, NodeType};
use crate::store::blob_frame::BlobFrame;

verus! {

/// `b` is `a` with one node of `size` bytes appended.
pub open spec fn grew(a: Seq<u8>, b: Seq<u8>, size: int) -> bool {
    &&& crate::store::blob_frame::frame_ok(b)
    &&& crate::store::blob_frame::extends(a, b)
    &&& crate::store::blob_frame::same_header(a, b)
    &&& crate::store::blob_frame::slots_of(b) == crate::store::blob_frame::slots_of(a) + 1
    &&& crate::store::blob_frame::bump_of(b) == crate::store::blob_frame::bump_of(a) + size
}

/// Appending the node `n` of `size` bytes to `a` gave `r` and the image `b`:
/// the next slot holds it, or there is no room and nothing changed.
pub open spec fn appends(
    a: Seq<u8>,
    b: Seq<u8>,
    r: Result<u16>,
    n: crate::engine::walker::model::Node,
    size: int,
) -> bool {
    if crate::store::blob_frame::fits(a, size) {
        &&& grew(a, b, size)
        &&& r == Ok::<u16, Error>(crate::store::blob_frame::slots_of(a) as u16)
        &&& crate::engine::walker::model::node(b, crate::store::blob_frame::slots_of(a)) == n
    } else {
        &&& r == Err::<u16, Error>(Error::OutOfSpace)
        &&& b == a
    }
}

/// `s` filled up with zeros to `size` bytes.
pub open spec fn padded(s: Seq<u8>, size: int) -> Seq<u8> {
    s + Seq::new((size - s.len()) as nat, |i: int| 0u8)
}

/// Fill `body` up with zeros to `size` bytes.
fn pad_to(body: &mut Vec<u8>, size: usize)
    requires
        old(body)@.len() <= size,
    ensures
        final(body)@ == padded(old(body)@, size as int),
{
    while body.len() < size
        invariant
            old(body)@.len() <= body@.len() <= size,
            body@ == padded(old(body)@, body@.len() as int),
        decreases size - body@.len(),
    {
        body.push(0);
        assert(body@ =~= padded(old(body)@, body@.len() as int));
    }
}

/// The body of a live leaf.
pub open spec fn leaf_body(key: Seq<u8>, value: Seq<u8>, seq: int) -> Seq<u8> {
    padded(
        crate::bytes::u64_bytes(seq) + crate::bytes::u16_bytes(value.len() as int)
            + crate::bytes::u16_bytes(key.len() as int) + crate::bytes::u32_bytes(0) + key + value,
        crate::layout::leaf::leaf_size(key.len() as int, value.len() as int),
    )
}

/// A leaf body reads back as the key and value it was made of.
pub proof fn lemma_leaf_body(key: Seq<u8>, value: Seq<u8>, seq: int)
    requires
        key.len() <= 65535,
        value.len() <= 65535,
        0 <= seq < 0x1_0000_0000_0000_0000,
    ensures
        crate::store::blob_frame::body_fits_type(NodeType::Leaf, leaf_body(key, value, seq)),
        crate::engine::walker::model::parse(NodeType::Leaf, leaf_body(key, value, seq))
            == (crate::engine::walker::model::Node::Leaf {
            key,
            value: crate::engine::walker::model::Stamped { bytes: value, seq },
            live: true,
        }),
        leaf_body(key, value, seq).len() == crate::layout::leaf::leaf_size(
            key.len() as int,
            value.len() as int,
        ),
{
    let b = leaf_body(key, value, seq);
    let k = crate::bytes::u16_bytes(key.len() as int);
    let v = crate::bytes::u16_bytes(value.len() as int);
    let t = crate::bytes::u32_bytes(0);
    crate::bytes::lemma_u64_bytes(seq);
    crate::bytes::lemma_u16_bytes(value.len() as int);
    crate::bytes::lemma_u16_bytes(key.len() as int);
    crate::bytes::lemma_u32_bytes(0);
    crate::layout::leaf::leaf_size_is_tight(key.len() as int, value.len() as int);
    assert(b[8] == v[0] && b[9] == v[1]);
    assert(b[10] == k[0] && b[11] == k[1]);
    assert(b[12] == t[0]);
    assert(crate::bytes::le16(b, 8) == value.len());
    assert(crate::bytes::le16(b, 10) == key.len());
    assert(b.subrange(0, 8) =~= crate::bytes::u64_bytes(seq));
    crate::bytes::lemma_le_window(b, 0, 8, 0);
    assert(crate::bytes::le64(b, 0) == seq);
    assert(crate::engine::walker::model::leaf_key(b) =~= key);
    assert(crate::engine::walker::model::leaf_value(b) =~= value);
}

/// Append a live leaf.
pub fn alloc_leaf(frame: &mut BlobFrame, key: &[u8], value: &[u8], seq: u64) -> (r: Result<u16>)
    requires
        crate::store::blob_frame::frame_ok(old(frame)@),
        key@.len() <= 65535,
        value@.len() <= 65535,
    ensures
        appends(
            old(frame)@,
            final(frame)@,
            r,
            crate::engine::walker::model::Node::Leaf {
                key: key@,
                value: crate::engine::walker::model::stamp(value@, seq),
                live: true,
            },
            crate::layout::leaf::leaf_size(key@.len() as int, value@.len() as int),
        ),
{
    let klen: u16 = key.len() as u16;
    let vlen: u16 = value.len() as u16;
    let size: usize = leaf_body_size(klen as u32, vlen as u32) as usize;
    let mut body: Vec<u8> = Vec::with_capacity(size);
    push_u64(&mut body, seq);
    push_u16(&mut body, vlen);
    push_u16(&mut body, klen);
    push_u32(&mut body, 0);
    push_slice(&mut body, key);
    push_slice(&mut body, value);
    proof {
        crate::bytes::lemma_u64_bytes(seq as int);
        crate::bytes::lemma_u32_bytes(0);
        crate::layout::leaf::leaf_size_is_tight(klen as int, vlen as int);
        lemma_leaf_body(key@, value@, seq as int);
    }
    pad_to(&mut body, size);
    assert(body@ =~= leaf_body(key@, value@, seq as int));
    frame.alloc_node(NodeType::Leaf, body.as_slice())
}

/// Append a prefix node.
pub fn alloc_prefix(frame: &mut BlobFrame, bytes: &[u8], child: u16) -> (r: Result<u16>)
    requires
        crate::store::blob_frame::frame_ok(old(frame)@),
        1 <= bytes@.len() <= 120,
    ensures
        appends(
            old(frame)@,
            final(frame)@,
            r,
            crate::engine::walker::model::Node::Prefix { bytes: bytes@, child: child as int },
            128,
        ),
{
    let mut body: Vec<u8> = Vec::with_capacity(128);
    push_u32(&mut body, child as u32);
    push_u32(&mut body, bytes.len() as u32);
    push_slice(&mut body, bytes);
    let ghost c = crate::bytes::u32_bytes(child as int);
    let ghost l = crate::bytes::u32_bytes(bytes@.len() as int);
    proof {
        crate::bytes::lemma_u32_bytes(child as int);
        crate::bytes::lemma_u32_bytes(bytes@.len() as int);
    }
    pad_to(&mut body, 128);
    proof {
        let b = body@;
        assert(b.subrange(0, 4) =~= c);
        assert(b.subrange(4, 8) =~= l);
        crate::bytes::lemma_le_window(b, 0, 4, 0);
        crate::bytes::lemma_le_window(b, 4, 8, 0);
        crate::bytes::lemma_le16(b, 0);
        crate::bytes::lemma_le16(b, 2);
        assert(crate::bytes::le16(b, 0) == child);
        assert(b.subrange(8, 8 + bytes@.len() as int) =~= bytes@);
    }
    frame.alloc_node(NodeType::Prefix, body.as_slice())
}

/// Append a crossing into the blob `guid`.
pub fn alloc_blob_node(frame: &mut BlobFrame, guid: BlobGuid, prefix: &[u8]) -> (r: Result<u16>)
    requires
        crate::store::blob_frame::frame_ok(old(frame)@),
        prefix@.len() <= 104,
    ensures
        appends(
            old(frame)@,
            final(frame)@,
            r,
            crate::engine::walker::model::Node::Blob { guid: guid@, prefix: prefix@ },
            128,
        ),
{
    let mut body: Vec<u8> = Vec::with_capacity(128);
    push_slice(&mut body, guid.as_slice());
    push_u32(&mut body, prefix.len() as u32);
    push_u32(&mut body, 0);
    push_slice(&mut body, prefix);
    let ghost l = crate::bytes::u32_bytes(prefix@.len() as int);
    proof {
        crate::bytes::lemma_u32_bytes(prefix@.len() as int);
        crate::bytes::lemma_u32_bytes(0);
    }
    pad_to(&mut body, 128);
    proof {
        let b = body@;
        assert(b.subrange(0, 16) =~= guid@);
        assert(b.subrange(16, 20) =~= l);
        crate::bytes::lemma_le_window(b, 16, 20, 0);
        assert(b.subrange(24, 24 + prefix@.len() as int) =~= prefix@);
    }
    frame.alloc_node(NodeType::Blob, body.as_slice())
}

/// Append the root of an empty tree.
pub fn alloc_empty(frame: &mut BlobFrame) -> (r: Result<u16>)
    requires
        crate::store::blob_frame::frame_ok(old(frame)@),
    ensures
        appends(old(frame)@, final(frame)@, r, crate::engine::walker::model::Node::Empty, 8),
{
    let body: [u8; 8] = [0u8; 8];
    frame.alloc_node(NodeType::EmptyRoot, body.as_slice())
}

// ---------- inner nodes ----------

/// The type an inner node with `n` children gets.
pub open spec fn inner_type(n: int) -> NodeType {
    if n <= 4 {
        NodeType::Node4
    } else if n <= 16 {
        NodeType::Node16
    } else if n <= 48 {
        NodeType::Node48
    } else {
        NodeType::Node256
    }
}

/// Children that an inner node can be made of.
pub open spec fn pairs_ok(pairs: Seq<(u8, u16)>) -> bool {
    &&& crate::engine::walker::model::strictly_sorted(pairs)
    &&& forall|i: int| 0 <= i < pairs.len() ==> (#[trigger] pairs[i]).1 != 0
}

/// `body` indexes exactly `pairs`, as a `Node48` does.
spec fn indexes48(body: Seq<u8>, pairs: Seq<(u8, u16)>) -> bool {
    &&& forall|i: int| 0 <= i < pairs.len() ==> body[8 + (#[trigger] pairs[i]).0] == i + 1
    &&& forall|i: int|
        0 <= i < pairs.len() ==> crate::bytes::le16(body, 264 + 2 * i) == (#[trigger] pairs[i]).1
    &&& forall|b: int|
        0 <= b < 256 && (forall|i: int| 0 <= i < pairs.len() ==> (#[trigger] pairs[i]).0 != b)
            ==> #[trigger] body[8 + b] == 0
}

proof fn lemma_indexes48(body: Seq<u8>, pairs: Seq<(u8, u16)>, n: int) -> (c: int)
    requires
        0 <= n <= 256,
        pairs.len() <= 48,
        crate::engine::walker::model::strictly_sorted(pairs),
        indexes48(body, pairs),
    ensures
        0 <= c <= pairs.len(),
        crate::engine::walker::model::pairs48(body, n) == pairs.take(c),
        forall|i: int| 0 <= i < c ==> (#[trigger] pairs[i]).0 < n,
        forall|i: int| c <= i < pairs.len() ==> (#[trigger] pairs[i]).0 >= n,
    decreases n,
{
    if n == 0 {
        assert(crate::engine::walker::model::pairs48(body, 0) =~= pairs.take(0));
        0
    } else {
        let c = lemma_indexes48(body, pairs, n - 1);
        if c < pairs.len() && pairs[c].0 == n - 1 {
            assert(body[8 + (n - 1)] == c + 1);
            assert(crate::bytes::le16(body, 264 + 2 * c) == pairs[c].1);
            assert(crate::engine::walker::model::pairs48(body, n) =~= pairs.take(c + 1));
            assert forall|i: int| c + 1 <= i < pairs.len() implies (#[trigger] pairs[i]).0 >= n by {
                assert(pairs[c].0 < pairs[i].0);
            }
            c + 1
        } else {
            assert(body[8 + (n - 1)] == 0) by {
                assert forall|i: int| 0 <= i < pairs.len() implies (#[trigger] pairs[i]).0 != n
                    - 1 by {
                    if c < i {
                        assert(pairs[c].0 < pairs[i].0);
                        assert(pairs[c].0 >= n - 1);
                    }
                }
            }
            assert forall|i: int| c <= i < pairs.len() implies (#[trigger] pairs[i]).0 >= n by {
                if c < i {
                    assert(pairs[c].0 < pairs[i].0);
                }
            }
            c
        }
    }
}

/// `body` holds exactly `pairs`, as a `Node256` does.
spec fn indexes256(body: Seq<u8>, pairs: Seq<(u8, u16)>) -> bool {
    &&& forall|i: int|
        0 <= i < pairs.len() ==> crate::engine::walker::model::child256(
            body,
            (#[trigger] pairs[i]).0 as int,
        ) == pairs[i].1
    &&& forall|b: int|
        0 <= b < 256 && (forall|i: int| 0 <= i < pairs.len() ==> (#[trigger] pairs[i]).0 != b)
            ==> #[trigger] crate::engine::walker::model::child256(body, b) == 0
}

proof fn lemma_indexes256(body: Seq<u8>, pairs: Seq<(u8, u16)>, n: int) -> (c: int)
    requires
        0 <= n <= 256,
        pairs_ok(pairs),
        indexes256(body, pairs),
    ensures
        0 <= c <= pairs.len(),
        crate::engine::walker::model::pairs256(body, n) == pairs.take(c),
        forall|i: int| 0 <= i < c ==> (#[trigger] pairs[i]).0 < n,
        forall|i: int| c <= i < pairs.len() ==> (#[trigger] pairs[i]).0 >= n,
    decreases n,
{
    if n == 0 {
        assert(crate::engine::walker::model::pairs256(body, 0) =~= pairs.take(0));
        0
    } else {
        let c = lemma_indexes256(body, pairs, n - 1);
        if c < pairs.len() && pairs[c].0 == n - 1 {
            assert(crate::engine::walker::model::child256(body, n - 1) == pairs[c].1);
            assert(crate::engine::walker::model::pairs256(body, n) =~= pairs.take(c + 1));
            assert forall|i: int| c + 1 <= i < pairs.len() implies (#[trigger] pairs[i]).0 >= n by {
                assert(pairs[c].0 < pairs[i].0);
            }
            c + 1
        } else {
            assert(crate::engine::walker::model::child256(body, n - 1) == 0) by {
                assert forall|i: int| 0 <= i < pairs.len() implies (#[trigger] pairs[i]).0 != n
                    - 1 by {
                    if c < i {
                        assert(pairs[c].0 < pairs[i].0);
                        assert(pairs[c].0 >= n - 1);
                    }
                }
            }
            assert forall|i: int| c <= i < pairs.len() implies (#[trigger] pairs[i]).0 >= n by {
                if c < i {
                    assert(pairs[c].0 < pairs[i].0);
                }
            }
            c
        }
    }
}

/// A body of the two small inner nodes.
fn small_body(pairs: &[(u8, u16)], wide: bool) -> (body: Vec<u8>)
    requires
        pairs@.len() <= (if wide {
            16int
        } else {
            4int
        }),
    ensures
        wide ==> body@.len() == 56 && crate::engine::walker::model::pairs16(body@) == pairs@,
        !wide ==> body@.len() == 16 && crate::engine::walker::model::pairs4(body@) == pairs@,
{
    let size: usize = if wide {
        56
    } else {
        16
    };
    let keys_at: usize = if wide {
        8
    } else {
        4
    };
    let children_at: usize = if wide {
        24
    } else {
        8
    };
    let mut body: Vec<u8> = vec![0u8; size];
    body[0] = pairs.len() as u8;
    let mut i: usize = 0;
    while i < pairs.len()
        invariant
            i <= pairs@.len() <= 16,
            body@.len() == size,
            keys_at == (if wide {
                8int
            } else {
                4
            }),
            children_at == (if wide {
                24int
            } else {
                8
            }),
            size == (if wide {
                56int
            } else {
                16
            }),
            pairs@.len() <= (if wide {
                16int
            } else {
                4
            }),
            body@[0] == pairs@.len(),
            forall|j: int| 0 <= j < i ==> body@[keys_at + j] == (#[trigger] pairs@[j]).0,
            forall|j: int|
                0 <= j < i ==> crate::bytes::le16(body@, children_at + 2 * j) == (
                #[trigger] pairs@[j]).1,
        decreases pairs@.len() - i,
    {
        let (b, c): (u8, u16) = pairs[i];
        let ghost b0 = body@;
        body[keys_at + i] = b;
        let ghost before = body@;
        let ghost part = crate::bytes::u16_bytes(c as int);
        write_u16(&mut body, children_at + 2 * i, c);
        proof {
            crate::bytes::lemma_u16_bytes(c as int);
            crate::bytes::lemma_splice_inside(before, children_at + 2 * i, part, 0);
            assert forall|j: int| 0 <= j < i implies crate::bytes::le16(
                body@,
                children_at + 2 * j,
            ) == (#[trigger] pairs@[j]).1 by {
                crate::bytes::lemma_splice_elsewhere(
                    before,
                    children_at + 2 * i,
                    part,
                    children_at + 2 * j,
                );
                assert(crate::bytes::le16(b0, children_at + 2 * j) == pairs@[j].1);
                assert(crate::bytes::le16(before, children_at + 2 * j) == crate::bytes::le16(
                    b0,
                    children_at + 2 * j,
                ));
            }
        }
        i += 1;
    }
    proof {
        if wide {
            assert(crate::engine::walker::model::pairs16(body@) =~= pairs@);
        } else {
            assert(crate::engine::walker::model::pairs4(body@) =~= pairs@);
        }
    }
    body
}

/// A `Node48` body.
fn body48(pairs: &[(u8, u16)]) -> (body: Vec<u8>)
    requires
        pairs@.len() <= 48,
        crate::engine::walker::model::strictly_sorted(pairs@),
    ensures
        body@.len() == 360,
        crate::engine::walker::model::pairs48(body@, 256) == pairs@,
{
    let mut body: Vec<u8> = vec![0u8; 360];
    let mut i: usize = 0;
    while i < pairs.len()
        invariant
            i <= pairs@.len() <= 48,
            crate::engine::walker::model::strictly_sorted(pairs@),
            body@.len() == 360,
            indexes48(body@, pairs@.take(i as int)),
        decreases pairs@.len() - i,
    {
        let (b, c): (u8, u16) = pairs[i];
        let ghost b0 = body@;
        let ghost done = pairs@.take(i as int);
        body[8 + b as usize] = (i + 1) as u8;
        let ghost before = body@;
        let ghost part = crate::bytes::u16_bytes(c as int);
        write_u16(&mut body, 264 + 2 * i, c);
        proof {
            let more = pairs@.take(i + 1);
            crate::bytes::lemma_u16_bytes(c as int);
            crate::bytes::lemma_splice_inside(before, 264 + 2 * i, part, 0);
            assert forall|j: int| 0 <= j < more.len() implies body@[8 + (#[trigger] more[j]).0] == j
                + 1 by {
                if j < i {
                    assert(done[j] == more[j]);
                    assert(pairs@[j].0 < pairs@[i as int].0);
                }
            }
            assert forall|j: int| 0 <= j < more.len() implies crate::bytes::le16(
                body@,
                264 + 2 * j,
            ) == (#[trigger] more[j]).1 by {
                if j < i {
                    assert(done[j] == more[j]);
                    crate::bytes::lemma_splice_elsewhere(before, 264 + 2 * i, part, 264 + 2 * j);
                    assert(crate::bytes::le16(before, 264 + 2 * j) == crate::bytes::le16(
                        b0,
                        264 + 2 * j,
                    ));
                }
            }
            assert forall|x: int|
                0 <= x < 256 && (forall|j: int| 0 <= j < more.len() ==> (#[trigger] more[j]).0
                    != x) implies #[trigger] body@[8 + x] == 0 by {
                assert(more[i as int].0 == b);
                assert(forall|j: int| 0 <= j < done.len() ==> (#[trigger] done[j]).0 != x) by {
                    assert forall|j: int| 0 <= j < done.len() implies (#[trigger] done[j]).0
                        != x by {
                        assert(more[j] == done[j]);
                    }
                }
                assert(b0[8 + x] == 0);
            }
        }
        i += 1;
    }
    proof {
        assert(pairs@.take(pairs@.len() as int) =~= pairs@);
        let c = lemma_indexes48(body@, pairs@, 256);
        assert(c == pairs@.len()) by {
            if c < pairs@.len() {
                assert(pairs@[c].0 >= 256);
            }
        }
        assert(pairs@.take(c) =~= pairs@);
    }
    body
}

/// A `Node256` body.
fn body256(pairs: &[(u8, u16)]) -> (body: Vec<u8>)
    requires
        pairs_ok(pairs@),
    ensures
        body@.len() == 520,
        crate::engine::walker::model::pairs256(body@, 256) == pairs@,
{
    let mut body: Vec<u8> = vec![0u8; 520];
    let mut i: usize = 0;
    while i < pairs.len()
        invariant
            i <= pairs@.len(),
            pairs_ok(pairs@),
            body@.len() == 520,
            indexes256(body@, pairs@.take(i as int)),
        decreases pairs@.len() - i,
    {
        let (b, c): (u8, u16) = pairs[i];
        let ghost before = body@;
        let ghost done = pairs@.take(i as int);
        let ghost part = crate::bytes::u16_bytes(c as int);
        write_u16(&mut body, 8 + 2 * b as usize, c);
        proof {
            let more = pairs@.take(i + 1);
            crate::bytes::lemma_u16_bytes(c as int);
            crate::bytes::lemma_splice_inside(before, 8 + 2 * b, part, 0);
            assert forall|x: int| 0 <= x < 256 && x != b implies
                #[trigger] crate::engine::walker::model::child256(body@, x)
                == crate::engine::walker::model::child256(before, x) by {
                crate::bytes::lemma_splice_elsewhere(before, 8 + 2 * b, part, 8 + 2 * x);
            }
            assert forall|j: int| 0 <= j < more.len() implies
                crate::engine::walker::model::child256(body@, (#[trigger] more[j]).0 as int)
                == more[j].1 by {
                if j < i {
                    assert(done[j] == more[j]);
                    assert(pairs@[j].0 < pairs@[i as int].0);
                }
            }
            assert forall|x: int|
                0 <= x < 256 && (forall|j: int| 0 <= j < more.len() ==> (#[trigger] more[j]).0
                    != x) implies #[trigger] crate::engine::walker::model::child256(body@, x)
                == 0 by {
                assert(more[i as int].0 == b);
                assert(forall|j: int| 0 <= j < done.len() ==> (#[trigger] done[j]).0 != x) by {
                    assert forall|j: int| 0 <= j < done.len() implies (#[trigger] done[j]).0
                        != x by {
                        assert(more[j] == done[j]);
                    }
                }
                assert(crate::engine::walker::model::child256(before, x) == 0);
            }
        }
        i += 1;
    }
    proof {
        assert(pairs@.take(pairs@.len() as int) =~= pairs@);
        let c = lemma_indexes256(body@, pairs@, 256);
        assert(c == pairs@.len()) by {
            if c < pairs@.len() {
                assert(pairs@[c].0 >= 256);
            }
        }
        assert(pairs@.take(c) =~= pairs@);
    }
    body
}

/// Append an inner node of the smallest type that holds these children.
pub fn alloc_inner(frame: &mut BlobFrame, pairs: &[(u8, u16)]) -> (r: Result<u16>)
    requires
        crate::store::blob_frame::frame_ok(old(frame)@),
        pairs_ok(pairs@),
    ensures
        appends(
            old(frame)@,
            final(frame)@,
            r,
            crate::engine::walker::model::Node::Inner { pairs: pairs@ },
            crate::layout::node::node_size(inner_type(pairs@.len() as int)),
        ),
{
    let n: usize = pairs.len();
    if n <= 4 {
        let body: Vec<u8> = small_body(pairs, false);
        frame.alloc_node(NodeType::Node4, body.as_slice())
    } else if n <= 16 {
        let body: Vec<u8> = small_body(pairs, true);
        frame.alloc_node(NodeType::Node16, body.as_slice())
    } else if n <= 48 {
        let body: Vec<u8> = body48(pairs);
        frame.alloc_node(NodeType::Node48, body.as_slice())
    } else {
        let body: Vec<u8> = body256(pairs);
        frame.alloc_node(NodeType::Node256, body.as_slice())
    }
}

// ---------- changes in place ----------

/// `b` is `a` with the body of slot `p` overwritten in part.
pub open spec fn only_changed(a: Seq<u8>, b: Seq<u8>, p: int) -> bool {
    &&& crate::store::blob_frame::frame_ok(b)
    &&& crate::store::blob_frame::same_header(a, b)
    &&& crate::store::blob_frame::slots_of(b) == crate::store::blob_frame::slots_of(a)
    &&& crate::store::blob_frame::bump_of(b) == crate::store::blob_frame::bump_of(a)
    &&& crate::store::blob_frame::has_body(b, p)
    &&& crate::store::blob_frame::type_at(b, p) == crate::store::blob_frame::type_at(a, p)
    &&& forall|s: int| #[trigger]
        crate::store::blob_frame::has_body(a, s) && s != p ==> crate::store::blob_frame::same_node(
            a,
            b,
            s,
        )
}

/// The node with its child replaced, where it is a prefix node.
pub open spec fn with_child(
    n: crate::engine::walker::model::Node,
    child: int,
) -> crate::engine::walker::model::Node {
    match n {
        crate::engine::walker::model::Node::Prefix { bytes, child: c } => {
            crate::engine::walker::model::Node::Prefix { bytes, child }
        },
        _ => n,
    }
}

/// Point the prefix node at `slot` to another child.
pub fn set_prefix_child(frame: &mut BlobFrame, slot: u16, child: u16) -> (r: Result<()>)
    requires
        crate::store::blob_frame::frame_ok(old(frame)@),
    ensures
        if crate::store::blob_frame::has_body(old(frame)@, slot as int)
            && crate::store::blob_frame::type_at(old(frame)@, slot as int) == Some(
            NodeType::Prefix,
        ) {
            &&& r is Ok
            &&& only_changed(old(frame)@, final(frame)@, slot as int)
            &&& crate::engine::walker::model::node(final(frame)@, slot as int) == with_child(
                crate::engine::walker::model::node(old(frame)@, slot as int),
                child as int,
            )
        } else {
            &&& r == Err::<(), Error>(Error::corrupt("set_prefix_child: not a prefix"))
            &&& final(frame)@ == old(frame)@
        },
{
    match resolve_typed(frame, slot) {
        Ok((NodeType::Prefix, _body)) => {},
        _ => {
            return Err(Error::node_corrupt("set_prefix_child: not a prefix"));
        },
    }
    let ghost body = crate::store::blob_frame::body_at(frame@, slot as int);
    proof {
        crate::store::blob_frame::lemma_len_at(frame@, slot as int);
    }
    let mut part: Vec<u8> = Vec::new();
    push_u32(&mut part, child as u32);
    proof {
        crate::bytes::lemma_u32_bytes(child as int);
        assert(part@ =~= crate::bytes::u32_bytes(child as int));
    }
    frame.write_body(slot, 0, part.as_slice());
    proof {
        let new = crate::bytes::splice(body, 0, part@);
        crate::bytes::lemma_splice_inside(body, 0, part@, 0);
        crate::bytes::lemma_splice_elsewhere(body, 0, part@, 4);
        crate::bytes::lemma_le16(new, 0);
        crate::bytes::lemma_le16(new, 2);
        assert(crate::bytes::le16(new, 0) == child);
        let len = crate::bytes::le32(body, 4);
        crate::bytes::lemma_le32(body, 4);
        if 1 <= len <= 120 {
            crate::bytes::lemma_splice_window(body, 0, part@, 8, 8 + len);
        }
    }
    Ok(())
}

/// Point the crossing at `slot` to another blob.
pub fn repoint_blob_node(frame: &mut BlobFrame, slot: u16, guid: BlobGuid) -> (r: Result<()>)
    requires
        crate::store::blob_frame::frame_ok(old(frame)@),
    ensures
        if crate::store::blob_frame::has_body(old(frame)@, slot as int)
            && crate::store::blob_frame::type_at(old(frame)@, slot as int) == Some(NodeType::Blob) {
            &&& r is Ok
            &&& only_changed(old(frame)@, final(frame)@, slot as int)
            &&& crate::store::blob_frame::body_at(final(frame)@, slot as int).subrange(0, 16)
                == guid@
            &&& crate::engine::walker::model::node(final(frame)@, slot as int) == (
            match crate::engine::walker::model::node(old(frame)@, slot as int) {
                crate::engine::walker::model::Node::Blob { guid: g, prefix } => {
                    crate::engine::walker::model::Node::Blob { guid: guid@, prefix }
                },
                n => n,
            })
        } else {
            &&& r == Err::<(), Error>(Error::corrupt("repoint_blob_node: not a crossing"))
            &&& final(frame)@ == old(frame)@
        },
{
    match resolve_typed(frame, slot) {
        Ok((NodeType::Blob, _body)) => {},
        _ => {
            return Err(Error::node_corrupt("repoint_blob_node: not a crossing"));
        },
    }
    let ghost body = crate::store::blob_frame::body_at(frame@, slot as int);
    proof {
        crate::store::blob_frame::lemma_len_at(frame@, slot as int);
    }
    frame.write_body(slot, 0, guid.as_slice());
    proof {
        crate::bytes::lemma_splice_elsewhere(body, 0, guid@, 16);
        crate::bytes::lemma_splice_window(body, 0, guid@, 0, 16);
        let len = crate::bytes::le32(body, 16);
        crate::bytes::lemma_le32(body, 16);
        if len <= 104 {
            crate::bytes::lemma_splice_window(body, 0, guid@, 24, 24 + len);
        }
    }
    Ok(())
}

/// Among the children `b` and `a` of an inner node only those that were `from`
/// changed, and they are `to`; that of `byte` did change.
pub open spec fn child_replaced(
    a: Seq<(u8, u16)>,
    b: Seq<(u8, u16)>,
    byte: u8,
    from: u16,
    to: u16,
) -> bool {
    &&& crate::engine::walker::model::child_of(b, byte) == Some(to)
    &&& forall|x: u8|
        {
            let old_child = crate::engine::walker::model::child_of(a, x);
            let new_child = #[trigger] crate::engine::walker::model::child_of(b, x);
            new_child == old_child || (old_child == Some(from) && new_child == Some(to))
        }
}

/// Every pair of `b` is one of `a` or refers to `to`, and no byte comes to be
/// listed twice.
pub open spec fn refs_replaced(a: Seq<(u8, u16)>, b: Seq<(u8, u16)>, to: int) -> bool {
    &&& forall|i: int| 0 <= i < b.len() ==> (#[trigger] b[i]).1 == to || a.contains(b[i])
    &&& crate::engine::walker::model::distinct_bytes(a)
        ==> crate::engine::walker::model::distinct_bytes(b)
}

/// The list `b` is `a` but that some children that were `from` are `to`.
pub open spec fn list_replaced(
    a: Seq<(u8, u16)>,
    b: Seq<(u8, u16)>,
    from: u16,
    to: u16,
) -> bool {
    &&& b.len() == a.len()
    &&& forall|i: int|
        0 <= i < a.len() ==> (#[trigger] b[i]).0 == a[i].0 && (b[i].1 == a[i].1 || (a[i].1 == from
            && b[i].1 == to))
}

proof fn lemma_list48(body: Seq<u8>, new: Seq<u8>, n: int, from: u16, to: u16)
    requires
        0 <= n <= 256,
        forall|x: int|
            0 <= x < 256 ==> {
                &&& #[trigger] new[8 + x] == body[8 + x]
                &&& crate::engine::walker::model::child48(new, x)
                    == crate::engine::walker::model::child48(body, x) || (body[8 + x] != 0
                    && crate::engine::walker::model::child48(body, x) == from
                    && crate::engine::walker::model::child48(new, x) == to) || body[8 + x] == 0
            },
    ensures
        list_replaced(
            crate::engine::walker::model::pairs48(body, n),
            crate::engine::walker::model::pairs48(new, n),
            from,
            to,
        ),
    decreases n,
{
    if n > 0 {
        lemma_list48(body, new, n - 1, from, to);
        let x = n - 1;
        assert(new[8 + x] == body[8 + x]);
        let pa = crate::engine::walker::model::pairs48(body, n - 1);
        let pb = crate::engine::walker::model::pairs48(new, n - 1);
        let a = crate::engine::walker::model::pairs48(body, n);
        let b = crate::engine::walker::model::pairs48(new, n);
        assert forall|i: int| 0 <= i < a.len() implies (#[trigger] b[i]).0 == a[i].0 && (b[i].1
            == a[i].1 || (a[i].1 == from && b[i].1 == to)) by {
            if i < pa.len() {
                assert(b[i] == pb[i]);
                assert(a[i] == pa[i]);
            }
        }
    }
}

proof fn lemma_list256(body: Seq<u8>, new: Seq<u8>, n: int, from: u16, to: u16)
    requires
        0 <= n <= 256,
        from != 0,
        to != 0,
        forall|x: int|
            0 <= x < 256 ==> (#[trigger] crate::engine::walker::model::child256(new, x))
                == crate::engine::walker::model::child256(body, x) || (
            crate::engine::walker::model::child256(body, x) == from
                && crate::engine::walker::model::child256(new, x) == to),
    ensures
        list_replaced(
            crate::engine::walker::model::pairs256(body, n),
            crate::engine::walker::model::pairs256(new, n),
            from,
            to,
        ),
    decreases n,
{
    if n > 0 {
        lemma_list256(body, new, n - 1, from, to);
        let x = crate::engine::walker::model::child256(new, n - 1);
        let pa = crate::engine::walker::model::pairs256(body, n - 1);
        let pb = crate::engine::walker::model::pairs256(new, n - 1);
        let a = crate::engine::walker::model::pairs256(body, n);
        let b = crate::engine::walker::model::pairs256(new, n);
        assert forall|i: int| 0 <= i < a.len() implies (#[trigger] b[i]).0 == a[i].0 && (b[i].1
            == a[i].1 || (a[i].1 == from && b[i].1 == to)) by {
            if i < pa.len() {
                assert(b[i] == pb[i]);
                assert(a[i] == pa[i]);
            }
        }
    }
}

proof fn lemma_first_update(pairs: Seq<(u8, u16)>, i: int, x: u16, b: u8)
    requires
        0 <= i < pairs.len(),
        crate::engine::walker::model::is_child(pairs, pairs[i].0, i),
    ensures
        crate::engine::walker::model::child_of(pairs.update(i, (pairs[i].0, x)), b) == (if b
            == pairs[i].0 {
            Some(x)
        } else {
            crate::engine::walker::model::child_of(pairs, b)
        }),
{
    let new = pairs.update(i, (pairs[i].0, x));
    crate::engine::walker::model::lemma_child_of(new, b);
    crate::engine::walker::model::lemma_child_of(pairs, b);
    assert(forall|j: int| 0 <= j < new.len() ==> (#[trigger] new[j]).0 == pairs[j].0);
    if b == pairs[i].0 {
        assert(crate::engine::walker::model::is_child(new, b, i));
    } else if crate::engine::walker::model::child_of(pairs, b) is Some {
        let j = crate::engine::walker::laws::lemma_child_listed(pairs, b);
        assert(crate::engine::walker::model::is_child(new, b, j)) by {
            assert forall|k: int| 0 <= k < j implies (#[trigger] new[k]).0 != b by {
                assert(pairs[k].0 != b);
            }
        }
    } else if crate::engine::walker::model::child_of(new, b) is Some {
        let j = crate::engine::walker::laws::lemma_child_listed(new, b);
        assert(pairs[j].0 == b);
        assert(crate::engine::walker::model::has_child(pairs, b));
    }
}

/// The child that a `Node48` has for a byte.
pub proof fn lemma_child48(body: Seq<u8>, b: u8)
    ensures
        crate::engine::walker::model::child_of(
            crate::engine::walker::model::pairs48(body, 256),
            b,
        ) == (if body[8 + b] == 0 {
            None
        } else {
            Some(crate::engine::walker::model::child48(body, b as int))
        }),
{
    let pairs = crate::engine::walker::model::pairs48(body, 256);
    crate::engine::walker::model::lemma_pairs48(body, 256);
    crate::engine::walker::model::lemma_child_of(pairs, b);
    if crate::engine::walker::model::child_of(pairs, b) is Some {
        let i = crate::engine::walker::laws::lemma_child_listed(pairs, b);
    } else if body[8 + b] != 0 {
        assert(crate::engine::walker::model::has_child(pairs, b));
    }
}

/// The child that a `Node256` has for a byte.
pub proof fn lemma_child256(body: Seq<u8>, b: u8)
    ensures
        crate::engine::walker::model::child_of(
            crate::engine::walker::model::pairs256(body, 256),
            b,
        ) == (if crate::engine::walker::model::child256(body, b as int) == 0 {
            None
        } else {
            Some(crate::engine::walker::model::child256(body, b as int))
        }),
{
    let pairs = crate::engine::walker::model::pairs256(body, 256);
    crate::engine::walker::model::lemma_pairs256(body, 256);
    crate::engine::walker::model::lemma_child_of(pairs, b);
    if crate::engine::walker::model::child_of(pairs, b) is Some {
        let i = crate::engine::walker::laws::lemma_child_listed(pairs, b);
    } else if crate::engine::walker::model::child256(body, b as int) != 0 {
        assert(crate::engine::walker::model::has_child(pairs, b));
    }
}

/// Point the child of `byte` of the inner node at `slot` from `from` to `to`.
/// Says `false`, changing nothing, where that child is not `from`.
pub fn inner_update_child(
    frame: &mut BlobFrame,
    slot: u16,
    ntype: NodeType,
    byte: u8,
    from: u16,
    to: u16,
) -> (changed: bool)
    requires
        crate::store::blob_frame::frame_ok(old(frame)@),
        crate::store::blob_frame::has_body(old(frame)@, slot as int),
        crate::store::blob_frame::type_at(old(frame)@, slot as int) == Some(ntype),
        crate::engine::walker::readers::is_inner(ntype),
        from != 0,
        to != 0,
    ensures
        ({
            let before = crate::engine::walker::model::node(old(frame)@, slot as int);
            let after = crate::engine::walker::model::node(final(frame)@, slot as int);
            &&& before is Inner
            &&& changed == (crate::engine::walker::model::child_of(before->pairs, byte) == Some(
                from,
            ))
            &&& changed ==> {
                &&& only_changed(old(frame)@, final(frame)@, slot as int)
                &&& after is Inner
                &&& child_replaced(before->pairs, after->pairs, byte, from, to)
                &&& refs_replaced(before->pairs, after->pairs, to as int)
                &&& list_replaced(before->pairs, after->pairs, from, to)
            }
            &&& !changed ==> final(frame)@ == old(frame)@
        }),
{
    let ghost img = frame@;
    let ghost body = crate::store::blob_frame::body_at(img, slot as int);
    let ghost pairs = crate::engine::walker::model::node(img, slot as int)->pairs;
    proof {
        crate::store::blob_frame::lemma_len_at(img, slot as int);
    }
    let rel: usize = match frame.body_of_slot(slot) {
        Some(b) => match child_place(ntype, b, byte) {
            Some((at, child)) => {
                if child != from {
                    return false;
                }
                at
            },
            None => {
                return false;
            },
        },
        None => {
            return false;
        },
    };
    let mut part: Vec<u8> = Vec::new();
    push_u16(&mut part, to);
    proof {
        crate::bytes::lemma_u16_bytes(to as int);
        assert(part@ =~= crate::bytes::u16_bytes(to as int));
    }
    frame.write_body(slot, rel, part.as_slice());
    proof {
        lemma_child_written(ntype, body, byte, rel as int, from, to);
    }
    true
}

/// Where in an inner node's body the child reference of `byte` stands.
spec fn is_child_place(ntype: NodeType, body: Seq<u8>, byte: u8, at: int, child: u16) -> bool {
    match ntype {
        NodeType::Node4 => exists|i: int|
            #![trigger crate::engine::walker::model::is_child(
                crate::engine::walker::model::pairs4(body),
                byte,
                i,
            )]
            crate::engine::walker::model::is_child(
                crate::engine::walker::model::pairs4(body),
                byte,
                i,
            ) && at == 8 + 2 * i && child == crate::engine::walker::model::pairs4(body)[i].1,
        NodeType::Node16 => exists|i: int|
            #![trigger crate::engine::walker::model::is_child(
                crate::engine::walker::model::pairs16(body),
                byte,
                i,
            )]
            crate::engine::walker::model::is_child(
                crate::engine::walker::model::pairs16(body),
                byte,
                i,
            ) && at == 24 + 2 * i && child == crate::engine::walker::model::pairs16(body)[i].1,
        NodeType::Node48 => 1 <= body[8 + byte] <= 48 && at == 264 + 2 * (body[8 + byte] - 1)
            && child == crate::engine::walker::model::child48(body, byte as int),
        _ => at == 8 + 2 * byte && child == crate::engine::walker::model::child256(
            body,
            byte as int,
        ) && child != 0,
    }
}

fn child_place(ntype: NodeType, body: &[u8], byte: u8) -> (r: Option<(usize, u16)>)
    requires
        crate::store::blob_frame::body_fits_type(ntype, body@),
        crate::engine::walker::readers::is_inner(ntype),
    ensures
        match r {
            Some((at, child)) => {
                &&& is_child_place(ntype, body@, byte, at as int, child)
                &&& at + 2 <= body@.len()
                &&& crate::engine::walker::model::child_of(
                    crate::engine::walker::model::parse(ntype, body@)->pairs,
                    byte,
                ) == Some(child)
            },
            None => match crate::engine::walker::model::child_of(
                crate::engine::walker::model::parse(ntype, body@)->pairs,
                byte,
            ) {
                Some(c) => c == 0,
                None => true,
            },
        },
{
    let ghost pairs = crate::engine::walker::model::parse(ntype, body@)->pairs;
    match ntype {
        NodeType::Node48 => {
            proof {
                lemma_child48(body@, byte);
            }
            let idx: u8 = body[8 + byte as usize];
            if idx == 0 || idx > 48 {
                return None;
            }
            let at: usize = 264 + 2 * (idx as usize - 1);
            Some((at, read_u16(body, at)))
        },
        NodeType::Node256 => {
            proof {
                lemma_child256(body@, byte);
            }
            let at: usize = 8 + 2 * byte as usize;
            let c: u16 = read_u16(body, at);
            if c == 0 {
                return None;
            }
            Some((at, c))
        },
        _ => {
            let wide: bool = ntype == NodeType::Node16;
            let cap: usize = if wide {
                16
            } else {
                4
            };
            let keys_at: usize = if wide {
                8
            } else {
                4
            };
            let children_at: usize = if wide {
                24
            } else {
                8
            };
            let count: usize = if (body[0] as usize) < cap {
                body[0] as usize
            } else {
                cap
            };
            let mut i: usize = 0;
            while i < count
                invariant
                    ntype == NodeType::Node4 || ntype == NodeType::Node16,
                    wide == (ntype == NodeType::Node16),
                    pairs == crate::engine::walker::model::parse(ntype, body@)->pairs,
                    i <= count <= cap <= 16,
                    count == pairs.len(),
                    keys_at + cap <= body@.len(),
                    children_at + 2 * cap <= body@.len(),
                    keys_at <= 8,
                    children_at == (if wide {
                        24int
                    } else {
                        8
                    }),
                    forall|j: int| 0 <= j < i ==> (#[trigger] pairs[j]).0 != byte,
                    forall|j: int|
                        0 <= j < count ==> #[trigger] pairs[j] == (
                            body@[keys_at + j],
                            crate::bytes::le16(body@, children_at + 2 * j) as u16,
                        ),
                decreases count - i,
            {
                if body[keys_at + i] == byte {
                    proof {
                        assert(pairs[i as int].0 == byte);
                        assert(crate::engine::walker::model::is_child(pairs, byte, i as int));
                        crate::engine::walker::model::lemma_child_of(pairs, byte);
                    }
                    return Some((children_at + 2 * i, read_u16(body, children_at + 2 * i)));
                }
                assert(pairs[i as int].0 != byte);
                i += 1;
            }
            proof {
                crate::engine::walker::model::lemma_child_of(pairs, byte);
                assert(!crate::engine::walker::model::has_child(pairs, byte));
            }
            None
        },
    }
}

/// Overwriting the reference at a child's place replaces that child.
proof fn lemma_child_written(
    ntype: NodeType,
    body: Seq<u8>,
    byte: u8,
    at: int,
    from: u16,
    to: u16,
)
    requires
        crate::store::blob_frame::body_fits_type(ntype, body),
        crate::engine::walker::readers::is_inner(ntype),
        is_child_place(ntype, body, byte, at, from),
        to != 0,
    ensures
        child_replaced(
            crate::engine::walker::model::parse(ntype, body)->pairs,
            crate::engine::walker::model::parse(
                ntype,
                crate::bytes::splice(body, at, crate::bytes::u16_bytes(to as int)),
            )->pairs,
            byte,
            from,
            to,
        ),
        refs_replaced(
            crate::engine::walker::model::parse(ntype, body)->pairs,
            crate::engine::walker::model::parse(
                ntype,
                crate::bytes::splice(body, at, crate::bytes::u16_bytes(to as int)),
            )->pairs,
            to as int,
        ),
        list_replaced(
            crate::engine::walker::model::parse(ntype, body)->pairs,
            crate::engine::walker::model::parse(
                ntype,
                crate::bytes::splice(body, at, crate::bytes::u16_bytes(to as int)),
            )->pairs,
            from,
            to,
        ),
{
    let part = crate::bytes::u16_bytes(to as int);
    let new = crate::bytes::splice(body, at, part);
    let a = crate::engine::walker::model::parse(ntype, body)->pairs;
    let b = crate::engine::walker::model::parse(ntype, new)->pairs;
    crate::bytes::lemma_u16_bytes(to as int);
    match ntype {
        NodeType::Node4 => {
            let i = choose|i: int|
                #![trigger crate::engine::walker::model::is_child(
                    crate::engine::walker::model::pairs4(body),
                    byte,
                    i,
                )]
                crate::engine::walker::model::is_child(
                    crate::engine::walker::model::pairs4(body),
                    byte,
                    i,
                ) && at == 8 + 2 * i && from == crate::engine::walker::model::pairs4(body)[i].1;
            crate::bytes::lemma_splice_inside(body, at, part, 0);
            assert(b =~= a.update(i, (byte, to))) by {
                assert forall|j: int| 0 <= j < b.len() implies b[j] == a.update(i, (byte, to))[j] by {
                    if j != i {
                        crate::bytes::lemma_splice_elsewhere(body, at, part, 8 + 2 * j);
                    }
                }
            }
            assert forall|x: u8| #[trigger]
                crate::engine::walker::model::child_of(b, x) == (if x == byte {
                    Some(to)
                } else {
                    crate::engine::walker::model::child_of(a, x)
                }) by {
                lemma_first_update(a, i, to, x);
            }
            crate::engine::walker::model::lemma_child_of(a, byte);
            assert forall|j: int| 0 <= j < b.len() implies (#[trigger] b[j]).1 == to
                || a.contains(b[j]) by {
                if j != i {
                    assert(a[j] == b[j]);
                }
            }
            reveal(crate::engine::walker::model::distinct_bytes);
        },
        NodeType::Node16 => {
            let i = choose|i: int|
                #![trigger crate::engine::walker::model::is_child(
                    crate::engine::walker::model::pairs16(body),
                    byte,
                    i,
                )]
                crate::engine::walker::model::is_child(
                    crate::engine::walker::model::pairs16(body),
                    byte,
                    i,
                ) && at == 24 + 2 * i && from == crate::engine::walker::model::pairs16(body)[i].1;
            crate::bytes::lemma_splice_inside(body, at, part, 0);
            assert(b =~= a.update(i, (byte, to))) by {
                assert forall|j: int| 0 <= j < b.len() implies b[j] == a.update(i, (byte, to))[j] by {
                    if j != i {
                        crate::bytes::lemma_splice_elsewhere(body, at, part, 24 + 2 * j);
                    }
                }
            }
            assert forall|x: u8| #[trigger]
                crate::engine::walker::model::child_of(b, x) == (if x == byte {
                    Some(to)
                } else {
                    crate::engine::walker::model::child_of(a, x)
                }) by {
                lemma_first_update(a, i, to, x);
            }
            crate::engine::walker::model::lemma_child_of(a, byte);
            assert forall|j: int| 0 <= j < b.len() implies (#[trigger] b[j]).1 == to
                || a.contains(b[j]) by {
                if j != i {
                    assert(a[j] == b[j]);
                }
            }
            reveal(crate::engine::walker::model::distinct_bytes);
        },
        NodeType::Node48 => {
            crate::bytes::lemma_splice_inside(body, at, part, 0);
            assert forall|x: u8| {
                let old_child = crate::engine::walker::model::child_of(a, x);
                let new_child = #[trigger] crate::engine::walker::model::child_of(b, x);
                &&& new_child == old_child || (old_child == Some(from) && new_child == Some(to))
                &&& x == byte ==> new_child == Some(to)
            } by {
                lemma_child48(body, x);
                lemma_child48(new, x);
                assert(new[8 + x] == body[8 + x]);
                let idx = body[8 + x];
                if 1 <= idx <= 48 && idx != body[8 + byte] {
                    crate::bytes::lemma_splice_elsewhere(
                        body,
                        at,
                        part,
                        264 + 2 * (idx - 1),
                    );
                }
            }
            crate::engine::walker::model::lemma_pairs48(new, 256);
            lemma_refs_from_children(a, b, to);
            assert forall|x: int| 0 <= x < 256 implies {
                &&& #[trigger] new[8 + x] == body[8 + x]
                &&& crate::engine::walker::model::child48(new, x)
                    == crate::engine::walker::model::child48(body, x) || (body[8 + x] != 0
                    && crate::engine::walker::model::child48(body, x) == from
                    && crate::engine::walker::model::child48(new, x) == to) || body[8 + x] == 0
            } by {
                let idx = body[8 + x];
                if 1 <= idx <= 48 && idx != body[8 + byte] {
                    crate::bytes::lemma_splice_elsewhere(
                        body,
                        at,
                        part,
                        264 + 2 * (idx - 1),
                    );
                }
            }
            lemma_list48(body, new, 256, from, to);
        },
        _ => {
            crate::bytes::lemma_splice_inside(body, at, part, 0);
            assert forall|x: u8| {
                let old_child = crate::engine::walker::model::child_of(a, x);
                let new_child = #[trigger] crate::engine::walker::model::child_of(b, x);
                &&& new_child == old_child || (old_child == Some(from) && new_child == Some(to))
                &&& x == byte ==> new_child == Some(to)
            } by {
                lemma_child256(body, x);
                lemma_child256(new, x);
                if x != byte {
                    crate::bytes::lemma_splice_elsewhere(body, at, part, 8 + 2 * x);
                }
            }
            crate::engine::walker::model::lemma_pairs256(new, 256);
            lemma_refs_from_children(a, b, to);
            assert forall|x: int| 0 <= x < 256 implies (
            #[trigger] crate::engine::walker::model::child256(new, x))
                == crate::engine::walker::model::child256(body, x) || (
            crate::engine::walker::model::child256(body, x) == from
                && crate::engine::walker::model::child256(new, x) == to) by {
                if x != byte {
                    crate::bytes::lemma_splice_elsewhere(body, at, part, 8 + 2 * x);
                }
            }
            lemma_list256(body, new, 256, from, to);
        },
    }
}

/// In a sorted list every pair is the child of its byte, so what holds of the
/// children holds of the pairs.
proof fn lemma_refs_from_children(a: Seq<(u8, u16)>, b: Seq<(u8, u16)>, to: u16)
    requires
        crate::engine::walker::model::strictly_sorted(b),
        forall|x: u8|
            {
                let new_child = #[trigger] crate::engine::walker::model::child_of(b, x);
                new_child == crate::engine::walker::model::child_of(a, x) || new_child == Some(to)
            },
    ensures
        refs_replaced(a, b, to as int),
{
    crate::engine::walker::model::lemma_sorted_distinct(b);
    assert forall|i: int| 0 <= i < b.len() implies (#[trigger] b[i]).1 == to || a.contains(
        b[i],
    ) by {
        crate::engine::walker::laws::lemma_sorted_child(b, i);
        let new_child = crate::engine::walker::model::child_of(b, b[i].0);
        if b[i].1 != to {
            let j = crate::engine::walker::laws::lemma_child_listed(a, b[i].0);
            assert(a[j] == b[i]);
        }
    }
}

/// A node is appended exactly where one of 10240 slots is left and its bytes fit the
/// 512 KiB. It stands in the slot that is given then, which held none, and every
/// other node stays as it was; where it does not fit, nothing changes.
pub proof fn an_appended_node_is_there(
    a: Seq<u8>,
    b: Seq<u8>,
    r: Result<u16>,
    n: crate::engine::walker::model::Node,
    size: int,
    s: int,
)
    requires
        crate::store::blob_frame::frame_ok(a),
        appends(a, b, r, n, size),
    ensures
        r is Ok <==> crate::store::blob_frame::slots_of(a) < 10240
            && crate::store::blob_frame::bump_of(a) + size <= 524288,
        r matches Ok(t) ==> crate::engine::walker::model::node(b, t as int) == n
            && !crate::store::blob_frame::in_use(a, t as int)
            && crate::store::blob_frame::bump_of(b) == crate::store::blob_frame::bump_of(a) + size
            && crate::store::blob_frame::root_of(b) == crate::store::blob_frame::root_of(a),
        r is Err ==> b == a,
        crate::store::blob_frame::in_use(a, s) ==> crate::engine::walker::model::node(b, s)
            == crate::engine::walker::model::node(a, s),
{
    if crate::store::blob_frame::in_use(a, s) && r is Ok {
        assert(crate::store::blob_frame::has_body(a, s));
        assert(crate::store::blob_frame::same_node(a, b, s));
    }
}

/// A prefix node whose child was replaced holds the bytes it held; no other node is
/// touched.
pub proof fn a_replaced_child_is_led_to(a: Seq<u8>, b: Seq<u8>, p: int, child: int, s: int)
    requires
        crate::store::blob_frame::frame_ok(a),
        only_changed(a, b, p),
        crate::engine::walker::model::node(b, p) == with_child(
            crate::engine::walker::model::node(a, p),
            child,
        ),
    ensures
        crate::engine::walker::model::node(a, p) matches crate::engine::walker::model::Node::Prefix {
            bytes,
            child: c,
        } ==> crate::engine::walker::model::node(b, p) == (
        crate::engine::walker::model::Node::Prefix { bytes, child }),
        s != p && crate::store::blob_frame::in_use(a, s) ==> crate::engine::walker::model::node(b, s)
            == crate::engine::walker::model::node(a, s),
{
    if s != p && crate::store::blob_frame::in_use(a, s) {
        assert(crate::store::blob_frame::has_body(a, s));
        assert(crate::store::blob_frame::same_node(a, b, s));
    }
}

} // verus!
