//! One blob frame: a header, a slot table and a data area that node bodies are
//! bump-allocated in.
//!
//! | offset | field |
//! |---|---|
//! | 0 | `blob_guid`, 16 bytes |
//! | 16 | `created_epoch`, 8 bytes |
//! | 24 | `compact_times`, 4 bytes |
//! | 28 | `num_ext_blobs`, 4 bytes |
//! | 32 | `space_used`, 4 bytes: where the next body goes |
//! | 36 | `gap_space`, 4 bytes: abandoned bytes |
//! | 40 | `root_slot`, 2 bytes |
//! | 42 | `num_slots`, 2 bytes |
//!
//! Slot `s` is the 4-byte word at `HEADER_SIZE + 4 * s`: the node type's code in
//! the top byte, the body's offset in the lower three.
use vstd::prelude::*;
use vstd::slice::slice_subrange;

use crate::api::errors::{Error, Result};
use crate::bytes::{read_u16, read_u32, read_u64, write_at, write_u16, write_u32, write_u64};
use crate::layout::leaf::leaf_body_size;
use crate::layout::{
    size_of_node, BlobGuid, NodeType, DATA_AREA_START, HEADER_SIZE, MAX_SLOTS, PAGE_SIZE,
};

verus! {

/// Position of the type code inside a slot word.
pub const TYPE_SHIFT: u32 = 16777216;

// ---------- what an image says ----------

/// The guid of the blob.
pub open spec fn guid_of(img: Seq<u8>) -> Seq<u8> {
    img.subrange(0, 16)
}

/// The epoch the frame was created in.
pub open spec fn epoch_of(img: Seq<u8>) -> int {
    crate::bytes::le64(img, 16)
}

/// How often the frame was compacted.
pub open spec fn compactions_of(img: Seq<u8>) -> int {
    crate::bytes::le32(img, 24)
}

/// Crossings into other blobs.
pub open spec fn ext_blobs_of(img: Seq<u8>) -> int {
    crate::bytes::le32(img, 28)
}

/// Where the next body goes.
pub open spec fn bump_of(img: Seq<u8>) -> int {
    crate::bytes::le32(img, 32)
}

/// Bytes of abandoned bodies.
pub open spec fn gap_of(img: Seq<u8>) -> int {
    crate::bytes::le32(img, 36)
}

/// The slot of the tree's root.
pub open spec fn root_of(img: Seq<u8>) -> int {
    crate::bytes::le16(img, 40)
}

/// Number of slots in use, the unused slot 0 counted.
pub open spec fn slots_of(img: Seq<u8>) -> int {
    crate::bytes::le16(img, 42)
}

/// The slot word of `s`.
pub open spec fn word_at(img: Seq<u8>, s: int) -> int {
    crate::bytes::le32(img, HEADER_SIZE + 4 * s)
}

/// The type of slot `s`, if its code stands for one.
pub open spec fn type_at(img: Seq<u8>, s: int) -> Option<NodeType> {
    crate::layout::node::type_of_code(word_at(img, s) / TYPE_SHIFT as int)
}

/// Where the body of slot `s` starts.
pub open spec fn start_at(img: Seq<u8>, s: int) -> int {
    word_at(img, s) % TYPE_SHIFT as int
}

/// Bytes of the body of slot `s`.
pub open spec fn len_at(img: Seq<u8>, s: int) -> int {
    match type_at(img, s) {
        Some(NodeType::Leaf) => crate::layout::leaf::leaf_size(
            crate::bytes::le16(img, start_at(img, s) + 10),
            crate::bytes::le16(img, start_at(img, s) + 8),
        ),
        Some(t) => crate::layout::node::node_size(t),
        None => 0,
    }
}

/// Whether `s` is a slot in use.
pub open spec fn in_use(img: Seq<u8>, s: int) -> bool {
    1 <= s < slots_of(img) && slots_of(img) <= MAX_SLOTS
}

/// Whether slot `s` has a body inside the filled part of the data area.
pub open spec fn has_body(img: Seq<u8>, s: int) -> bool {
    &&& in_use(img, s)
    &&& type_at(img, s) is Some
    &&& type_at(img, s) != Some(NodeType::Invalid)
    &&& DATA_AREA_START <= start_at(img, s)
    &&& start_at(img, s) + crate::layout::node::node_size(type_at(img, s)->0) <= bump_of(img)
    &&& start_at(img, s) + len_at(img, s) <= bump_of(img)
    &&& bump_of(img) <= PAGE_SIZE
}

/// The body of slot `s`.
pub open spec fn body_at(img: Seq<u8>, s: int) -> Seq<u8> {
    img.subrange(start_at(img, s), start_at(img, s) + len_at(img, s))
}

/// An image that a frame can work on: every slot in use has a body, and bodies
/// lie behind one another in slot order.
pub open spec fn frame_ok(img: Seq<u8>) -> bool {
    &&& img.len() == PAGE_SIZE
    &&& 1 <= slots_of(img) <= MAX_SLOTS
    &&& DATA_AREA_START <= bump_of(img) <= PAGE_SIZE
    &&& forall|s: int| 1 <= s < slots_of(img) ==> #[trigger] has_body(img, s)
    &&& forall|s: int, t: int|
        1 <= s < t < slots_of(img) ==> #[trigger] start_at(img, s) + len_at(img, s)
            <= #[trigger] start_at(img, t)
}

/// Slot `s` holds the same node in both images.
pub open spec fn same_node(a: Seq<u8>, b: Seq<u8>, s: int) -> bool {
    &&& has_body(a, s)
    &&& has_body(b, s)
    &&& type_at(a, s) == type_at(b, s)
    &&& body_at(a, s) == body_at(b, s)
}

/// Every node of `a` is unchanged in `b`, which may hold more.
pub open spec fn extends(a: Seq<u8>, b: Seq<u8>) -> bool {
    &&& slots_of(a) <= slots_of(b)
    &&& forall|s: int| #[trigger] has_body(a, s) ==> same_node(a, b, s)
}

/// The header fields that allocation leaves alone are unchanged.
pub open spec fn same_header(a: Seq<u8>, b: Seq<u8>) -> bool {
    &&& guid_of(a) == guid_of(b)
    &&& epoch_of(a) == epoch_of(b)
    &&& compactions_of(a) == compactions_of(b)
    &&& ext_blobs_of(a) == ext_blobs_of(b)
    &&& gap_of(a) == gap_of(b)
    &&& root_of(a) == root_of(b)
}

/// Whether a body of `len` bytes still fits.
pub open spec fn fits(img: Seq<u8>, len: int) -> bool {
    slots_of(img) < MAX_SLOTS && bump_of(img) + len <= PAGE_SIZE
}

/// What allocating a node gives on the image `a`: its slot, and the image `b`.
pub open spec fn alloc_gives(
    a: Seq<u8>,
    b: Seq<u8>,
    t: NodeType,
    body: Seq<u8>,
    slot: Result<u16>,
) -> bool {
    if fits(a, body.len() as int) {
        &&& slot == Ok::<u16, Error>(slots_of(a) as u16)
        &&& slots_of(b) == slots_of(a) + 1
        &&& bump_of(b) == bump_of(a) + body.len()
        &&& has_body(b, slots_of(a))
        &&& type_at(b, slots_of(a)) == Some(t)
        &&& body_at(b, slots_of(a)) == body
    } else {
        &&& slot == Err::<u16, Error>(Error::OutOfSpace)
        &&& b == a
    }
}

/// Whether `body` has the length that a node of type `t` has.
pub open spec fn body_fits_type(t: NodeType, body: Seq<u8>) -> bool {
    match t {
        NodeType::Invalid => false,
        NodeType::Leaf => body.len() >= 16 && body.len() == crate::layout::leaf::leaf_size(
            crate::bytes::le16(body, 10),
            crate::bytes::le16(body, 8),
        ),
        _ => body.len() == crate::layout::node::node_size(t),
    }
}

/// Extension is transitive.
pub proof fn lemma_extends_trans(a: Seq<u8>, b: Seq<u8>, c: Seq<u8>)
    requires
        extends(a, b),
        extends(b, c),
    ensures
        extends(a, c),
{
    assert forall|s: int| #[trigger] has_body(a, s) implies same_node(a, c, s) by {
        assert(same_node(a, b, s));
        assert(same_node(b, c, s));
    }
}

/// Every image extends itself.
pub proof fn lemma_extends_refl(a: Seq<u8>)
    ensures
        extends(a, a),
{
}

/// A slot whose word and body bytes are untouched holds the same node.
pub proof fn lemma_node_kept(a: Seq<u8>, b: Seq<u8>, s: int)
    requires
        a.len() == PAGE_SIZE,
        b.len() == PAGE_SIZE,
        has_body(a, s),
        slots_of(a) <= slots_of(b) <= MAX_SLOTS,
        bump_of(a) <= bump_of(b) <= PAGE_SIZE,
        forall|i: int| HEADER_SIZE + 4 * s <= i < HEADER_SIZE + 4 * s + 4 ==> a[i] == b[i],
        forall|i: int|
            start_at(a, s) <= i < start_at(a, s) + len_at(a, s) ==> a[i] == b[i],
    ensures
        same_node(a, b, s),
        start_at(b, s) == start_at(a, s),
        len_at(b, s) == len_at(a, s),
{
    assert(word_at(a, s) == word_at(b, s));
    let st = start_at(a, s);
    if type_at(a, s) == Some(NodeType::Leaf) {
        crate::bytes::lemma_le16(a, st + 10);
        crate::bytes::lemma_le16(a, st + 8);
        crate::layout::leaf::leaf_size_is_tight(
            crate::bytes::le16(a, st + 10),
            crate::bytes::le16(a, st + 8),
        );
        assert(crate::bytes::le16(a, st + 10) == crate::bytes::le16(b, st + 10));
        assert(crate::bytes::le16(a, st + 8) == crate::bytes::le16(b, st + 8));
    }
    assert(body_at(a, s) =~= body_at(b, s));
}

/// A body is never empty, and never shorter than its type's fixed part.
pub proof fn lemma_len_at(img: Seq<u8>, s: int)
    requires
        img.len() == PAGE_SIZE,
        has_body(img, s),
    ensures
        len_at(img, s) >= crate::layout::node::node_size(type_at(img, s)->0) >= 8,
        body_at(img, s).len() == len_at(img, s),
        body_fits_type(type_at(img, s)->0, body_at(img, s)),
{
    let st = start_at(img, s);
    if type_at(img, s) == Some(NodeType::Leaf) {
        crate::bytes::lemma_le16(img, st + 10);
        crate::bytes::lemma_le16(img, st + 8);
        crate::layout::leaf::leaf_size_is_tight(
            crate::bytes::le16(img, st + 10),
            crate::bytes::le16(img, st + 8),
        );
        crate::bytes::lemma_le_window(img, st, st + len_at(img, s), 10);
        crate::bytes::lemma_le_window(img, st, st + len_at(img, s), 8);
    }
}

/// A write into the header that spares `space_used` and `num_slots` keeps every
/// node.
pub proof fn lemma_header_write(img: Seq<u8>, at: int, part: Seq<u8>)
    requires
        frame_ok(img),
        0 <= at,
        at + part.len() <= HEADER_SIZE,
        at + part.len() <= 32 || 36 <= at,
        at + part.len() <= 42 || 44 <= at,
    ensures
        frame_ok(crate::bytes::splice(img, at, part)),
        extends(img, crate::bytes::splice(img, at, part)),
        slots_of(crate::bytes::splice(img, at, part)) == slots_of(img),
        bump_of(crate::bytes::splice(img, at, part)) == bump_of(img),
{
    let new = crate::bytes::splice(img, at, part);
    crate::bytes::lemma_splice_elsewhere(img, at, part, 32);
    crate::bytes::lemma_splice_elsewhere(img, at, part, 42);
    assert forall|s: int| has_body(img, s) implies #[trigger] same_node(img, new, s) && start_at(
        new,
        s,
    ) == start_at(img, s) && len_at(new, s) == len_at(img, s) by {
        lemma_node_kept(img, new, s);
    }
    assert forall|s: int| 1 <= s < slots_of(new) implies #[trigger] has_body(new, s) by {
        assert(has_body(img, s));
        assert(same_node(img, new, s));
    }
    assert forall|s: int, t: int| 1 <= s < t < slots_of(new) implies #[trigger] start_at(new, s)
        + len_at(new, s) <= #[trigger] start_at(new, t) by {
        assert(has_body(img, s) && has_body(img, t));
        assert(same_node(img, new, s) && same_node(img, new, t));
        assert(start_at(img, s) + len_at(img, s) <= start_at(img, t));
    }
}

/// A write inside the body of slot `p`, which is no leaf, changes that node's
/// body only.
pub proof fn lemma_body_write(img: Seq<u8>, p: int, rel: int, part: Seq<u8>)
    requires
        frame_ok(img),
        has_body(img, p),
        type_at(img, p) != Some(NodeType::Leaf),
        0 <= rel,
        rel + part.len() <= len_at(img, p),
    ensures
        ({
            let new = crate::bytes::splice(img, start_at(img, p) + rel, part);
            &&& frame_ok(new)
            &&& slots_of(new) == slots_of(img)
            &&& bump_of(new) == bump_of(img)
            &&& same_header(img, new)
            &&& has_body(new, p)
            &&& type_at(new, p) == type_at(img, p)
            &&& body_at(new, p) == crate::bytes::splice(body_at(img, p), rel, part)
            &&& forall|s: int| s != p && #[trigger] has_body(img, s) ==> same_node(img, new, s)
        }),
{
    let at = start_at(img, p) + rel;
    let new = crate::bytes::splice(img, at, part);
    crate::bytes::lemma_splice_elsewhere(img, at, part, 16);
    crate::bytes::lemma_splice_elsewhere(img, at, part, 24);
    crate::bytes::lemma_splice_elsewhere(img, at, part, 28);
    crate::bytes::lemma_splice_elsewhere(img, at, part, 32);
    crate::bytes::lemma_splice_elsewhere(img, at, part, 36);
    crate::bytes::lemma_splice_elsewhere(img, at, part, 40);
    crate::bytes::lemma_splice_elsewhere(img, at, part, 42);
    assert(guid_of(new) =~= guid_of(img));
    assert forall|s: int| s != p && has_body(img, s) implies #[trigger] same_node(img, new, s)
        && start_at(new, s) == start_at(img, s) && len_at(new, s) == len_at(img, s) by {
        lemma_len_at(img, s);
        lemma_len_at(img, p);
        if s < p {
            assert(start_at(img, s) + len_at(img, s) <= start_at(img, p));
        } else {
            assert(start_at(img, p) + len_at(img, p) <= start_at(img, s));
        }
        lemma_node_kept(img, new, s);
    }
    assert(word_at(new, p) == word_at(img, p));
    let st = start_at(img, p);
    crate::bytes::lemma_splice_window(img, at, part, st, st + len_at(img, p));
    assert forall|s: int| 1 <= s < slots_of(new) implies #[trigger] has_body(new, s) by {
        assert(has_body(img, s));
        if s != p {
            assert(same_node(img, new, s));
        }
    }
    assert forall|s: int, t: int| 1 <= s < t < slots_of(new) implies #[trigger] start_at(new, s)
        + len_at(new, s) <= #[trigger] start_at(new, t) by {
        assert(has_body(img, s) && has_body(img, t));
        if s != p {
            assert(same_node(img, new, s));
        }
        if t != p {
            assert(same_node(img, new, t));
        }
        assert(start_at(img, s) + len_at(img, s) <= start_at(img, t));
    }
}

/// The image after a body was appended for the next slot.
pub open spec fn appended(img: Seq<u8>, t: NodeType, body: Seq<u8>) -> Seq<u8> {
    let n = slots_of(img);
    let at = bump_of(img);
    let a = crate::bytes::splice(img, at, body);
    let b = crate::bytes::splice(
        a,
        HEADER_SIZE + 4 * n,
        crate::bytes::u32_bytes(crate::layout::node::type_code(t) * TYPE_SHIFT + at),
    );
    let c = crate::bytes::splice(b, 32, crate::bytes::u32_bytes(at + body.len()));
    crate::bytes::splice(c, 42, crate::bytes::u16_bytes(n + 1))
}

/// Appending keeps every node and adds the new one.
pub proof fn lemma_appended(img: Seq<u8>, t: NodeType, body: Seq<u8>)
    requires
        frame_ok(img),
        body_fits_type(t, body),
        fits(img, body.len() as int),
    ensures
        ({
            let new = appended(img, t, body);
            let n = slots_of(img);
            &&& frame_ok(new)
            &&& extends(img, new)
            &&& same_header(img, new)
            &&& slots_of(new) == n + 1
            &&& bump_of(new) == bump_of(img) + body.len()
            &&& has_body(new, n)
            &&& type_at(new, n) == Some(t)
            &&& body_at(new, n) == body
        }),
{
    let n = slots_of(img);
    let at = bump_of(img);
    let word = crate::layout::node::type_code(t) * TYPE_SHIFT + at;
    let a = crate::bytes::splice(img, at, body);
    let wat = HEADER_SIZE + 4 * n;
    let wb = crate::bytes::u32_bytes(word);
    let b = crate::bytes::splice(a, wat, wb);
    let bb = crate::bytes::u32_bytes(at + body.len());
    let c = crate::bytes::splice(b, 32, bb);
    let nb = crate::bytes::u16_bytes(n + 1);
    let new = crate::bytes::splice(c, 42, nb);
    crate::bytes::lemma_u32_bytes(word);
    crate::bytes::lemma_u32_bytes(at + body.len());
    crate::bytes::lemma_u16_bytes(n + 1);
    assert(new.len() == PAGE_SIZE);
    // The counters and the new word read back.
    crate::bytes::lemma_splice_inside(c, 42, nb, 0);
    assert(slots_of(new) == n + 1);
    crate::bytes::lemma_splice_inside(b, 32, bb, 0);
    crate::bytes::lemma_splice_elsewhere(c, 42, nb, 32);
    assert(bump_of(new) == at + body.len());
    crate::bytes::lemma_splice_inside(a, wat, wb, 0);
    crate::bytes::lemma_splice_elsewhere(b, 32, bb, wat);
    crate::bytes::lemma_splice_elsewhere(c, 42, nb, wat);
    assert(word_at(new, n) == word);
    crate::layout::node::type_codes_are_unambiguous(t);
    assert(word / TYPE_SHIFT as int == crate::layout::node::type_code(t));
    assert(word % TYPE_SHIFT as int == at);
    // Bytes away from the four writes are unchanged.
    assert forall|i: int|
        44 <= i < PAGE_SIZE && !(wat <= i < wat + 4) && !(at <= i < at
            + body.len()) implies new[i] == img[i] by {}
    assert forall|i: int| at <= i < at + body.len() implies new[i] == body[i - at] by {}
    assert(guid_of(new) =~= guid_of(img));
    crate::bytes::lemma_splice_elsewhere(img, at, body, 16);
    crate::bytes::lemma_splice_elsewhere(a, wat, wb, 16);
    crate::bytes::lemma_splice_elsewhere(b, 32, bb, 16);
    crate::bytes::lemma_splice_elsewhere(c, 42, nb, 16);
    crate::bytes::lemma_splice_elsewhere(img, at, body, 24);
    crate::bytes::lemma_splice_elsewhere(a, wat, wb, 24);
    crate::bytes::lemma_splice_elsewhere(b, 32, bb, 24);
    crate::bytes::lemma_splice_elsewhere(c, 42, nb, 24);
    crate::bytes::lemma_splice_elsewhere(img, at, body, 28);
    crate::bytes::lemma_splice_elsewhere(a, wat, wb, 28);
    crate::bytes::lemma_splice_elsewhere(b, 32, bb, 28);
    crate::bytes::lemma_splice_elsewhere(c, 42, nb, 28);
    crate::bytes::lemma_splice_elsewhere(img, at, body, 36);
    crate::bytes::lemma_splice_elsewhere(a, wat, wb, 36);
    crate::bytes::lemma_splice_elsewhere(b, 32, bb, 36);
    crate::bytes::lemma_splice_elsewhere(c, 42, nb, 36);
    crate::bytes::lemma_splice_elsewhere(img, at, body, 40);
    crate::bytes::lemma_splice_elsewhere(a, wat, wb, 40);
    crate::bytes::lemma_splice_elsewhere(b, 32, bb, 40);
    crate::bytes::lemma_splice_elsewhere(c, 42, nb, 40);
    // The new node.
    if t == NodeType::Leaf {
        assert(crate::bytes::le16(new, at + 10) == crate::bytes::le16(body, 10));
        assert(crate::bytes::le16(new, at + 8) == crate::bytes::le16(body, 8));
    }
    assert(len_at(new, n) == body.len());
    if t == NodeType::Leaf {
        crate::bytes::lemma_le16(body, 10);
        crate::bytes::lemma_le16(body, 8);
        crate::layout::leaf::leaf_size_is_tight(
            crate::bytes::le16(body, 10),
            crate::bytes::le16(body, 8),
        );
    }
    assert(has_body(new, n));
    assert(body_at(new, n) =~= body);
    // The old nodes.
    assert forall|s: int| has_body(img, s) implies #[trigger] same_node(img, new, s) && start_at(
        new,
        s,
    ) == start_at(img, s) && len_at(new, s) == len_at(img, s) by {
        lemma_len_at(img, s);
        lemma_node_kept(img, new, s);
    }
    assert forall|s: int| 1 <= s < slots_of(new) implies #[trigger] has_body(new, s) by {
        if s < n {
            assert(has_body(img, s));
            assert(same_node(img, new, s));
        }
    }
    assert forall|s: int, u: int| 1 <= s < u < slots_of(new) implies #[trigger] start_at(new, s)
        + len_at(new, s) <= #[trigger] start_at(new, u) by {
        assert(has_body(img, s));
        assert(same_node(img, new, s));
        if u < n {
            assert(has_body(img, u));
            assert(same_node(img, new, u));
            assert(start_at(img, s) + len_at(img, s) <= start_at(img, u));
        }
    }
}

/// The image of an empty blob: a zeroed page with its guid and one slot, the
/// root of an empty tree.
pub open spec fn empty_image(guid: Seq<u8>, epoch: int) -> Seq<u8> {
    let z = Seq::new(PAGE_SIZE as nat, |i: int| 0u8);
    let a = crate::bytes::splice(z, 0, guid);
    let b = crate::bytes::splice(a, 16, crate::bytes::u64_bytes(epoch));
    let c = crate::bytes::splice(b, 32, crate::bytes::u32_bytes(DATA_AREA_START as int));
    let d = crate::bytes::splice(c, 40, crate::bytes::u16_bytes(1));
    let e = crate::bytes::splice(d, 42, crate::bytes::u16_bytes(1));
    appended(e, NodeType::EmptyRoot, Seq::new(8, |i: int| 0u8))
}

/// An empty image is a frame whose root is its only node.
pub proof fn lemma_empty_image(guid: Seq<u8>, epoch: int)
    requires
        guid.len() == 16,
        0 <= epoch < 0x1_0000_0000_0000_0000,
    ensures
        frame_ok(empty_image(guid, epoch)),
        guid_of(empty_image(guid, epoch)) == guid,
        epoch_of(empty_image(guid, epoch)) == epoch,
        compactions_of(empty_image(guid, epoch)) == 0,
        ext_blobs_of(empty_image(guid, epoch)) == 0,
        gap_of(empty_image(guid, epoch)) == 0,
        root_of(empty_image(guid, epoch)) == 1,
        slots_of(empty_image(guid, epoch)) == 2,
        bump_of(empty_image(guid, epoch)) == DATA_AREA_START + 8,
        has_body(empty_image(guid, epoch), 1),
        type_at(empty_image(guid, epoch), 1) == Some(NodeType::EmptyRoot),
{
    let z = Seq::new(PAGE_SIZE as nat, |i: int| 0u8);
    let a = crate::bytes::splice(z, 0, guid);
    let eb = crate::bytes::u64_bytes(epoch);
    let b = crate::bytes::splice(a, 16, eb);
    let sb = crate::bytes::u32_bytes(DATA_AREA_START as int);
    let c = crate::bytes::splice(b, 32, sb);
    let one = crate::bytes::u16_bytes(1);
    let d = crate::bytes::splice(c, 40, one);
    let e = crate::bytes::splice(d, 42, one);
    crate::bytes::lemma_u64_bytes(epoch);
    crate::bytes::lemma_u32_bytes(DATA_AREA_START as int);
    crate::bytes::lemma_u16_bytes(1);
    crate::bytes::lemma_splice_inside(d, 42, one, 0);
    crate::bytes::lemma_splice_inside(c, 40, one, 0);
    crate::bytes::lemma_splice_elsewhere(d, 42, one, 40);
    crate::bytes::lemma_splice_inside(b, 32, sb, 0);
    crate::bytes::lemma_splice_elsewhere(c, 40, one, 32);
    crate::bytes::lemma_splice_elsewhere(d, 42, one, 32);
    crate::bytes::lemma_splice_inside(a, 16, eb, 0);
    crate::bytes::lemma_splice_elsewhere(b, 32, sb, 16);
    crate::bytes::lemma_splice_elsewhere(c, 40, one, 16);
    crate::bytes::lemma_splice_elsewhere(d, 42, one, 16);
    assert(guid_of(e) =~= guid);
    assert(compactions_of(e) == 0);
    assert(ext_blobs_of(e) == 0);
    assert(gap_of(e) == 0);
    assert(frame_ok(e));
    lemma_appended(e, NodeType::EmptyRoot, Seq::new(8, |i: int| 0u8));
}

// ---------- the frame ----------

/// An owned blob frame.
pub struct BlobFrame {
    buf: Vec<u8>,
}

impl View for BlobFrame {
    type V = Seq<u8>;

    closed spec fn view(&self) -> Seq<u8> {
        self.buf@
    }
}

impl BlobFrame {
    /// A frame that holds an empty tree.
    pub fn init(guid: BlobGuid, created_epoch: u64) -> (frame: Self)
        ensures
            frame@ == empty_image(guid@, created_epoch as int),
            frame_ok(frame@),
    {
        let mut buf: Vec<u8> = vec![0u8; PAGE_SIZE as usize];
        assert(buf@ =~= Seq::new(PAGE_SIZE as nat, |i: int| 0u8));
        write_at(&mut buf, 0, guid.as_slice());
        write_u64(&mut buf, 16, created_epoch);
        write_u32(&mut buf, 32, DATA_AREA_START);
        write_u16(&mut buf, 40, 1);
        write_u16(&mut buf, 42, 1);
        let root: [u8; 8] = [0u8; 8];
        assert(root@ =~= Seq::new(8, |i: int| 0u8));
        write_at(&mut buf, DATA_AREA_START as usize, root.as_slice());
        proof {
            lemma_empty_image(guid@, created_epoch as int);
        }
        let mut frame = BlobFrame { buf };
        proof {
            let z = Seq::new(PAGE_SIZE as nat, |i: int| 0u8);
            let a = crate::bytes::splice(z, 0, guid@);
            let b = crate::bytes::splice(a, 16, crate::bytes::u64_bytes(created_epoch as int));
            let c = crate::bytes::splice(
                b,
                32,
                crate::bytes::u32_bytes(DATA_AREA_START as int),
            );
            let d = crate::bytes::splice(c, 40, crate::bytes::u16_bytes(1));
            let e = crate::bytes::splice(d, 42, crate::bytes::u16_bytes(1));
            crate::bytes::lemma_u32_bytes(DATA_AREA_START as int);
            crate::bytes::lemma_u16_bytes(1);
            crate::bytes::lemma_splice_inside(b, 32, crate::bytes::u32_bytes(DATA_AREA_START as int), 0);
            crate::bytes::lemma_splice_elsewhere(c, 40, crate::bytes::u16_bytes(1), 32);
            crate::bytes::lemma_splice_elsewhere(d, 42, crate::bytes::u16_bytes(1), 32);
            crate::bytes::lemma_splice_inside(d, 42, crate::bytes::u16_bytes(1), 0);
            assert(bump_of(e) == DATA_AREA_START);
            assert(slots_of(e) == 1);
            assert(frame.buf@ == crate::bytes::splice(e, DATA_AREA_START as int, root@));
        }
        let word: u32 = NodeType::EmptyRoot.code() * TYPE_SHIFT + DATA_AREA_START;
        write_u32(&mut frame.buf, HEADER_SIZE as usize + 4, word);
        write_u32(&mut frame.buf, 32, DATA_AREA_START + 8);
        write_u16(&mut frame.buf, 42, 2);
        frame
    }

    /// Take `buf` as a frame, if it is laid out as one.
    pub fn wrap(buf: Vec<u8>) -> (frame: Result<Self>)
        ensures
            match frame {
                Ok(f) => f@ == buf@ && frame_ok(buf@),
                Err(e) => !frame_ok(buf@) && e == Error::corrupt("blob frame: bad layout"),
            },
    {
        if laid_out(buf.as_slice()) {
            Ok(BlobFrame { buf })
        } else {
            Err(Error::node_corrupt("blob frame: bad layout"))
        }
    }

    /// The image.
    pub fn as_slice(&self) -> (bytes: &[u8])
        ensures
            bytes@ == self@,
    {
        self.buf.as_slice()
    }

    /// Give the image up.
    pub fn into_bytes(self) -> (bytes: Vec<u8>)
        ensures
            bytes@ == self@,
    {
        self.buf
    }

    /// The slot of the tree's root.
    pub fn root_slot(&self) -> (slot: u16)
        requires
            self@.len() == PAGE_SIZE,
        ensures
            slot == root_of(self@),
    {
        read_u16(self.buf.as_slice(), 40)
    }

    /// Number of slots in use, the unused slot 0 counted.
    pub fn num_slots(&self) -> (n: u16)
        requires
            self@.len() == PAGE_SIZE,
        ensures
            n == slots_of(self@),
    {
        read_u16(self.buf.as_slice(), 42)
    }

    /// Where the next body goes.
    pub fn space_used(&self) -> (n: u32)
        requires
            self@.len() == PAGE_SIZE,
        ensures
            n == bump_of(self@),
    {
        read_u32(self.buf.as_slice(), 32)
    }

    /// Bytes of abandoned bodies.
    pub fn gap_space(&self) -> (n: u32)
        requires
            self@.len() == PAGE_SIZE,
        ensures
            n == gap_of(self@),
    {
        read_u32(self.buf.as_slice(), 36)
    }

    /// Crossings into other blobs.
    pub fn num_ext_blobs(&self) -> (n: u32)
        requires
            self@.len() == PAGE_SIZE,
        ensures
            n == ext_blobs_of(self@),
    {
        read_u32(self.buf.as_slice(), 28)
    }

    /// How often the frame was compacted.
    pub fn compact_times(&self) -> (n: u32)
        requires
            self@.len() == PAGE_SIZE,
        ensures
            n == compactions_of(self@),
    {
        read_u32(self.buf.as_slice(), 24)
    }

    /// The epoch the frame was created in.
    pub fn created_epoch(&self) -> (n: u64)
        requires
            self@.len() == PAGE_SIZE,
        ensures
            n == epoch_of(self@),
    {
        read_u64(self.buf.as_slice(), 16)
    }

    /// The guid of the blob.
    pub fn blob_guid(&self) -> (guid: BlobGuid)
        requires
            self@.len() == PAGE_SIZE,
        ensures
            guid@ == guid_of(self@),
    {
        read_guid(self.buf.as_slice(), 0)
    }

    /// Make `slot` the root.
    pub fn set_root_slot(&mut self, slot: u16)
        requires
            frame_ok(old(self)@),
        ensures
            frame_ok(final(self)@),
            root_of(final(self)@) == slot,
            header_update(old(self)@, final(self)@),
            ext_blobs_of(final(self)@) == ext_blobs_of(old(self)@),
            gap_of(final(self)@) == gap_of(old(self)@),
            guid_of(final(self)@) == guid_of(old(self)@),
            epoch_of(final(self)@) == epoch_of(old(self)@),
            compactions_of(final(self)@) == compactions_of(old(self)@),
    {
        let ghost img = self@;
        let ghost part = crate::bytes::u16_bytes(slot as int);
        write_u16(&mut self.buf, 40, slot);
        proof {
            crate::bytes::lemma_u16_bytes(slot as int);
            crate::bytes::lemma_splice_inside(img, 40, part, 0);
            lemma_header_write(img, 40, part);
            lemma_other_fields(img, 40, part);
        }
    }

    /// Set the number of crossings into other blobs.
    pub fn set_num_ext_blobs(&mut self, n: u32)
        requires
            frame_ok(old(self)@),
        ensures
            frame_ok(final(self)@),
            ext_blobs_of(final(self)@) == n,
            header_update(old(self)@, final(self)@),
            root_of(final(self)@) == root_of(old(self)@),
            gap_of(final(self)@) == gap_of(old(self)@),
            guid_of(final(self)@) == guid_of(old(self)@),
            epoch_of(final(self)@) == epoch_of(old(self)@),
            compactions_of(final(self)@) == compactions_of(old(self)@),
    {
        let ghost img = self@;
        let ghost part = crate::bytes::u32_bytes(n as int);
        write_u32(&mut self.buf, 28, n);
        proof {
            crate::bytes::lemma_u32_bytes(n as int);
            crate::bytes::lemma_splice_inside(img, 28, part, 0);
            lemma_header_write(img, 28, part);
            lemma_other_fields(img, 28, part);
        }
    }

    /// Set the number of abandoned bytes.
    pub fn set_gap_space(&mut self, n: u32)
        requires
            frame_ok(old(self)@),
        ensures
            frame_ok(final(self)@),
            gap_of(final(self)@) == n,
            header_update(old(self)@, final(self)@),
            root_of(final(self)@) == root_of(old(self)@),
            ext_blobs_of(final(self)@) == ext_blobs_of(old(self)@),
            guid_of(final(self)@) == guid_of(old(self)@),
            epoch_of(final(self)@) == epoch_of(old(self)@),
            compactions_of(final(self)@) == compactions_of(old(self)@),
    {
        let ghost img = self@;
        let ghost part = crate::bytes::u32_bytes(n as int);
        write_u32(&mut self.buf, 36, n);
        proof {
            crate::bytes::lemma_u32_bytes(n as int);
            crate::bytes::lemma_splice_inside(img, 36, part, 0);
            lemma_header_write(img, 36, part);
            lemma_other_fields(img, 36, part);
        }
    }

    /// Set the number of compactions.
    pub fn set_compact_times(&mut self, n: u32)
        requires
            frame_ok(old(self)@),
        ensures
            frame_ok(final(self)@),
            compactions_of(final(self)@) == n,
            header_update(old(self)@, final(self)@),
            root_of(final(self)@) == root_of(old(self)@),
            ext_blobs_of(final(self)@) == ext_blobs_of(old(self)@),
            gap_of(final(self)@) == gap_of(old(self)@),
            guid_of(final(self)@) == guid_of(old(self)@),
            epoch_of(final(self)@) == epoch_of(old(self)@),
    {
        let ghost img = self@;
        let ghost part = crate::bytes::u32_bytes(n as int);
        write_u32(&mut self.buf, 24, n);
        proof {
            crate::bytes::lemma_u32_bytes(n as int);
            crate::bytes::lemma_splice_inside(img, 24, part, 0);
            lemma_header_write(img, 24, part);
            lemma_other_fields(img, 24, part);
        }
    }

    /// Give the frame another guid and creation epoch.
    pub fn set_identity(&mut self, guid: BlobGuid, created_epoch: u64)
        requires
            frame_ok(old(self)@),
        ensures
            frame_ok(final(self)@),
            guid_of(final(self)@) == guid@,
            epoch_of(final(self)@) == created_epoch,
            header_update(old(self)@, final(self)@),
            root_of(final(self)@) == root_of(old(self)@),
            ext_blobs_of(final(self)@) == ext_blobs_of(old(self)@),
            gap_of(final(self)@) == gap_of(old(self)@),
            compactions_of(final(self)@) == compactions_of(old(self)@),
    {
        let ghost img = self@;
        let ghost part = crate::bytes::u64_bytes(created_epoch as int);
        write_u64(&mut self.buf, 16, created_epoch);
        let ghost mid = self@;
        proof {
            crate::bytes::lemma_u64_bytes(created_epoch as int);
            crate::bytes::lemma_splice_inside(img, 16, part, 0);
            lemma_header_write(img, 16, part);
            lemma_other_fields(img, 16, part);
        }
        write_at(&mut self.buf, 0, guid.as_slice());
        proof {
            lemma_header_write(mid, 0, guid@);
            lemma_other_fields(mid, 0, guid@);
            lemma_extends_trans(img, mid, self@);
            assert(guid_of(self@) =~= guid@);
        }
    }

    /// The type of `slot`: `None` where the slot is not in use, the inner `None`
    /// where its code stands for no type.
    pub fn slot_type(&self, slot: u16) -> (t: Option<Option<NodeType>>)
        requires
            self@.len() == PAGE_SIZE,
        ensures
            t == (if in_use(self@, slot as int) {
                Some(type_at(self@, slot as int))
            } else {
                None
            }),
    {
        let n: u16 = self.num_slots();
        if slot == 0 || slot >= n || n > MAX_SLOTS {
            return None;
        }
        let word: u32 = read_u32(self.buf.as_slice(), HEADER_SIZE as usize + 4 * slot as usize);
        Some(NodeType::from_code(word / TYPE_SHIFT))
    }

    /// The body of `slot`, if it has one.
    pub fn body_of_slot(&self, slot: u16) -> (body: Option<&[u8]>)
        requires
            self@.len() == PAGE_SIZE,
        ensures
            match body {
                Some(b) => has_body(self@, slot as int) && b@ == body_at(self@, slot as int),
                None => !has_body(self@, slot as int),
            },
    {
        match body_range(self.buf.as_slice(), slot) {
            Some((from, to)) => Some(slice_subrange(self.buf.as_slice(), from, to)),
            None => None,
        }
    }

    /// Append a node. Fails, changing nothing, where the slot table or the data
    /// area is full.
    pub fn alloc_node(&mut self, t: NodeType, body: &[u8]) -> (slot: Result<u16>)
        requires
            frame_ok(old(self)@),
            body_fits_type(t, body@),
        ensures
            frame_ok(final(self)@),
            extends(old(self)@, final(self)@),
            same_header(old(self)@, final(self)@),
            alloc_gives(old(self)@, final(self)@, t, body@, slot),
    {
        let n: u16 = self.num_slots();
        let at: u32 = self.space_used();
        if n >= MAX_SLOTS || body.len() > (PAGE_SIZE - at) as usize {
            return Err(Error::OutOfSpace);
        }
        proof {
            lemma_appended(self@, t, body@);
        }
        write_at(&mut self.buf, at as usize, body);
        write_u32(
            &mut self.buf,
            HEADER_SIZE as usize + 4 * n as usize,
            t.code() * TYPE_SHIFT + at,
        );
        write_u32(&mut self.buf, 32, at + body.len() as u32);
        write_u16(&mut self.buf, 42, n + 1);
        Ok(n)
    }

    /// Overwrite part of a body that is no leaf's.
    pub fn write_body(&mut self, slot: u16, rel: usize, part: &[u8])
        requires
            frame_ok(old(self)@),
            has_body(old(self)@, slot as int),
            type_at(old(self)@, slot as int) != Some(NodeType::Leaf),
            rel + part@.len() <= len_at(old(self)@, slot as int),
        ensures
            frame_ok(final(self)@),
            same_header(old(self)@, final(self)@),
            slots_of(final(self)@) == slots_of(old(self)@),
            bump_of(final(self)@) == bump_of(old(self)@),
            has_body(final(self)@, slot as int),
            type_at(final(self)@, slot as int) == type_at(old(self)@, slot as int),
            body_at(final(self)@, slot as int) == crate::bytes::splice(
                body_at(old(self)@, slot as int),
                rel as int,
                part@,
            ),
            forall|s: int|
                s != slot && #[trigger] has_body(old(self)@, s) ==> same_node(
                    old(self)@,
                    final(self)@,
                    s,
                ),
    {
        proof {
            lemma_body_write(self@, slot as int, rel as int, part@);
        }
        let word: u32 = read_u32(self.buf.as_slice(), HEADER_SIZE as usize + 4 * slot as usize);
        let start: usize = (word % TYPE_SHIFT) as usize;
        write_at(&mut self.buf, start + rel, part);
    }

    /// Account for the body of `slot` as abandoned.
    pub fn note_abandoned(&mut self, slot: u16)
        requires
            frame_ok(old(self)@),
        ensures
            frame_ok(final(self)@),
            header_update(old(self)@, final(self)@),
            root_of(final(self)@) == root_of(old(self)@),
            ext_blobs_of(final(self)@) == ext_blobs_of(old(self)@),
            guid_of(final(self)@) == guid_of(old(self)@),
            epoch_of(final(self)@) == epoch_of(old(self)@),
            compactions_of(final(self)@) == compactions_of(old(self)@),
            gap_of(final(self)@) == abandoned_gap(old(self)@, slot as int),
    {
        let gap: u32 = self.gap_space();
        let size: u32 = match self.body_of_slot(slot) {
            Some(body) => {
                proof {
                    lemma_len_at(self@, slot as int);
                }
                body.len() as u32
            },
            None => 0,
        };
        let sum: u32 = if size > u32::MAX - gap {
            u32::MAX
        } else {
            gap + size
        };
        self.set_gap_space(sum);
    }
}

/// The abandoned bytes once slot `s` is abandoned too.
pub open spec fn abandoned_gap(img: Seq<u8>, s: int) -> int {
    let size = if has_body(img, s) {
        len_at(img, s)
    } else {
        0
    };
    if gap_of(img) + size > u32::MAX {
        u32::MAX as int
    } else {
        gap_of(img) + size
    }
}

/// A header update keeps every node, the slots and the fill mark.
pub open spec fn header_update(a: Seq<u8>, b: Seq<u8>) -> bool {
    &&& extends(a, b)
    &&& slots_of(a) == slots_of(b)
    &&& bump_of(a) == bump_of(b)
}

proof fn lemma_other_fields(img: Seq<u8>, at: int, part: Seq<u8>)
    requires
        img.len() == PAGE_SIZE,
        0 <= at,
        at + part.len() <= HEADER_SIZE,
    ensures
        ({
            let new = crate::bytes::splice(img, at, part);
            &&& 16 <= at ==> guid_of(new) == guid_of(img)
            &&& at + part.len() <= 16 || 24 <= at ==> epoch_of(new) == epoch_of(img)
            &&& at + part.len() <= 24 || 28 <= at ==> compactions_of(new) == compactions_of(img)
            &&& at + part.len() <= 28 || 32 <= at ==> ext_blobs_of(new) == ext_blobs_of(img)
            &&& at + part.len() <= 36 || 40 <= at ==> gap_of(new) == gap_of(img)
            &&& at + part.len() <= 40 || 42 <= at ==> root_of(new) == root_of(img)
        }),
{
    crate::bytes::lemma_splice_elsewhere(img, at, part, 16);
    crate::bytes::lemma_splice_elsewhere(img, at, part, 24);
    crate::bytes::lemma_splice_elsewhere(img, at, part, 28);
    crate::bytes::lemma_splice_elsewhere(img, at, part, 36);
    crate::bytes::lemma_splice_elsewhere(img, at, part, 40);
    if 16 <= at {
        assert(guid_of(crate::bytes::splice(img, at, part)) =~= guid_of(img));
    }
}

/// The guid at `s[o .. o + 16]`.
pub fn read_guid(s: &[u8], o: usize) -> (guid: BlobGuid)
    requires
        o + 16 <= s@.len(),
    ensures
        guid@ == s@.subrange(o as int, o + 16),
{
    assert(o + 16 <= s.len());
    let mut guid: BlobGuid = [0u8; 16];
    let mut i: usize = 0;
    while i < 16
        invariant
            i <= 16,
            o + 16 <= s@.len() <= usize::MAX,
            forall|j: int| 0 <= j < i ==> guid@[j] == s@[o + j],
        decreases 16 - i,
    {
        guid[i] = s[o + i];
        i += 1;
    }
    assert(guid@ =~= s@.subrange(o as int, o + 16));
    guid
}

/// Where the body of `slot` starts and ends, if it has one.
fn body_range(img: &[u8], slot: u16) -> (range: Option<(usize, usize)>)
    requires
        img@.len() == PAGE_SIZE,
    ensures
        match range {
            Some((from, to)) => has_body(img@, slot as int) && from == start_at(img@, slot as int)
                && to == from + len_at(img@, slot as int) && to <= PAGE_SIZE,
            None => !has_body(img@, slot as int),
        },
{
    let n: u16 = read_u16(img, 42);
    let bump: u32 = read_u32(img, 32);
    if slot == 0 || slot >= n || n > MAX_SLOTS || bump > PAGE_SIZE {
        return None;
    }
    let word: u32 = read_u32(img, HEADER_SIZE as usize + 4 * slot as usize);
    let start: u32 = word % TYPE_SHIFT;
    let t: NodeType = match NodeType::from_code(word / TYPE_SHIFT) {
        Some(t) => t,
        None => {
            return None;
        },
    };
    if t == NodeType::Invalid || start < DATA_AREA_START || start + size_of_node(t) > bump {
        return None;
    }
    let len: u32 = if t == NodeType::Leaf {
        leaf_body_size(
            read_u16(img, start as usize + 10) as u32,
            read_u16(img, start as usize + 8) as u32,
        )
    } else {
        size_of_node(t)
    };
    if start + len > bump {
        return None;
    }
    Some((start as usize, (start + len) as usize))
}

/// Whether `img` is laid out as a frame.
fn laid_out(img: &[u8]) -> (yes: bool)
    ensures
        yes == frame_ok(img@),
{
    if img.len() != PAGE_SIZE as usize {
        return false;
    }
    let n: u16 = read_u16(img, 42);
    let bump: u32 = read_u32(img, 32);
    if n == 0 || n > MAX_SLOTS || bump < DATA_AREA_START || bump > PAGE_SIZE {
        return false;
    }
    let mut end: usize = DATA_AREA_START as usize;
    let mut s: u16 = 1;
    while s < n
        invariant
            img@.len() == PAGE_SIZE,
            1 <= s <= n == slots_of(img@) <= MAX_SLOTS,
            forall|t: int| 1 <= t < s ==> #[trigger] has_body(img@, t),
            forall|t: int| 1 <= t < s ==> #[trigger] start_at(img@, t) + len_at(img@, t) <= end,
            forall|t: int, u: int|
                1 <= t < u < s ==> #[trigger] start_at(img@, t) + len_at(img@, t)
                    <= #[trigger] start_at(img@, u),
            s > 1 ==> end == start_at(img@, s - 1) + len_at(img@, s - 1),
            s == 1 ==> end == DATA_AREA_START,
        decreases n - s,
    {
        match body_range(img, s) {
            Some((from, to)) => {
                if from < end {
                    assert(s > 1) by {
                        assert(has_body(img@, s as int));
                    }
                    assert(!frame_ok(img@)) by {
                        assert(start_at(img@, s - 1) + len_at(img@, s - 1) > start_at(
                            img@,
                            s as int,
                        ));
                    }
                    return false;
                }
                proof {
                    lemma_len_at(img@, s as int);
                }
                end = to;
            },
            None => {
                assert(!has_body(img@, s as int));
                return false;
            },
        }
        s = s + 1;
    }
    true
}

/// The fields of the header, the lowest byte first.
pub proof fn header_fields_have_their_places(img: Seq<u8>)
    ensures
        guid_of(img) == img.subrange(0, 16),
        compactions_of(img) == img[24] + 0x100 * img[25] + 0x1_0000 * img[26] + 0x100_0000
            * img[27],
        ext_blobs_of(img) == img[28] + 0x100 * img[29] + 0x1_0000 * img[30] + 0x100_0000 * img[31],
        bump_of(img) == img[32] + 0x100 * img[33] + 0x1_0000 * img[34] + 0x100_0000 * img[35],
        gap_of(img) == img[36] + 0x100 * img[37] + 0x1_0000 * img[38] + 0x100_0000 * img[39],
        root_of(img) == img[40] + 0x100 * img[41],
        slots_of(img) == img[42] + 0x100 * img[43],
        epoch_of(img) == img[16] + 0x100 * img[17] + 0x1_0000 * img[18] + 0x100_0000 * img[19]
            + 0x1_0000_0000 * img[20] + 0x100_0000_0000 * img[21] + 0x1_0000_0000_0000 * img[22]
            + 0x100_0000_0000_0000 * img[23],
{
}

/// A node is allocated exactly where one of 10240 slots is left and its body fits
/// the 512 KiB. It is there afterwards, byte for byte, and so is every node that
/// was; where it does not fit, nothing changes.
pub proof fn a_frame_takes_nodes_until_it_is_full(
    a: Seq<u8>,
    b: Seq<u8>,
    t: NodeType,
    body: Seq<u8>,
    slot: Result<u16>,
    s: int,
)
    requires
        frame_ok(a),
        extends(a, b),
        alloc_gives(a, b, t, body, slot),
    ensures
        slot is Ok <==> slots_of(a) < 10240 && bump_of(a) + body.len() <= 524288,
        slot is Err ==> slot == Err::<u16, Error>(Error::OutOfSpace) && b == a,
        slot matches Ok(n) ==> !in_use(a, n as int) && has_body(b, n as int) && body_at(b, n as int)
            == body && type_at(b, n as int) == Some(t),
        has_body(a, s) ==> has_body(b, s) && body_at(b, s) == body_at(a, s) && type_at(b, s)
            == type_at(a, s),
{
    if has_body(a, s) {
        assert(same_node(a, b, s));
    }
}

/// The bodies of two nodes share no byte, and all lie between the slot table and
/// the last byte in use.
pub proof fn bodies_do_not_overlap(img: Seq<u8>, s: int, t: int)
    requires
        frame_ok(img),
        1 <= s < t < slots_of(img),
    ensures
        45056 <= start_at(img, s),
        start_at(img, s) + body_at(img, s).len() <= start_at(img, t),
        start_at(img, t) + body_at(img, t).len() <= bump_of(img) <= 524288,
{
    assert(has_body(img, s) && has_body(img, t));
    lemma_len_at(img, s);
    lemma_len_at(img, t);
    assert(start_at(img, s) + len_at(img, s) <= start_at(img, t));
}

/// An abandoned node adds the bytes of its body to the gap, which stays at the
/// greatest number it can hold.
pub proof fn an_abandoned_node_leaves_a_gap(img: Seq<u8>, s: int)
    requires
        img.len() == 524288,
    ensures
        has_body(img, s) && gap_of(img) + body_at(img, s).len() <= 0xffff_ffff ==> abandoned_gap(
            img,
            s,
        ) == gap_of(img) + body_at(img, s).len(),
        has_body(img, s) && gap_of(img) + body_at(img, s).len() > 0xffff_ffff ==> abandoned_gap(
            img,
            s,
        ) == 0xffff_ffff,
        !has_body(img, s) ==> abandoned_gap(img, s) == gap_of(img),
{
    crate::bytes::lemma_le32(img, 36);
    if has_body(img, s) {
        lemma_len_at(img, s);
    }
}

/// A new frame bears its guid and epoch, holds one empty node as its root, and
/// counts no crossing, no gap and no compaction.
pub proof fn a_new_frame_is_empty(guid: BlobGuid, epoch: u64)
    ensures
        ({
            let img = empty_image(guid@, epoch as int);
            &&& img.len() == 524288 && frame_ok(img)
            &&& guid_of(img) == guid@ && epoch_of(img) == epoch
            &&& compactions_of(img) == 0 && ext_blobs_of(img) == 0 && gap_of(img) == 0
            &&& root_of(img) == 1 && slots_of(img) == 2 && bump_of(img) == 45064
            &&& type_at(img, 1) == Some(NodeType::EmptyRoot)
        }),
{
    lemma_empty_image(guid@, epoch as int);
}

/// A slot is a word of four bytes behind the header: the last one tells the type of
/// its node, and the others, the lowest first, where its body starts.
pub proof fn a_slot_tells_type_and_place(img: Seq<u8>, s: int)
    requires
        img.len() == 524288,
        0 <= s < 10240,
    ensures
        start_at(img, s) == img[4096 + 4 * s] + 0x100 * img[4097 + 4 * s] + 0x1_0000 * img[4098 + 4
            * s],
        img[4099 + 4 * s] == 1 <==> type_at(img, s) == Some(NodeType::Leaf),
        img[4099 + 4 * s] == 2 <==> type_at(img, s) == Some(NodeType::Prefix),
        img[4099 + 4 * s] == 3 <==> type_at(img, s) == Some(NodeType::Blob),
        img[4099 + 4 * s] == 4 <==> type_at(img, s) == Some(NodeType::Node4),
        img[4099 + 4 * s] == 5 <==> type_at(img, s) == Some(NodeType::Node16),
        img[4099 + 4 * s] == 6 <==> type_at(img, s) == Some(NodeType::Node48),
        img[4099 + 4 * s] == 7 <==> type_at(img, s) == Some(NodeType::Node256),
        img[4099 + 4 * s] == 8 <==> type_at(img, s) == Some(NodeType::EmptyRoot),
        img[4099 + 4 * s] > 8 <==> type_at(img, s) is None,
{
    let o = 4096 + 4 * s;
    let low = img[o] + 0x100 * img[o + 1] + 0x1_0000 * img[o + 2];
    assert(word_at(img, s) == low + 0x100_0000 * img[o + 3]);
    assert(0 <= low < 0x100_0000);
    assert(word_at(img, s) / 0x100_0000 == img[o + 3]);
    assert(word_at(img, s) % 0x100_0000 == low);
}

} // verus!
