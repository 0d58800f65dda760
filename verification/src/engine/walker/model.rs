//! What the bytes of a frame mean as a radix tree.
use vstd::prelude::*;

use crate::layout::NodeType;

verus! {

/// A value, with the sequence of the write that stored it.
pub struct Stamped {
    pub bytes: Seq<u8>,
    pub seq: int,
}

/// `bytes` stored by the write `seq`.
pub open spec fn stamp(bytes: Seq<u8>, seq: u64) -> Stamped {
    Stamped { bytes, seq: seq as int }
}

/// A node, free of its byte layout.
pub enum Node {
    /// The root of an empty tree.
    Empty,
    /// One key with its value; a dead leaf is a tombstone.
    Leaf { key: Seq<u8>, value: Stamped, live: bool },
    /// Bytes that every key below shares.
    Prefix { bytes: Seq<u8>, child: int },
    /// One child per key byte.
    Inner { pairs: Seq<(u8, u16)> },
    /// A crossing into the blob `guid`, with key bytes of its own.
    Blob { guid: Seq<u8>, prefix: Seq<u8> },
    /// Bytes that are no node.
    Bad,
}

/// Key of the leaf in `body`.
pub open spec fn leaf_key(body: Seq<u8>) -> Seq<u8> {
    body.subrange(16, 16 + crate::bytes::le16(body, 10))
}

/// Value of the leaf in `body`.
pub open spec fn leaf_value(body: Seq<u8>) -> Seq<u8> {
    body.subrange(
        16 + crate::bytes::le16(body, 10),
        16 + crate::bytes::le16(body, 10) + crate::bytes::le16(body, 8),
    )
}

/// The smaller of two numbers.
pub open spec fn min(a: int, b: int) -> int {
    if a < b {
        a
    } else {
        b
    }
}

/// Children of a `Node4`, in the order it lists them.
pub open spec fn pairs4(body: Seq<u8>) -> Seq<(u8, u16)> {
    Seq::new(
        min(body[0] as int, 4) as nat,
        |i: int| (body[4 + i], crate::bytes::le16(body, 8 + 2 * i) as u16),
    )
}

/// Children of a `Node16`, in the order it lists them.
pub open spec fn pairs16(body: Seq<u8>) -> Seq<(u8, u16)> {
    Seq::new(
        min(body[0] as int, 16) as nat,
        |i: int| (body[8 + i], crate::bytes::le16(body, 24 + 2 * i) as u16),
    )
}

/// Whether no index entry of a `Node48` below `n` is out of range.
pub open spec fn index48_ok(body: Seq<u8>, n: int) -> bool {
    forall|b: int| 0 <= b < n ==> #[trigger] body[8 + b] <= 48
}

/// The child reference that a `Node48` has for byte `b`; an index entry out of
/// range refers to nothing.
pub open spec fn child48(body: Seq<u8>, b: int) -> u16 {
    if body[8 + b] <= 48 {
        crate::bytes::le16(body, 264 + 2 * (body[8 + b] - 1)) as u16
    } else {
        0
    }
}

/// Children of a `Node48` for the bytes below `n`, in byte order.
pub open spec fn pairs48(body: Seq<u8>, n: int) -> Seq<(u8, u16)>
    decreases n,
{
    if n <= 0 {
        Seq::empty()
    } else if body[8 + (n - 1)] == 0 {
        pairs48(body, n - 1)
    } else {
        pairs48(body, n - 1).push(((n - 1) as u8, child48(body, n - 1)))
    }
}

/// The child reference that a `Node256` has for byte `b`; 0 where it has none.
pub open spec fn child256(body: Seq<u8>, b: int) -> u16 {
    crate::bytes::le16(body, 8 + 2 * b) as u16
}

/// Children of a `Node256` for the bytes below `n`, in byte order.
pub open spec fn pairs256(body: Seq<u8>, n: int) -> Seq<(u8, u16)>
    decreases n,
{
    if n <= 0 {
        Seq::empty()
    } else if child256(body, n - 1) == 0 {
        pairs256(body, n - 1)
    } else {
        pairs256(body, n - 1).push(((n - 1) as u8, child256(body, n - 1)))
    }
}

/// The node that `body` holds when its slot says type `t`.
pub open spec fn parse(t: NodeType, body: Seq<u8>) -> Node {
    match t {
        NodeType::Invalid => Node::Bad,
        NodeType::EmptyRoot => Node::Empty,
        NodeType::Leaf => Node::Leaf {
            key: leaf_key(body),
            value: Stamped { bytes: leaf_value(body), seq: crate::bytes::le64(body, 0) },
            live: body[12] == 0,
        },
        NodeType::Prefix => {
            let len = crate::bytes::le32(body, 4);
            if 1 <= len <= crate::layout::PREFIX_MAX_INLINE {
                Node::Prefix {
                    bytes: body.subrange(8, 8 + len),
                    child: crate::bytes::le16(body, 0),
                }
            } else {
                Node::Bad
            }
        },
        NodeType::Blob => {
            let len = crate::bytes::le32(body, 16);
            if len <= crate::layout::BLOB_MAX_INLINE {
                Node::Blob { guid: body.subrange(0, 16), prefix: body.subrange(24, 24 + len) }
            } else {
                Node::Bad
            }
        },
        NodeType::Node4 => Node::Inner { pairs: pairs4(body) },
        NodeType::Node16 => Node::Inner { pairs: pairs16(body) },
        NodeType::Node48 => Node::Inner { pairs: pairs48(body, 256) },
        NodeType::Node256 => Node::Inner { pairs: pairs256(body, 256) },
    }
}

/// The node in slot `s`.
pub open spec fn node(img: Seq<u8>, s: int) -> Node {
    if crate::store::blob_frame::has_body(img, s) {
        parse(
            crate::store::blob_frame::type_at(img, s)->0,
            crate::store::blob_frame::body_at(img, s),
        )
    } else {
        Node::Bad
    }
}

/// Whether `pairs[i]` is the first child of byte `b`.
pub open spec fn is_child(pairs: Seq<(u8, u16)>, b: u8, i: int) -> bool {
    &&& 0 <= i < pairs.len()
    &&& pairs[i].0 == b
    &&& forall|j: int| 0 <= j < i ==> (#[trigger] pairs[j]).0 != b
}

/// Whether byte `b` has a child.
pub open spec fn has_child(pairs: Seq<(u8, u16)>, b: u8) -> bool {
    exists|i: int| 0 <= i < pairs.len() && (#[trigger] pairs[i]).0 == b
}

/// The child of byte `b`: the first one listed.
pub open spec fn child_of(pairs: Seq<(u8, u16)>, b: u8) -> Option<u16>
    decreases pairs.len(),
{
    if pairs.len() == 0 {
        None
    } else if pairs[0].0 == b {
        Some(pairs[0].1)
    } else {
        child_of(pairs.subrange(1, pairs.len() as int), b)
    }
}

/// How a search inside one frame ends.
pub enum Outcome {
    Found(Stamped),
    Missing,
    /// The search goes on in the blob `guid`, `depth` key bytes in.
    Cross { guid: Seq<u8>, depth: int },
    /// The search met bytes that are no node.
    Corrupt,
}

/// Whether `key` continues with `bytes` after `depth` bytes.
pub open spec fn continues(key: Seq<u8>, depth: int, bytes: Seq<u8>) -> bool {
    depth + bytes.len() <= key.len() && key.subrange(depth, depth + bytes.len()) == bytes
}

/// Where the search for `key` from slot `s`, `depth` bytes in, ends.
pub open spec fn find(img: Seq<u8>, s: int, key: Seq<u8>, depth: int) -> Outcome
    decreases key.len() - depth,
{
    match node(img, s) {
        Node::Empty => Outcome::Missing,
        Node::Leaf { key: k, value, live } => if live && k == key {
            Outcome::Found(value)
        } else {
            Outcome::Missing
        },
        Node::Prefix { bytes, child } => if bytes.len() > 0 && continues(key, depth, bytes) {
            find(img, child, key, depth + bytes.len())
        } else {
            Outcome::Missing
        },
        Node::Inner { pairs } => if 0 <= depth < key.len() {
            match child_of(pairs, key[depth]) {
                Some(c) => find(img, c as int, key, depth + 1),
                None => Outcome::Missing,
            }
        } else {
            Outcome::Missing
        },
        Node::Blob { guid, prefix } => if continues(key, depth, prefix) {
            Outcome::Cross { guid, depth: depth + prefix.len() }
        } else {
            Outcome::Missing
        },
        Node::Bad => Outcome::Corrupt,
    }
}

// ---------- facts about children ----------

/// The child of a byte is the first one listed.
pub proof fn lemma_child_of(pairs: Seq<(u8, u16)>, b: u8)
    ensures
        has_child(pairs, b) <==> child_of(pairs, b) is Some,
        forall|i: int| #[trigger] is_child(pairs, b, i) ==> child_of(pairs, b) == Some(pairs[i].1),
    decreases pairs.len(),
{
    if pairs.len() > 0 {
        let rest = pairs.subrange(1, pairs.len() as int);
        lemma_child_of(rest, b);
        assert forall|i: int| #[trigger] is_child(pairs, b, i) implies child_of(pairs, b) == Some(
            pairs[i].1,
        ) by {
            if pairs[0].0 != b {
                assert(i > 0);
                assert forall|j: int| 0 <= j < i - 1 implies (#[trigger] rest[j]).0 != b by {
                    assert(rest[j] == pairs[j + 1]);
                }
                assert(rest[i - 1] == pairs[i]);
                assert(is_child(rest, b, i - 1));
            }
        }
        if has_child(pairs, b) && pairs[0].0 != b {
            let i = choose|i: int| 0 <= i < pairs.len() && (#[trigger] pairs[i]).0 == b;
            assert(rest[i - 1].0 == b);
        }
        if child_of(pairs, b) is Some && pairs[0].0 != b {
            let i = choose|i: int| 0 <= i < rest.len() && (#[trigger] rest[i]).0 == b;
            assert(pairs[i + 1].0 == b);
        }
    }
}

/// The children that a `Node48` has for the bytes below `n`.
pub proof fn lemma_pairs48(body: Seq<u8>, n: int)
    requires
        0 <= n <= 256,
    ensures
        pairs48(body, n).len() <= n,
        forall|i: int|
            0 <= i < pairs48(body, n).len() ==> (#[trigger] pairs48(body, n)[i]).0 < n && body[8
                + pairs48(body, n)[i].0] != 0 && pairs48(body, n)[i].1 == child48(
                body,
                pairs48(body, n)[i].0 as int,
            ),
        forall|b: u8| b < n && #[trigger] body[8 + b] != 0 ==> has_child(pairs48(body, n), b),
        strictly_sorted(pairs48(body, n)),
    decreases n,
{
    if n > 0 {
        lemma_pairs48(body, n - 1);
        let before = pairs48(body, n - 1);
        let all = pairs48(body, n);
        assert forall|b: u8| b < n && #[trigger] body[8 + b] != 0 implies has_child(all, b) by {
            if b < n - 1 {
                let i = choose|i: int| 0 <= i < before.len() && (#[trigger] before[i]).0 == b;
                assert(all[i].0 == b);
            } else {
                assert(all[before.len() as int].0 == b);
            }
        }
    }
}

/// The children that a `Node256` has for the bytes below `n`.
pub proof fn lemma_pairs256(body: Seq<u8>, n: int)
    requires
        0 <= n <= 256,
    ensures
        pairs256(body, n).len() <= n,
        forall|i: int|
            0 <= i < pairs256(body, n).len() ==> (#[trigger] pairs256(body, n)[i]).0 < n
                && child256(body, pairs256(body, n)[i].0 as int) != 0 && pairs256(body, n)[i].1
                == child256(body, pairs256(body, n)[i].0 as int),
        forall|b: u8|
            b < n && #[trigger] child256(body, b as int) != 0 ==> has_child(pairs256(body, n), b),
        strictly_sorted(pairs256(body, n)),
    decreases n,
{
    if n > 0 {
        lemma_pairs256(body, n - 1);
        let before = pairs256(body, n - 1);
        let all = pairs256(body, n);
        assert forall|b: u8| b < n && #[trigger] child256(body, b as int) != 0 implies has_child(
            all,
            b,
        ) by {
            if b < n - 1 {
                let i = choose|i: int| 0 <= i < before.len() && (#[trigger] before[i]).0 == b;
                assert(all[i].0 == b);
            } else {
                assert(all[before.len() as int].0 == b);
            }
        }
    }
}

/// Whether no byte is listed twice.
#[verifier::opaque]
pub open spec fn distinct_bytes(pairs: Seq<(u8, u16)>) -> bool {
    forall|i: int, j: int|
        #![trigger pairs[i], pairs[j]]
        0 <= i < j < pairs.len() ==> pairs[i].0 != pairs[j].0
}

/// Whether children are listed in rising byte order, none twice.
pub open spec fn strictly_sorted(pairs: Seq<(u8, u16)>) -> bool {
    forall|i: int, j: int|
        #![trigger pairs[i], pairs[j]]
        0 <= i < j < pairs.len() ==> pairs[i].0 < pairs[j].0
}

/// In rising order no byte is listed twice.
pub proof fn lemma_sorted_distinct(pairs: Seq<(u8, u16)>)
    requires
        strictly_sorted(pairs),
    ensures
        distinct_bytes(pairs),
{
    reveal(distinct_bytes);
}

/// Where no byte is listed twice, every listed pair is the child of its byte.
pub proof fn lemma_distinct_child(pairs: Seq<(u8, u16)>, i: int)
    requires
        distinct_bytes(pairs),
        0 <= i < pairs.len(),
    ensures
        child_of(pairs, pairs[i].0) == Some(pairs[i].1),
{
    reveal(distinct_bytes);
    lemma_child_of(pairs, pairs[i].0);
    assert(is_child(pairs, pairs[i].0, i));
}

/// A search follows the key. It ends at a leaf, which it finds where the leaf is
/// live and has this very key; at a byte without a child; or at a crossing whose
/// bytes the key goes on with, as many bytes in as were passed.
pub proof fn a_search_follows_the_key(img: Seq<u8>, s: int, key: Seq<u8>, depth: int)
    requires
        0 <= depth <= key.len(),
    ensures
        match node(img, s) {
            Node::Empty => find(img, s, key, depth) == Outcome::Missing,
            Node::Leaf { key: k, value, live } => {
                &&& live && k == key ==> find(img, s, key, depth) == Outcome::Found(value)
                &&& !live || k != key ==> find(img, s, key, depth) == Outcome::Missing
            },
            Node::Prefix { bytes, child } => bytes.len() > 0 ==> {
                let on = depth + bytes.len() <= key.len() && forall|i: int|
                    0 <= i < bytes.len() ==> #[trigger] bytes[i] == key[depth + i];
                &&& on ==> find(img, s, key, depth) == find(img, child, key, depth + bytes.len())
                &&& !on ==> find(img, s, key, depth) == Outcome::Missing
            },
            Node::Inner { pairs } => {
                &&& depth == key.len() ==> find(img, s, key, depth) == Outcome::Missing
                &&& depth < key.len() ==> match child_of(pairs, key[depth]) {
                    Some(c) => find(img, s, key, depth) == find(img, c as int, key, depth + 1),
                    None => find(img, s, key, depth) == Outcome::Missing,
                }
            },
            Node::Blob { guid, prefix } => {
                let on = depth + prefix.len() <= key.len() && forall|i: int|
                    0 <= i < prefix.len() ==> #[trigger] prefix[i] == key[depth + i];
                &&& on ==> find(img, s, key, depth) == (Outcome::Cross {
                    guid,
                    depth: depth + prefix.len(),
                })
                &&& !on ==> find(img, s, key, depth) == Outcome::Missing
            },
            Node::Bad => find(img, s, key, depth) == Outcome::Corrupt,
        },
{
    match node(img, s) {
        Node::Prefix { bytes, child } => {
            lemma_continues(key, depth, bytes);
        },
        Node::Blob { guid, prefix } => {
            lemma_continues(key, depth, prefix);
        },
        _ => {},
    }
}

proof fn lemma_continues(key: Seq<u8>, depth: int, bytes: Seq<u8>)
    requires
        0 <= depth <= key.len(),
    ensures
        continues(key, depth, bytes) == (depth + bytes.len() <= key.len() && forall|i: int|
            0 <= i < bytes.len() ==> #[trigger] bytes[i] == key[depth + i]),
{
    if depth + bytes.len() <= key.len() {
        let part = key.subrange(depth, depth + bytes.len());
        if forall|i: int| 0 <= i < bytes.len() ==> #[trigger] bytes[i] == key[depth + i] {
            assert(part =~= bytes);
        }
        if part == bytes {
            assert forall|i: int| 0 <= i < bytes.len() implies #[trigger] bytes[i] == key[depth
                + i] by {
                assert(part[i] == bytes[i]);
            }
        }
    }
}

} // verus!
