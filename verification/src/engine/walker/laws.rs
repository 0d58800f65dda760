//! What holds of searches: they survive extension of the frame, and in a valid
//! tree they never meet bad bytes.
use vstd::prelude::*;

verus! {

/// Longest key, from the 16-bit length field of a leaf.
pub const MAX_KEY: usize = 65535;

/// Slot `s` roots a tree of live leaves whose keys all start with `path`.
pub open spec fn valid_at(img: Seq<u8>, s: int, path: Seq<u8>) -> bool
    decreases MAX_KEY + 1 - path.len(),
{
    match crate::engine::walker::model::node(img, s) {
        crate::engine::walker::model::Node::Leaf { key, value, live } => {
            &&& live
            &&& path.is_prefix_of(key)
            &&& key.len() <= MAX_KEY
        },
        crate::engine::walker::model::Node::Prefix { bytes, child } => {
            &&& bytes.len() > 0
            &&& path.len() + bytes.len() <= MAX_KEY
            &&& valid_at(img, child, path + bytes)
        },
        crate::engine::walker::model::Node::Inner { pairs } => {
            &&& pairs.len() >= 1
            &&& crate::engine::walker::writers::pairs_ok(pairs)
            &&& path.len() < MAX_KEY
            &&& forall|i: int|
                0 <= i < pairs.len() ==> valid_at(
                    img,
                    (#[trigger] pairs[i]).1 as int,
                    path.push(pairs[i].0),
                )
        },
        _ => false,
    }
}

/// A frame that holds a valid tree, or an empty one.
pub open spec fn valid_tree(img: Seq<u8>) -> bool {
    &&& crate::store::blob_frame::frame_ok(img)
    &&& crate::engine::walker::model::node(img, crate::store::blob_frame::root_of(img)) is Empty
        || valid_at(img, crate::store::blob_frame::root_of(img), Seq::empty())
}

/// Whether `k` starts with the first `depth` bytes of `key`.
pub open spec fn agrees(k: Seq<u8>, key: Seq<u8>, depth: int) -> bool {
    0 <= depth <= key.len() && depth <= k.len() && k.take(depth) == key.take(depth)
}

/// A node of an image is a node of every extension.
pub proof fn lemma_node_extends(a: Seq<u8>, b: Seq<u8>, s: int)
    requires
        crate::store::blob_frame::extends(a, b),
        !(crate::engine::walker::model::node(a, s) is Bad),
    ensures
        crate::engine::walker::model::node(b, s) == crate::engine::walker::model::node(a, s),
{
    assert(crate::store::blob_frame::has_body(a, s));
    assert(crate::store::blob_frame::same_node(a, b, s));
}

/// A search that ends well ends the same way in every extension.
pub proof fn lemma_find_extends(a: Seq<u8>, b: Seq<u8>, s: int, key: Seq<u8>, depth: int)
    requires
        crate::store::blob_frame::extends(a, b),
        !(crate::engine::walker::model::find(a, s, key, depth) is Corrupt),
    ensures
        crate::engine::walker::model::find(b, s, key, depth)
            == crate::engine::walker::model::find(a, s, key, depth),
    decreases key.len() - depth,
{
    lemma_node_extends(a, b, s);
    match crate::engine::walker::model::node(a, s) {
        crate::engine::walker::model::Node::Prefix { bytes, child } => {
            if bytes.len() > 0 && crate::engine::walker::model::continues(key, depth, bytes) {
                lemma_find_extends(a, b, child, key, depth + bytes.len());
            }
        },
        crate::engine::walker::model::Node::Inner { pairs } => {
            if 0 <= depth < key.len() {
                match crate::engine::walker::model::child_of(pairs, key[depth]) {
                    Some(c) => {
                        lemma_find_extends(a, b, c as int, key, depth + 1);
                    },
                    None => {},
                }
            }
        },
        _ => {},
    }
}

/// A valid tree is a valid tree of every extension.
pub proof fn lemma_valid_extends(a: Seq<u8>, b: Seq<u8>, s: int, path: Seq<u8>)
    requires
        crate::store::blob_frame::extends(a, b),
        valid_at(a, s, path),
    ensures
        valid_at(b, s, path),
    decreases MAX_KEY + 1 - path.len(),
{
    lemma_node_extends(a, b, s);
    match crate::engine::walker::model::node(a, s) {
        crate::engine::walker::model::Node::Prefix { bytes, child } => {
            lemma_valid_extends(a, b, child, path + bytes);
        },
        crate::engine::walker::model::Node::Inner { pairs } => {
            assert forall|i: int| 0 <= i < pairs.len() implies valid_at(
                b,
                (#[trigger] pairs[i]).1 as int,
                path.push(pairs[i].0),
            ) by {
                lemma_valid_extends(a, b, pairs[i].1 as int, path.push(pairs[i].0));
            }
        },
        _ => {},
    }
}

/// The path of a child, seen from a key below it.
pub proof fn lemma_take_step(key: Seq<u8>, depth: int, bytes: Seq<u8>)
    requires
        0 <= depth <= key.len(),
        crate::engine::walker::model::continues(key, depth, bytes),
    ensures
        key.take(depth + bytes.len()) == key.take(depth) + bytes,
{
    let n = depth + bytes.len();
    assert forall|i: int| 0 <= i < n implies key.take(n)[i] == (key.take(depth) + bytes)[i] by {
        if i >= depth {
            assert(key.subrange(depth, n)[i - depth] == key[i]);
        }
    }
    assert(key.take(n) =~= key.take(depth) + bytes);
}

/// The path of an inner node's child, seen from a key below it.
pub proof fn lemma_take_push(key: Seq<u8>, depth: int)
    requires
        0 <= depth < key.len(),
    ensures
        key.take(depth + 1) == key.take(depth).push(key[depth]),
{
    assert(key.take(depth + 1) =~= key.take(depth).push(key[depth]));
}

/// A listed child of a byte is among the pairs.
pub proof fn lemma_child_listed(pairs: Seq<(u8, u16)>, b: u8) -> (i: int)
    requires
        crate::engine::walker::model::child_of(pairs, b) is Some,
    ensures
        0 <= i < pairs.len(),
        crate::engine::walker::model::is_child(pairs, b, i),
        crate::engine::walker::model::child_of(pairs, b) == Some(pairs[i].1),
    decreases pairs.len(),
{
    if pairs[0].0 == b {
        assert(crate::engine::walker::model::is_child(pairs, b, 0));
        0
    } else {
        let rest = pairs.subrange(1, pairs.len() as int);
        let i = lemma_child_listed(rest, b);
        assert(rest[i] == pairs[i + 1]);
        assert forall|j: int| 0 <= j < i + 1 implies (#[trigger] pairs[j]).0 != b by {
            if j > 0 {
                assert(rest[j - 1] == pairs[j]);
            }
        }
        i + 1
    }
}

/// In a sorted list, every listed pair is the child of its byte.
pub proof fn lemma_sorted_child(pairs: Seq<(u8, u16)>, i: int)
    requires
        crate::engine::walker::model::strictly_sorted(pairs),
        0 <= i < pairs.len(),
    ensures
        crate::engine::walker::model::child_of(pairs, pairs[i].0) == Some(pairs[i].1),
{
    crate::engine::walker::model::lemma_child_of(pairs, pairs[i].0);
    assert(crate::engine::walker::model::is_child(pairs, pairs[i].0, i));
}

/// In a valid tree a search below the tree's path finds a value or nothing.
pub proof fn lemma_valid_find(img: Seq<u8>, s: int, key: Seq<u8>, depth: int)
    requires
        0 <= depth <= key.len(),
        valid_at(img, s, key.take(depth)),
    ensures
        crate::engine::walker::model::find(img, s, key, depth) is Found
            || crate::engine::walker::model::find(img, s, key, depth) is Missing,
    decreases key.len() - depth,
{
    match crate::engine::walker::model::node(img, s) {
        crate::engine::walker::model::Node::Prefix { bytes, child } => {
            if crate::engine::walker::model::continues(key, depth, bytes) {
                lemma_take_step(key, depth, bytes);
                lemma_valid_find(img, child, key, depth + bytes.len());
            }
        },
        crate::engine::walker::model::Node::Inner { pairs } => {
            if depth < key.len() && crate::engine::walker::model::child_of(
                pairs,
                key[depth],
            ) is Some {
                let i = lemma_child_listed(pairs, key[depth]);
                lemma_take_push(key, depth);
                lemma_valid_find(img, pairs[i].1 as int, key, depth + 1);
            }
        },
        _ => {},
    }
}

/// A valid tree is not empty: some key below its path is stored.
pub proof fn lemma_valid_nonempty(img: Seq<u8>, s: int, path: Seq<u8>) -> (k: Seq<u8>)
    requires
        valid_at(img, s, path),
    ensures
        path.is_prefix_of(k),
        k.len() <= MAX_KEY,
        crate::engine::walker::model::find(img, s, k, path.len() as int) is Found,
        crate::engine::walker::model::node(img, s) is Inner ==> path.len() < k.len(),
    decreases MAX_KEY + 1 - path.len(),
{
    match crate::engine::walker::model::node(img, s) {
        crate::engine::walker::model::Node::Leaf { key, value, live } => key,
        crate::engine::walker::model::Node::Prefix { bytes, child } => {
            let k = lemma_valid_nonempty(img, child, path + bytes);
            let d = path.len() as int;
            assert(k.subrange(d, d + bytes.len()) =~= bytes) by {
                assert forall|i: int| 0 <= i < bytes.len() implies k[d + i] == bytes[i] by {
                    assert((path + bytes)[d + i] == k[d + i]);
                }
            }
            assert(path.is_prefix_of(k)) by {
                assert forall|i: int| 0 <= i < path.len() implies path[i] == k[i] by {
                    assert((path + bytes)[i] == k[i]);
                }
                assert(path =~= k.subrange(0, d));
            }
            k
        },
        crate::engine::walker::model::Node::Inner { pairs } => {
            let p = path.push(pairs[0].0);
            let k = lemma_valid_nonempty(img, pairs[0].1 as int, p);
            let d = path.len() as int;
            assert(p[d] == k[d]);
            assert(path.is_prefix_of(k)) by {
                assert forall|i: int| 0 <= i < path.len() implies path[i] == k[i] by {
                    assert(p[i] == k[i]);
                }
                assert(path =~= k.subrange(0, d));
            }
            lemma_sorted_child(pairs, 0);
            k
        },
        _ => path,
    }
}

/// A key found in a valid tree starts with the tree's path, so two found keys
/// never stand in the prefix relation.
pub proof fn lemma_prefix_free(img: Seq<u8>, s: int, k1: Seq<u8>, k2: Seq<u8>, depth: int)
    requires
        0 <= depth <= k1.len(),
        k1.is_prefix_of(k2),
        valid_at(img, s, k1.take(depth)),
        crate::engine::walker::model::find(img, s, k1, depth) is Found,
        crate::engine::walker::model::find(img, s, k2, depth) is Found,
    ensures
        k1 == k2,
    decreases k1.len() - depth,
{
    assert forall|i: int| 0 <= i < k1.len() implies k1[i] == k2[i] by {
        assert(k2.subrange(0, k1.len() as int)[i] == k2[i]);
    }
    match crate::engine::walker::model::node(img, s) {
        crate::engine::walker::model::Node::Prefix { bytes, child } => {
            lemma_take_step(k1, depth, bytes);
            lemma_prefix_free(img, child, k1, k2, depth + bytes.len());
        },
        crate::engine::walker::model::Node::Inner { pairs } => {
            let i = lemma_child_listed(pairs, k1[depth]);
            lemma_take_push(k1, depth);
            lemma_prefix_free(img, pairs[i].1 as int, k1, k2, depth + 1);
        },
        _ => {},
    }
}

// ---------- frames whose references all resolve ----------

/// Slot `s` holds a node whose children are slots in use, none listed twice for
/// one byte.
pub open spec fn clean_node(img: Seq<u8>, s: int) -> bool {
    match crate::engine::walker::model::node(img, s) {
        crate::engine::walker::model::Node::Prefix { bytes, child } => {
            crate::store::blob_frame::in_use(img, child)
        },
        crate::engine::walker::model::Node::Inner { pairs } => {
            &&& crate::engine::walker::model::distinct_bytes(pairs)
            &&& forall|i: int|
                0 <= i < pairs.len() ==> crate::store::blob_frame::in_use(
                    img,
                    (#[trigger] pairs[i]).1 as int,
                )
        },
        crate::engine::walker::model::Node::Bad => false,
        _ => true,
    }
}

/// A frame in which every slot in use holds a node whose children are slots in
/// use, none listed twice for one byte.
pub open spec fn clean(img: Seq<u8>) -> bool {
    &&& crate::store::blob_frame::frame_ok(img)
    &&& forall|s: int| 1 <= s < crate::store::blob_frame::slots_of(img) ==> #[trigger] clean_node(
        img,
        s,
    )
}

/// Growing a clean frame by clean nodes keeps it clean.
pub proof fn lemma_clean_grow(a: Seq<u8>, b: Seq<u8>)
    requires
        clean(a),
        crate::store::blob_frame::frame_ok(b),
        crate::store::blob_frame::extends(a, b),
        forall|s: int|
            crate::store::blob_frame::slots_of(a) <= s < crate::store::blob_frame::slots_of(b)
                ==> #[trigger] clean_node(b, s),
    ensures
        clean(b),
{
    assert forall|s: int| 1 <= s < crate::store::blob_frame::slots_of(b) implies
        #[trigger] clean_node(b, s) by {
        if s < crate::store::blob_frame::slots_of(a) {
            assert(clean_node(a, s));
            lemma_node_extends(a, b, s);
        }
    }
}

} // verus!
