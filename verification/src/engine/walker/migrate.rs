//! Copying subtrees between frames, and compaction.
use vstd::prelude::*;
use vstd::slice::slice_subrange;

use crate::api::errors::{Error, Result};
use crate::bytes::{read_u16, read_u32};
use crate::engine::walker::readers::{
    child_pairs, pairs_in_order, read_leaf, resolve_typed, split_leaf_body,
};
use crate::engine::walker::writers::{
    alloc_blob_node, alloc_empty, alloc_inner, alloc_leaf, alloc_prefix,
};
use crate::layout::{NodeType, PAGE_SIZE};
use crate::store::blob_frame::{read_guid, BlobFrame};

verus! {

/// How deep a copied subtree may be: one level per key byte, and the leaf.
pub const MAX_DEPTH: u32 = 65536;

/// Every search from `t` in `b` ends as it does from `s` in `a`, and ends well.
pub open spec fn cloned(a: Seq<u8>, s: int, b: Seq<u8>, t: int) -> bool {
    forall|k: Seq<u8>, d: int|
        0 <= d <= k.len() ==> {
            let out = #[trigger] crate::engine::walker::model::find(b, t, k, d);
            out == crate::engine::walker::model::find(a, s, k, d) && !(out is Corrupt)
        }
}

/// Every path that `s` in `a` is a valid tree for, `t` in `b` is too.
pub open spec fn cloned_valid(a: Seq<u8>, s: int, b: Seq<u8>, t: int) -> bool {
    forall|path: Seq<u8>|
        crate::engine::walker::laws::valid_at(a, s, path)
            ==> #[trigger] crate::engine::walker::laws::valid_at(b, t, path)
}

/// Whether the children of `n` are slots in use, none listed twice for one byte.
pub open spec fn children_in_use(img: Seq<u8>, n: crate::engine::walker::model::Node) -> bool {
    match n {
        crate::engine::walker::model::Node::Prefix { bytes, child } => {
            crate::store::blob_frame::in_use(img, child)
        },
        crate::engine::walker::model::Node::Inner { pairs } => {
            &&& crate::engine::walker::model::distinct_bytes(pairs)
            &&& forall|i: int|
                0 <= i < pairs.len() ==> crate::store::blob_frame::in_use(
                    img,
                    (#[trigger] pairs[i]).1 as int,
                )
        },
        crate::engine::walker::model::Node::Bad => false,
        _ => true,
    }
}

/// Appending a node over slots in use keeps a frame clean.
pub proof fn lemma_append_clean(
    a: Seq<u8>,
    b: Seq<u8>,
    r: Result<u16>,
    n: crate::engine::walker::model::Node,
    size: int,
)
    requires
        crate::engine::walker::writers::appends(a, b, r, n, size),
        children_in_use(a, n),
    ensures
        crate::engine::walker::laws::clean(a) ==> crate::engine::walker::laws::clean(b),
{
    if crate::engine::walker::laws::clean(a) && crate::store::blob_frame::fits(a, size) {
        let s = crate::store::blob_frame::slots_of(a);
        assert(crate::engine::walker::laws::clean_node(b, s)) by {
            match n {
                crate::engine::walker::model::Node::Inner { pairs } => {
                    assert forall|i: int|
                        0 <= i < pairs.len() implies crate::store::blob_frame::in_use(
                        b,
                        (#[trigger] pairs[i]).1 as int,
                    ) by {
                        assert(crate::store::blob_frame::in_use(a, pairs[i].1 as int));
                    }
                },
                _ => {},
            }
        }
        crate::engine::walker::laws::lemma_clean_grow(a, b);
    }
}

/// A copied subtree stays copied when the frame grows.
pub proof fn lemma_cloned_extends(a: Seq<u8>, s: int, b: Seq<u8>, t: int, c: Seq<u8>)
    requires
        cloned(a, s, b, t),
        cloned_valid(a, s, b, t),
        crate::store::blob_frame::extends(b, c),
    ensures
        cloned(a, s, c, t),
        cloned_valid(a, s, c, t),
{
    assert forall|k: Seq<u8>, d: int| 0 <= d <= k.len() implies {
        let out = #[trigger] crate::engine::walker::model::find(c, t, k, d);
        out == crate::engine::walker::model::find(a, s, k, d) && !(out is Corrupt)
    } by {
        let mid = crate::engine::walker::model::find(b, t, k, d);
        crate::engine::walker::laws::lemma_find_extends(b, c, t, k, d);
    }
    assert forall|path: Seq<u8>| crate::engine::walker::laws::valid_at(a, s, path) implies
        #[trigger] crate::engine::walker::laws::valid_at(c, t, path) by {
        assert(crate::engine::walker::laws::valid_at(b, t, path));
        crate::engine::walker::laws::lemma_valid_extends(b, c, t, path);
    }
}

proof fn lemma_cloned_prefix(
    a: Seq<u8>,
    s: int,
    bytes: Seq<u8>,
    child: int,
    b: Seq<u8>,
    t: int,
    c1: int,
)
    requires
        bytes.len() > 0,
        crate::engine::walker::model::node(a, s) == (crate::engine::walker::model::Node::Prefix {
            bytes,
            child,
        }),
        crate::engine::walker::model::node(b, t) == (crate::engine::walker::model::Node::Prefix {
            bytes,
            child: c1,
        }),
        cloned(a, child, b, c1),
        cloned_valid(a, child, b, c1),
    ensures
        cloned(a, s, b, t),
        cloned_valid(a, s, b, t),
{
    assert forall|k: Seq<u8>, d: int| 0 <= d <= k.len() implies {
        let out = #[trigger] crate::engine::walker::model::find(b, t, k, d);
        out == crate::engine::walker::model::find(a, s, k, d) && !(out is Corrupt)
    } by {
        if crate::engine::walker::model::continues(k, d, bytes) {
            let inner = crate::engine::walker::model::find(b, c1, k, d + bytes.len());
        }
    }
    assert forall|path: Seq<u8>| crate::engine::walker::laws::valid_at(a, s, path) implies
        #[trigger] crate::engine::walker::laws::valid_at(b, t, path) by {
        assert(crate::engine::walker::laws::valid_at(b, c1, path + bytes));
    }
}

/// The two lists name the same bytes, and each child in `new` is a copy.
spec fn cloned_pairs(
    a: Seq<u8>,
    pairs: Seq<(u8, u16)>,
    b: Seq<u8>,
    new: Seq<(u8, u16)>,
    n: int,
) -> bool {
    &&& new.len() == n <= pairs.len()
    &&& forall|i: int|
        0 <= i < n ==> (#[trigger] new[i]).0 == pairs[i].0 && 0 < new[i].1
            < crate::store::blob_frame::slots_of(b) && cloned(
            a,
            pairs[i].1 as int,
            b,
            new[i].1 as int,
        ) && cloned_valid(a, pairs[i].1 as int, b, new[i].1 as int)
}

proof fn lemma_cloned_inner(
    a: Seq<u8>,
    s: int,
    pairs: Seq<(u8, u16)>,
    b: Seq<u8>,
    t: int,
    new: Seq<(u8, u16)>,
)
    requires
        crate::engine::walker::model::node(a, s) == (crate::engine::walker::model::Node::Inner {
            pairs,
        }),
        crate::engine::walker::model::node(b, t) == (crate::engine::walker::model::Node::Inner {
            pairs: new,
        }),
        crate::engine::walker::writers::pairs_ok(pairs),
        cloned_pairs(a, pairs, b, new, pairs.len() as int),
    ensures
        cloned(a, s, b, t),
        cloned_valid(a, s, b, t),
{
    lemma_cloned_pairs_ok(a, pairs, b, new);
    assert forall|k: Seq<u8>, d: int| 0 <= d <= k.len() implies {
        let out = #[trigger] crate::engine::walker::model::find(b, t, k, d);
        out == crate::engine::walker::model::find(a, s, k, d) && !(out is Corrupt)
    } by {
        if d < k.len() {
            let x = k[d];
            crate::engine::walker::model::lemma_child_of(pairs, x);
            crate::engine::walker::model::lemma_child_of(new, x);
            if crate::engine::walker::model::child_of(pairs, x) is Some {
                let i = crate::engine::walker::laws::lemma_child_listed(pairs, x);
                assert(new[i].0 == x);
                crate::engine::walker::laws::lemma_sorted_child(new, i);
                let inner = crate::engine::walker::model::find(b, new[i].1 as int, k, d + 1);
            } else if crate::engine::walker::model::child_of(new, x) is Some {
                let i = crate::engine::walker::laws::lemma_child_listed(new, x);
                assert(pairs[i].0 == x);
                assert(crate::engine::walker::model::has_child(pairs, x));
            }
        }
    }
    assert forall|path: Seq<u8>| crate::engine::walker::laws::valid_at(a, s, path) implies
        #[trigger] crate::engine::walker::laws::valid_at(b, t, path) by {
        assert forall|i: int| 0 <= i < new.len() implies crate::engine::walker::laws::valid_at(
            b,
            (#[trigger] new[i]).1 as int,
            path.push(new[i].0),
        ) by {
            assert(crate::engine::walker::laws::valid_at(
                a,
                pairs[i].1 as int,
                path.push(pairs[i].0),
            ));
        }
    }
}

proof fn lemma_cloned_pairs_ok(
    a: Seq<u8>,
    pairs: Seq<(u8, u16)>,
    b: Seq<u8>,
    new: Seq<(u8, u16)>,
)
    requires
        crate::engine::walker::writers::pairs_ok(pairs),
        cloned_pairs(a, pairs, b, new, pairs.len() as int),
    ensures
        crate::engine::walker::writers::pairs_ok(new),
{
    assert forall|p: int, q: int|
        #![trigger new[p], new[q]]
        0 <= p < q < new.len() implies new[p].0 < new[q].0 by {
        assert(pairs[p].0 < pairs[q].0);
    }
}

/// Room that a copy takes.
pub struct Cost {
    pub bytes: int,
    pub slots: int,
}

/// Both costs together.
pub open spec fn plus(a: Cost, b: Cost) -> Cost {
    Cost { bytes: a.bytes + b.bytes, slots: a.slots + b.slots }
}

/// One node of `bytes` bytes.
pub open spec fn one_node(bytes: int) -> Cost {
    Cost { bytes, slots: 1 }
}

/// Room that a copy of the subtree at `s` takes, down to `fuel` levels.
pub open spec fn copy_cost(img: Seq<u8>, s: int, fuel: nat) -> Cost
    decreases fuel, 0nat,
{
    match crate::engine::walker::model::node(img, s) {
        crate::engine::walker::model::Node::Empty => one_node(8),
        crate::engine::walker::model::Node::Leaf { key, value, live } => if live {
            one_node(crate::layout::leaf::leaf_size(key.len() as int, value.bytes.len() as int))
        } else {
            one_node(8)
        },
        crate::engine::walker::model::Node::Blob { guid, prefix } => one_node(128),
        crate::engine::walker::model::Node::Prefix { bytes, child } => if fuel > 0 {
            plus(copy_cost(img, child, (fuel - 1) as nat), one_node(128))
        } else {
            one_node(128)
        },
        crate::engine::walker::model::Node::Inner { pairs } => {
            let own = one_node(
                crate::layout::node::node_size(
                    crate::engine::walker::writers::inner_type(pairs.len() as int),
                ),
            );
            if fuel > 0 {
                plus(children_cost(img, pairs, pairs.len(), (fuel - 1) as nat), own)
            } else {
                own
            }
        },
        crate::engine::walker::model::Node::Bad => Cost { bytes: 0, slots: 0 },
    }
}

/// Room that copies of the first `n` children take.
pub open spec fn children_cost(img: Seq<u8>, pairs: Seq<(u8, u16)>, n: nat, fuel: nat) -> Cost
    decreases fuel, n,
{
    if n == 0 {
        Cost { bytes: 0, slots: 0 }
    } else {
        plus(
            children_cost(img, pairs, (n - 1) as nat, fuel),
            copy_cost(img, pairs[n - 1].1 as int, fuel),
        )
    }
}

/// A copy never frees room.
pub proof fn lemma_cost(img: Seq<u8>, s: int, fuel: nat)
    ensures
        copy_cost(img, s, fuel).bytes >= 0,
        copy_cost(img, s, fuel).slots >= 0,
    decreases fuel, 0nat,
{
    match crate::engine::walker::model::node(img, s) {
        crate::engine::walker::model::Node::Leaf { key, value, live } => {
            crate::layout::leaf::leaf_size_is_tight(key.len() as int, value.bytes.len() as int);
        },
        crate::engine::walker::model::Node::Prefix { bytes, child } => {
            if fuel > 0 {
                lemma_cost(img, child, (fuel - 1) as nat);
            }
        },
        crate::engine::walker::model::Node::Inner { pairs } => {
            if fuel > 0 {
                lemma_children_cost(img, pairs, 0, pairs.len(), (fuel - 1) as nat);
            }
        },
        _ => {},
    }
}

/// More children take no less room.
pub proof fn lemma_children_cost(
    img: Seq<u8>,
    pairs: Seq<(u8, u16)>,
    m: nat,
    n: nat,
    fuel: nat,
)
    requires
        m <= n,
    ensures
        0 <= children_cost(img, pairs, m, fuel).bytes <= children_cost(img, pairs, n, fuel).bytes,
        0 <= children_cost(img, pairs, m, fuel).slots <= children_cost(img, pairs, n, fuel).slots,
    decreases fuel, n,
{
    if n > 0 {
        lemma_cost(img, pairs[n - 1].1 as int, fuel);
        if m < n {
            lemma_children_cost(img, pairs, m, (n - 1) as nat, fuel);
        } else {
            lemma_children_cost(img, pairs, (n - 1) as nat, (n - 1) as nat, fuel);
        }
    }
}

/// `b` takes `cost` more room than `a`.
pub open spec fn spent(a: Seq<u8>, b: Seq<u8>, cost: Cost) -> bool {
    &&& crate::store::blob_frame::bump_of(b) == crate::store::blob_frame::bump_of(a) + cost.bytes
    &&& crate::store::blob_frame::slots_of(b) == crate::store::blob_frame::slots_of(a) + cost.slots
}

/// Whether `img` has room for `cost`.
pub open spec fn affords(img: Seq<u8>, cost: Cost) -> bool {
    &&& crate::store::blob_frame::bump_of(img) + cost.bytes <= PAGE_SIZE
    &&& crate::store::blob_frame::slots_of(img) + cost.slots <= crate::layout::MAX_SLOTS
}

/// Whether the subtree at `s` consists of nodes and is at most `fuel` levels
/// deep.
pub open spec fn copyable(img: Seq<u8>, s: int, fuel: nat) -> bool
    decreases fuel,
{
    match crate::engine::walker::model::node(img, s) {
        crate::engine::walker::model::Node::Bad => false,
        crate::engine::walker::model::Node::Prefix { bytes, child } => fuel > 0 && copyable(
            img,
            child,
            (fuel - 1) as nat,
        ),
        crate::engine::walker::model::Node::Inner { pairs } => {
            &&& fuel > 0
            &&& crate::engine::walker::writers::pairs_ok(pairs)
            &&& forall|i: int|
                0 <= i < pairs.len() ==> copyable(
                    img,
                    (#[trigger] pairs[i]).1 as int,
                    (fuel - 1) as nat,
                )
        },
        _ => true,
    }
}

/// Whether a dead leaf stands in the subtree at `s`, down to `fuel` levels.
pub open spec fn has_tombstone(img: Seq<u8>, s: int, fuel: nat) -> bool
    decreases fuel,
{
    match crate::engine::walker::model::node(img, s) {
        crate::engine::walker::model::Node::Leaf { key, value, live } => !live,
        crate::engine::walker::model::Node::Prefix { bytes, child } => fuel > 0 && has_tombstone(
            img,
            child,
            (fuel - 1) as nat,
        ),
        crate::engine::walker::model::Node::Inner { pairs } => fuel > 0 && exists|i: int|
            0 <= i < pairs.len() && has_tombstone(
                img,
                (#[trigger] pairs[i]).1 as int,
                (fuel - 1) as nat,
            ),
        _ => false,
    }
}

/// A copy takes one slot a node. A leaf takes its key and value behind a header,
/// a prefix or a crossing 128 bytes, an empty node 8, and an inner node at most
/// what one with room for every byte takes.
pub proof fn a_copy_takes_a_slot_a_node(img: Seq<u8>, s: int, fuel: nat)
    requires
        fuel > 0,
    ensures
        match crate::engine::walker::model::node(img, s) {
            crate::engine::walker::model::Node::Empty => copy_cost(img, s, fuel).slots == 1
                && copy_cost(img, s, fuel).bytes == 8,
            crate::engine::walker::model::Node::Leaf { key, value, live } => {
                &&& copy_cost(img, s, fuel).slots == 1
                &&& live ==> 16 + key.len() + value.bytes.len() <= copy_cost(img, s, fuel).bytes
                    < 24 + key.len() + value.bytes.len()
                &&& !live ==> copy_cost(img, s, fuel).bytes == 8
            },
            crate::engine::walker::model::Node::Blob { guid, prefix } => copy_cost(
                img,
                s,
                fuel,
            ).slots == 1 && copy_cost(img, s, fuel).bytes == 128,
            crate::engine::walker::model::Node::Prefix { bytes, child } => {
                let below = copy_cost(img, child, (fuel - 1) as nat);
                copy_cost(img, s, fuel).slots == below.slots + 1 && copy_cost(img, s, fuel).bytes
                    == below.bytes + 128
            },
            crate::engine::walker::model::Node::Inner { pairs } => {
                let below = children_cost(img, pairs, pairs.len(), (fuel - 1) as nat);
                copy_cost(img, s, fuel).slots == below.slots + 1 && below.bytes <= copy_cost(
                    img,
                    s,
                    fuel,
                ).bytes <= below.bytes + 520
            },
            crate::engine::walker::model::Node::Bad => true,
        },
{
    match crate::engine::walker::model::node(img, s) {
        crate::engine::walker::model::Node::Leaf { key, value, live } => {
            crate::layout::leaf::leaf_size_is_tight(key.len() as int, value.bytes.len() as int);
        },
        _ => {},
    }
}

/// A frame without dead leaves has no tombstone below any of its slots.
pub proof fn only_a_dead_leaf_is_a_tombstone(img: Seq<u8>, s: int, fuel: nat)
    requires
        forall|t: int|
            (#[trigger] crate::engine::walker::model::node(
                img,
                t,
            ) matches crate::engine::walker::model::Node::Leaf { key, value, live } ==> live),
    ensures
        !has_tombstone(img, s, fuel),
    decreases fuel,
{
    match crate::engine::walker::model::node(img, s) {
        crate::engine::walker::model::Node::Prefix { bytes, child } => {
            if fuel > 0 {
                only_a_dead_leaf_is_a_tombstone(img, child, (fuel - 1) as nat);
            }
        },
        crate::engine::walker::model::Node::Inner { pairs } => {
            if fuel > 0 {
                assert forall|i: int| 0 <= i < pairs.len() implies !has_tombstone(
                    img,
                    (#[trigger] pairs[i]).1 as int,
                    (fuel - 1) as nat,
                ) by {
                    only_a_dead_leaf_is_a_tombstone(img, pairs[i].1 as int, (fuel - 1) as nat);
                }
            }
        },
        _ => {},
    }
}

/// A dead leaf that a walk comes to is a tombstone.
pub proof fn every_dead_leaf_is_a_tombstone(img: Seq<u8>, s: int, fuel: nat, x: int)
    requires
        crate::engine::walker::visits::reaches(img, s, fuel, x),
        crate::engine::walker::model::node(
            img,
            x,
        ) matches crate::engine::walker::model::Node::Leaf { key, value, live } && !live,
    ensures
        has_tombstone(img, s, fuel),
    decreases fuel,
{
    if x != s {
        match crate::engine::walker::model::node(img, s) {
            crate::engine::walker::model::Node::Prefix { bytes, child } => {
                every_dead_leaf_is_a_tombstone(img, child, (fuel - 1) as nat, x);
            },
            crate::engine::walker::model::Node::Inner { pairs } => {
                let i = choose|i: int|
                    0 <= i < pairs.len() && crate::engine::walker::visits::reaches(
                        img,
                        (#[trigger] pairs[i]).1 as int,
                        (fuel - 1) as nat,
                        x,
                    );
                every_dead_leaf_is_a_tombstone(img, pairs[i].1 as int, (fuel - 1) as nat, x);
            },
            _ => {},
        }
    }
}

/// Whether a dead leaf stands in the subtree at `slot`.
pub fn tombstone_below(frame: &BlobFrame, slot: u16, fuel: u32) -> (yes: bool)
    requires
        crate::store::blob_frame::frame_ok(frame@),
        copyable(frame@, slot as int, fuel as nat),
    ensures
        yes == has_tombstone(frame@, slot as int, fuel as nat),
    decreases fuel,
{
    let (ntype, body) = match resolve_typed(frame, slot) {
        Ok(r) => r,
        Err(_e) => {
            return false;
        },
    };
    proof {
        crate::store::blob_frame::lemma_len_at(frame@, slot as int);
    }
    match ntype {
        NodeType::Leaf => read_leaf(body).tombstone != 0,
        NodeType::Prefix => {
            if fuel == 0 {
                return false;
            }
            let child: u16 = read_u16(body, 0);
            tombstone_below(frame, child, fuel - 1)
        },
        NodeType::Node4 | NodeType::Node16 | NodeType::Node48 | NodeType::Node256 => {
            let pairs: Vec<(u8, u16)> = match child_pairs(frame, slot, ntype) {
                Some(p) => p,
                None => {
                    proof {
                        crate::engine::walker::insert::lemma_bad_index(frame@, slot as int);
                    }
                    return false;
                },
            };
            if fuel == 0 {
                return false;
            }
            let mut i: usize = 0;
            while i < pairs.len()
                invariant
                    i <= pairs@.len(),
                    fuel > 0,
                    crate::store::blob_frame::frame_ok(frame@),
                    copyable(frame@, slot as int, fuel as nat),
                    crate::engine::walker::model::node(frame@, slot as int)
                        == (crate::engine::walker::model::Node::Inner { pairs: pairs@ }),
                    forall|j: int|
                        0 <= j < i ==> !has_tombstone(
                            frame@,
                            (#[trigger] pairs@[j]).1 as int,
                            (fuel - 1) as nat,
                        ),
                decreases pairs@.len() - i,
            {
                let (_b, c): (u8, u16) = pairs[i];
                assert(pairs@[i as int].1 == c);
                if tombstone_below(frame, c, fuel - 1) {
                    return true;
                }
                i += 1;
            }
            false
        },
        _ => false,
    }
}

/// A valid tree can be copied: it has no more levels than its keys have bytes.
pub proof fn lemma_valid_copyable(img: Seq<u8>, s: int, path: Seq<u8>, fuel: nat)
    requires
        crate::engine::walker::laws::valid_at(img, s, path),
        fuel + path.len() > crate::engine::walker::laws::MAX_KEY,
    ensures
        copyable(img, s, fuel),
    decreases fuel,
{
    match crate::engine::walker::model::node(img, s) {
        crate::engine::walker::model::Node::Prefix { bytes, child } => {
            lemma_valid_copyable(img, child, path + bytes, (fuel - 1) as nat);
        },
        crate::engine::walker::model::Node::Inner { pairs } => {
            assert forall|i: int| 0 <= i < pairs.len() implies copyable(
                img,
                (#[trigger] pairs[i]).1 as int,
                (fuel - 1) as nat,
            ) by {
                lemma_valid_copyable(
                    img,
                    pairs[i].1 as int,
                    path.push(pairs[i].0),
                    (fuel - 1) as nat,
                );
            }
        },
        _ => {},
    }
}

/// Whether the tree at `t` in `b` is that at `s` in `a`, `fuel` levels deep, node
/// by node, with an empty node for every dead leaf.
pub open spec fn mirrors(a: Seq<u8>, s: int, b: Seq<u8>, t: int, fuel: nat) -> bool
    decreases fuel,
{
    match crate::engine::walker::model::node(a, s) {
        crate::engine::walker::model::Node::Empty => crate::engine::walker::model::node(b, t)
            is Empty,
        crate::engine::walker::model::Node::Leaf { key, value, live } => if live {
            crate::engine::walker::model::node(b, t) == crate::engine::walker::model::node(a, s)
        } else {
            crate::engine::walker::model::node(b, t) is Empty
        },
        crate::engine::walker::model::Node::Blob { guid, prefix } =>
            crate::engine::walker::model::node(b, t) == crate::engine::walker::model::node(a, s),
        crate::engine::walker::model::Node::Prefix { bytes, child } => {
            &&& fuel > 0
            &&& crate::engine::walker::model::node(b, t)
                matches crate::engine::walker::model::Node::Prefix { bytes: y, child: c } && y
                == bytes && mirrors(a, child, b, c, (fuel - 1) as nat)
        },
        crate::engine::walker::model::Node::Inner { pairs } => {
            &&& fuel > 0
            &&& crate::engine::walker::model::node(b, t)
                matches crate::engine::walker::model::Node::Inner { pairs: q }
            &&& q.len() == pairs.len()
            &&& forall|i: int|
                0 <= i < pairs.len() ==> (#[trigger] q[i]).0 == pairs[i].0 && mirrors(
                    a,
                    pairs[i].1 as int,
                    b,
                    q[i].1 as int,
                    (fuel - 1) as nat,
                )
        },
        crate::engine::walker::model::Node::Bad => false,
    }
}

/// A copy stays one when its frame grows.
proof fn lemma_mirrors_extends(
    a: Seq<u8>,
    s: int,
    b: Seq<u8>,
    t: int,
    c: Seq<u8>,
    fuel: nat,
)
    requires
        mirrors(a, s, b, t, fuel),
        crate::store::blob_frame::extends(b, c),
    ensures
        mirrors(a, s, c, t, fuel),
    decreases fuel,
{
    crate::engine::walker::laws::lemma_node_extends(b, c, t);
    match crate::engine::walker::model::node(a, s) {
        crate::engine::walker::model::Node::Prefix { bytes, child } => {
            let c1 = crate::engine::walker::model::node(b, t)->child;
            lemma_mirrors_extends(a, child, b, c1, c, (fuel - 1) as nat);
        },
        crate::engine::walker::model::Node::Inner { pairs } => {
            let q = crate::engine::walker::model::node(b, t)->Inner_pairs;
            assert forall|i: int| 0 <= i < pairs.len() implies (#[trigger] q[i]).0 == pairs[i].0
                && mirrors(
                a,
                pairs[i].1 as int,
                c,
                q[i].1 as int,
                (fuel - 1) as nat,
            ) by {
                lemma_mirrors_extends(
                    a,
                    pairs[i].1 as int,
                    b,
                    q[i].1 as int,
                    c,
                    (fuel - 1) as nat,
                );
            }
        },
        _ => {},
    }
}

/// An inner node over copied children is a copy.
proof fn lemma_mirrors_inner(
    a: Seq<u8>,
    s: int,
    pairs: Seq<(u8, u16)>,
    b: Seq<u8>,
    t: int,
    new: Seq<(u8, u16)>,
    fuel: nat,
)
    requires
        fuel > 0,
        crate::engine::walker::model::node(a, s) == (crate::engine::walker::model::Node::Inner {
            pairs,
        }),
        crate::engine::walker::model::node(b, t) == (crate::engine::walker::model::Node::Inner {
            pairs: new,
        }),
        new.len() == pairs.len(),
        forall|i: int| 0 <= i < pairs.len() ==> (#[trigger] new[i]).0 == pairs[i].0,
        mirrored(a, pairs, b, new, pairs.len() as int, (fuel - 1) as nat),
    ensures
        mirrors(a, s, b, t, fuel),
{
}

/// Where two lists have the same bytes, a byte has its child at the same place.
proof fn lemma_same_place(p: Seq<(u8, u16)>, q: Seq<(u8, u16)>, y: u8) -> (i: int)
    requires
        q.len() == p.len(),
        forall|i: int| 0 <= i < p.len() ==> (#[trigger] q[i]).0 == p[i].0,
    ensures
        match crate::engine::walker::model::child_of(p, y) {
            Some(c) => 0 <= i < p.len() && p[i].1 == c && crate::engine::walker::model::child_of(
                q,
                y,
            ) == Some(q[i].1),
            None => crate::engine::walker::model::child_of(q, y) is None,
        },
    decreases p.len(),
{
    if p.len() == 0 {
        0
    } else {
        assert(q[0].0 == p[0].0);
        if p[0].0 == y {
            0
        } else {
            let pr = p.subrange(1, p.len() as int);
            let qr = q.subrange(1, q.len() as int);
            assert forall|i: int| 0 <= i < pr.len() implies (#[trigger] qr[i]).0 == pr[i].0 by {
                assert(qr[i] == q[i + 1]);
            }
            let i = lemma_same_place(pr, qr, y);
            i + 1
        }
    }
}

/// An insertion into a copy takes the room that one into the tree takes.
pub proof fn lemma_mirrors_cost(
    a: Seq<u8>,
    s: int,
    b: Seq<u8>,
    t: int,
    fuel: nat,
    key: Seq<u8>,
    leaf: int,
    depth: int,
)
    requires
        mirrors(a, s, b, t, fuel),
    ensures
        crate::engine::walker::insert::insert_cost(b, t, key, leaf, depth)
            == crate::engine::walker::insert::insert_cost(a, s, key, leaf, depth),
    decreases fuel,
{
    match crate::engine::walker::model::node(a, s) {
        crate::engine::walker::model::Node::Prefix { bytes, child } => {
            let c1 = crate::engine::walker::model::node(b, t)->child;
            lemma_mirrors_cost(
                a,
                child,
                b,
                c1,
                (fuel - 1) as nat,
                key,
                leaf,
                depth + bytes.len(),
            );
        },
        crate::engine::walker::model::Node::Inner { pairs } => {
            let q = crate::engine::walker::model::node(b, t)->Inner_pairs;
            if depth < key.len() {
                let i = lemma_same_place(pairs, q, key[depth]);
                if crate::engine::walker::model::child_of(pairs, key[depth]) is Some {
                    assert(q[i].0 == pairs[i].0);
                    lemma_mirrors_cost(
                        a,
                        pairs[i].1 as int,
                        b,
                        q[i].1 as int,
                        (fuel - 1) as nat,
                        key,
                        leaf,
                        depth + 1,
                    );
                }
            }
        },
        _ => {},
    }
}

/// What copying the subtree `s` of `a` gives in the frame that was `b0`.
pub open spec fn clone_result(
    a: Seq<u8>,
    s: int,
    b0: Seq<u8>,
    b: Seq<u8>,
    r: Result<u16>,
    fuel: nat,
) -> bool {
    &&& crate::store::blob_frame::frame_ok(b)
    &&& crate::store::blob_frame::extends(b0, b)
    &&& crate::store::blob_frame::same_header(b0, b)
    &&& crate::store::blob_frame::bump_of(b0) <= crate::store::blob_frame::bump_of(b)
    &&& crate::engine::walker::laws::clean(b0) ==> crate::engine::walker::laws::clean(b)
    &&& match r {
        Ok(t) => {
            &&& t != 0
            &&& crate::store::blob_frame::slots_of(b0) <= t < crate::store::blob_frame::slots_of(b)
            &&& cloned(a, s, b, t as int)
            &&& cloned_valid(a, s, b, t as int)
            &&& spent(b0, b, copy_cost(a, s, fuel))
            &&& copyable(a, s, fuel)
            &&& mirrors(a, s, b, t as int, fuel)
        },
        Err(Error::OutOfSpace) => !affords(b0, copy_cost(a, s, fuel)),
        Err(Error::NodeCorrupt { .. }) => !copyable(a, s, fuel),
        Err(_) => false,
    }
}

/// Whether the first `n` children are copied, node by node.
pub open spec fn mirrored(
    a: Seq<u8>,
    pairs: Seq<(u8, u16)>,
    b: Seq<u8>,
    new: Seq<(u8, u16)>,
    n: int,
    fuel: nat,
) -> bool {
    forall|i: int|
        0 <= i < n ==> mirrors(a, pairs[i].1 as int, b, (#[trigger] new[i]).1 as int, fuel)
}

/// Children that are copied stay so when the frame grows.
proof fn lemma_mirrored_extends(
    a: Seq<u8>,
    pairs: Seq<(u8, u16)>,
    b: Seq<u8>,
    new: Seq<(u8, u16)>,
    n: int,
    fuel: nat,
    c: Seq<u8>,
)
    requires
        mirrored(a, pairs, b, new, n, fuel),
        crate::store::blob_frame::extends(b, c),
    ensures
        mirrored(a, pairs, c, new, n, fuel),
{
    assert forall|i: int| 0 <= i < n implies mirrors(
        a,
        pairs[i].1 as int,
        c,
        (#[trigger] new[i]).1 as int,
        fuel,
    ) by {
        lemma_mirrors_extends(a, pairs[i].1 as int, b, new[i].1 as int, c, fuel);
    }
}

/// Copy the children of an inner node.
fn clone_children(
    src: &BlobFrame,
    pairs: &[(u8, u16)],
    dst: &mut BlobFrame,
    fuel: u32,
    Ghost(slot): Ghost<int>,
) -> (r: Result<Vec<(u8, u16)>>)
    requires
        crate::store::blob_frame::frame_ok(src@),
        crate::store::blob_frame::frame_ok(old(dst)@),
        fuel > 0,
        crate::engine::walker::model::node(src@, slot)
            == (crate::engine::walker::model::Node::Inner { pairs: pairs@ }),
    ensures
        crate::store::blob_frame::frame_ok(final(dst)@),
        crate::store::blob_frame::extends(old(dst)@, final(dst)@),
        crate::store::blob_frame::same_header(old(dst)@, final(dst)@),
        crate::store::blob_frame::bump_of(old(dst)@) <= crate::store::blob_frame::bump_of(
            final(dst)@,
        ),
        crate::engine::walker::laws::clean(old(dst)@) ==> crate::engine::walker::laws::clean(
            final(dst)@,
        ),
        match r {
            Ok(new) => {
                &&& cloned_pairs(src@, pairs@, final(dst)@, new@, pairs@.len() as int)
                &&& spent(
                    old(dst)@,
                    final(dst)@,
                    children_cost(src@, pairs@, pairs@.len(), (fuel - 1) as nat),
                )
                &&& crate::engine::walker::writers::pairs_ok(pairs@) ==> copyable(
                    src@,
                    slot,
                    fuel as nat,
                )
                &&& mirrored(src@, pairs@, final(dst)@, new@, pairs@.len() as int, (fuel - 1) as nat)
            },
            Err(Error::OutOfSpace) => !affords(
                old(dst)@,
                children_cost(src@, pairs@, pairs@.len(), (fuel - 1) as nat),
            ),
            Err(Error::NodeCorrupt { .. }) => !copyable(src@, slot, fuel as nat),
            Err(_) => false,
        },
    decreases fuel, 0int,
{
    let ghost a = src@;
    let mut new: Vec<(u8, u16)> = Vec::with_capacity(pairs.len());
    proof {
        crate::store::blob_frame::lemma_extends_refl(dst@);
    }
    let mut i: usize = 0;
    while i < pairs.len()
        invariant
            i <= pairs@.len(),
            a == src@,
            fuel > 0,
            crate::store::blob_frame::frame_ok(src@),
            crate::store::blob_frame::frame_ok(dst@),
            crate::store::blob_frame::extends(old(dst)@, dst@),
            crate::store::blob_frame::same_header(old(dst)@, dst@),
            crate::store::blob_frame::bump_of(old(dst)@) <= crate::store::blob_frame::bump_of(dst@),
            crate::engine::walker::laws::clean(old(dst)@) ==> crate::engine::walker::laws::clean(
                dst@,
            ),
            crate::engine::walker::model::node(src@, slot)
                == (crate::engine::walker::model::Node::Inner { pairs: pairs@ }),
            cloned_pairs(a, pairs@, dst@, new@, i as int),
            spent(old(dst)@, dst@, children_cost(a, pairs@, i as nat, (fuel - 1) as nat)),
            forall|j: int|
                0 <= j < i ==> copyable(a, (#[trigger] pairs@[j]).1 as int, (fuel - 1) as nat),
            mirrored(a, pairs@, dst@, new@, i as int, (fuel - 1) as nat),
        decreases pairs@.len() - i,
    {
        proof {
            lemma_children_cost(a, pairs@, i as nat + 1, pairs@.len(), (fuel - 1) as nat);
        }
        let (b, c): (u8, u16) = pairs[i];
        let ghost before = dst@;
        let ghost done = new@;
        match clone_subtree(src, c, dst, fuel - 1) {
            Ok(t) => {
                new.push((b, t));
                proof {
                    lemma_mirrored_extends(
                        a,
                        pairs@,
                        before,
                        done,
                        i as int,
                        (fuel - 1) as nat,
                        dst@,
                    );
                    assert(mirrored(a, pairs@, dst@, new@, i + 1, (fuel - 1) as nat)) by {
                        assert forall|j: int| 0 <= j < i + 1 implies mirrors(
                            a,
                            pairs@[j].1 as int,
                            dst@,
                            (#[trigger] new@[j]).1 as int,
                            (fuel - 1) as nat,
                        ) by {
                            if j < i {
                                assert(new@[j] == done[j]);
                            }
                        }
                    }
                    crate::store::blob_frame::lemma_extends_trans(old(dst)@, before, dst@);
                    assert forall|j: int| 0 <= j < i + 1 implies (#[trigger] new@[j]).0
                        == pairs@[j].0 && 0 < new@[j].1 < crate::store::blob_frame::slots_of(
                        dst@,
                    ) && cloned(
                        a,
                        pairs@[j].1 as int,
                        dst@,
                        new@[j].1 as int,
                    ) && cloned_valid(a, pairs@[j].1 as int, dst@, new@[j].1 as int) by {
                        if j < i {
                            assert(new@[j] == done[j]);
                            lemma_cloned_extends(
                                a,
                                pairs@[j].1 as int,
                                before,
                                done[j].1 as int,
                                dst@,
                            );
                        }
                    }
                }
            },
            Err(e) => {
                proof {
                    crate::store::blob_frame::lemma_extends_trans(old(dst)@, before, dst@);
                    if copyable(a, slot, fuel as nat) {
                        assert(copyable(a, pairs@[i as int].1 as int, (fuel - 1) as nat));
                    }
                }
                return Err(e);
            },
        }
        i += 1;
    }
    Ok(new)
}

/// Copy the subtree at `slot` of `src` into `dst`, children before parents.
/// Dead leaves are copied as empty nodes.
#[verifier::rlimit(40)]
pub fn clone_subtree(src: &BlobFrame, slot: u16, dst: &mut BlobFrame, fuel: u32) -> (r: Result<u16>)
    requires
        crate::store::blob_frame::frame_ok(src@),
        crate::store::blob_frame::frame_ok(old(dst)@),
    ensures
        clone_result(src@, slot as int, old(dst)@, final(dst)@, r, fuel as nat),
    decreases fuel, 1int,
{
    let ghost a = src@;
    let ghost b0 = dst@;
    proof {
        crate::store::blob_frame::lemma_extends_refl(b0);
    }
    let (ntype, body) = match resolve_typed(src, slot) {
        Ok(r) => r,
        Err(e) => {
            return Err(e);
        },
    };
    proof {
        crate::store::blob_frame::lemma_len_at(a, slot as int);
    }
    match ntype {
        NodeType::Invalid => Err(Error::node_corrupt("clone: invalid node")),
        NodeType::EmptyRoot => {
            let r = alloc_empty(dst);
            proof {
                lemma_append_clean(
                    b0,
                    dst@,
                    r,
                    crate::engine::walker::model::Node::Empty,
                    8,
                );
            }
            r
        },
        NodeType::Leaf => {
            let leaf = read_leaf(body);
            proof {
                crate::bytes::lemma_le16(body@, 8);
                crate::bytes::lemma_le16(body@, 10);
                crate::layout::leaf::leaf_size_is_tight(
                    crate::bytes::le16(body@, 10),
                    crate::bytes::le16(body@, 8),
                );
            }
            match split_leaf_body(body, &leaf) {
                Ok((k, v)) => if leaf.tombstone == 0 {
                    let r = alloc_leaf(dst, k, v, leaf.seq);
                    proof {
                        lemma_append_clean(
                            b0,
                            dst@,
                            r,
                            crate::engine::walker::model::Node::Leaf {
                                key: k@,
                                value: crate::engine::walker::model::stamp(v@, leaf.seq),
                                live: true,
                            },
                            crate::layout::leaf::leaf_size(k@.len() as int, v@.len() as int),
                        );
                    }
                    r
                } else {
                    let r = alloc_empty(dst);
                    proof {
                        lemma_append_clean(
                            b0,
                            dst@,
                            r,
                            crate::engine::walker::model::Node::Empty,
                            8,
                        );
                    }
                    r
                },
                Err(e) => Err(e),
            }
        },
        NodeType::Blob => {
            let len: u32 = read_u32(body, 16);
            if len > 104 {
                return Err(Error::node_corrupt("clone: crossing prefix out of range"));
            }
            let prefix: &[u8] = slice_subrange(body, 24, 24 + len as usize);
            let guid = read_guid(body, 0);
            let r = alloc_blob_node(dst, guid, prefix);
            proof {
                lemma_append_clean(
                    b0,
                    dst@,
                    r,
                    crate::engine::walker::model::Node::Blob { guid: guid@, prefix: prefix@ },
                    128,
                );
            }
            r
        },
        NodeType::Prefix => {
            let len: u32 = read_u32(body, 4);
            if len == 0 || len > 120 {
                return Err(Error::node_corrupt("clone: prefix length out of range"));
            }
            if fuel == 0 {
                return Err(Error::node_corrupt("clone: tree too deep"));
            }
            let bytes: &[u8] = slice_subrange(body, 8, 8 + len as usize);
            let child: u16 = read_u16(body, 0);
            proof {
                lemma_cost(a, child as int, (fuel - 1) as nat);
            }
            match clone_subtree(src, child, dst, fuel - 1) {
                Ok(c1) => {
                    let ghost b1 = dst@;
                    let r = alloc_prefix(dst, bytes, c1);
                    proof {
                        lemma_append_clean(
                            b1,
                            dst@,
                            r,
                            crate::engine::walker::model::Node::Prefix {
                                bytes: bytes@,
                                child: c1 as int,
                            },
                            128,
                        );
                        crate::store::blob_frame::lemma_extends_refl(b1);
                        crate::store::blob_frame::lemma_extends_trans(b0, b1, dst@);
                        if let Ok(t) = r {
                            lemma_mirrors_extends(
                                a,
                                child as int,
                                b1,
                                c1 as int,
                                dst@,
                                (fuel - 1) as nat,
                            );
                            lemma_cloned_extends(a, child as int, b1, c1 as int, dst@);
                            lemma_cloned_prefix(
                                a,
                                slot as int,
                                bytes@,
                                child as int,
                                dst@,
                                t as int,
                                c1 as int,
                            );
                        }
                    }
                    r
                },
                Err(e) => {
                    Err(e)
                },
            }
        },
        _ => {
            if fuel == 0 {
                return Err(Error::node_corrupt("clone: tree too deep"));
            }
            let pairs: Vec<(u8, u16)> = match child_pairs(src, slot, ntype) {
                Some(p) => p,
                None => {
                    proof {
                        crate::engine::walker::insert::lemma_bad_index(a, slot as int);
                    }
                    return Err(Error::node_corrupt("clone: Node48 index out of range"));
                },
            };
            if !pairs_in_order(pairs.as_slice()) {
                return Err(Error::node_corrupt("clone: children out of order"));
            }
            proof {
                lemma_children_cost(a, pairs@, 0, pairs@.len(), (fuel - 1) as nat);
            }
            match clone_children(src, pairs.as_slice(), dst, fuel, Ghost(slot as int)) {
                Ok(new) => {
                    let ghost b1 = dst@;
                    proof {
                        lemma_cloned_pairs_ok(a, pairs@, b1, new@);
                        crate::engine::walker::model::lemma_sorted_distinct(new@);
                    }
                    let r = alloc_inner(dst, new.as_slice());
                    proof {
                        lemma_append_clean(
                            b1,
                            dst@,
                            r,
                            crate::engine::walker::model::Node::Inner { pairs: new@ },
                            crate::layout::node::node_size(
                                crate::engine::walker::writers::inner_type(new@.len() as int),
                            ),
                        );
                        crate::store::blob_frame::lemma_extends_refl(b1);
                        crate::store::blob_frame::lemma_extends_trans(b0, b1, dst@);
                        if let Ok(t) = r {
                            lemma_mirrored_extends(
                                a,
                                pairs@,
                                b1,
                                new@,
                                pairs@.len() as int,
                                (fuel - 1) as nat,
                                dst@,
                            );
                            lemma_mirrors_inner(
                                a,
                                slot as int,
                                pairs@,
                                dst@,
                                t as int,
                                new@,
                                fuel as nat,
                            );
                            assert(cloned_pairs(a, pairs@, dst@, new@, pairs@.len() as int)) by {
                                assert forall|j: int| 0 <= j < pairs@.len() implies (
                                #[trigger] new@[j]).0 == pairs@[j].0 && 0 < new@[j].1 < crate::store::blob_frame::slots_of(
                        dst@,
                    ) && cloned(
                                    a,
                                    pairs@[j].1 as int,
                                    dst@,
                                    new@[j].1 as int,
                                ) && cloned_valid(
                                    a,
                                    pairs@[j].1 as int,
                                    dst@,
                                    new@[j].1 as int,
                                ) by {
                                    lemma_cloned_extends(
                                        a,
                                        pairs@[j].1 as int,
                                        b1,
                                        new@[j].1 as int,
                                        dst@,
                                    );
                                }
                            }
                            lemma_cloned_inner(
                                a,
                                slot as int,
                                pairs@,
                                dst@,
                                t as int,
                                new@,
                            );
                        }
                    }
                    r
                },
                Err(e) => Err(e),
            }
        },
    }
}

/// The next value of the wrapping compaction counter.
pub open spec fn next_compaction(n: int) -> int {
    if n == u32::MAX {
        0
    } else {
        n + 1
    }
}

/// Room that the tree of a frame takes when it is copied into an empty frame.
pub open spec fn live_cost(img: Seq<u8>) -> Cost {
    let root = crate::store::blob_frame::root_of(img);
    if crate::engine::walker::model::node(img, root) is Empty {
        Cost { bytes: 0, slots: 0 }
    } else {
        copy_cost(img, root, MAX_DEPTH as nat)
    }
}

/// A valid tree takes the same room in every extension.
pub proof fn lemma_cost_extends(a: Seq<u8>, b: Seq<u8>, s: int, path: Seq<u8>, fuel: nat)
    requires
        crate::store::blob_frame::extends(a, b),
        crate::engine::walker::laws::valid_at(a, s, path),
    ensures
        copy_cost(b, s, fuel) == copy_cost(a, s, fuel),
    decreases fuel, 0nat,
{
    crate::engine::walker::laws::lemma_node_extends(a, b, s);
    match crate::engine::walker::model::node(a, s) {
        crate::engine::walker::model::Node::Prefix { bytes, child } => {
            if fuel > 0 {
                lemma_cost_extends(a, b, child, path + bytes, (fuel - 1) as nat);
            }
        },
        crate::engine::walker::model::Node::Inner { pairs } => {
            if fuel > 0 {
                lemma_children_cost_extends(a, b, s, pairs, pairs.len(), path, (fuel - 1) as nat);
            }
        },
        _ => {},
    }
}

proof fn lemma_children_cost_extends(
    a: Seq<u8>,
    b: Seq<u8>,
    s: int,
    pairs: Seq<(u8, u16)>,
    n: nat,
    path: Seq<u8>,
    fuel: nat,
)
    requires
        crate::store::blob_frame::extends(a, b),
        crate::engine::walker::laws::valid_at(a, s, path),
        crate::engine::walker::model::node(a, s) == (crate::engine::walker::model::Node::Inner {
            pairs,
        }),
        n <= pairs.len(),
    ensures
        children_cost(b, pairs, n, fuel) == children_cost(a, pairs, n, fuel),
    decreases fuel, n,
{
    if n > 0 {
        lemma_children_cost_extends(a, b, s, pairs, (n - 1) as nat, path, fuel);
        assert(crate::engine::walker::laws::valid_at(
            a,
            pairs[n - 1].1 as int,
            path.push(pairs[n - 1].0),
        ));
        lemma_cost_extends(a, b, pairs[n - 1].1 as int, path.push(pairs[n - 1].0), fuel);
    }
}

/// What compacting the image `a` gives: the new image, or why there is none.
pub open spec fn compact_gives(a: Seq<u8>, r: Result<Seq<u8>>) -> bool {
    match r {
        Ok(f) => {
            &&& crate::store::blob_frame::frame_ok(f)
            &&& crate::store::blob_frame::guid_of(f) == crate::store::blob_frame::guid_of(
                a,
            )
            &&& crate::store::blob_frame::epoch_of(f) == crate::store::blob_frame::epoch_of(
                a,
            )
            &&& crate::store::blob_frame::ext_blobs_of(f)
                == crate::store::blob_frame::ext_blobs_of(a)
            &&& crate::store::blob_frame::gap_of(f) == 0
            &&& spent(
                crate::store::blob_frame::empty_image(
                    crate::store::blob_frame::guid_of(a),
                    crate::store::blob_frame::epoch_of(a),
                ),
                f,
                live_cost(a),
            )
            &&& crate::store::blob_frame::compactions_of(f) == next_compaction(
                crate::store::blob_frame::compactions_of(a),
            )
            &&& cloned(
                a,
                crate::store::blob_frame::root_of(a),
                f,
                crate::store::blob_frame::root_of(f),
            )
            &&& crate::engine::walker::laws::valid_tree(a)
                ==> crate::engine::walker::laws::valid_tree(f)
            &&& mirrors(
                a,
                crate::store::blob_frame::root_of(a),
                f,
                crate::store::blob_frame::root_of(f),
                MAX_DEPTH as nat,
            )
        },
        Err(Error::OutOfSpace) => !affords(
            crate::store::blob_frame::empty_image(
                crate::store::blob_frame::guid_of(a),
                crate::store::blob_frame::epoch_of(a),
            ),
            live_cost(a),
        ),
        Err(Error::NodeCorrupt { .. }) => !crate::engine::walker::laws::valid_tree(a),
        Err(_) => false,
    }
}

/// Compacting keeps the answer to every search, the guid, the epoch and the count
/// of crossings. It leaves no gap, counts one compaction more, and takes the room
/// of the live nodes behind the 45064 bytes and two slots of an empty frame.
pub proof fn compacting_keeps_every_answer(a: Seq<u8>, b: Seq<u8>, key: Seq<u8>)
    requires
        crate::store::blob_frame::frame_ok(a),
        compact_gives(a, Ok(b)),
    ensures
        crate::engine::walker::model::find(b, crate::store::blob_frame::root_of(b), key, 0)
            == crate::engine::walker::model::find(a, crate::store::blob_frame::root_of(a), key, 0),
        crate::store::blob_frame::guid_of(b) == crate::store::blob_frame::guid_of(a),
        crate::store::blob_frame::epoch_of(b) == crate::store::blob_frame::epoch_of(a),
        crate::store::blob_frame::ext_blobs_of(b) == crate::store::blob_frame::ext_blobs_of(a),
        crate::store::blob_frame::gap_of(b) == 0,
        crate::store::blob_frame::compactions_of(a) < 0xffff_ffff
            ==> crate::store::blob_frame::compactions_of(b)
            == crate::store::blob_frame::compactions_of(a) + 1,
        crate::store::blob_frame::bump_of(b) == 45064 + live_cost(a).bytes,
        crate::store::blob_frame::slots_of(b) == 2 + live_cost(a).slots,
{
    crate::bytes::lemma_le64(a, 16);
    crate::bytes::lemma_le32(a, 24);
    crate::store::blob_frame::lemma_empty_image(
        crate::store::blob_frame::guid_of(a),
        crate::store::blob_frame::epoch_of(a),
    );
    let out = crate::engine::walker::model::find(
        b,
        crate::store::blob_frame::root_of(b),
        key,
        0,
    );
}

/// Compacting a valid tree fails only where its live nodes do not fit a frame.
pub proof fn compacting_fails_only_for_want_of_room(a: Seq<u8>, r: Result<Seq<u8>>)
    requires
        crate::engine::walker::laws::valid_tree(a),
        compact_gives(a, r),
        45064 + live_cost(a).bytes <= 524288,
        2 + live_cost(a).slots <= 10240,
    ensures
        r is Ok,
{
    crate::bytes::lemma_le64(a, 16);
    crate::store::blob_frame::lemma_empty_image(
        crate::store::blob_frame::guid_of(a),
        crate::store::blob_frame::epoch_of(a),
    );
}

/// Rebuild a frame with only the nodes that its root reaches.
pub fn compact(frame: &BlobFrame) -> (r: Result<BlobFrame>)
    requires
        crate::store::blob_frame::frame_ok(frame@),
    ensures
        compact_gives(
            frame@,
            match r {
                Ok(f) => Ok(f@),
                Err(e) => Err(e),
            },
        ),
{
    let mut new: BlobFrame = BlobFrame::init(frame.blob_guid(), frame.created_epoch());
    proof {
        crate::store::blob_frame::lemma_empty_image(
            crate::store::blob_frame::guid_of(frame@),
            crate::store::blob_frame::epoch_of(frame@),
        );
    }
    let ghost start = new@;
    let root: u16 = frame.root_slot();
    let empty: bool = match frame.slot_type(root) {
        Some(Some(NodeType::EmptyRoot)) => true,
        _ => false,
    };
    if empty {
        proof {
            assert(crate::store::blob_frame::has_body(frame@, root as int));
            assert(crate::engine::walker::model::node(frame@, root as int) is Empty);
            assert(crate::engine::walker::model::node(start, 1) is Empty);
        }
    } else {
        match clone_subtree(frame, root, &mut new, MAX_DEPTH) {
            Ok(t) => {
                let ghost mid = new@;
                new.set_root_slot(t);
                proof {
                    lemma_cloned_extends(frame@, root as int, mid, t as int, new@);
                    lemma_mirrors_extends(
                        frame@,
                        root as int,
                        mid,
                        t as int,
                        new@,
                        MAX_DEPTH as nat,
                    );
                }
            },
            Err(e) => {
                proof {
                    if crate::engine::walker::laws::valid_tree(frame@) {
                        assert(!(crate::engine::walker::model::node(frame@, root as int)
                            is Empty));
                        assert(crate::engine::walker::laws::valid_at(
                            frame@,
                            root as int,
                            Seq::empty(),
                        ));
                        lemma_valid_copyable(
                            frame@,
                            root as int,
                            Seq::empty(),
                            MAX_DEPTH as nat,
                        );
                    }
                }
                return Err(e);
            },
        }
    }
    let ghost m1 = new@;
    let ghost t = crate::store::blob_frame::root_of(m1);
    assert(cloned(frame@, root as int, m1, t));
    assert(cloned_valid(frame@, root as int, m1, t));
    new.set_num_ext_blobs(frame.num_ext_blobs());
    let ghost m2 = new@;
    new.set_compact_times(frame.compact_times().wrapping_add(1));
    proof {
        crate::store::blob_frame::lemma_extends_trans(m1, m2, new@);
        lemma_cloned_extends(frame@, root as int, m1, t, new@);
        lemma_mirrors_extends(frame@, root as int, m1, t, new@, MAX_DEPTH as nat);
        if crate::engine::walker::laws::valid_tree(frame@) {
            if empty {
                crate::engine::walker::laws::lemma_node_extends(m1, new@, t);
            } else {
                assert(crate::engine::walker::laws::valid_at(new@, t, Seq::empty()));
            }
        }
    }
    Ok(new)
}

/// A copy answers every search as the subtree that was copied, in a slot that held
/// nothing, and leaves every node of its frame as it was. It takes its own room and
/// fails for want of it only where it has none.
pub proof fn a_copy_answers_alike(
    a: Seq<u8>,
    s: int,
    b0: Seq<u8>,
    b: Seq<u8>,
    r: Result<u16>,
    fuel: nat,
    key: Seq<u8>,
    depth: int,
    x: int,
)
    requires
        clone_result(a, s, b0, b, r, fuel),
        0 <= depth <= key.len(),
    ensures
        r matches Ok(t) ==> {
            &&& crate::engine::walker::model::find(b, t as int, key, depth)
                == crate::engine::walker::model::find(a, s, key, depth)
            &&& !crate::store::blob_frame::in_use(b0, t as int)
            &&& crate::store::blob_frame::bump_of(b) == crate::store::blob_frame::bump_of(b0)
                + copy_cost(a, s, fuel).bytes
            &&& crate::store::blob_frame::slots_of(b) == crate::store::blob_frame::slots_of(b0)
                + copy_cost(a, s, fuel).slots
        },
        r == Err::<u16, Error>(Error::OutOfSpace) ==> crate::store::blob_frame::bump_of(b0)
            + copy_cost(a, s, fuel).bytes > 524288 || crate::store::blob_frame::slots_of(b0)
            + copy_cost(a, s, fuel).slots > 10240,
        crate::store::blob_frame::has_body(b0, x) ==> crate::engine::walker::model::node(b, x)
            == crate::engine::walker::model::node(b0, x),
        crate::store::blob_frame::root_of(b) == crate::store::blob_frame::root_of(b0),
{
    if crate::store::blob_frame::has_body(b0, x) {
        assert(crate::store::blob_frame::same_node(b0, b, x));
    }
    if let Ok(t) = r {
        let out = crate::engine::walker::model::find(b, t as int, key, depth);
    }
}

} // verus!
