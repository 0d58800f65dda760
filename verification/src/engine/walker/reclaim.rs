//! What a merge pass hands over for reclaim: the children whose crossings it
//! took out of the tree, and no others.
use vstd::prelude::*;

use crate::engine::walker::model::{Node, Outcome};
use crate::layout::{BlobGuid, NodeType};
use crate::store::buffer_manager::{BufferState, STRUCTURAL_SEQ};

verus! {

// ---------- which crossings searches come to ----------

/// Whether a search from slot `s` can come to slot `x` in `fuel` steps.
pub open spec fn meets(img: Seq<u8>, s: int, fuel: nat, x: int) -> bool
    decreases fuel,
{
    ||| x == s
    ||| fuel > 0 && match crate::engine::walker::model::node(img, s) {
        Node::Prefix { bytes, child } => bytes.len() > 0 && meets(
            img,
            child,
            (fuel - 1) as nat,
            x,
        ),
        Node::Inner { pairs } => exists|y: u8|
            (#[trigger] crate::engine::walker::model::child_of(pairs, y)) matches Some(c)
                && meets(img, c as int, (fuel - 1) as nat, x),
        _ => false,
    }
}

/// Whether slot `x` holds a crossing to `guid`.
pub open spec fn crosses(img: Seq<u8>, x: int, guid: Seq<u8>) -> bool {
    crate::engine::walker::model::node(img, x) matches Node::Blob { guid: g, prefix } && g == guid
}

/// Whether searches from two slots come to no crossing both.
pub open spec fn apart(img: Seq<u8>, c: int, d: int, fuel: nat) -> bool {
    forall|x: int|
        crate::engine::walker::model::node(img, x) is Blob && #[trigger] meets(img, c, fuel, x)
            ==> !meets(img, d, fuel, x)
}

/// Whether no crossing is met on two ways below slot `s`.
pub open spec fn once(img: Seq<u8>, s: int, fuel: nat) -> bool
    decreases fuel,
{
    fuel == 0 || match crate::engine::walker::model::node(img, s) {
        Node::Prefix { bytes, child } => bytes.len() > 0 ==> once(img, child, (fuel - 1) as nat),
        Node::Inner { pairs } => {
            &&& forall|y: u8|
                (#[trigger] crate::engine::walker::model::child_of(pairs, y)) matches Some(c)
                    ==> once(img, c as int, (fuel - 1) as nat)
            &&& forall|y: u8, z: u8|
                #![trigger crate::engine::walker::model::child_of(pairs, y), crate::engine::walker::model::child_of(pairs, z)]
                y != z && crate::engine::walker::model::child_of(pairs, y) is Some
                    && crate::engine::walker::model::child_of(pairs, z) is Some ==> apart(
                    img,
                    crate::engine::walker::model::child_of(pairs, y)->0 as int,
                    crate::engine::walker::model::child_of(pairs, z)->0 as int,
                    (fuel - 1) as nat,
                )
        },
        _ => true,
    }
}

/// The bytes behind `path` that lead a search from `s` over the crossing `x`.
proof fn lemma_way(img: Seq<u8>, s: int, fuel: nat, x: int, path: Seq<u8>) -> (rest: Seq<u8>)
    requires
        meets(img, s, fuel, x),
        crate::engine::walker::model::node(img, x) is Blob,
    ensures
        crate::engine::walker::model::find(img, s, path + rest, path.len() as int) is Cross,
    decreases fuel,
{
    let d = path.len() as int;
    match crate::engine::walker::model::node(img, s) {
        Node::Blob { guid, prefix } => {
            assert((path + prefix).subrange(d, d + prefix.len()) =~= prefix);
            prefix
        },
        Node::Prefix { bytes, child } => {
            let t = lemma_way(img, child, (fuel - 1) as nat, x, path + bytes);
            let k = path + (bytes + t);
            assert((path + bytes) + t =~= k);
            assert(k.subrange(d, d + bytes.len()) =~= bytes);
            bytes + t
        },
        Node::Inner { pairs } => {
            let y = choose|y: u8|
                (#[trigger] crate::engine::walker::model::child_of(pairs, y)) matches Some(c)
                    && meets(img, c as int, (fuel - 1) as nat, x);
            let c = crate::engine::walker::model::child_of(pairs, y)->0;
            let t = lemma_way(img, c as int, (fuel - 1) as nat, x, path.push(y));
            let k = path + (seq![y] + t);
            assert(path.push(y) + t =~= k);
            assert(k[d] == y);
            seq![y] + t
        },
        _ => path,
    }
}

/// Where no search ends at a crossing, none is met.
pub proof fn lemma_free_meets_none(img: Seq<u8>, s: int, fuel: nat, x: int)
    requires
        crate::engine::walker::settled::crossing_free(img, s),
        meets(img, s, fuel, x),
    ensures
        !(crate::engine::walker::model::node(img, x) is Blob),
{
    if crate::engine::walker::model::node(img, x) is Blob {
        let rest = lemma_way(img, s, fuel, x, Seq::empty());
        let k = Seq::<u8>::empty() + rest;
        assert(!(crate::engine::walker::model::find(img, s, k, 0) is Cross));
    }
}

/// A search that ends at a crossing comes to it.
proof fn lemma_cross_met(img: Seq<u8>, s: int, k: Seq<u8>, d: int, fuel: nat) -> (x: int)
    requires
        0 <= d <= k.len() <= d + fuel,
        crate::engine::walker::model::find(img, s, k, d) is Cross,
    ensures
        meets(img, s, fuel, x),
        crosses(img, x, crate::engine::walker::model::find(img, s, k, d)->guid),
    decreases fuel,
{
    match crate::engine::walker::model::node(img, s) {
        Node::Prefix { bytes, child } => lemma_cross_met(
            img,
            child,
            k,
            d + bytes.len(),
            (fuel - 1) as nat,
        ),
        Node::Inner { pairs } => {
            let c = crate::engine::walker::model::child_of(pairs, k[d])->0;
            lemma_cross_met(img, c as int, k, d + 1, (fuel - 1) as nat)
        },
        _ => s,
    }
}

/// Searches from a slot in use of a clean frame come only to slots in use.
proof fn lemma_meets_in_use(img: Seq<u8>, s: int, fuel: nat, x: int)
    requires
        crate::engine::walker::laws::clean(img),
        crate::store::blob_frame::in_use(img, s),
        meets(img, s, fuel, x),
    ensures
        crate::store::blob_frame::in_use(img, x),
    decreases fuel,
{
    if x != s {
        crate::engine::walker::settled::lemma_children(img, s);
        match crate::engine::walker::model::node(img, s) {
            Node::Prefix { bytes, child } => {
                lemma_meets_in_use(img, child, (fuel - 1) as nat, x);
            },
            Node::Inner { pairs } => {
                let y = choose|y: u8|
                    (#[trigger] crate::engine::walker::model::child_of(pairs, y)) matches Some(c)
                        && meets(img, c as int, (fuel - 1) as nat, x);
                let c = crate::engine::walker::model::child_of(pairs, y)->0;
                lemma_meets_in_use(img, c as int, (fuel - 1) as nat, x);
            },
            _ => {},
        }
    }
}

/// How a slot in use evolved.
proof fn lemma_node_evolved(a: Seq<u8>, b: Seq<u8>, s: int)
    requires
        crate::engine::walker::settled::evolves(a, b),
        crate::store::blob_frame::in_use(a, s),
    ensures
        crate::store::blob_frame::in_use(b, s),
        crate::engine::walker::laws::clean(b),
        crate::engine::walker::settled::node_evolves(
            b,
            crate::engine::walker::model::node(a, s),
            crate::engine::walker::model::node(b, s),
        ),
{
    reveal(crate::engine::walker::settled::evolves);
}

/// A crossing that is met was met before.
proof fn lemma_met_before(a: Seq<u8>, b: Seq<u8>, s: int, fuel: nat, x: int)
    requires
        crate::engine::walker::settled::evolves(a, b),
        crate::engine::walker::laws::clean(a),
        crate::store::blob_frame::in_use(a, s),
        crate::engine::walker::model::node(b, x) is Blob,
        meets(b, s, fuel, x),
    ensures
        meets(a, s, fuel, x),
        crate::store::blob_frame::in_use(a, x),
        crate::engine::walker::model::node(a, x) == crate::engine::walker::model::node(b, x),
    decreases fuel,
{
    lemma_node_evolved(a, b, s);
    crate::engine::walker::settled::lemma_children(a, s);
    if x != s {
        let less = (fuel - 1) as nat;
        match crate::engine::walker::model::node(b, s) {
            Node::Prefix { bytes, child } => {
                if crate::engine::walker::settled::crossing_free(b, child) {
                    lemma_free_meets_none(b, child, less, x);
                }
                lemma_met_before(a, b, child, less, x);
            },
            Node::Inner { pairs } => {
                let y = choose|y: u8|
                    (#[trigger] crate::engine::walker::model::child_of(pairs, y)) matches Some(c)
                        && meets(b, c as int, less, x);
                let c = crate::engine::walker::model::child_of(pairs, y)->0;
                if crate::engine::walker::settled::crossing_free(b, c as int) {
                    lemma_free_meets_none(b, c as int, less, x);
                }
                let was = crate::engine::walker::model::node(a, s)->Inner_pairs;
                assert(crate::engine::walker::model::child_of(was, y) == Some(c));
                lemma_met_before(a, b, c as int, less, x);
            },
            _ => {},
        }
    }
}

/// No crossing comes to be met on two ways.
proof fn lemma_once_kept(a: Seq<u8>, b: Seq<u8>, s: int, fuel: nat)
    requires
        crate::engine::walker::settled::evolves(a, b),
        crate::engine::walker::laws::clean(a),
        crate::store::blob_frame::in_use(a, s),
        once(a, s, fuel),
    ensures
        once(b, s, fuel),
    decreases fuel,
{
    if fuel > 0 {
        let less = (fuel - 1) as nat;
        lemma_node_evolved(a, b, s);
        crate::engine::walker::settled::lemma_children(a, s);
        match crate::engine::walker::model::node(b, s) {
            Node::Prefix { bytes, child } => {
                let was = crate::engine::walker::model::node(a, s)->child;
                if child == was {
                    lemma_once_kept(a, b, child, less);
                } else {
                    lemma_free_once(b, child, less);
                }
            },
            Node::Inner { pairs } => {
                let was = crate::engine::walker::model::node(a, s)->Inner_pairs;
                assert forall|y: u8|
                    (#[trigger] crate::engine::walker::model::child_of(pairs, y)) matches Some(c)
                        ==> once(b, c as int, less) by {
                    if let Some(c) = crate::engine::walker::model::child_of(pairs, y) {
                        if crate::engine::walker::model::child_of(was, y) == Some(c) {
                            lemma_once_kept(a, b, c as int, less);
                        } else {
                            lemma_free_once(b, c as int, less);
                        }
                    }
                }
                assert forall|y: u8, z: u8|
                    #![trigger crate::engine::walker::model::child_of(pairs, y), crate::engine::walker::model::child_of(pairs, z)]
                    y != z && crate::engine::walker::model::child_of(pairs, y) is Some
                        && crate::engine::walker::model::child_of(pairs, z) is Some implies apart(
                    b,
                    crate::engine::walker::model::child_of(pairs, y)->0 as int,
                    crate::engine::walker::model::child_of(pairs, z)->0 as int,
                    less,
                ) by {
                    let c = crate::engine::walker::model::child_of(pairs, y)->0;
                    let d = crate::engine::walker::model::child_of(pairs, z)->0;
                    assert forall|x: int|
                        crate::engine::walker::model::node(b, x) is Blob && #[trigger] meets(
                            b,
                            c as int,
                            less,
                            x,
                        ) implies !meets(b, d as int, less, x) by {
                        if meets(b, d as int, less, x) {
                            lemma_edge_before(a, b, s, y, less, x);
                            lemma_edge_before(a, b, s, z, less, x);
                            assert(apart(a, c as int, d as int, less));
                        }
                    }
                }
            },
            _ => {},
        }
    }
}

/// Where no search ends at a crossing, none is met on two ways.
proof fn lemma_free_once(img: Seq<u8>, s: int, fuel: nat)
    requires
        crate::engine::walker::settled::crossing_free(img, s),
    ensures
        once(img, s, fuel),
{
    assert forall|x: int| #[trigger] meets(img, s, fuel, x) implies !(
    crate::engine::walker::model::node(img, x) is Blob) by {
        lemma_free_meets_none(img, s, fuel, x);
    }
    lemma_none_once(img, s, fuel);
}

proof fn lemma_none_once(img: Seq<u8>, s: int, fuel: nat)
    requires
        forall|x: int| #[trigger]
            meets(img, s, fuel, x) ==> !(crate::engine::walker::model::node(img, x) is Blob),
    ensures
        once(img, s, fuel),
    decreases fuel,
{
    if fuel > 0 {
        let less = (fuel - 1) as nat;
        match crate::engine::walker::model::node(img, s) {
            Node::Prefix { bytes, child } => {
                if bytes.len() > 0 {
                    assert forall|x: int| #[trigger] meets(img, child, less, x) implies !(
                    crate::engine::walker::model::node(img, x) is Blob) by {
                        assert(meets(img, s, fuel, x));
                    }
                    lemma_none_once(img, child, less);
                }
            },
            Node::Inner { pairs } => {
                assert forall|y: u8|
                    (#[trigger] crate::engine::walker::model::child_of(pairs, y)) matches Some(c)
                        ==> once(img, c as int, less) && (forall|x: int| #[trigger]
                        meets(img, c as int, less, x) ==> !(crate::engine::walker::model::node(
                            img,
                            x,
                        ) is Blob)) by {
                    if let Some(c) = crate::engine::walker::model::child_of(pairs, y) {
                        assert forall|x: int| #[trigger] meets(img, c as int, less, x) implies !(
                        crate::engine::walker::model::node(img, x) is Blob) by {
                            assert(meets(img, s, fuel, x));
                        }
                        lemma_none_once(img, c as int, less);
                    }
                }
            },
            _ => {},
        }
    }
}

/// A crossing met through byte `y` of an inner node was met through it before.
proof fn lemma_edge_before(a: Seq<u8>, b: Seq<u8>, s: int, y: u8, less: nat, x: int)
    requires
        crate::engine::walker::settled::evolves(a, b),
        crate::engine::walker::laws::clean(a),
        crate::store::blob_frame::in_use(a, s),
        crate::engine::walker::model::node(b, s) is Inner,
        crate::engine::walker::model::child_of(
            crate::engine::walker::model::node(b, s)->Inner_pairs,
            y,
        ) is Some,
        crate::engine::walker::model::node(b, x) is Blob,
        meets(
            b,
            crate::engine::walker::model::child_of(
                crate::engine::walker::model::node(b, s)->Inner_pairs,
                y,
            )->0 as int,
            less,
            x,
        ),
    ensures
        crate::engine::walker::model::node(a, s) is Inner,
        crate::engine::walker::model::child_of(
            crate::engine::walker::model::node(a, s)->Inner_pairs,
            y,
        ) == crate::engine::walker::model::child_of(
            crate::engine::walker::model::node(b, s)->Inner_pairs,
            y,
        ),
        meets(
            a,
            crate::engine::walker::model::child_of(
                crate::engine::walker::model::node(b, s)->Inner_pairs,
                y,
            )->0 as int,
            less,
            x,
        ),
        crate::store::blob_frame::in_use(a, x),
        crate::engine::walker::model::node(a, x) == crate::engine::walker::model::node(b, x),
{
    lemma_node_evolved(a, b, s);
    crate::engine::walker::settled::lemma_children(a, s);
    let c = crate::engine::walker::model::child_of(
        crate::engine::walker::model::node(b, s)->Inner_pairs,
        y,
    )->0;
    if crate::engine::walker::settled::crossing_free(b, c as int) {
        lemma_free_meets_none(b, c as int, less, x);
    }
    lemma_met_before(a, b, c as int, less, x);
}

// ---------- what is listed for reclaim ----------

/// Whether `guid` came onto one of the reclaim lists between two states.
pub open spec fn listed_since(s0: BufferState, s1: BufferState, guid: Seq<u8>) -> bool {
    ||| exists|i: int|
        s0.deletes.len() <= i < s1.deletes.len() && (#[trigger] s1.deletes[i]).0@ == guid
    ||| exists|i: int|
        s0.structural.len() <= i < s1.structural.len() && (#[trigger] s1.structural[i]).1@ == guid
}

/// Whether only the list that `seq` selects grew: against `parent` where it is
/// the structural sequence, for deletion at `seq` otherwise.
pub open spec fn listed_right(
    s0: BufferState,
    s1: BufferState,
    parent: Seq<u8>,
    seq: u64,
) -> bool {
    &&& s0.deletes.is_prefix_of(s1.deletes)
    &&& s0.structural.is_prefix_of(s1.structural)
    &&& if seq == STRUCTURAL_SEQ {
        s1.deletes == s0.deletes && forall|i: int|
            s0.structural.len() <= i < s1.structural.len() ==> (#[trigger] s1.structural[i]).0@
                == parent
    } else {
        s1.structural == s0.structural && forall|i: int|
            s0.deletes.len() <= i < s1.deletes.len() ==> (#[trigger] s1.deletes[i]).1 == seq
    }
}

/// Whether every search that ended at a crossing still does, or its child is
/// listed for reclaim.
pub open spec fn accounted(s0: BufferState, s1: BufferState, a: Seq<u8>, b: Seq<u8>) -> bool {
    forall|s: int, k: Seq<u8>, d: int|
        0 <= d <= k.len() && (crate::engine::walker::model::find(a, s, k, d) is Cross) ==> (
        #[trigger] crate::engine::walker::model::find(b, s, k, d))
            == crate::engine::walker::model::find(a, s, k, d) || listed_since(
            s0,
            s1,
            crate::engine::walker::model::find(a, s, k, d)->guid,
        )
}

/// Whether the header of `b` counts `n` crossings less than that of `a`, down to
/// none, and their bodies as abandoned.
pub open spec fn counts_less(a: Seq<u8>, b: Seq<u8>, n: int) -> bool {
    let left = crate::store::blob_frame::ext_blobs_of(a) - n;
    let gap = crate::store::blob_frame::gap_of(a) + n * crate::layout::node::node_size(
        NodeType::Blob,
    );
    &&& crate::store::blob_frame::ext_blobs_of(b) == (if left > 0 {
        left
    } else {
        0
    })
    &&& crate::store::blob_frame::gap_of(b) == (if gap > u32::MAX {
        u32::MAX as int
    } else {
        gap
    })
}

/// Crossings less, and less again.
proof fn lemma_counts_trans(a: Seq<u8>, b: Seq<u8>, c: Seq<u8>, n: int, m: int)
    requires
        counts_less(a, b, n),
        counts_less(b, c, m),
        m >= 0,
    ensures
        counts_less(a, c, n + m),
{
    let size = crate::layout::node::node_size(NodeType::Blob);
    assert((n + m) * size == n * size + m * size) by (nonlinear_arith);
    assert(m * size >= 0) by (nonlinear_arith)
        requires
            m >= 0,
            size >= 0,
    ;
}

/// Whether a crossing to `guid` that searches from `s` came to in `a` is one
/// that searches from `t` do not come to in `b`.
pub open spec fn detached(
    a: Seq<u8>,
    b: Seq<u8>,
    s: int,
    t: int,
    fuel: nat,
    guid: Seq<u8>,
) -> bool {
    exists|x: int|
        crosses(a, x, guid) && #[trigger] meets(a, s, fuel, x) && !meets(b, t, fuel, x)
}

/// The guid of entry `k` of those that the list which `seq` selects got between
/// two states.
pub open spec fn entry(s0: BufferState, s1: BufferState, seq: u64, k: int) -> Seq<u8> {
    if seq == STRUCTURAL_SEQ {
        s1.structural[s0.structural.len() + k].1@
    } else {
        s1.deletes[s0.deletes.len() + k].0@
    }
}

/// Whether `w` gives for every listed entry a crossing to its child that searches
/// from `s` came to in `a` and searches from `t` do not come to in `b`, and none
/// for two of them.
pub open spec fn taken_out(
    s0: BufferState,
    s1: BufferState,
    seq: u64,
    a: Seq<u8>,
    b: Seq<u8>,
    s: int,
    t: int,
    fuel: nat,
    w: Seq<int>,
) -> bool {
    &&& w.len() == crate::engine::walker::merge::staged(s1) - crate::engine::walker::merge::staged(
        s0,
    )
    &&& w.no_duplicates()
    &&& forall|k: int|
        0 <= k < w.len() ==> crosses(a, #[trigger] w[k], entry(s0, s1, seq, k)) && meets(
            a,
            s,
            fuel,
            w[k],
        ) && !meets(b, t, fuel, w[k])
}

/// Whether every listed entry has a crossing of its own that was taken out.
#[verifier::opaque]
pub open spec fn each_once(
    s0: BufferState,
    s1: BufferState,
    seq: u64,
    a: Seq<u8>,
    b: Seq<u8>,
    s: int,
    t: int,
    fuel: nat,
) -> bool {
    exists|w: Seq<int>| #[trigger] taken_out(s0, s1, seq, a, b, s, t, fuel, w)
}

/// What a walk over the subtree at `slot` listed for reclaim, in a store whose
/// blobs count their crossings where `h` holds.
#[verifier::opaque]
pub open spec fn reclaims(
    h: bool,
    s0: BufferState,
    s1: BufferState,
    a: Seq<u8>,
    b: Seq<u8>,
    slot: int,
    fuel: nat,
    seq: u64,
) -> bool {
    &&& listed_right(s0, s1, crate::store::blob_frame::guid_of(a), seq)
    &&& accounted(s0, s1, a, b)
    &&& counts_less(
        a,
        b,
        crate::engine::walker::merge::staged(s1) - crate::engine::walker::merge::staged(s0),
    )
    &&& h && crate::engine::walker::laws::clean(a) && crate::store::blob_frame::in_use(a, slot)
        && once(a, slot, fuel) ==> {
        &&& forall|g: Seq<u8>| #[trigger]
            listed_since(s0, s1, g) ==> detached(a, b, slot, slot, fuel, g)
        &&& crate::engine::walker::visits::unshared(a, slot, fuel) ==> each_once(
            s0,
            s1,
            seq,
            a,
            b,
            slot,
            slot,
            fuel,
        )
    }
}

/// A frame that only grew, with nothing listed.
pub proof fn lemma_reclaims_start(
    h: bool,
    s0: BufferState,
    s1: BufferState,
    a: Seq<u8>,
    b: Seq<u8>,
    slot: int,
    fuel: nat,
    seq: u64,
)
    requires
        crate::store::blob_frame::frame_ok(a),
        crate::engine::walker::merge::books_kept(s0, s1),
        crate::engine::walker::merge::staged(s1) == crate::engine::walker::merge::staged(s0),
        crate::store::blob_frame::extends(a, b),
        crate::store::blob_frame::ext_blobs_of(b) == crate::store::blob_frame::ext_blobs_of(a),
        crate::store::blob_frame::gap_of(b) == crate::store::blob_frame::gap_of(a),
    ensures
        reclaims(h, s0, s1, a, b, slot, fuel, seq),
{
    reveal(reclaims);
    assert(s1.deletes =~= s0.deletes);
    assert(s1.structural =~= s0.structural);
    crate::bytes::lemma_le32(a, 28);
    crate::bytes::lemma_le32(a, 36);
    assert forall|s: int, k: Seq<u8>, d: int|
        0 <= d <= k.len() && (crate::engine::walker::model::find(a, s, k, d) is Cross) implies (
    #[trigger] crate::engine::walker::model::find(b, s, k, d))
        == crate::engine::walker::model::find(a, s, k, d) by {
        crate::engine::walker::laws::lemma_find_extends(a, b, s, k, d);
    }
    assert(each_once(s0, s1, seq, a, b, slot, slot, fuel)) by {
        reveal(each_once);
        assert(taken_out(s0, s1, seq, a, b, slot, slot, fuel, Seq::<int>::empty()));
    }
}

/// What was listed stays so, and later entries add to it.
pub proof fn lemma_listed_trans(s0: BufferState, s1: BufferState, s2: BufferState, guid: Seq<u8>)
    requires
        s0.deletes.is_prefix_of(s1.deletes),
        s0.structural.is_prefix_of(s1.structural),
        s1.deletes.is_prefix_of(s2.deletes),
        s1.structural.is_prefix_of(s2.structural),
    ensures
        listed_since(s0, s2, guid) == (listed_since(s0, s1, guid) || listed_since(s1, s2, guid)),
{
    assert forall|i: int| 0 <= i < s1.deletes.len() implies #[trigger] s2.deletes[i]
        == s1.deletes[i] by {
        assert(s2.deletes.subrange(0, s1.deletes.len() as int)[i] == s2.deletes[i]);
    }
    assert forall|i: int| 0 <= i < s1.structural.len() implies #[trigger] s2.structural[i]
        == s1.structural[i] by {
        assert(s2.structural.subrange(0, s1.structural.len() as int)[i] == s2.structural[i]);
    }
    if listed_since(s0, s1, guid) {
        if exists|i: int|
            s0.deletes.len() <= i < s1.deletes.len() && (#[trigger] s1.deletes[i]).0@ == guid {
            let i = choose|i: int|
                s0.deletes.len() <= i < s1.deletes.len() && (#[trigger] s1.deletes[i]).0@ == guid;
            assert(s2.deletes[i].0@ == guid);
        } else {
            let i = choose|i: int|
                s0.structural.len() <= i < s1.structural.len() && (#[trigger] s1.structural[i]).1@
                    == guid;
            assert(s2.structural[i].1@ == guid);
        }
    }
}

proof fn lemma_listed_right_trans(
    s0: BufferState,
    s1: BufferState,
    s2: BufferState,
    parent: Seq<u8>,
    seq: u64,
)
    requires
        listed_right(s0, s1, parent, seq),
        listed_right(s1, s2, parent, seq),
    ensures
        listed_right(s0, s2, parent, seq),
{
    crate::engine::walker::merge::lemma_prefix_trans(s0.deletes, s1.deletes, s2.deletes);
    crate::engine::walker::merge::lemma_prefix_trans(s0.structural, s1.structural, s2.structural);
    assert forall|i: int| 0 <= i < s1.deletes.len() implies #[trigger] s2.deletes[i]
        == s1.deletes[i] by {
        assert(s2.deletes.subrange(0, s1.deletes.len() as int)[i] == s2.deletes[i]);
    }
    assert forall|i: int| 0 <= i < s1.structural.len() implies #[trigger] s2.structural[i]
        == s1.structural[i] by {
        assert(s2.structural.subrange(0, s1.structural.len() as int)[i] == s2.structural[i]);
    }
}

proof fn lemma_accounted_trans(
    s0: BufferState,
    s1: BufferState,
    s2: BufferState,
    a: Seq<u8>,
    b: Seq<u8>,
    c: Seq<u8>,
)
    requires
        s0.deletes.is_prefix_of(s1.deletes),
        s0.structural.is_prefix_of(s1.structural),
        s1.deletes.is_prefix_of(s2.deletes),
        s1.structural.is_prefix_of(s2.structural),
        accounted(s0, s1, a, b),
        accounted(s1, s2, b, c),
    ensures
        accounted(s0, s2, a, c),
{
    assert forall|s: int, k: Seq<u8>, d: int|
        0 <= d <= k.len() && (crate::engine::walker::model::find(a, s, k, d) is Cross) implies (
    #[trigger] crate::engine::walker::model::find(c, s, k, d))
        == crate::engine::walker::model::find(a, s, k, d) || listed_since(
        s0,
        s2,
        crate::engine::walker::model::find(a, s, k, d)->guid,
    ) by {
        let mid = crate::engine::walker::model::find(b, s, k, d);
        lemma_listed_trans(s0, s1, s2, crate::engine::walker::model::find(a, s, k, d)->guid);
    }
}

/// What is detached stays so.
proof fn lemma_detached_kept(
    a: Seq<u8>,
    b: Seq<u8>,
    c: Seq<u8>,
    s: int,
    fuel: nat,
    guid: Seq<u8>,
)
    requires
        crate::engine::walker::laws::clean(a),
        crate::store::blob_frame::in_use(a, s),
        crate::engine::walker::settled::evolves(a, b),
        crate::engine::walker::settled::evolves(b, c),
        detached(a, b, s, s, fuel, guid),
    ensures
        detached(a, c, s, s, fuel, guid),
{
    let x = choose|x: int|
        crosses(a, x, guid) && #[trigger] meets(a, s, fuel, x) && !meets(b, s, fuel, x);
    lemma_meets_in_use(a, s, fuel, x);
    lemma_node_evolved(a, b, x);
    lemma_node_evolved(b, c, x);
    lemma_node_evolved(a, b, s);
    if meets(c, s, fuel, x) {
        lemma_met_before(b, c, s, fuel, x);
    }
}

/// Whether slot `s` lists `ch` as a child: the one of a prefix node, or number
/// `i` of an inner node.
pub open spec fn has_edge(img: Seq<u8>, s: int, i: int, ch: int) -> bool {
    match crate::engine::walker::model::node(img, s) {
        Node::Prefix { bytes, child } => bytes.len() > 0 && child == ch,
        Node::Inner { pairs } => 0 <= i < pairs.len() && pairs[i].1 == ch,
        _ => false,
    }
}

/// A crossing that searches from `ch` come to no more, and that no other child
/// of `s` led to, is one that searches from `s` come to no more.
proof fn lemma_unmet_above(
    a: Seq<u8>,
    c: Seq<u8>,
    s: int,
    i: int,
    ch: int,
    fuel: nat,
    x: int,
)
    requires
        fuel > 0,
        crate::engine::walker::laws::clean(a),
        crate::store::blob_frame::in_use(a, s),
        once(a, s, fuel),
        has_edge(a, s, i, ch),
        crate::engine::walker::settled::evolves(a, c),
        crate::engine::walker::model::node(a, x) is Blob,
        meets(a, ch, (fuel - 1) as nat, x),
        // The edge leads elsewhere now, or searches behind it do not come to `x`.
        match crate::engine::walker::model::node(c, s) {
            Node::Prefix { bytes, child } => child == ch ==> !meets(c, ch, (fuel - 1) as nat, x),
            Node::Inner { pairs } => crate::engine::walker::model::child_of(
                pairs,
                crate::engine::walker::model::node(a, s)->Inner_pairs[i].0,
            ) == Some(ch as u16) ==> !meets(c, ch, (fuel - 1) as nat, x),
            _ => true,
        },
    ensures
        meets(a, s, fuel, x),
        !meets(c, s, fuel, x),
{
    let less = (fuel - 1) as nat;
    lemma_node_evolved(a, c, s);
    crate::engine::walker::settled::lemma_children(a, s);
    assert(crate::engine::walker::laws::clean_node(a, s));
    match crate::engine::walker::model::node(a, s) {
        Node::Prefix { bytes, child } => {
            lemma_meets_in_use(a, ch, less, x);
            lemma_node_evolved(a, c, x);
            let now = crate::engine::walker::model::node(c, s)->child;
            if meets(c, s, fuel, x) && now != ch {
                lemma_free_meets_none(c, now, less, x);
            }
        },
        Node::Inner { pairs } => {
            let y = pairs[i].0;
            crate::engine::walker::model::lemma_distinct_child(pairs, i);
            lemma_meets_in_use(a, ch, less, x);
            lemma_node_evolved(a, c, x);
            if meets(c, s, fuel, x) {
                let q = crate::engine::walker::model::node(c, s)->Inner_pairs;
                let z = choose|z: u8|
                    (#[trigger] crate::engine::walker::model::child_of(q, z)) matches Some(t)
                        && meets(c, t as int, less, x);
                lemma_edge_before(a, c, s, z, less, x);
                let t = crate::engine::walker::model::child_of(q, z)->0;
                if z != y {
                    assert(crate::engine::walker::model::child_of(pairs, y) is Some);
                    assert(crate::engine::walker::model::child_of(pairs, z) is Some);
                    assert(apart(a, ch, t as int, less));
                }
            }
        },
        _ => {},
    }
}

/// Whether searches go on from slot `s` to slot `ch`.
pub open spec fn leads_on(img: Seq<u8>, s: int, ch: int) -> bool {
    match crate::engine::walker::model::node(img, s) {
        Node::Prefix { bytes, child } => bytes.len() > 0 && child == ch,
        Node::Inner { pairs } => exists|y: u8|
            (#[trigger] crate::engine::walker::model::child_of(pairs, y)) matches Some(c) && c
                == ch,
        _ => false,
    }
}

/// What searches from `ch` come to, those from `s` come to.
proof fn lemma_meets_on(img: Seq<u8>, s: int, ch: int, fuel: nat, x: int)
    requires
        fuel > 0,
        leads_on(img, s, ch),
        meets(img, ch, (fuel - 1) as nat, x),
    ensures
        meets(img, s, fuel, x),
{
    match crate::engine::walker::model::node(img, s) {
        Node::Inner { pairs } => {
            let y = choose|y: u8|
                (#[trigger] crate::engine::walker::model::child_of(pairs, y)) matches Some(c) && c
                    == ch;
            assert(crate::engine::walker::model::child_of(pairs, y) is Some);
        },
        _ => {},
    }
}

/// A prefix node leads on to its child, and a walk below it comes to no slot
/// twice where one from it does not.
pub proof fn lemma_prefix_on(img: Seq<u8>, s: int, ch: int, fuel: nat)
    requires
        fuel > 0,
        crate::engine::walker::model::node(img, s) is Prefix,
        has_edge(img, s, 0, ch),
    ensures
        leads_on(img, s, ch),
        crate::engine::walker::visits::unshared(img, s, fuel)
            ==> crate::engine::walker::visits::unshared(img, ch, (fuel - 1) as nat),
{
}

/// A prefix node whose edge is moved from `ch` led on to it.
pub proof fn lemma_prefix_led(a: Seq<u8>, b: Seq<u8>, c: Seq<u8>, s: int, ch: int, c2: int)
    requires
        crate::store::blob_frame::in_use(a, s),
        crate::engine::walker::model::node(a, s) is Prefix,
        has_edge(a, s, 0, ch),
        crate::engine::walker::settled::evolves(a, b),
        crate::engine::walker::merge::edge_moved(b, c, s, ch, c2),
    ensures
        leads_on(b, s, ch),
{
    reveal(crate::engine::walker::merge::edge_moved);
    lemma_node_evolved(a, b, s);
}

/// The entries listed up to a state, and those listed from there on.
proof fn lemma_entries(s0: BufferState, s1: BufferState, s2: BufferState, parent: Seq<u8>, seq: u64)
    requires
        listed_right(s0, s1, parent, seq),
        listed_right(s1, s2, parent, seq),
    ensures
        forall|k: int|
            0 <= k < crate::engine::walker::merge::staged(s1)
                - crate::engine::walker::merge::staged(s0) ==> #[trigger] entry(s0, s2, seq, k)
                == entry(s0, s1, seq, k),
        forall|k: int|
            0 <= k < crate::engine::walker::merge::staged(s2)
                - crate::engine::walker::merge::staged(s1) ==> #[trigger] entry(s1, s2, seq, k)
                == entry(
                s0,
                s2,
                seq,
                k + crate::engine::walker::merge::staged(s1)
                    - crate::engine::walker::merge::staged(s0),
            ),
{
    assert forall|i: int| 0 <= i < s1.deletes.len() implies #[trigger] s2.deletes[i]
        == s1.deletes[i] by {
        assert(s2.deletes.subrange(0, s1.deletes.len() as int)[i] == s2.deletes[i]);
    }
    assert forall|i: int| 0 <= i < s1.structural.len() implies #[trigger] s2.structural[i]
        == s1.structural[i] by {
        assert(s2.structural.subrange(0, s1.structural.len() as int)[i] == s2.structural[i]);
    }
}

/// What was taken out by walks below `slot`, and by one more below its child
/// `ch`.
proof fn lemma_taken_step(
    s0: BufferState,
    s1: BufferState,
    s2: BufferState,
    a: Seq<u8>,
    b: Seq<u8>,
    c: Seq<u8>,
    slot: int,
    i: int,
    ch: int,
    fuel: nat,
    seq: u64,
    parent: Seq<u8>,
)
    requires
        fuel > 0,
        listed_right(s0, s1, parent, seq),
        listed_right(s1, s2, parent, seq),
        crate::engine::walker::laws::clean(a),
        crate::store::blob_frame::in_use(a, slot),
        crate::store::blob_frame::in_use(a, ch),
        once(a, slot, fuel),
        has_edge(a, slot, i, ch),
        leads_on(b, slot, ch),
        crate::engine::walker::settled::evolves(a, b),
        crate::engine::walker::settled::evolves(b, c),
        crate::engine::walker::settled::evolves(a, c),
        each_once(s0, s1, seq, a, b, slot, slot, fuel),
        each_once(s1, s2, seq, b, c, ch, ch, (fuel - 1) as nat),
    ensures
        each_once(s0, s2, seq, a, c, slot, slot, fuel),
{
    reveal(each_once);
    let less = (fuel - 1) as nat;
    let w1 = choose|w: Seq<int>| #[trigger] taken_out(s0, s1, seq, a, b, slot, slot, fuel, w);
    let w2 = choose|w: Seq<int>| #[trigger] taken_out(s1, s2, seq, b, c, ch, ch, less, w);
    let w = w1 + w2;
    let n = w1.len();
    lemma_entries(s0, s1, s2, parent, seq);
    assert forall|k: int| 0 <= k < n implies meets(a, slot, fuel, #[trigger] w1[k]) && !meets(
        c,
        slot,
        fuel,
        w1[k],
    ) && !meets(b, slot, fuel, w1[k]) by {
        let x = w1[k];
        lemma_meets_in_use(a, slot, fuel, x);
        lemma_node_evolved(a, b, x);
        lemma_node_evolved(b, c, x);
        lemma_node_evolved(a, b, slot);
        if meets(c, slot, fuel, x) {
            lemma_met_before(b, c, slot, fuel, x);
        }
    }
    assert forall|k: int| 0 <= k < w2.len() implies crosses(
        a,
        #[trigger] w2[k],
        entry(s1, s2, seq, k),
    ) && meets(a, slot, fuel, w2[k]) && !meets(c, slot, fuel, w2[k]) && meets(
        b,
        slot,
        fuel,
        w2[k],
    ) by {
        let x = w2[k];
        lemma_meets_on(b, slot, ch, fuel, x);
        lemma_met_before(a, b, ch, less, x);
        lemma_unmet_above(a, c, slot, i, ch, fuel, x);
    }
    assert forall|k: int| 0 <= k < w.len() implies crosses(
        a,
        #[trigger] w[k],
        entry(s0, s2, seq, k),
    ) && meets(a, slot, fuel, w[k]) && !meets(c, slot, fuel, w[k]) by {
        if k < n {
            assert(w[k] == w1[k]);
            assert(entry(s0, s2, seq, k) == entry(s0, s1, seq, k));
        } else {
            assert(w[k] == w2[k - n]);
            assert(entry(s1, s2, seq, k - n) == entry(s0, s2, seq, k - n + n));
        }
    }
    assert forall|p: int, q: int| 0 <= p < w.len() && 0 <= q < w.len() && p != q implies w[p]
        != w[q] by {
        if p < n && q < n {
            assert(w1[p] != w1[q]);
        } else if p >= n && q >= n {
            assert(w2[p - n] != w2[q - n]);
        } else if p < n {
            assert(!meets(b, slot, fuel, w1[p]));
            assert(meets(b, slot, fuel, w2[q - n]));
        } else {
            assert(!meets(b, slot, fuel, w1[q]));
            assert(meets(b, slot, fuel, w2[p - n]));
        }
    }
    assert(taken_out(s0, s2, seq, a, c, slot, slot, fuel, w));
}

/// What was taken out, and the crossing `x` besides.
proof fn lemma_taken_more(
    s0: BufferState,
    s1: BufferState,
    s2: BufferState,
    a: Seq<u8>,
    c: Seq<u8>,
    f: Seq<u8>,
    slot: int,
    t: int,
    fuel: nat,
    seq: u64,
    parent: Seq<u8>,
    w: Seq<int>,
    x: int,
    guid: Seq<u8>,
)
    requires
        listed_right(s0, s1, parent, seq),
        lists(s1, s2, parent, guid, seq),
        taken_out(s0, s1, seq, a, c, slot, slot, fuel, w),
        crosses(a, x, guid),
        meets(a, slot, fuel, x),
        meets(c, slot, fuel, x),
        !meets(f, t, fuel, x),
        forall|k: int| 0 <= k < w.len() ==> !meets(f, t, fuel, #[trigger] w[k]),
    ensures
        taken_out(s0, s2, seq, a, f, slot, t, fuel, w.push(x)),
{
    let v = w.push(x);
    lemma_entries(s0, s1, s2, parent, seq);
    assert(entry(s1, s2, seq, 0) == guid) by {
        if seq == STRUCTURAL_SEQ {
            assert(s2.structural[s1.structural.len() as int].1@ == entry(s1, s2, seq, 0));
        } else {
            assert(s2.deletes[s1.deletes.len() as int].0@ == entry(s1, s2, seq, 0));
        }
        assert(listed_since(s1, s2, entry(s1, s2, seq, 0)));
    }
    assert forall|k: int| 0 <= k < v.len() implies crosses(
        a,
        #[trigger] v[k],
        entry(s0, s2, seq, k),
    ) && meets(a, slot, fuel, v[k]) && !meets(f, t, fuel, v[k]) by {
        if k < w.len() {
            assert(v[k] == w[k]);
            assert(entry(s0, s2, seq, k) == entry(s0, s1, seq, k));
        } else {
            assert(entry(s1, s2, seq, 0) == entry(s0, s2, seq, w.len() as int));
        }
    }
    assert forall|p: int, q: int| 0 <= p < v.len() && 0 <= q < v.len() && p != q implies v[p]
        != v[q] by {
        if p < w.len() {
            assert(v[p] == w[p]);
        }
        if q < w.len() {
            assert(v[q] == w[q]);
        }
    }
}

/// A child of `slot` was walked.
pub proof fn lemma_reclaims_step(
    h: bool,
    h1: bool,
    s0: BufferState,
    s1: BufferState,
    s2: BufferState,
    a: Seq<u8>,
    b: Seq<u8>,
    c: Seq<u8>,
    slot: int,
    i: int,
    ch: int,
    fuel: nat,
    seq: u64,
)
    requires
        fuel > 0,
        h ==> h1,
        reclaims(h, s0, s1, a, b, slot, fuel, seq),
        reclaims(h1, s1, s2, b, c, ch, (fuel - 1) as nat, seq),
        crate::store::blob_frame::guid_of(b) == crate::store::blob_frame::guid_of(a),
        h && crate::engine::walker::laws::clean(a) ==> has_edge(a, slot, i, ch)
            && crate::engine::walker::settled::evolves(a, b)
            && crate::engine::walker::settled::evolves(b, c),
        h && crate::engine::walker::laws::clean(a) && crate::store::blob_frame::in_use(a, slot)
            && crate::engine::walker::visits::unshared(a, slot, fuel) ==> leads_on(b, slot, ch)
            && crate::engine::walker::visits::unshared(b, ch, (fuel - 1) as nat),
    ensures
        reclaims(h, s0, s2, a, c, slot, fuel, seq),
{
    reveal(reclaims);
    lemma_listed_right_trans(s0, s1, s2, crate::store::blob_frame::guid_of(a), seq);
    lemma_accounted_trans(s0, s1, s2, a, b, c);
    lemma_counts_trans(
        a,
        b,
        c,
        crate::engine::walker::merge::staged(s1) - crate::engine::walker::merge::staged(s0),
        crate::engine::walker::merge::staged(s2) - crate::engine::walker::merge::staged(s1),
    );
    if h && crate::engine::walker::laws::clean(a) && crate::store::blob_frame::in_use(a, slot)
        && once(a, slot, fuel) {
        let less = (fuel - 1) as nat;
        crate::engine::walker::settled::lemma_evolves_trans(a, b, c);
        crate::engine::walker::settled::lemma_children(a, slot);
        assert(crate::engine::walker::laws::clean_node(a, slot));
        assert(crate::store::blob_frame::in_use(a, ch) && once(a, ch, less)) by {
            match crate::engine::walker::model::node(a, slot) {
                Node::Inner { pairs } => {
                    crate::engine::walker::model::lemma_distinct_child(pairs, i);
                    assert(crate::engine::walker::model::child_of(pairs, pairs[i].0) is Some);
                },
                _ => {},
            }
        }
        lemma_once_kept(a, b, ch, less);
        lemma_node_evolved(a, b, ch);
        assert forall|g: Seq<u8>| #[trigger] listed_since(s0, s2, g) implies detached(
            a,
            c,
            slot,
            slot,
            fuel,
            g,
        ) by {
            lemma_listed_trans(s0, s1, s2, g);
            if listed_since(s0, s1, g) {
                lemma_detached_kept(a, b, c, slot, fuel, g);
            } else {
                assert(detached(b, c, ch, ch, less, g));
                let x = choose|x: int|
                    crosses(b, x, g) && #[trigger] meets(b, ch, less, x) && !meets(
                        c,
                        ch,
                        less,
                        x,
                    );
                lemma_met_before(a, b, ch, less, x);
                lemma_unmet_above(a, c, slot, i, ch, fuel, x);
            }
        }
        if crate::engine::walker::visits::unshared(a, slot, fuel) {
            lemma_taken_step(
                s0,
                s1,
                s2,
                a,
                b,
                c,
                slot,
                i,
                ch,
                fuel,
                seq,
                crate::store::blob_frame::guid_of(a),
            );
        }
    }
}

/// Moving the edge from `p` to the crossing `c` changes only searches over it.
proof fn lemma_moved_cross(
    a: Seq<u8>,
    b: Seq<u8>,
    p: int,
    c: int,
    c2: int,
    s: int,
    k: Seq<u8>,
    d: int,
)
    requires
        crate::engine::walker::writers::only_changed(a, b, p),
        crate::engine::walker::equivalence::rewired(a, b, p, c, c2),
        crate::engine::walker::model::node(a, c) is Blob,
        0 <= d <= k.len(),
        crate::engine::walker::model::find(a, s, k, d) is Cross,
    ensures
        crate::engine::walker::model::find(b, s, k, d) == crate::engine::walker::model::find(
            a,
            s,
            k,
            d,
        ) || crosses(a, c, crate::engine::walker::model::find(a, s, k, d)->guid),
    decreases k.len() - d,
{
    let n = crate::engine::walker::model::node(a, s);
    let now = crate::engine::walker::model::node(b, s);
    assert(s != p ==> now == n) by {
        if s != p {
            assert(crate::store::blob_frame::has_body(a, s));
            assert(crate::store::blob_frame::same_node(a, b, s));
        }
    }
    match n {
        Node::Prefix { bytes, child } => {
            if s != p {
                lemma_moved_cross(a, b, p, c, c2, child, k, d + bytes.len());
            }
        },
        Node::Inner { pairs } => {
            let before = crate::engine::walker::model::child_of(pairs, k[d]);
            assert(before is Some);
            assert(now is Inner);
            let after = crate::engine::walker::model::child_of(now->Inner_pairs, k[d]);
            assert(after == before || before->0 == c);
            if after == before {
                lemma_moved_cross(a, b, p, c, c2, before->0 as int, k, d + 1);
            }
        },
        _ => {
            assert(now == n);
        },
    }
}

/// Whether `s1` is `s0` with `guid` listed for reclaim.
pub open spec fn lists(
    s0: BufferState,
    s1: BufferState,
    parent: Seq<u8>,
    guid: Seq<u8>,
    seq: u64,
) -> bool {
    &&& listed_right(s0, s1, parent, seq)
    &&& crate::engine::walker::merge::staged(s1) == crate::engine::walker::merge::staged(s0) + 1
    &&& forall|g: Seq<u8>| #[trigger] listed_since(s0, s1, g) == (g == guid)
}

/// One entry more on the list that `seq` selects.
pub proof fn lemma_lists(
    s0: BufferState,
    s1: BufferState,
    parent: BlobGuid,
    child: BlobGuid,
    seq: u64,
)
    requires
        if seq == STRUCTURAL_SEQ {
            s1 == (BufferState { structural: s0.structural.push((parent, child)), ..s0 })
        } else {
            s1 == (BufferState { deletes: s0.deletes.push((child, seq)), ..s0 })
        },
    ensures
        lists(s0, s1, parent@, child@, seq),
{
    assert(s0.deletes =~= s1.deletes.subrange(0, s0.deletes.len() as int));
    assert(s0.structural =~= s1.structural.subrange(0, s0.structural.len() as int));
    assert forall|g: Seq<u8>| #[trigger] listed_since(s0, s1, g) == (g == child@) by {
        if seq == STRUCTURAL_SEQ {
            assert(s1.structural[s0.structural.len() as int].1@ == child@);
        } else {
            assert(s1.deletes[s0.deletes.len() as int].0@ == child@);
        }
    }
}

/// What was taken out, and the crossing `ch` once the edge from `slot` is moved.
proof fn lemma_taken_moved(
    s0: BufferState,
    s1: BufferState,
    s2: BufferState,
    a: Seq<u8>,
    c: Seq<u8>,
    f: Seq<u8>,
    slot: int,
    ch: int,
    fuel: nat,
    seq: u64,
    parent: Seq<u8>,
    guid: Seq<u8>,
)
    requires
        fuel > 0,
        listed_right(s0, s1, parent, seq),
        lists(s1, s2, parent, guid, seq),
        crate::engine::walker::laws::clean(a),
        crate::store::blob_frame::in_use(a, slot),
        crate::engine::walker::settled::evolves(a, c),
        crate::engine::walker::settled::evolves(c, f),
        each_once(s0, s1, seq, a, c, slot, slot, fuel),
        leads_on(c, slot, ch),
        crosses(a, ch, guid),
        meets(a, slot, fuel, ch),
        !meets(f, slot, fuel, ch),
    ensures
        each_once(s0, s2, seq, a, f, slot, slot, fuel),
{
    reveal(each_once);
    let w = choose|w: Seq<int>| #[trigger] taken_out(s0, s1, seq, a, c, slot, slot, fuel, w);
    assert forall|k: int| 0 <= k < w.len() implies !meets(f, slot, fuel, #[trigger] w[k]) by {
        let x = w[k];
        lemma_meets_in_use(a, slot, fuel, x);
        lemma_node_evolved(a, c, x);
        lemma_node_evolved(c, f, x);
        lemma_node_evolved(a, c, slot);
        if meets(f, slot, fuel, x) {
            lemma_met_before(c, f, slot, fuel, x);
        }
    }
    lemma_meets_on(c, slot, ch, fuel, ch);
    lemma_taken_more(s0, s1, s2, a, c, f, slot, slot, fuel, seq, parent, w, ch, guid);
}

/// The edge from `slot` to the crossing `ch` was moved to a copy `c2`, and the
/// child listed: frame `c` before, `d` with the edge moved, `f` in the end.
pub proof fn lemma_reclaims_moved(
    h: bool,
    s0: BufferState,
    s1: BufferState,
    s2: BufferState,
    a: Seq<u8>,
    c: Seq<u8>,
    d: Seq<u8>,
    f: Seq<u8>,
    slot: int,
    i: int,
    ch: u16,
    c2: int,
    fuel: nat,
    seq: u64,
    guid: Seq<u8>,
)
    requires
        fuel > 0,
        reclaims(h, s0, s1, a, c, slot, fuel, seq),
        crate::engine::walker::merge::edge_moved(c, d, slot, ch as int, c2),
        crosses(c, ch as int, guid),
        crate::store::blob_frame::guid_of(c) == crate::store::blob_frame::guid_of(a),
        lists(s1, s2, crate::store::blob_frame::guid_of(c), guid, seq),
        crate::store::blob_frame::extends(d, f),
        counts_less(d, f, 1),
        c2 != ch,
        h && crate::engine::walker::laws::clean(a) ==> {
            &&& has_edge(a, slot, i, ch as int)
            &&& crate::engine::walker::settled::evolves(a, c)
            &&& crate::engine::walker::settled::evolves(c, f)
            &&& match crate::engine::walker::model::node(f, slot) {
                Node::Prefix { bytes, child } => child != ch,
                Node::Inner { pairs } => crate::engine::walker::model::child_of(
                    pairs,
                    crate::engine::walker::model::node(a, slot)->Inner_pairs[i].0,
                ) != Some(ch),
                _ => true,
            }
            &&& leads_on(c, slot, ch as int)
        },
    ensures
        reclaims(h, s0, s2, a, f, slot, fuel, seq),
{
    reveal(reclaims);
    lemma_listed_right_trans(s0, s1, s2, crate::store::blob_frame::guid_of(a), seq);
    assert(accounted(s1, s2, c, f)) by {
        reveal(crate::engine::walker::merge::edge_moved);
        assert forall|s: int, k: Seq<u8>, e: int|
            0 <= e <= k.len() && (crate::engine::walker::model::find(c, s, k, e)
                is Cross) implies (#[trigger] crate::engine::walker::model::find(f, s, k, e))
            == crate::engine::walker::model::find(c, s, k, e) || listed_since(
            s1,
            s2,
            crate::engine::walker::model::find(c, s, k, e)->guid,
        ) by {
            lemma_moved_cross(c, d, slot, ch as int, c2, s, k, e);
            if crate::engine::walker::model::find(d, s, k, e) is Cross {
                crate::engine::walker::laws::lemma_find_extends(d, f, s, k, e);
            }
        }
    }
    lemma_accounted_trans(s0, s1, s2, a, c, f);
    assert(crate::store::blob_frame::ext_blobs_of(d) == crate::store::blob_frame::ext_blobs_of(c)
        && crate::store::blob_frame::gap_of(d) == crate::store::blob_frame::gap_of(c)) by {
        reveal(crate::engine::walker::merge::edge_moved);
    }
    lemma_counts_trans(
        a,
        c,
        f,
        crate::engine::walker::merge::staged(s1) - crate::engine::walker::merge::staged(s0),
        1,
    );
    if h && crate::engine::walker::laws::clean(a) && crate::store::blob_frame::in_use(a, slot)
        && once(a, slot, fuel) {
        crate::engine::walker::settled::lemma_evolves_trans(a, c, f);
        assert(crate::engine::walker::laws::clean_node(a, slot));
        assert(crate::store::blob_frame::in_use(a, ch as int));
        lemma_node_evolved(a, c, ch as int);
        lemma_unmet_above(a, f, slot, i, ch as int, fuel, ch as int);
        assert forall|g: Seq<u8>| #[trigger] listed_since(s0, s2, g) implies detached(
            a,
            f,
            slot,
            slot,
            fuel,
            g,
        ) by {
            lemma_listed_trans(s0, s1, s2, g);
            if listed_since(s0, s1, g) {
                lemma_detached_kept(a, c, f, slot, fuel, g);
            } else {
                assert(crosses(a, ch as int, g));
            }
        }
        if crate::engine::walker::visits::unshared(a, slot, fuel) {
            lemma_taken_moved(
                s0,
                s1,
                s2,
                a,
                c,
                f,
                slot,
                ch as int,
                fuel,
                seq,
                crate::store::blob_frame::guid_of(a),
                guid,
            );
        }
    }
}

// ---------- the edges of an inner node ----------

/// Whether the crossing `c` of `a` is folded into `b` as `t`: its child is listed
/// for reclaim, and `t` is a node that `a` did not have, without crossings where
/// `h` holds.
pub open spec fn folded(
    h: bool,
    s0: BufferState,
    s1: BufferState,
    a: Seq<u8>,
    b: Seq<u8>,
    c: u16,
    t: u16,
) -> bool {
    &&& exists|guid: Seq<u8>| #[trigger]
        crosses(a, c as int, guid) && listed_since(s0, s1, guid)
    &&& crate::store::blob_frame::slots_of(a) <= t < crate::store::blob_frame::slots_of(b)
    &&& h ==> crate::engine::walker::settled::crossing_free(b, t as int)
}

/// Whether the edge of byte `y` of the inner node `s` leads in `b` where it led
/// in `a`, or from a crossing to its fold.
pub open spec fn edge_follows(
    h: bool,
    s0: BufferState,
    s1: BufferState,
    a: Seq<u8>,
    b: Seq<u8>,
    s: int,
    y: u8,
) -> bool {
    let before = crate::engine::walker::model::child_of(
        crate::engine::walker::model::node(a, s)->Inner_pairs,
        y,
    );
    let after = crate::engine::walker::model::child_of(
        crate::engine::walker::model::node(b, s)->Inner_pairs,
        y,
    );
    after == before || (before is Some && after is Some && folded(
        h,
        s0,
        s1,
        a,
        b,
        before->0,
        after->0,
    ))
}

/// Whether all edges of the inner node `s` follow their children, in a clean
/// frame without sharing.
pub open spec fn edges_follow(
    h: bool,
    s0: BufferState,
    s1: BufferState,
    a: Seq<u8>,
    b: Seq<u8>,
    s: int,
    fuel: nat,
) -> bool {
    crate::engine::walker::laws::clean(a) && crate::store::blob_frame::in_use(a, s)
        && crate::engine::walker::visits::unshared(a, s, fuel) ==> {
        &&& crate::engine::walker::model::node(a, s) is Inner
        &&& crate::engine::walker::model::node(b, s) is Inner
        &&& forall|y: u8| #[trigger] edge_follows(h, s0, s1, a, b, s, y)
    }
}

/// The edges once the first `i` listed children were walked: those of the others
/// lead where they did.
#[verifier::opaque]
pub open spec fn edges_so_far(
    h: bool,
    s0: BufferState,
    s1: BufferState,
    a: Seq<u8>,
    b: Seq<u8>,
    s: int,
    pairs: Seq<(u8, u16)>,
    i: int,
    fuel: nat,
) -> bool {
    &&& edges_follow(h, s0, s1, a, b, s, fuel)
    &&& crate::engine::walker::laws::clean(a) && crate::store::blob_frame::in_use(a, s)
        && crate::engine::walker::visits::unshared(a, s, fuel) ==> forall|j: int|
        i <= j < pairs.len() ==> crate::engine::walker::model::child_of(
            crate::engine::walker::model::node(b, s)->Inner_pairs,
            (#[trigger] pairs[j]).0,
        ) == Some(pairs[j].1)
}

/// Before the first child.
pub proof fn lemma_edges_start(
    h: bool,
    s0: BufferState,
    a: Seq<u8>,
    s: int,
    pairs: Seq<(u8, u16)>,
    fuel: nat,
)
    requires
        crate::engine::walker::model::node(a, s) == (Node::Inner { pairs }),
    ensures
        edges_so_far(h, s0, s0, a, a, s, pairs, 0, fuel),
{
    reveal(edges_so_far);
    if crate::engine::walker::laws::clean(a) && crate::store::blob_frame::in_use(a, s) {
        assert(crate::engine::walker::laws::clean_node(a, s));
        assert forall|j: int| 0 <= j < pairs.len() implies crate::engine::walker::model::child_of(
            pairs,
            (#[trigger] pairs[j]).0,
        ) == Some(pairs[j].1) by {
            crate::engine::walker::model::lemma_distinct_child(pairs, j);
        }
    }
}

/// After the last child.
pub proof fn lemma_edges_end(
    h: bool,
    s0: BufferState,
    s1: BufferState,
    a: Seq<u8>,
    b: Seq<u8>,
    s: int,
    pairs: Seq<(u8, u16)>,
    i: int,
    fuel: nat,
)
    requires
        edges_so_far(h, s0, s1, a, b, s, pairs, i, fuel),
    ensures
        edges_follow(h, s0, s1, a, b, s, fuel),
{
    reveal(edges_so_far);
}

/// Before child `i` is walked, its edge leads to it, and no walk below it comes
/// to a slot twice.
pub proof fn lemma_edges_next(
    h: bool,
    s0: BufferState,
    s1: BufferState,
    a: Seq<u8>,
    b: Seq<u8>,
    s: int,
    pairs: Seq<(u8, u16)>,
    i: nat,
    fuel: nat,
    n0: u32,
    n1: u32,
)
    requires
        crate::engine::walker::laws::clean(a),
        crate::store::blob_frame::in_use(a, s),
        crate::engine::walker::visits::unshared(a, s, fuel + 1),
        crate::engine::walker::model::node(a, s) == (Node::Inner { pairs }),
        i < pairs.len(),
        edges_so_far(h, s0, s1, a, b, s, pairs, i as int, fuel + 1),
        crate::engine::walker::visits::walked_list(a, b, s, pairs, i, fuel, n0, n1),
    ensures
        leads_on(b, s, pairs[i as int].1 as int),
        crate::engine::walker::visits::unshared(b, pairs[i as int].1 as int, fuel),
{
    reveal(edges_so_far);
    crate::engine::walker::visits::lemma_walked_list_next(a, b, s, pairs, i, fuel, n0, n1);
    assert(crate::engine::walker::model::child_of(
        crate::engine::walker::model::node(b, s)->Inner_pairs,
        pairs[i as int].0,
    ) == Some(pairs[i as int].1));
}

/// A walk below child `i` leaves its edge where it was.
pub proof fn lemma_edge_stays(
    h: bool,
    s0: BufferState,
    s1: BufferState,
    a: Seq<u8>,
    b: Seq<u8>,
    c: Seq<u8>,
    s: int,
    pairs: Seq<(u8, u16)>,
    i: nat,
    fuel: nat,
    n0: u32,
    n1: u32,
    n2: u32,
)
    requires
        crate::engine::walker::laws::clean(a),
        crate::engine::walker::laws::clean(b),
        crate::store::blob_frame::in_use(a, s),
        crate::store::blob_frame::slots_of(a) <= crate::store::blob_frame::slots_of(b)
            <= crate::layout::MAX_SLOTS,
        crate::engine::walker::visits::unshared(a, s, fuel + 1),
        crate::engine::walker::model::node(a, s) == (Node::Inner { pairs }),
        i < pairs.len(),
        edges_so_far(h, s0, s1, a, b, s, pairs, i as int, fuel + 1),
        crate::engine::walker::visits::walked_list(a, b, s, pairs, i, fuel, n0, n1),
        crate::engine::walker::visits::walked(b, c, pairs[i as int].1 as int, fuel, n1, n2),
    ensures
        pairs[i as int].1 != 0,
        crate::engine::walker::model::child_of(
            crate::engine::walker::model::node(c, s)->Inner_pairs,
            pairs[i as int].0,
        ) == Some(pairs[i as int].1),
{
    reveal(edges_so_far);
    let ch = pairs[i as int].1 as int;
    crate::engine::walker::visits::lemma_walked_list_next(a, b, s, pairs, i, fuel, n0, n1);
    assert(crate::engine::walker::visits::reaches(b, ch, fuel, s)
        == crate::engine::walker::visits::reaches(a, ch, fuel, s));
    crate::engine::walker::visits::lemma_walked_past(b, c, ch, fuel, n1, n2, s);
}

/// Child `i` was walked, from `b` to `c`, and its edge moved to the copy `t` of
/// its crossing to `guid` where `fold` gives them.
pub proof fn lemma_edges_step(
    h: bool,
    s0: BufferState,
    s1: BufferState,
    s2: BufferState,
    a: Seq<u8>,
    b: Seq<u8>,
    c: Seq<u8>,
    f: Seq<u8>,
    s: int,
    pairs: Seq<(u8, u16)>,
    i: nat,
    fuel: nat,
    n0: u32,
    n1: u32,
    n2: u32,
    fold: Option<(u16, Seq<u8>)>,
)
    requires
        crate::engine::walker::model::node(a, s) == (Node::Inner { pairs }),
        i < pairs.len(),
        edges_so_far(h, s0, s1, a, b, s, pairs, i as int, fuel + 1),
        crate::engine::walker::visits::walked_list(a, b, s, pairs, i, fuel, n0, n1),
        crate::engine::walker::visits::walked(b, c, pairs[i as int].1 as int, fuel, n1, n2),
        crate::store::blob_frame::slots_of(a) <= crate::store::blob_frame::slots_of(b)
            <= crate::store::blob_frame::slots_of(f) <= crate::layout::MAX_SLOTS,
        s0.deletes.is_prefix_of(s1.deletes),
        s0.structural.is_prefix_of(s1.structural),
        s1.deletes.is_prefix_of(s2.deletes),
        s1.structural.is_prefix_of(s2.structural),
        crate::engine::walker::laws::clean(a) ==> crate::engine::walker::laws::clean(b),
        h && crate::engine::walker::laws::clean(a) ==> crate::engine::walker::settled::evolves(
            b,
            f,
        ),
        match fold {
            Some((t, guid)) => {
                &&& crosses(b, pairs[i as int].1 as int, guid)
                &&& listed_since(s1, s2, guid)
                &&& crate::store::blob_frame::slots_of(b) <= t < crate::store::blob_frame::slots_of(
                    f,
                )
                &&& h && crate::engine::walker::laws::clean(a)
                    ==> crate::engine::walker::settled::crossing_free(f, t as int)
                &&& crate::engine::walker::laws::clean(a) ==> {
                    &&& crate::engine::walker::model::node(f, s) is Inner
                    &&& crate::engine::walker::writers::child_replaced(
                        crate::engine::walker::model::node(c, s)->Inner_pairs,
                        crate::engine::walker::model::node(f, s)->Inner_pairs,
                        pairs[i as int].0,
                        pairs[i as int].1,
                        t,
                    )
                }
            },
            None => crate::engine::walker::laws::clean(a) ==> crate::engine::walker::model::node(
                f,
                s,
            ) == crate::engine::walker::model::node(c, s),
        },
    ensures
        edges_so_far(h, s0, s2, a, f, s, pairs, i as int + 1, fuel + 1),
{
    reveal(edges_so_far);
    if crate::engine::walker::laws::clean(a) && crate::store::blob_frame::in_use(a, s)
        && crate::engine::walker::visits::unshared(a, s, fuel + 1) {
        let ch = pairs[i as int].1;
        let byte = pairs[i as int].0;
        crate::engine::walker::visits::lemma_walked_list_next(a, b, s, pairs, i, fuel, n0, n1);
        assert(crate::engine::walker::visits::reaches(a, ch as int, fuel, ch as int));
        assert(crate::engine::walker::visits::reaches(b, ch as int, fuel, s)
            == crate::engine::walker::visits::reaches(a, ch as int, fuel, s));
        crate::engine::walker::visits::lemma_walked_past(b, c, ch as int, fuel, n1, n2, s);
        let qb = crate::engine::walker::model::node(b, s)->Inner_pairs;
        let qf = crate::engine::walker::model::node(f, s)->Inner_pairs;
        assert(crate::engine::walker::laws::clean_node(a, s));
        // Another edge leads to another child.
        assert forall|y: u8| y != byte implies (
        #[trigger] crate::engine::walker::model::child_of(qf, y))
            == crate::engine::walker::model::child_of(qb, y) by {
            if fold is Some {
                assert(edge_follows(h, s0, s1, a, b, s, y));
                if crate::engine::walker::model::child_of(qb, y) == Some(ch)
                    && crate::engine::walker::model::child_of(pairs, y) == Some(ch) {
                    let j = crate::engine::walker::settled::lemma_child_listed(pairs, y);
                    assert(crate::engine::walker::visits::reaches(
                        a,
                        pairs[j].1 as int,
                        fuel,
                        ch as int,
                    ));
                    if j < i {
                        assert(crate::engine::walker::visits::apart(
                            a,
                            pairs[j].1 as int,
                            pairs[i as int].1 as int,
                            fuel,
                        ));
                    } else {
                        assert(crate::engine::walker::visits::apart(
                            a,
                            pairs[i as int].1 as int,
                            pairs[j].1 as int,
                            fuel,
                        ));
                    }
                }
            }
        }
        assert forall|y: u8| #[trigger] edge_follows(h, s0, s2, a, f, s, y) by {
            assert(edge_follows(h, s0, s1, a, b, s, y));
            let before = crate::engine::walker::model::child_of(pairs, y);
            let mid = crate::engine::walker::model::child_of(qb, y);
            let after = crate::engine::walker::model::child_of(qf, y);
            if y == byte && fold is Some {
                let (t, guid) = fold->0;
                lemma_listed_trans(s0, s1, s2, guid);
                assert(crosses(a, ch as int, guid));
                crate::engine::walker::model::lemma_distinct_child(pairs, i as int);
                assert(before == Some(ch));
                assert(after == Some(t));
                assert(folded(h, s0, s2, a, f, ch, t));
            } else {
                assert(after == mid);
                if mid != before {
                    let c0 = before->0;
                    let t0 = mid->0;
                    assert(folded(h, s0, s1, a, b, c0, t0));
                    let guid = choose|guid: Seq<u8>| #[trigger]
                        crosses(a, c0 as int, guid) && listed_since(s0, s1, guid);
                    lemma_listed_trans(s0, s1, s2, guid);
                    assert(crosses(a, c0 as int, guid) && listed_since(s0, s2, guid));
                    if h {
                        crate::engine::walker::settled::lemma_free_kept(b, f, t0 as int);
                    }
                }
            }
        }
        assert forall|j: int|
            i + 1 <= j < pairs.len() implies crate::engine::walker::model::child_of(
            qf,
            (#[trigger] pairs[j]).0,
        ) == Some(pairs[j].1) by {
            crate::engine::walker::model::lemma_distinct_child(pairs, j);
            crate::engine::walker::model::lemma_distinct_child(pairs, i as int);
            assert(pairs[j].0 != byte) by {
                if pairs[j].0 == byte {
                    assert(crate::engine::walker::visits::reaches(
                        a,
                        pairs[j].1 as int,
                        fuel,
                        ch as int,
                    ));
                    assert(crate::engine::walker::visits::apart(
                        a,
                        pairs[i as int].1 as int,
                        pairs[j].1 as int,
                        fuel,
                    ));
                }
            }
        }
    }
}

// ---------- one pass over a parent ----------

/// What a pass over a parent listed for reclaim, in a store whose blobs count
/// their crossings where `h` holds: only the list that `seq` selects grew; every
/// search that ended at a crossing still does, or its child is listed; the
/// parent counts as many crossings less; and where no crossing was met on two
/// ways, every listed child is one whose crossing is met no more, a crossing of
/// its own where no node is shared.
pub open spec fn reclaimed(
    h: bool,
    s0: BufferState,
    s1: BufferState,
    a: Seq<u8>,
    b: Seq<u8>,
    seq: u64,
) -> bool {
    let from = crate::store::blob_frame::root_of(a);
    let to = crate::store::blob_frame::root_of(b);
    let fuel = crate::engine::walker::migrate::MAX_DEPTH as nat;
    &&& listed_right(s0, s1, crate::store::blob_frame::guid_of(a), seq)
    &&& forall|k: Seq<u8>|
        crate::engine::walker::model::find(a, from, k, 0) is Cross ==> (
        #[trigger] crate::engine::walker::model::find(b, to, k, 0))
            == crate::engine::walker::model::find(a, from, k, 0) || listed_since(
            s0,
            s1,
            crate::engine::walker::model::find(a, from, k, 0)->guid,
        )
    &&& counts_less(
        a,
        b,
        crate::engine::walker::merge::staged(s1) - crate::engine::walker::merge::staged(s0),
    )
    &&& h && crate::engine::walker::laws::clean(a) && crate::store::blob_frame::in_use(a, from)
        ==> {
        &&& crate::engine::walker::settled::evolves(a, b)
        &&& crate::engine::walker::settled::edge_kept(b, from, to)
        &&& once(a, from, fuel) ==> {
            &&& forall|g: Seq<u8>| #[trigger]
                listed_since(s0, s1, g) ==> detached(a, b, from, to, fuel, g)
            &&& crate::engine::walker::visits::unshared(a, from, fuel) ==> each_once(
                s0,
                s1,
                seq,
                a,
                b,
                from,
                to,
                fuel,
            )
        }
    }
}

/// A pass that left the root where it was.
pub proof fn lemma_reclaimed_here(
    h: bool,
    s0: BufferState,
    s1: BufferState,
    a: Seq<u8>,
    b: Seq<u8>,
    seq: u64,
)
    requires
        reclaims(
            h,
            s0,
            s1,
            a,
            b,
            crate::store::blob_frame::root_of(a),
            crate::engine::walker::migrate::MAX_DEPTH as nat,
            seq,
        ),
        crate::store::blob_frame::root_of(b) == crate::store::blob_frame::root_of(a),
        h && crate::engine::walker::laws::clean(a) ==> crate::engine::walker::settled::evolves(
            a,
            b,
        ),
    ensures
        reclaimed(h, s0, s1, a, b, seq),
{
    reveal(reclaims);
}

/// A pass whose root was a crossing, moved to the copy `t` and its child listed.
pub proof fn lemma_reclaimed_root(
    h: bool,
    s0: BufferState,
    s1: BufferState,
    s2: BufferState,
    a: Seq<u8>,
    b: Seq<u8>,
    f: Seq<u8>,
    seq: u64,
    guid: Seq<u8>,
)
    requires
        reclaims(
            h,
            s0,
            s1,
            a,
            b,
            crate::store::blob_frame::root_of(a),
            crate::engine::walker::migrate::MAX_DEPTH as nat,
            seq,
        ),
        crosses(a, crate::store::blob_frame::root_of(a), guid),
        crosses(b, crate::store::blob_frame::root_of(a), guid),
        crate::store::blob_frame::guid_of(b) == crate::store::blob_frame::guid_of(a),
        lists(s1, s2, crate::store::blob_frame::guid_of(b), guid, seq),
        counts_less(b, f, 1),
        h && crate::engine::walker::laws::clean(a) ==> {
            &&& crate::engine::walker::settled::evolves(a, b)
            &&& crate::engine::walker::settled::evolves(b, f)
            &&& crate::store::blob_frame::in_use(b, crate::store::blob_frame::root_of(f))
            &&& crate::engine::walker::settled::crossing_free(
                f,
                crate::store::blob_frame::root_of(f),
            )
        },
    ensures
        reclaimed(h, s0, s2, a, f, seq),
{
    reveal(reclaims);
    let from = crate::store::blob_frame::root_of(a);
    let to = crate::store::blob_frame::root_of(f);
    let fuel = crate::engine::walker::migrate::MAX_DEPTH as nat;
    lemma_listed_right_trans(s0, s1, s2, crate::store::blob_frame::guid_of(a), seq);
    lemma_listed_trans(s0, s1, s2, guid);
    assert(listed_since(s1, s2, guid));
    lemma_counts_trans(
        a,
        b,
        f,
        crate::engine::walker::merge::staged(s1) - crate::engine::walker::merge::staged(s0),
        1,
    );
    if h && crate::engine::walker::laws::clean(a) && crate::store::blob_frame::in_use(a, from) {
        crate::engine::walker::settled::lemma_evolves_trans(a, b, f);
        lemma_node_evolved(a, f, from);
        lemma_node_evolved(b, f, to);
        assert forall|g: Seq<u8>| once(a, from, fuel) && #[trigger] listed_since(
            s0,
            s2,
            g,
        ) implies detached(a, f, from, to, fuel, g) by {
            lemma_listed_trans(s0, s1, s2, g);
            if listed_since(s0, s1, g) {
                assert(detached(a, b, from, from, fuel, g));
            }
            if meets(f, to, fuel, from) {
                lemma_free_meets_none(f, to, fuel, from);
            }
            assert(crosses(a, from, g) && meets(a, from, fuel, from));
        }
        if once(a, from, fuel) && crate::engine::walker::visits::unshared(a, from, fuel) {
            reveal(each_once);
            let w = choose|w: Seq<int>| #[trigger]
                taken_out(s0, s1, seq, a, b, from, from, fuel, w);
            assert forall|k: int| 0 <= k < w.len() implies !meets(
                f,
                to,
                fuel,
                #[trigger] w[k],
            ) by {
                lemma_meets_in_use(a, from, fuel, w[k]);
                lemma_node_evolved(a, f, w[k]);
                if meets(f, to, fuel, w[k]) {
                    lemma_free_meets_none(f, to, fuel, w[k]);
                }
            }
            if meets(f, to, fuel, from) {
                lemma_free_meets_none(f, to, fuel, from);
            }
            lemma_taken_more(
                s0,
                s1,
                s2,
                a,
                b,
                f,
                from,
                to,
                fuel,
                seq,
                crate::store::blob_frame::guid_of(a),
                w,
                from,
                guid,
            );
            assert(each_once(s0, s2, seq, a, f, from, to, fuel));
        }
    }
}

// ---------- laws ----------

/// Where every child is crossed to from one place, and no node is shared, no
/// child is listed for reclaim twice by one pass.
pub proof fn a_child_is_reclaimed_once(
    s0: BufferState,
    s1: BufferState,
    a: Seq<u8>,
    b: Seq<u8>,
    seq: u64,
    i: int,
    j: int,
)
    requires
        reclaimed(true, s0, s1, a, b, seq),
        crate::engine::walker::laws::clean(a),
        crate::store::blob_frame::in_use(a, crate::store::blob_frame::root_of(a)),
        once(
            a,
            crate::store::blob_frame::root_of(a),
            crate::engine::walker::migrate::MAX_DEPTH as nat,
        ),
        crate::engine::walker::visits::unshared(
            a,
            crate::store::blob_frame::root_of(a),
            crate::engine::walker::migrate::MAX_DEPTH as nat,
        ),
        forall|x: int, y: int, guid: Seq<u8>|
            #![trigger crosses(a, x, guid), crosses(a, y, guid)]
            crosses(a, x, guid) && crosses(a, y, guid) ==> x == y,
        0 <= i < j < crate::engine::walker::merge::staged(s1)
            - crate::engine::walker::merge::staged(s0),
    ensures
        entry(s0, s1, seq, i) != entry(s0, s1, seq, j),
{
    let from = crate::store::blob_frame::root_of(a);
    let to = crate::store::blob_frame::root_of(b);
    let fuel = crate::engine::walker::migrate::MAX_DEPTH as nat;
    reveal(each_once);
    let w = choose|w: Seq<int>| #[trigger] taken_out(s0, s1, seq, a, b, from, to, fuel, w);
    assert(crosses(a, w[i], entry(s0, s1, seq, i)));
    assert(crosses(a, w[j], entry(s0, s1, seq, j)));
    assert(w[i] != w[j]);
}

/// Where every child is crossed to from one place, no search of a parent ends at
/// a crossing to a child that was listed for reclaim.
pub proof fn a_reclaimed_child_is_not_crossed_to(
    s0: BufferState,
    s1: BufferState,
    a: Seq<u8>,
    b: Seq<u8>,
    seq: u64,
    guid: Seq<u8>,
    k: Seq<u8>,
)
    requires
        reclaimed(true, s0, s1, a, b, seq),
        crate::engine::walker::laws::clean(a),
        crate::store::blob_frame::in_use(a, crate::store::blob_frame::root_of(a)),
        once(
            a,
            crate::store::blob_frame::root_of(a),
            crate::engine::walker::migrate::MAX_DEPTH as nat,
        ),
        forall|x: int, y: int|
            #![trigger crosses(a, x, guid), crosses(a, y, guid)]
            crosses(a, x, guid) && crosses(a, y, guid) ==> x == y,
        listed_since(s0, s1, guid),
        k.len() <= crate::engine::walker::migrate::MAX_DEPTH,
    ensures
        !(crate::engine::walker::model::find(b, crate::store::blob_frame::root_of(b), k, 0)
            matches Outcome::Cross { guid: g, depth } && g == guid),
{
    let from = crate::store::blob_frame::root_of(a);
    let to = crate::store::blob_frame::root_of(b);
    let fuel = crate::engine::walker::migrate::MAX_DEPTH as nat;
    let out = crate::engine::walker::model::find(b, to, k, 0);
    assert(detached(a, b, from, to, fuel, guid));
    let gone = choose|x: int|
        crosses(a, x, guid) && #[trigger] meets(a, from, fuel, x) && !meets(b, to, fuel, x);
    if out is Cross && out->guid == guid {
        assert(!crate::engine::walker::settled::crossing_free(b, to));
        let x = lemma_cross_met(b, to, k, 0, fuel);
        lemma_met_before(a, b, to, fuel, x);
        assert(crosses(a, x, guid));
    }
}

/// A pass stages the children it took in where its number says: behind the parent's
/// guid for the structural number, which is the greatest, and for deletion at the
/// number otherwise. The other list stays as it is. The parent counts as many
/// crossings less, and 128 bytes more of gap for each.
pub proof fn a_pass_stages_where_its_number_says(
    h: bool,
    s0: BufferState,
    s1: BufferState,
    a: Seq<u8>,
    b: Seq<u8>,
    seq: u64,
    i: int,
)
    requires
        reclaimed(h, s0, s1, a, b, seq),
    ensures
        seq == 0xffff_ffff_ffff_ffff ==> s1.deletes == s0.deletes && (s0.structural.len() <= i
            < s1.structural.len() ==> s1.structural[i].0@ == a.subrange(0, 16)),
        seq != 0xffff_ffff_ffff_ffff ==> s1.structural == s0.structural && (s0.deletes.len() <= i
            < s1.deletes.len() ==> s1.deletes[i].1 == seq),
        0 <= i < s0.deletes.len() ==> i < s1.deletes.len() && s1.deletes[i] == s0.deletes[i],
        0 <= i < s0.structural.len() ==> i < s1.structural.len() && s1.structural[i]
            == s0.structural[i],
        ({
            let n = s1.deletes.len() + s1.structural.len() - s0.deletes.len()
                - s0.structural.len();
            let (x, y) = (
                crate::store::blob_frame::ext_blobs_of(a),
                crate::store::blob_frame::ext_blobs_of(b),
            );
            let (g, f) = (
                crate::store::blob_frame::gap_of(a),
                crate::store::blob_frame::gap_of(b),
            );
            &&& x >= n ==> y == x - n
            &&& x < n ==> y == 0
            &&& g + 128 * n <= 0xffff_ffff ==> f == g + 128 * n
        }),
{
    let n = s1.deletes.len() + s1.structural.len() - s0.deletes.len() - s0.structural.len();
    assert(n * crate::layout::node::node_size(NodeType::Blob) == 128 * n) by (nonlinear_arith)
        requires
            crate::layout::node::node_size(NodeType::Blob) == 128,
    ;
    if 0 <= i < s0.deletes.len() {
        assert(s1.deletes.subrange(0, s0.deletes.len() as int)[i] == s1.deletes[i]);
    }
    if 0 <= i < s0.structural.len() {
        assert(s1.structural.subrange(0, s0.structural.len() as int)[i] == s1.structural[i]);
    }
}

/// A search that ended at a crossing still ends there after a pass, or its child is
/// staged.
pub proof fn no_child_is_lost(
    h: bool,
    s0: BufferState,
    s1: BufferState,
    a: Seq<u8>,
    b: Seq<u8>,
    seq: u64,
    key: Seq<u8>,
)
    requires
        reclaimed(h, s0, s1, a, b, seq),
        crate::engine::walker::model::find(a, crate::store::blob_frame::root_of(a), key, 0)
            is Cross,
    ensures
        ({
            let x = crate::engine::walker::model::find(
                a,
                crate::store::blob_frame::root_of(a),
                key,
                0,
            );
            let y = crate::engine::walker::model::find(
                b,
                crate::store::blob_frame::root_of(b),
                key,
                0,
            );
            ||| y == x
            ||| exists|i: int|
                s0.deletes.len() <= i < s1.deletes.len() && (#[trigger] s1.deletes[i]).0@ == x->guid
            ||| exists|i: int|
                s0.structural.len() <= i < s1.structural.len() && (
                #[trigger] s1.structural[i]).1@ == x->guid
        }),
{
    let y = crate::engine::walker::model::find(b, crate::store::blob_frame::root_of(b), key, 0);
}

} // verus!
