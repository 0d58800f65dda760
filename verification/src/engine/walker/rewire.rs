//! What a merge pass does to the nodes of a frame: it moves edges from crossings
//! to their folds, and leaves everything else as it is.
use vstd::prelude::*;

use crate::engine::walker::model::Node;
use crate::store::buffer_manager::BufferState;

verus! {

/// Whether `t` in `b` is the fold of the crossing `c`: a node that `a` did not
/// have, which answers what the crossing leads to where `f` holds, and whose
/// child came to be listed for reclaim.
pub open spec fn fold_of(
    f: bool,
    blobs: Map<u128, Seq<u8>>,
    s0: BufferState,
    s1: BufferState,
    a: Seq<u8>,
    b: Seq<u8>,
    c: int,
    t: int,
) -> bool {
    &&& exists|guid: Seq<u8>| #[trigger]
        crate::engine::walker::reclaim::crosses(b, c, guid)
            && crate::engine::walker::reclaim::listed_since(s0, s1, guid)
    &&& crate::store::blob_frame::slots_of(a) <= t < crate::store::blob_frame::slots_of(b)
    &&& f ==> crate::engine::walker::equivalence::replaces(blobs, b, c, t)
}

/// Whether the node `n` of `a` is `now` in `b`: the same bytes, as many children,
/// and each of them the one it was or the fold of the crossing that it was.
pub open spec fn node_kept(
    f: bool,
    blobs: Map<u128, Seq<u8>>,
    s0: BufferState,
    s1: BufferState,
    a: Seq<u8>,
    b: Seq<u8>,
    n: Node,
    now: Node,
) -> bool {
    match n {
        Node::Prefix { bytes, child } => now matches Node::Prefix { bytes: y, child: t } && y
            == bytes && (t == child || fold_of(f, blobs, s0, s1, a, b, child, t)),
        Node::Inner { pairs } => {
            &&& now matches Node::Inner { pairs: q }
            &&& q.len() == pairs.len()
            &&& forall|j: int|
                0 <= j < pairs.len() ==> (#[trigger] q[j]).0 == pairs[j].0 && (q[j].1
                    == pairs[j].1 || fold_of(
                    f,
                    blobs,
                    s0,
                    s1,
                    a,
                    b,
                    pairs[j].1 as int,
                    q[j].1 as int,
                ))
        },
        _ => now == n,
    }
}

/// Whether every node of `a` is kept in `b` but for edges moved to folds.
#[verifier::opaque]
pub open spec fn rewired_only(
    f: bool,
    blobs: Map<u128, Seq<u8>>,
    s0: BufferState,
    s1: BufferState,
    a: Seq<u8>,
    b: Seq<u8>,
) -> bool {
    &&& crate::store::blob_frame::slots_of(a) <= crate::store::blob_frame::slots_of(b)
    &&& forall|s: int| #[trigger]
        crate::store::blob_frame::has_body(a, s) ==> crate::store::blob_frame::has_body(b, s)
            && node_kept(
            f,
            blobs,
            s0,
            s1,
            a,
            b,
            crate::engine::walker::model::node(a, s),
            crate::engine::walker::model::node(b, s),
        )
}

/// One node of a frame whose edges alone were moved.
pub proof fn lemma_rewired_at(
    f: bool,
    blobs: Map<u128, Seq<u8>>,
    s0: BufferState,
    s1: BufferState,
    a: Seq<u8>,
    b: Seq<u8>,
    s: int,
)
    requires
        rewired_only(f, blobs, s0, s1, a, b),
        crate::store::blob_frame::has_body(a, s),
    ensures
        node_kept(
            f,
            blobs,
            s0,
            s1,
            a,
            b,
            crate::engine::walker::model::node(a, s),
            crate::engine::walker::model::node(b, s),
        ),
{
    reveal(rewired_only);
}

/// A frame that only grew.
pub proof fn lemma_rewired_start(
    f: bool,
    blobs: Map<u128, Seq<u8>>,
    s0: BufferState,
    s1: BufferState,
    a: Seq<u8>,
    b: Seq<u8>,
)
    requires
        crate::store::blob_frame::extends(a, b),
        crate::store::blob_frame::slots_of(a) <= crate::store::blob_frame::slots_of(b),
    ensures
        rewired_only(f, blobs, s0, s1, a, b),
{
    reveal(rewired_only);
    assert forall|s: int| #[trigger] crate::store::blob_frame::has_body(a, s) implies
        crate::store::blob_frame::has_body(b, s) && crate::engine::walker::model::node(b, s)
        == crate::engine::walker::model::node(a, s) by {
        assert(crate::store::blob_frame::same_node(a, b, s));
    }
}

/// A fold stays one while the frame goes on.
proof fn lemma_fold_kept(
    f: bool,
    blobs: Map<u128, Seq<u8>>,
    s0: BufferState,
    s1: BufferState,
    s2: BufferState,
    a: Seq<u8>,
    b: Seq<u8>,
    c: Seq<u8>,
    x: int,
    t: int,
)
    requires
        fold_of(f, blobs, s0, s1, a, b, x, t),
        s0.deletes.is_prefix_of(s1.deletes),
        s0.structural.is_prefix_of(s1.structural),
        s1.deletes.is_prefix_of(s2.deletes),
        s1.structural.is_prefix_of(s2.structural),
        crate::store::blob_frame::slots_of(b) <= crate::store::blob_frame::slots_of(c),
        crate::engine::walker::model::node(c, x) == crate::engine::walker::model::node(b, x),
        f ==> crate::engine::walker::equivalence::equivalent(blobs, b, c),
    ensures
        fold_of(f, blobs, s0, s2, a, c, x, t),
{
    let guid = choose|guid: Seq<u8>| #[trigger]
        crate::engine::walker::reclaim::crosses(b, x, guid)
            && crate::engine::walker::reclaim::listed_since(s0, s1, guid);
    crate::engine::walker::reclaim::lemma_listed_trans(s0, s1, s2, guid);
    assert(crate::engine::walker::reclaim::crosses(c, x, guid));
    if f {
        lemma_replaces_kept(blobs, b, c, x, t);
    }
}

/// The fold of a fold.
proof fn lemma_fold_chain(
    f: bool,
    blobs: Map<u128, Seq<u8>>,
    s0: BufferState,
    s1: BufferState,
    a: Seq<u8>,
    c: Seq<u8>,
    x: int,
    t: int,
    t2: int,
)
    requires
        fold_of(f, blobs, s0, s1, a, c, x, t),
        f ==> crate::engine::walker::equivalence::replaces(blobs, c, t, t2),
        crate::store::blob_frame::slots_of(a) <= t2 < crate::store::blob_frame::slots_of(c),
    ensures
        fold_of(f, blobs, s0, s1, a, c, x, t2),
{
    if f {
        assert forall|k: Seq<u8>, d: int|
            0 <= d <= k.len() && !(crate::engine::walker::model::find(c, x, k, d)
                is Corrupt) implies {
            let out = #[trigger] crate::engine::walker::model::find(c, t2, k, d);
            &&& !(out is Corrupt)
            &&& crate::engine::walker::equivalence::leads(
                blobs,
                k,
                crate::engine::walker::model::find(c, x, k, d),
                out,
            )
        } by {
            let from = crate::engine::walker::model::find(c, x, k, d);
            let mid = crate::engine::walker::model::find(c, t, k, d);
            let out = crate::engine::walker::model::find(c, t2, k, d);
            crate::engine::walker::equivalence::lemma_leads_trans(blobs, k, from, mid, out);
        }
    }
}

/// An edge that led from `x` to `t` and then from `t` to `u`.
proof fn lemma_edge_trans(
    f: bool,
    blobs: Map<u128, Seq<u8>>,
    s0: BufferState,
    s1: BufferState,
    s2: BufferState,
    a: Seq<u8>,
    b: Seq<u8>,
    c: Seq<u8>,
    x: int,
    t: int,
    u: int,
)
    requires
        s0.deletes.is_prefix_of(s1.deletes),
        s0.structural.is_prefix_of(s1.structural),
        s1.deletes.is_prefix_of(s2.deletes),
        s1.structural.is_prefix_of(s2.structural),
        crate::store::blob_frame::slots_of(a) <= crate::store::blob_frame::slots_of(b)
            <= crate::store::blob_frame::slots_of(c),
        f ==> crate::engine::walker::equivalence::equivalent(blobs, b, c),
        t == x || fold_of(f, blobs, s0, s1, a, b, x, t),
        u == t || fold_of(f, blobs, s1, s2, a, c, t, u),
        // A crossing of `b` is one of `c`.
        crate::engine::walker::model::node(b, x) is Blob ==> crate::engine::walker::model::node(
            c,
            x,
        ) == crate::engine::walker::model::node(b, x),
    ensures
        u == x || fold_of(f, blobs, s0, s2, a, c, x, u),
{
    if t != x {
        lemma_fold_kept(f, blobs, s0, s1, s2, a, b, c, x, t);
        if u != t {
            lemma_fold_chain(f, blobs, s0, s2, a, c, x, t, u);
        }
    } else if u != t {
        let guid = choose|guid: Seq<u8>| #[trigger]
            crate::engine::walker::reclaim::crosses(c, t, guid)
                && crate::engine::walker::reclaim::listed_since(s1, s2, guid);
        crate::engine::walker::reclaim::lemma_listed_trans(s0, s1, s2, guid);
        assert(crate::engine::walker::reclaim::crosses(c, x, guid)
            && crate::engine::walker::reclaim::listed_since(s0, s2, guid));
    }
}

/// A fold over a frame that had fewer nodes still.
proof fn lemma_fold_since(
    f: bool,
    f1: bool,
    blobs: Map<u128, Seq<u8>>,
    blobs1: Map<u128, Seq<u8>>,
    s0: BufferState,
    s1: BufferState,
    a: Seq<u8>,
    b: Seq<u8>,
    c: Seq<u8>,
    x: int,
    t: int,
)
    requires
        fold_of(f1, blobs1, s0, s1, b, c, x, t),
        f ==> f1 && blobs1 == blobs,
        crate::store::blob_frame::slots_of(a) <= crate::store::blob_frame::slots_of(b),
    ensures
        fold_of(f, blobs, s0, s1, a, c, x, t),
{
}

/// Two stretches of a pass in a row.
pub proof fn lemma_rewired_trans(
    f: bool,
    f1: bool,
    blobs: Map<u128, Seq<u8>>,
    blobs1: Map<u128, Seq<u8>>,
    s0: BufferState,
    s1: BufferState,
    s2: BufferState,
    a: Seq<u8>,
    b: Seq<u8>,
    c: Seq<u8>,
)
    requires
        rewired_only(f, blobs, s0, s1, a, b),
        rewired_only(f1, blobs1, s1, s2, b, c),
        f ==> f1 && blobs1 == blobs,
        f ==> crate::engine::walker::equivalence::equivalent(blobs, b, c),
        s0.deletes.is_prefix_of(s1.deletes),
        s0.structural.is_prefix_of(s1.structural),
        s1.deletes.is_prefix_of(s2.deletes),
        s1.structural.is_prefix_of(s2.structural),
    ensures
        rewired_only(f, blobs, s0, s2, a, c),
{
    reveal(rewired_only);
    assert forall|s: int| #[trigger] crate::store::blob_frame::has_body(a, s) implies
        crate::store::blob_frame::has_body(c, s) && node_kept(
        f,
        blobs,
        s0,
        s2,
        a,
        c,
        crate::engine::walker::model::node(a, s),
        crate::engine::walker::model::node(c, s),
    ) by {
        assert(crate::store::blob_frame::has_body(b, s));
        match crate::engine::walker::model::node(a, s) {
            Node::Prefix { bytes, child } => {
                let t = crate::engine::walker::model::node(b, s)->child;
                let u = crate::engine::walker::model::node(c, s)->child;
                lemma_edge_since(f, f1, blobs, blobs1, s0, s1, s2, a, b, c, child, t, u);
            },
            Node::Inner { pairs } => {
                let p = crate::engine::walker::model::node(b, s)->Inner_pairs;
                let q = crate::engine::walker::model::node(c, s)->Inner_pairs;
                assert forall|j: int| 0 <= j < pairs.len() implies (#[trigger] q[j]).0
                    == pairs[j].0 && (q[j].1 == pairs[j].1 || fold_of(
                    f,
                    blobs,
                    s0,
                    s2,
                    a,
                    c,
                    pairs[j].1 as int,
                    q[j].1 as int,
                )) by {
                    assert(p[j].0 == pairs[j].0);
                    lemma_edge_since(
                        f,
                        f1,
                        blobs,
                        blobs1,
                        s0,
                        s1,
                        s2,
                        a,
                        b,
                        c,
                        pairs[j].1 as int,
                        p[j].1 as int,
                        q[j].1 as int,
                    );
                }
            },
            _ => {},
        }
    }
}

/// The edge from `x` over `t` to `u`, across two stretches of a pass.
proof fn lemma_edge_since(
    f: bool,
    f1: bool,
    blobs: Map<u128, Seq<u8>>,
    blobs1: Map<u128, Seq<u8>>,
    s0: BufferState,
    s1: BufferState,
    s2: BufferState,
    a: Seq<u8>,
    b: Seq<u8>,
    c: Seq<u8>,
    x: int,
    t: int,
    u: int,
)
    requires
        rewired_only(f1, blobs1, s1, s2, b, c),
        f ==> f1 && blobs1 == blobs,
        f ==> crate::engine::walker::equivalence::equivalent(blobs, b, c),
        s0.deletes.is_prefix_of(s1.deletes),
        s0.structural.is_prefix_of(s1.structural),
        s1.deletes.is_prefix_of(s2.deletes),
        s1.structural.is_prefix_of(s2.structural),
        crate::store::blob_frame::slots_of(a) <= crate::store::blob_frame::slots_of(b),
        t == x || fold_of(f, blobs, s0, s1, a, b, x, t),
        u == t || fold_of(f1, blobs1, s1, s2, b, c, t, u),
    ensures
        u == x || fold_of(f, blobs, s0, s2, a, c, x, u),
{
    reveal(rewired_only);
    if u != t {
        lemma_fold_since(f, f1, blobs, blobs1, s1, s2, a, b, c, t, u);
    }
    if crate::engine::walker::model::node(b, x) is Blob {
        assert(crate::store::blob_frame::has_body(b, x));
    }
    lemma_edge_trans(f, blobs, s0, s1, s2, a, b, c, x, t, u);
}

/// The frame grew, and more was listed.
pub proof fn lemma_rewired_grown(
    f: bool,
    blobs: Map<u128, Seq<u8>>,
    s0: BufferState,
    s1: BufferState,
    s2: BufferState,
    a: Seq<u8>,
    b: Seq<u8>,
    c: Seq<u8>,
)
    requires
        rewired_only(f, blobs, s0, s1, a, b),
        crate::store::blob_frame::extends(b, c),
        crate::store::blob_frame::slots_of(b) <= crate::store::blob_frame::slots_of(c),
        s0.deletes.is_prefix_of(s1.deletes),
        s0.structural.is_prefix_of(s1.structural),
        s1.deletes.is_prefix_of(s2.deletes),
        s1.structural.is_prefix_of(s2.structural),
    ensures
        rewired_only(f, blobs, s0, s2, a, c),
{
    lemma_rewired_start(f, blobs, s1, s2, b, c);
    crate::engine::walker::equivalence::lemma_equivalent_extends(blobs, b, c);
    lemma_rewired_trans(f, f, blobs, blobs, s0, s1, s2, a, b, c);
}

/// The edge from `p` to the crossing `ch` was moved to its copy `t`, which `a`
/// did not have, and the child listed: frame `c` before, `d` with the edge moved,
/// `g` in the end.
pub proof fn lemma_rewired_moved(
    f: bool,
    blobs: Map<u128, Seq<u8>>,
    s0: BufferState,
    s1: BufferState,
    s2: BufferState,
    a: Seq<u8>,
    c: Seq<u8>,
    d: Seq<u8>,
    g: Seq<u8>,
    p: int,
    ch: u16,
    t: u16,
    guid: Seq<u8>,
)
    requires
        rewired_only(f, blobs, s0, s1, a, c),
        crate::engine::walker::merge::edge_moved(c, d, p, ch as int, t as int),
        crate::store::blob_frame::extends(d, g),
        crate::store::blob_frame::slots_of(d) <= crate::store::blob_frame::slots_of(g),
        crate::store::blob_frame::type_at(c, p) != Some(crate::layout::NodeType::Blob),
        crate::engine::walker::reclaim::crosses(c, ch as int, guid),
        crate::engine::walker::reclaim::listed_since(s1, s2, guid),
        f ==> crate::engine::walker::equivalence::replaces(blobs, c, ch as int, t as int),
        crate::store::blob_frame::slots_of(a) <= t < crate::store::blob_frame::slots_of(c),
        s0.deletes.is_prefix_of(s1.deletes),
        s0.structural.is_prefix_of(s1.structural),
        s1.deletes.is_prefix_of(s2.deletes),
        s1.structural.is_prefix_of(s2.structural),
    ensures
        rewired_only(f, blobs, s0, s2, a, g),
{
    reveal(rewired_only);
    reveal(crate::engine::walker::merge::edge_moved);
    if f {
        crate::engine::walker::equivalence::lemma_rewire(blobs, c, d, p, ch as int, t as int);
        crate::engine::walker::equivalence::lemma_equivalent_extends(blobs, d, g);
        crate::engine::walker::equivalence::lemma_equivalent_trans(blobs, c, d, g);
    }
    assert forall|s: int| #[trigger] crate::store::blob_frame::has_body(c, s) implies
        crate::store::blob_frame::has_body(g, s) && crate::engine::walker::model::node(g, s)
        == crate::engine::walker::model::node(d, s) && (s != p
        ==> crate::engine::walker::model::node(d, s) == crate::engine::walker::model::node(
        c,
        s,
    )) by {
        if s != p {
            assert(crate::store::blob_frame::same_node(c, d, s));
        }
        assert(crate::store::blob_frame::has_body(d, s));
        assert(crate::store::blob_frame::same_node(d, g, s));
    }
    assert(crate::store::blob_frame::has_body(c, ch as int));
    assert(fold_of(f, blobs, s1, s2, a, g, ch as int, t as int)) by {
        assert(crate::engine::walker::reclaim::crosses(g, ch as int, guid));
        if f {
            lemma_replaces_kept(blobs, c, g, ch as int, t as int);
        }
    }
    assert forall|x: int| crate::engine::walker::model::node(c, x) is Blob implies
        #[trigger] crate::engine::walker::model::node(g, x) == crate::engine::walker::model::node(
        c,
        x,
    ) by {
        assert(crate::store::blob_frame::has_body(c, x));
    }
    assert forall|s: int| #[trigger] crate::store::blob_frame::has_body(a, s) implies
        crate::store::blob_frame::has_body(g, s) && node_kept(
        f,
        blobs,
        s0,
        s2,
        a,
        g,
        crate::engine::walker::model::node(a, s),
        crate::engine::walker::model::node(g, s),
    ) by {
        assert(crate::store::blob_frame::has_body(c, s));
        assert(edges_moved(
            crate::engine::walker::model::node(c, s),
            crate::engine::walker::model::node(g, s),
            ch,
            t,
        ));
        lemma_node_moved(f, blobs, s0, s1, s2, a, c, g, s, ch, t);
    }
}

/// Whether the node `n` is `now` with edges moved from `ch` to `t`.
spec fn edges_moved(n: Node, now: Node, ch: u16, t: u16) -> bool {
    match n {
        Node::Prefix { bytes, child } => now matches Node::Prefix { bytes: y, child: u } && y
            == bytes && (u == child || (child == ch && u == t)),
        Node::Inner { pairs } => now matches Node::Inner { pairs: q }
            && crate::engine::walker::writers::list_replaced(pairs, q, ch, t),
        _ => now == n,
    }
}

/// Moving an edge to a fold keeps the node.
proof fn lemma_node_moved(
    f: bool,
    blobs: Map<u128, Seq<u8>>,
    s0: BufferState,
    s1: BufferState,
    s2: BufferState,
    a: Seq<u8>,
    c: Seq<u8>,
    g: Seq<u8>,
    s: int,
    ch: u16,
    t: u16,
)
    requires
        node_kept(
            f,
            blobs,
            s0,
            s1,
            a,
            c,
            crate::engine::walker::model::node(a, s),
            crate::engine::walker::model::node(c, s),
        ),
        edges_moved(
            crate::engine::walker::model::node(c, s),
            crate::engine::walker::model::node(g, s),
            ch,
            t,
        ),
        fold_of(f, blobs, s1, s2, a, g, ch as int, t as int),
        forall|x: int|
            crate::engine::walker::model::node(c, x) is Blob
                ==> #[trigger] crate::engine::walker::model::node(g, x)
                == crate::engine::walker::model::node(c, x),
        f ==> crate::engine::walker::equivalence::equivalent(blobs, c, g),
        crate::store::blob_frame::slots_of(a) <= crate::store::blob_frame::slots_of(c)
            <= crate::store::blob_frame::slots_of(g),
        s0.deletes.is_prefix_of(s1.deletes),
        s0.structural.is_prefix_of(s1.structural),
        s1.deletes.is_prefix_of(s2.deletes),
        s1.structural.is_prefix_of(s2.structural),
    ensures
        node_kept(
            f,
            blobs,
            s0,
            s2,
            a,
            g,
            crate::engine::walker::model::node(a, s),
            crate::engine::walker::model::node(g, s),
        ),
{
    match crate::engine::walker::model::node(a, s) {
        Node::Prefix { bytes, child } => {
            let m = crate::engine::walker::model::node(c, s)->child;
            let u = crate::engine::walker::model::node(g, s)->child;
            let x = crate::engine::walker::model::node(g, child);
            lemma_edge_trans(f, blobs, s0, s1, s2, a, c, g, child, m, u);
        },
        Node::Inner { pairs } => {
            let m = crate::engine::walker::model::node(c, s)->Inner_pairs;
            let q = crate::engine::walker::model::node(g, s)->Inner_pairs;
            assert forall|j: int| 0 <= j < pairs.len() implies (#[trigger] q[j]).0 == pairs[j].0
                && (q[j].1 == pairs[j].1 || fold_of(
                f,
                blobs,
                s0,
                s2,
                a,
                g,
                pairs[j].1 as int,
                q[j].1 as int,
            )) by {
                assert(m[j].0 == pairs[j].0);
                let x = crate::engine::walker::model::node(g, pairs[j].1 as int);
                lemma_edge_trans(
                    f,
                    blobs,
                    s0,
                    s1,
                    s2,
                    a,
                    c,
                    g,
                    pairs[j].1 as int,
                    m[j].1 as int,
                    q[j].1 as int,
                );
            }
        },
        _ => {},
    }
}

/// A copy answers for its crossing while the frame goes on.
proof fn lemma_replaces_kept(
    blobs: Map<u128, Seq<u8>>,
    b: Seq<u8>,
    c: Seq<u8>,
    x: int,
    t: int,
)
    requires
        crate::engine::walker::equivalence::replaces(blobs, b, x, t),
        crate::engine::walker::equivalence::equivalent(blobs, b, c),
        crate::engine::walker::model::node(b, x) is Blob,
        crate::engine::walker::model::node(c, x) == crate::engine::walker::model::node(b, x),
    ensures
        crate::engine::walker::equivalence::replaces(blobs, c, x, t),
{
    assert forall|k: Seq<u8>, d: int|
        0 <= d <= k.len() && !(crate::engine::walker::model::find(c, x, k, d)
            is Corrupt) implies {
        let out = #[trigger] crate::engine::walker::model::find(c, t, k, d);
        &&& !(out is Corrupt)
        &&& crate::engine::walker::equivalence::leads(
            blobs,
            k,
            crate::engine::walker::model::find(c, x, k, d),
            out,
        )
    } by {
        let from = crate::engine::walker::model::find(b, x, k, d);
        let mid = crate::engine::walker::model::find(b, t, k, d);
        let out = crate::engine::walker::model::find(c, t, k, d);
        assert(crate::engine::walker::model::find(c, x, k, d) == from);
        crate::engine::walker::equivalence::lemma_leads_trans(blobs, k, from, mid, out);
    }
}

} // verus!
