//! When a walk over a frame has left no crossing that could still be folded.
use vstd::prelude::*;

use crate::engine::walker::model::{Node, Outcome};

verus! {

/// Whether no search from slot `s` ends at a crossing.
pub open spec fn crossing_free(img: Seq<u8>, s: int) -> bool {
    forall|k: Seq<u8>, d: int|
        0 <= d <= k.len() ==> !(#[trigger] crate::engine::walker::model::find(img, s, k, d)
            is Cross)
}

/// Whether a crossing to `guid` can be folded into `img`.
pub open spec fn foldable(blobs: Map<u128, Seq<u8>>, guid: Seq<u8>, img: Seq<u8>) -> bool {
    let id = crate::engine::walker::equivalence::bytes_id(guid);
    blobs.dom().contains(id) && crate::engine::walker::merge::mergeable(blobs[id], img)
}

/// Whether no search of at most `fuel` more bytes from slot `s` ends at a
/// crossing that can be folded.
pub open spec fn settled(blobs: Map<u128, Seq<u8>>, img: Seq<u8>, s: int, fuel: int) -> bool {
    forall|k: Seq<u8>, d: int|
        0 <= d <= k.len() <= d + fuel ==> (#[trigger] crate::engine::walker::model::find(
            img,
            s,
            k,
            d,
        ) matches Outcome::Cross { guid, depth } ==> !foldable(blobs, guid, img))
}

/// Whether an edge still leads to `c`, or to a copy without crossings.
pub open spec fn edge_kept(b: Seq<u8>, c: int, now: int) -> bool {
    now == c || (crate::store::blob_frame::in_use(b, now) && crossing_free(b, now))
}

/// Whether node `n` became `now` by moving edges to copies without crossings.
pub open spec fn node_evolves(b: Seq<u8>, n: Node, now: Node) -> bool {
    match n {
        Node::Prefix { bytes, child } => {
            now matches Node::Prefix { bytes: y, child: c } && y == bytes && edge_kept(b, child, c)
        },
        Node::Inner { pairs } => {
            now matches Node::Inner { pairs: q } && forall|x: u8|
                (match #[trigger] crate::engine::walker::model::child_of(q, x) {
                    Some(c) => crate::engine::walker::model::child_of(pairs, x) matches Some(c0)
                        && edge_kept(b, c0 as int, c as int),
                    None => crate::engine::walker::model::child_of(pairs, x) is None,
                })
        },
        _ => now == n,
    }
}

/// Whether frame `b` is `a` with more nodes, and with edges moved to copies
/// without crossings.
#[verifier::opaque]
pub open spec fn evolves(a: Seq<u8>, b: Seq<u8>) -> bool {
    &&& crate::engine::walker::laws::clean(b)
    &&& crate::store::blob_frame::slots_of(a) <= crate::store::blob_frame::slots_of(b)
    &&& crate::store::blob_frame::bump_of(a) <= crate::store::blob_frame::bump_of(b)
    &&& forall|s: int|
        crate::store::blob_frame::in_use(a, s) ==> node_evolves(
            b,
            crate::engine::walker::model::node(a, s),
            #[trigger] crate::engine::walker::model::node(b, s),
        )
}

/// The children of a node in a clean frame are slots in use.
pub proof fn lemma_children(img: Seq<u8>, s: int)
    requires
        crate::engine::walker::laws::clean(img),
        crate::store::blob_frame::in_use(img, s),
    ensures
        match crate::engine::walker::model::node(img, s) {
            Node::Prefix { bytes, child } => crate::store::blob_frame::in_use(img, child),
            Node::Inner { pairs } => forall|x: u8|
                (#[trigger] crate::engine::walker::model::child_of(pairs, x) matches Some(c)
                    ==> crate::store::blob_frame::in_use(img, c as int)),
            Node::Bad => false,
            _ => true,
        },
{
    assert(crate::engine::walker::laws::clean_node(img, s));
    match crate::engine::walker::model::node(img, s) {
        Node::Inner { pairs } => {
            assert forall|x: u8|
                (#[trigger] crate::engine::walker::model::child_of(pairs, x) matches Some(c)
                    ==> crate::store::blob_frame::in_use(img, c as int)) by {
                let i = lemma_child_listed(pairs, x);
                if crate::engine::walker::model::child_of(pairs, x) is Some {
                    assert(crate::store::blob_frame::in_use(img, pairs[i].1 as int));
                }
            }
        },
        _ => {},
    }
}

/// The child of a byte is listed with that byte.
pub proof fn lemma_child_listed(pairs: Seq<(u8, u16)>, x: u8) -> (i: int)
    ensures
        crate::engine::walker::model::child_of(pairs, x) matches Some(c) ==> 0 <= i < pairs.len()
            && pairs[i] == (x, c),
    decreases pairs.len(),
{
    if pairs.len() == 0 || pairs[0].0 == x {
        0
    } else {
        let rest = pairs.subrange(1, pairs.len() as int);
        let i = lemma_child_listed(rest, x);
        i + 1
    }
}

/// A search that ends at a crossing took the same way before.
pub proof fn lemma_crossing_kept(a: Seq<u8>, b: Seq<u8>, s: int, k: Seq<u8>, d: int)
    requires
        evolves(a, b),
        crate::engine::walker::laws::clean(a),
        crate::store::blob_frame::in_use(a, s),
        0 <= d <= k.len(),
        crate::engine::walker::model::find(b, s, k, d) is Cross,
    ensures
        crate::engine::walker::model::find(a, s, k, d) == crate::engine::walker::model::find(
            b,
            s,
            k,
            d,
        ),
    decreases k.len() - d,
{
    reveal(evolves);
    lemma_children(a, s);
    let now = crate::engine::walker::model::node(b, s);
    assert(node_evolves(b, crate::engine::walker::model::node(a, s), now));
    match crate::engine::walker::model::node(a, s) {
        Node::Prefix { bytes, child } => {
            let c = now->child;
            assert(!crossing_free(b, c)) by {
                assert(crate::engine::walker::model::find(b, c, k, d + bytes.len()) is Cross);
            }
            lemma_crossing_kept(a, b, child, k, d + bytes.len());
        },
        Node::Inner { pairs } => {
            let c = crate::engine::walker::model::child_of(now->Inner_pairs, k[d])->0;
            assert(!crossing_free(b, c as int)) by {
                assert(crate::engine::walker::model::find(b, c as int, k, d + 1) is Cross);
            }
            lemma_crossing_kept(a, b, c as int, k, d + 1);
        },
        _ => {},
    }
}

/// What has no crossings gets none.
pub proof fn lemma_free_kept(a: Seq<u8>, b: Seq<u8>, s: int)
    requires
        evolves(a, b),
        crate::engine::walker::laws::clean(a),
        crate::store::blob_frame::in_use(a, s),
        crossing_free(a, s),
    ensures
        crossing_free(b, s),
{
    assert forall|k: Seq<u8>, d: int| 0 <= d <= k.len() implies !(
    #[trigger] crate::engine::walker::model::find(b, s, k, d) is Cross) by {
        if crate::engine::walker::model::find(b, s, k, d) is Cross {
            lemma_crossing_kept(a, b, s, k, d);
            assert(!(crate::engine::walker::model::find(a, s, k, d) is Cross));
        }
    }
}

/// What is settled stays so.
pub proof fn lemma_settled_kept(
    blobs: Map<u128, Seq<u8>>,
    a: Seq<u8>,
    b: Seq<u8>,
    s: int,
    fuel: int,
)
    requires
        evolves(a, b),
        crate::engine::walker::laws::clean(a),
        crate::store::blob_frame::in_use(a, s),
        settled(blobs, a, s, fuel),
    ensures
        settled(blobs, b, s, fuel),
{
    assert forall|k: Seq<u8>, d: int| 0 <= d <= k.len() <= d + fuel implies (
    #[trigger] crate::engine::walker::model::find(b, s, k, d) matches Outcome::Cross {
        guid,
        depth,
    } ==> !foldable(blobs, guid, b)) by {
        if crate::engine::walker::model::find(b, s, k, d) is Cross {
            lemma_crossing_kept(a, b, s, k, d);
            assert(crate::engine::walker::model::find(a, s, k, d) is Cross);
            reveal(evolves);
        }
    }
}

/// Growing a frame keeps its nodes.
pub proof fn lemma_evolves_extends(a: Seq<u8>, b: Seq<u8>)
    requires
        crate::engine::walker::laws::clean(a),
        crate::engine::walker::laws::clean(b),
        crate::store::blob_frame::extends(a, b),
        crate::store::blob_frame::bump_of(a) <= crate::store::blob_frame::bump_of(b),
    ensures
        evolves(a, b),
{
    reveal(evolves);
    assert forall|s: int| crate::store::blob_frame::in_use(a, s) implies node_evolves(
        b,
        crate::engine::walker::model::node(a, s),
        #[trigger] crate::engine::walker::model::node(b, s),
    ) by {
        assert(crate::engine::walker::laws::clean_node(a, s));
        crate::engine::walker::laws::lemma_node_extends(a, b, s);
    }
}

/// Two steps in a row.
pub proof fn lemma_evolves_trans(a: Seq<u8>, b: Seq<u8>, c: Seq<u8>)
    requires
        evolves(a, b),
        evolves(b, c),
    ensures
        evolves(a, c),
{
    assert(crate::engine::walker::laws::clean(b)) by {
        reveal(evolves);
    }
    assert forall|e: int, f: int, g: int|
        edge_kept(b, e, f) && #[trigger] edge_kept(c, f, g) implies #[trigger] edge_kept(c, e, g) by {
        if f != e && g == f {
            lemma_free_kept(b, c, f);
            reveal(evolves);
        }
    }
    reveal(evolves);
    assert forall|s: int| crate::store::blob_frame::in_use(a, s) implies node_evolves(
        c,
        crate::engine::walker::model::node(a, s),
        #[trigger] crate::engine::walker::model::node(c, s),
    ) by {
        lemma_node_evolves_trans(
            b,
            c,
            crate::engine::walker::model::node(a, s),
            crate::engine::walker::model::node(b, s),
            crate::engine::walker::model::node(c, s),
        );
    }
}

proof fn lemma_node_evolves_trans(b: Seq<u8>, c: Seq<u8>, x: Node, y: Node, z: Node)
    requires
        node_evolves(b, x, y),
        node_evolves(c, y, z),
        forall|e: int, f: int, g: int|
            edge_kept(b, e, f) && #[trigger] edge_kept(c, f, g) ==> #[trigger] edge_kept(c, e, g),
    ensures
        node_evolves(c, x, z),
{
    match x {
        Node::Prefix { bytes, child } => {
            assert(edge_kept(c, y->child, z->child));
            assert(edge_kept(c, child, z->child));
        },
        Node::Inner { pairs } => {
            let p = y->Inner_pairs;
            let q = z->Inner_pairs;
            assert forall|v: u8|
                (match #[trigger] crate::engine::walker::model::child_of(q, v) {
                    Some(r) => crate::engine::walker::model::child_of(pairs, v) matches Some(r0)
                        && edge_kept(c, r0 as int, r as int),
                    None => crate::engine::walker::model::child_of(pairs, v) is None,
                }) by {
                let mid = crate::engine::walker::model::child_of(p, v);
                if let Some(r) = crate::engine::walker::model::child_of(q, v) {
                    assert(edge_kept(c, mid->0 as int, r as int));
                    let r0 = crate::engine::walker::model::child_of(pairs, v)->0;
                    assert(edge_kept(b, r0 as int, mid->0 as int));
                    assert(edge_kept(c, r0 as int, r as int));
                }
            }
        },
        _ => {},
    }
}

proof fn lemma_moved_find(
    a: Seq<u8>,
    b: Seq<u8>,
    p: int,
    c: int,
    c2: int,
    s: int,
    k: Seq<u8>,
    d: int,
)
    requires
        crate::engine::walker::laws::clean(a),
        crate::engine::walker::writers::only_changed(a, b, p),
        crate::engine::walker::equivalence::rewired(a, b, p, c, c2),
        crate::store::blob_frame::in_use(a, c2),
        crossing_free(a, c2),
        crate::store::blob_frame::in_use(a, s),
        0 <= d <= k.len(),
        crate::engine::walker::model::find(b, s, k, d) is Cross,
    ensures
        crate::engine::walker::model::find(a, s, k, d) is Cross,
    decreases k.len() - d,
{
    lemma_children(a, s);
    if s != p {
        assert(crate::store::blob_frame::has_body(a, s));
        assert(crate::store::blob_frame::same_node(a, b, s));
    }
    let now = crate::engine::walker::model::node(b, s);
    match crate::engine::walker::model::node(a, s) {
        Node::Prefix { bytes, child } => {
            if s == p {
                lemma_moved_find(a, b, p, c, c2, c2, k, d + bytes.len());
            } else {
                lemma_moved_find(a, b, p, c, c2, child, k, d + bytes.len());
            }
        },
        Node::Inner { pairs } => {
            let before = crate::engine::walker::model::child_of(pairs, k[d]);
            let after = crate::engine::walker::model::child_of(now->Inner_pairs, k[d]);
            if after == before {
                lemma_moved_find(a, b, p, c, c2, after->0 as int, k, d + 1);
            } else {
                lemma_moved_find(a, b, p, c, c2, c2, k, d + 1);
            }
        },
        _ => {},
    }
}

/// Moving an edge to a copy without crossings.
pub proof fn lemma_evolves_moved(a: Seq<u8>, b: Seq<u8>, p: int, c: int, c2: int)
    requires
        crate::engine::walker::laws::clean(a),
        crate::engine::walker::laws::clean(b),
        crate::engine::walker::writers::only_changed(a, b, p),
        crate::engine::walker::equivalence::rewired(a, b, p, c, c2),
        crate::store::blob_frame::in_use(a, c2),
        crossing_free(a, c2),
    ensures
        evolves(a, b),
{
    assert(crossing_free(b, c2)) by {
        assert forall|k: Seq<u8>, d: int| 0 <= d <= k.len() implies !(
        #[trigger] crate::engine::walker::model::find(b, c2, k, d) is Cross) by {
            if crate::engine::walker::model::find(b, c2, k, d) is Cross {
                lemma_moved_find(a, b, p, c, c2, c2, k, d);
            }
        }
    }
    reveal(evolves);
    assert forall|s: int| crate::store::blob_frame::in_use(a, s) implies node_evolves(
        b,
        crate::engine::walker::model::node(a, s),
        #[trigger] crate::engine::walker::model::node(b, s),
    ) by {
        lemma_children(a, s);
        if s != p {
            assert(crate::store::blob_frame::has_body(a, s));
            assert(crate::store::blob_frame::same_node(a, b, s));
        }
    }
}

// ---------- settling a node once its children are ----------

/// A prefix node is settled once its edge leads to a settled slot or to a copy.
pub proof fn lemma_settled_prefix(
    blobs: Map<u128, Seq<u8>>,
    a: Seq<u8>,
    b: Seq<u8>,
    s: int,
    child: int,
    fuel: int,
)
    requires
        evolves(a, b),
        crate::store::blob_frame::in_use(a, s),
        crate::engine::walker::model::node(a, s) matches Node::Prefix { bytes, child: c } && c
            == child,
        crate::engine::walker::model::node(b, s) matches Node::Prefix { bytes, child: c } ==> c
            == child ==> settled(blobs, b, child, fuel - 1),
    ensures
        settled(blobs, b, s, fuel),
{
    reveal(evolves);
    let now = crate::engine::walker::model::node(b, s);
    assert(node_evolves(b, crate::engine::walker::model::node(a, s), now));
    let c = now->child;
    assert forall|k: Seq<u8>, d: int| 0 <= d <= k.len() <= d + fuel implies (
    #[trigger] crate::engine::walker::model::find(b, s, k, d) matches Outcome::Cross {
        guid,
        depth,
    } ==> !foldable(blobs, guid, b)) by {
        if crate::engine::walker::model::find(b, s, k, d) is Cross {
            let e = d + now->Prefix_bytes.len();
            assert(crate::engine::walker::model::find(b, c, k, e) is Cross);
            assert(!crossing_free(b, c));
        }
    }
}

/// Whether the listed child `j` of an inner node is settled, or its edge leads
/// to a copy, or another child of the same byte hides it.
pub open spec fn child_done(
    blobs: Map<u128, Seq<u8>>,
    b: Seq<u8>,
    s: int,
    pairs: Seq<(u8, u16)>,
    j: int,
    fuel: int,
) -> bool {
    let (x, c) = pairs[j];
    ||| settled(blobs, b, c as int, fuel)
    ||| crate::engine::walker::model::child_of(
        crate::engine::walker::model::node(b, s)->Inner_pairs,
        x,
    ) matches Some(t) && crossing_free(b, t as int)
    ||| crate::engine::walker::model::child_of(pairs, x) != Some(c)
}

proof fn lemma_child_done_kept(
    blobs: Map<u128, Seq<u8>>,
    b: Seq<u8>,
    m: Seq<u8>,
    s: int,
    pairs: Seq<(u8, u16)>,
    j: int,
    fuel: int,
)
    requires
        evolves(b, m),
        crate::engine::walker::laws::clean(b),
        crate::store::blob_frame::in_use(b, s),
        crate::engine::walker::model::node(b, s) is Inner,
        crate::store::blob_frame::in_use(b, pairs[j].1 as int),
        child_done(blobs, b, s, pairs, j, fuel),
    ensures
        child_done(blobs, m, s, pairs, j, fuel),
{
    let (x, c) = pairs[j];
    let before = crate::engine::walker::model::child_of(
        crate::engine::walker::model::node(b, s)->Inner_pairs,
        x,
    );
    lemma_children(b, s);
    if settled(blobs, b, c as int, fuel) {
        lemma_settled_kept(blobs, b, m, c as int, fuel);
    } else if before is Some && crossing_free(b, before->0 as int) {
        lemma_free_kept(b, m, before->0 as int);
        assert(node_evolves(
            m,
            crate::engine::walker::model::node(b, s),
            crate::engine::walker::model::node(m, s),
        )) by {
            reveal(evolves);
        }
        let after = crate::engine::walker::model::child_of(
            crate::engine::walker::model::node(m, s)->Inner_pairs,
            x,
        );
        assert(after is Some);
    }
}

/// One child of an inner node is walked: frame `b` before, `c` after its walk,
/// and `f` once its edge is moved where it was folded.
pub proof fn lemma_child_walked(
    blobs: Map<u128, Seq<u8>>,
    a: Seq<u8>,
    b: Seq<u8>,
    c: Seq<u8>,
    f: Seq<u8>,
    s: int,
    pairs: Seq<(u8, u16)>,
    i: int,
    fuel: int,
    to: Option<u16>,
)
    requires
        crate::engine::walker::laws::clean(a),
        crate::store::blob_frame::in_use(a, s),
        crate::engine::walker::model::node(a, s) == (Node::Inner { pairs }),
        0 <= i < pairs.len(),
        evolves(a, b),
        evolves(b, c),
        evolves(c, f),
        forall|j: int| 0 <= j < i ==> #[trigger] child_done(blobs, b, s, pairs, j, fuel),
        match to {
            None => settled(blobs, c, pairs[i].1 as int, fuel),
            Some(t) => {
                let now = crate::engine::walker::model::child_of(
                    crate::engine::walker::model::node(f, s)->Inner_pairs,
                    pairs[i].0,
                );
                if now == Some(t) {
                    crate::store::blob_frame::in_use(c, t as int) && crossing_free(c, t as int)
                } else {
                    now != Some(pairs[i].1)
                }
            },
        },
    ensures
        forall|j: int| 0 <= j < i + 1 ==> #[trigger] child_done(blobs, f, s, pairs, j, fuel),
{
    lemma_evolves_trans(b, c, f);
    lemma_evolves_trans(a, b, f);
    assert(crate::engine::walker::laws::clean(b) && crate::engine::walker::laws::clean(c)
        && crate::store::blob_frame::slots_of(a) <= crate::store::blob_frame::slots_of(b)
        && crate::store::blob_frame::slots_of(b) <= crate::store::blob_frame::slots_of(c)
        && node_evolves(
        b,
        crate::engine::walker::model::node(a, s),
        crate::engine::walker::model::node(b, s),
    ) && node_evolves(
        f,
        crate::engine::walker::model::node(a, s),
        crate::engine::walker::model::node(f, s),
    )) by {
        reveal(evolves);
    }
    assert(crate::engine::walker::laws::clean_node(a, s));
    assert forall|j: int| 0 <= j < i + 1 implies #[trigger] child_done(
        blobs,
        f,
        s,
        pairs,
        j,
        fuel,
    ) by {
        assert(crate::store::blob_frame::in_use(
            a,
            crate::engine::walker::model::node(a, s)->Inner_pairs[j].1 as int,
        ));
        if j < i {
            lemma_child_done_kept(blobs, b, f, s, pairs, j, fuel);
        } else {
            match to {
                None => {
                    lemma_settled_kept(blobs, c, f, pairs[i].1 as int, fuel);
                },
                Some(t) => {
                    let now = crate::engine::walker::model::child_of(
                        crate::engine::walker::model::node(f, s)->Inner_pairs,
                        pairs[i].0,
                    );
                    if now == Some(t) {
                        lemma_free_kept(c, f, t as int);
                    }
                },
            }
        }
    }
}

/// An inner node is settled once all its children are done.
pub proof fn lemma_settled_inner(
    blobs: Map<u128, Seq<u8>>,
    a: Seq<u8>,
    b: Seq<u8>,
    s: int,
    pairs: Seq<(u8, u16)>,
    fuel: int,
)
    requires
        evolves(a, b),
        crate::store::blob_frame::in_use(a, s),
        crate::engine::walker::model::node(a, s) == (Node::Inner { pairs }),
        forall|j: int|
            0 <= j < pairs.len() ==> #[trigger] child_done(blobs, b, s, pairs, j, fuel - 1),
    ensures
        settled(blobs, b, s, fuel),
{
    reveal(evolves);
    let now = crate::engine::walker::model::node(b, s);
    assert(node_evolves(b, crate::engine::walker::model::node(a, s), now));
    assert forall|k: Seq<u8>, d: int| 0 <= d <= k.len() <= d + fuel implies (
    #[trigger] crate::engine::walker::model::find(b, s, k, d) matches Outcome::Cross {
        guid,
        depth,
    } ==> !foldable(blobs, guid, b)) by {
        if crate::engine::walker::model::find(b, s, k, d) is Cross {
            let c = crate::engine::walker::model::child_of(now->Inner_pairs, k[d])->0 as int;
            assert(crate::engine::walker::model::find(b, c, k, d + 1) is Cross);
            assert(!crossing_free(b, c));
            let j = lemma_child_listed(pairs, k[d]);
            assert(child_done(blobs, b, s, pairs, j, fuel - 1));
            assert(settled(blobs, b, c, fuel - 1));
        }
    }
}

} // verus!
