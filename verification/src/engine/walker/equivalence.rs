//! When two frames answer every search alike, up to following crossings.
use vstd::prelude::*;

verus! {

/// The map key of a guid given as bytes.
pub open spec fn bytes_id(guid: Seq<u8>) -> u128 {
    vstd::bytes::spec_u128_from_le_bytes(guid)
}

/// Where a search ends once up to `n` crossings are followed into `blobs`.
pub open spec fn follow(
    blobs: Map<u128, Seq<u8>>,
    key: Seq<u8>,
    o: crate::engine::walker::model::Outcome,
    n: nat,
) -> crate::engine::walker::model::Outcome
    decreases n,
{
    if n == 0 {
        o
    } else {
        match o {
            crate::engine::walker::model::Outcome::Cross { guid, depth } => {
                let img = blobs[bytes_id(guid)];
                follow(
                    blobs,
                    key,
                    crate::engine::walker::model::find(
                        img,
                        crate::store::blob_frame::root_of(img),
                        key,
                        depth,
                    ),
                    (n - 1) as nat,
                )
            },
            _ => o,
        }
    }
}

/// Whether following crossings leads from `x` to `y`.
pub open spec fn leads(
    blobs: Map<u128, Seq<u8>>,
    key: Seq<u8>,
    x: crate::engine::walker::model::Outcome,
    y: crate::engine::walker::model::Outcome,
) -> bool {
    exists|n: nat| #[trigger] follow(blobs, key, x, n) == y
}

/// Every search that ends well in `a` ends well in `b`, and where following
/// crossings leads.
pub open spec fn equivalent(blobs: Map<u128, Seq<u8>>, a: Seq<u8>, b: Seq<u8>) -> bool {
    forall|s: int, k: Seq<u8>, d: int|
        0 <= d <= k.len() && !(crate::engine::walker::model::find(a, s, k, d) is Corrupt) ==> {
            let out = #[trigger] crate::engine::walker::model::find(b, s, k, d);
            &&& !(out is Corrupt)
            &&& leads(blobs, k, crate::engine::walker::model::find(a, s, k, d), out)
        }
}

/// Searches from `c2` end where those from `c` lead.
pub open spec fn replaces(blobs: Map<u128, Seq<u8>>, img: Seq<u8>, c: int, c2: int) -> bool {
    forall|k: Seq<u8>, d: int|
        0 <= d <= k.len() && !(crate::engine::walker::model::find(img, c, k, d) is Corrupt) ==> {
            let out = #[trigger] crate::engine::walker::model::find(img, c2, k, d);
            &&& !(out is Corrupt)
            &&& leads(blobs, k, crate::engine::walker::model::find(img, c, k, d), out)
        }
}

/// Following `n` and then `m` crossings is following `n + m`.
pub proof fn lemma_follow_add(
    blobs: Map<u128, Seq<u8>>,
    key: Seq<u8>,
    o: crate::engine::walker::model::Outcome,
    n: nat,
    m: nat,
)
    ensures
        follow(blobs, key, follow(blobs, key, o, n), m) == follow(blobs, key, o, n + m),
    decreases n,
{
    if n > 0 {
        match o {
            crate::engine::walker::model::Outcome::Cross { guid, depth } => {
                let img = blobs[bytes_id(guid)];
                let next = crate::engine::walker::model::find(
                    img,
                    crate::store::blob_frame::root_of(img),
                    key,
                    depth,
                );
                lemma_follow_add(blobs, key, next, (n - 1) as nat, m);
                assert((n + m - 1) as nat == (n - 1) as nat + m);
            },
            _ => {
                assert(follow(blobs, key, o, m) == o);
            },
        }
    }
}

/// Leading is reflexive.
pub proof fn lemma_leads_refl(
    blobs: Map<u128, Seq<u8>>,
    key: Seq<u8>,
    x: crate::engine::walker::model::Outcome,
)
    ensures
        leads(blobs, key, x, x),
{
    assert(follow(blobs, key, x, 0) == x);
}

/// Leading is transitive.
pub proof fn lemma_leads_trans(
    blobs: Map<u128, Seq<u8>>,
    key: Seq<u8>,
    x: crate::engine::walker::model::Outcome,
    y: crate::engine::walker::model::Outcome,
    z: crate::engine::walker::model::Outcome,
)
    requires
        leads(blobs, key, x, y),
        leads(blobs, key, y, z),
    ensures
        leads(blobs, key, x, z),
{
    let n = choose|n: nat| #[trigger] follow(blobs, key, x, n) == y;
    let m = choose|m: nat| #[trigger] follow(blobs, key, y, m) == z;
    lemma_follow_add(blobs, key, x, n, m);
    assert(follow(blobs, key, x, n + m) == z);
}

/// Equivalence is transitive.
pub proof fn lemma_equivalent_trans(
    blobs: Map<u128, Seq<u8>>,
    a: Seq<u8>,
    b: Seq<u8>,
    c: Seq<u8>,
)
    requires
        equivalent(blobs, a, b),
        equivalent(blobs, b, c),
    ensures
        equivalent(blobs, a, c),
{
    assert forall|s: int, k: Seq<u8>, d: int|
        0 <= d <= k.len() && !(crate::engine::walker::model::find(a, s, k, d)
            is Corrupt) implies {
        let out = #[trigger] crate::engine::walker::model::find(c, s, k, d);
        &&& !(out is Corrupt)
        &&& leads(blobs, k, crate::engine::walker::model::find(a, s, k, d), out)
    } by {
        let mid = crate::engine::walker::model::find(b, s, k, d);
        lemma_leads_trans(
            blobs,
            k,
            crate::engine::walker::model::find(a, s, k, d),
            mid,
            crate::engine::walker::model::find(c, s, k, d),
        );
    }
}

/// An extension is equivalent.
pub proof fn lemma_equivalent_extends(blobs: Map<u128, Seq<u8>>, a: Seq<u8>, b: Seq<u8>)
    requires
        crate::store::blob_frame::extends(a, b),
    ensures
        equivalent(blobs, a, b),
{
    assert forall|s: int, k: Seq<u8>, d: int|
        0 <= d <= k.len() && !(crate::engine::walker::model::find(a, s, k, d)
            is Corrupt) implies {
        let out = #[trigger] crate::engine::walker::model::find(b, s, k, d);
        &&& !(out is Corrupt)
        &&& leads(blobs, k, crate::engine::walker::model::find(a, s, k, d), out)
    } by {
        crate::engine::walker::laws::lemma_find_extends(a, b, s, k, d);
        lemma_leads_refl(blobs, k, crate::engine::walker::model::find(a, s, k, d));
    }
}

/// Node `p` of `b` is that of `a` with children `c` replaced by `c2`.
pub open spec fn rewired(a: Seq<u8>, b: Seq<u8>, p: int, c: int, c2: int) -> bool {
    match crate::engine::walker::model::node(a, p) {
        crate::engine::walker::model::Node::Prefix { bytes, child } => {
            &&& child == c
            &&& crate::engine::walker::model::node(b, p)
                == (crate::engine::walker::model::Node::Prefix { bytes, child: c2 })
        },
        crate::engine::walker::model::Node::Inner { pairs } => {
            &&& crate::engine::walker::model::node(b, p) is Inner
            &&& forall|x: u8|
                {
                    let before = crate::engine::walker::model::child_of(pairs, x);
                    let after = #[trigger] crate::engine::walker::model::child_of(
                        crate::engine::walker::model::node(b, p)->pairs,
                        x,
                    );
                    after == before || (before is Some && after is Some && before->0 == c
                        && after->0 == c2)
                }
        },
        n => crate::engine::walker::model::node(b, p) == n,
    }
}

proof fn lemma_rewire_find(
    blobs: Map<u128, Seq<u8>>,
    a: Seq<u8>,
    b: Seq<u8>,
    p: int,
    c: int,
    c2: int,
    s: int,
    k: Seq<u8>,
    d: int,
)
    requires
        crate::engine::walker::writers::only_changed(a, b, p),
        rewired(a, b, p, c, c2),
        replaces(blobs, a, c, c2),
        0 <= d <= k.len(),
        !(crate::engine::walker::model::find(a, s, k, d) is Corrupt),
    ensures
        !(crate::engine::walker::model::find(b, s, k, d) is Corrupt),
        leads(
            blobs,
            k,
            crate::engine::walker::model::find(a, s, k, d),
            crate::engine::walker::model::find(b, s, k, d),
        ),
    decreases k.len() - d,
{
    lemma_leads_refl(blobs, k, crate::engine::walker::model::find(a, s, k, d));
    if s != p {
        assert(crate::store::blob_frame::has_body(a, s));
        assert(crate::store::blob_frame::same_node(a, b, s));
        assert(crate::engine::walker::model::node(b, s) == crate::engine::walker::model::node(
            a,
            s,
        ));
    }
    match crate::engine::walker::model::node(a, s) {
        crate::engine::walker::model::Node::Prefix { bytes, child } => {
            if bytes.len() > 0 && crate::engine::walker::model::continues(k, d, bytes) {
                let e = d + bytes.len();
                if s == p {
                    let mid = crate::engine::walker::model::find(a, c2, k, e);
                    lemma_rewire_find(blobs, a, b, p, c, c2, c2, k, e);
                    lemma_leads_trans(
                        blobs,
                        k,
                        crate::engine::walker::model::find(a, c, k, e),
                        mid,
                        crate::engine::walker::model::find(b, c2, k, e),
                    );
                } else {
                    lemma_rewire_find(blobs, a, b, p, c, c2, child, k, e);
                }
            }
        },
        crate::engine::walker::model::Node::Inner { pairs } => {
            if d < k.len() {
                let after = crate::engine::walker::model::child_of(
                    crate::engine::walker::model::node(b, s)->pairs,
                    k[d],
                );
                match crate::engine::walker::model::child_of(pairs, k[d]) {
                    Some(ch) => {
                        if after == Some(ch) {
                            lemma_rewire_find(blobs, a, b, p, c, c2, ch as int, k, d + 1);
                        } else {
                            let mid = crate::engine::walker::model::find(a, c2, k, d + 1);
                            lemma_rewire_find(blobs, a, b, p, c, c2, c2, k, d + 1);
                            lemma_leads_trans(
                                blobs,
                                k,
                                crate::engine::walker::model::find(a, c, k, d + 1),
                                mid,
                                crate::engine::walker::model::find(b, c2, k, d + 1),
                            );
                        }
                    },
                    None => {},
                }
            }
        },
        _ => {},
    }
}

/// Replacing a child by one that searches lead to anyway keeps a frame
/// equivalent.
pub proof fn lemma_rewire(
    blobs: Map<u128, Seq<u8>>,
    a: Seq<u8>,
    b: Seq<u8>,
    p: int,
    c: int,
    c2: int,
)
    requires
        crate::engine::walker::writers::only_changed(a, b, p),
        rewired(a, b, p, c, c2),
        replaces(blobs, a, c, c2),
    ensures
        equivalent(blobs, a, b),
{
    assert forall|s: int, k: Seq<u8>, d: int|
        0 <= d <= k.len() && !(crate::engine::walker::model::find(a, s, k, d)
            is Corrupt) implies {
        let out = #[trigger] crate::engine::walker::model::find(b, s, k, d);
        &&& !(out is Corrupt)
        &&& leads(blobs, k, crate::engine::walker::model::find(a, s, k, d), out)
    } by {
        lemma_rewire_find(blobs, a, b, p, c, c2, s, k, d);
    }
}

/// Rewiring to a slot in use keeps a frame clean.
pub proof fn lemma_rewire_clean(a: Seq<u8>, b: Seq<u8>, p: int, c: int, c2: int)
    requires
        crate::engine::walker::laws::clean(a),
        crate::engine::walker::writers::only_changed(a, b, p),
        1 <= p < crate::store::blob_frame::slots_of(a),
        1 <= c2 < crate::store::blob_frame::slots_of(a),
        match crate::engine::walker::model::node(a, p) {
            crate::engine::walker::model::Node::Prefix { bytes, child } => {
                crate::engine::walker::model::node(b, p)
                    == (crate::engine::walker::model::Node::Prefix { bytes, child: c2 })
            },
            crate::engine::walker::model::Node::Inner { pairs } => {
                &&& crate::engine::walker::model::node(b, p) is Inner
                &&& crate::engine::walker::writers::refs_replaced(
                    pairs,
                    crate::engine::walker::model::node(b, p)->pairs,
                    c2,
                )
            },
            n => crate::engine::walker::model::node(b, p) == n,
        },
    ensures
        crate::engine::walker::laws::clean(b),
{
    assert forall|s: int| 1 <= s < crate::store::blob_frame::slots_of(b) implies
        #[trigger] crate::engine::walker::laws::clean_node(b, s) by {
        assert(crate::engine::walker::laws::clean_node(a, s));
        if s != p {
            assert(crate::store::blob_frame::has_body(a, s));
            assert(crate::store::blob_frame::same_node(a, b, s));
            assert(crate::engine::walker::model::node(b, s) == crate::engine::walker::model::node(
                a,
                s,
            ));
        } else {
            match crate::engine::walker::model::node(a, p) {
                crate::engine::walker::model::Node::Inner { pairs } => {
                    let new = crate::engine::walker::model::node(b, p)->pairs;
                    assert forall|i: int|
                        0 <= i < new.len() implies crate::store::blob_frame::in_use(
                        b,
                        (#[trigger] new[i]).1 as int,
                    ) by {
                        if new[i].1 != c2 {
                            assert(pairs.contains(new[i]));
                            let j = choose|j: int| 0 <= j < pairs.len() && pairs[j] == new[i];
                            assert(crate::store::blob_frame::in_use(a, pairs[j].1 as int));
                        }
                    }
                },
                _ => {},
            }
        }
    }
}

/// What replaces a crossing answers for the child behind it: a search that crossed
/// ends where the search in the child ends, or still at the crossing; any other search
/// ends as it did.
pub proof fn a_replacement_answers_for_the_child(
    blobs: Map<u128, Seq<u8>>,
    img: Seq<u8>,
    c: int,
    c2: int,
    key: Seq<u8>,
    depth: int,
)
    requires
        replaces(blobs, img, c, c2),
        0 <= depth <= key.len(),
    ensures
        ({
            let x = crate::engine::walker::model::find(img, c, key, depth);
            let y = crate::engine::walker::model::find(img, c2, key, depth);
            match x {
                crate::engine::walker::model::Outcome::Corrupt => true,
                crate::engine::walker::model::Outcome::Cross { guid, depth: d } => {
                    let child = blobs[vstd::bytes::spec_u128_from_le_bytes(guid)];
                    let z = crate::engine::walker::model::find(
                        child,
                        crate::store::blob_frame::root_of(child),
                        key,
                        d,
                    );
                    y == x || (!(z is Cross) ==> y == z)
                },
                _ => y == x,
            }
        }),
{
    let x = crate::engine::walker::model::find(img, c, key, depth);
    let y = crate::engine::walker::model::find(img, c2, key, depth);
    if !(x is Corrupt) {
        let n = choose|n: nat| #[trigger] follow(blobs, key, x, n) == y;
        if x is Cross && n > 0 {
            let child = blobs[vstd::bytes::spec_u128_from_le_bytes(x->guid)];
            let z = crate::engine::walker::model::find(
                child,
                crate::store::blob_frame::root_of(child),
                key,
                x->depth,
            );
            assert(follow(blobs, key, z, (n - 1) as nat) == y);
        }
    }
}

} // verus!
