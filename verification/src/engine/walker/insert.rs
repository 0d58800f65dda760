//! Insertion by path copying.
//!
//! An insertion appends the nodes on the changed path and leaves every old node
//! as it is, so the old tree stays readable from its old root until the new root
//! is installed.
use vstd::prelude::*;
use vstd::slice::{slice_subrange, slice_to_vec};

use crate::api::errors::{Error, Result};
use crate::bytes::{read_u16, read_u32, same_bytes};
use crate::engine::walker::migrate::Cost;
use crate::engine::walker::readers::{
    child_pairs, pairs_in_order, read_leaf, resolve_typed, split_leaf_body,
};
use crate::engine::walker::writers::{alloc_inner, alloc_leaf, alloc_prefix};
use crate::layout::{NodeType, MAX_SLOTS, PAGE_SIZE};
use crate::store::blob_frame::BlobFrame;

verus! {

/// Length of the longest run of equal bytes of `x` and `y` from `from` on.
pub open spec fn run(x: Seq<u8>, y: Seq<u8>, from: int) -> int
    decreases x.len() - from,
{
    if from < x.len() && from < y.len() && x[from] == y[from] {
        1 + run(x, y, from + 1)
    } else {
        0
    }
}

/// A run of `c` equal bytes that ends there.
proof fn lemma_run(x: Seq<u8>, y: Seq<u8>, from: int, c: int)
    requires
        0 <= from,
        0 <= c,
        from + c <= x.len(),
        from + c <= y.len(),
        forall|i: int| from <= i < from + c ==> x[i] == y[i],
        from + c < x.len() && from + c < y.len() ==> x[from + c] != y[from + c],
    ensures
        run(x, y, from) == c,
    decreases c,
{
    if c > 0 {
        lemma_run(x, y, from + 1, c - 1);
    }
}

/// Prefix nodes that hold `n` bytes.
#[verifier::opaque]
pub open spec fn chunks(n: int) -> int {
    (n + 119) / 120
}

/// No bytes take no node, and every node holds up to 120 of them.
pub proof fn lemma_chunks(n: int)
    requires
        n >= 0,
    ensures
        0 <= chunks(n) <= n,
        n == 0 ==> chunks(n) == 0,
        1 <= n <= 120 ==> chunks(n) == 1 && chunks(0) == 0,
        n > 120 ==> chunks(n) == 1 + chunks(n - 120),
        120 * chunks(n) < n + 120,
{
    reveal(chunks);
}

/// Room that `n` bytes in front of a node take.
pub open spec fn wrap_cost(n: int) -> Cost {
    Cost { bytes: 128 * chunks(n), slots: chunks(n) }
}

/// Room that a fork after `c` shared bytes takes, with a new leaf of `leaf` bytes.
pub open spec fn branch_cost(c: int, leaf: int) -> Cost {
    crate::engine::walker::migrate::plus(
        Cost { bytes: leaf + 16, slots: 2 },
        wrap_cost(c),
    )
}

/// Room that an insertion of `key` below slot `s` takes, with a leaf of `leaf`
/// bytes: the new leaf, what forks it off, and a copy of every node above it.
pub open spec fn insert_cost(img: Seq<u8>, s: int, key: Seq<u8>, leaf: int, depth: int) -> Cost
    decreases key.len() - depth,
{
    match crate::engine::walker::model::node(img, s) {
        crate::engine::walker::model::Node::Empty => crate::engine::walker::migrate::one_node(
            leaf,
        ),
        crate::engine::walker::model::Node::Leaf { key: k, value, live } => if !live || k == key {
            crate::engine::walker::migrate::one_node(leaf)
        } else {
            branch_cost(run(k, key, depth), leaf)
        },
        crate::engine::walker::model::Node::Prefix { bytes, child } => if bytes.len() > 0
            && crate::engine::walker::model::continues(key, depth, bytes) {
            crate::engine::walker::migrate::plus(
                insert_cost(img, child, key, leaf, depth + bytes.len()),
                crate::engine::walker::migrate::one_node(128),
            )
        } else {
            split_cost(bytes, run(bytes, key.skip(depth), 0), leaf)
        },
        crate::engine::walker::model::Node::Inner { pairs } => if depth >= key.len() {
            Cost { bytes: 0, slots: 0 }
        } else {
            match crate::engine::walker::model::child_of(pairs, key[depth]) {
                Some(c) => crate::engine::walker::migrate::plus(
                    insert_cost(img, c as int, key, leaf, depth + 1),
                    inner_cost(pairs.len() as int),
                ),
                None => crate::engine::walker::migrate::plus(
                    crate::engine::walker::migrate::one_node(leaf),
                    inner_cost(pairs.len() as int + 1),
                ),
            }
        },
        _ => Cost { bytes: 0, slots: 0 },
    }
}

/// An insertion never frees room, and takes at most this much.
pub proof fn lemma_insert_cost(img: Seq<u8>, s: int, key: Seq<u8>, leaf: int, depth: int)
    requires
        0 <= depth <= key.len(),
        leaf >= 0,
    ensures
        0 <= insert_cost(img, s, key, leaf, depth).bytes <= leaf + 520 * (key.len() - depth) + 672,
        0 <= insert_cost(img, s, key, leaf, depth).slots <= key.len() - depth + 4,
    decreases key.len() - depth,
{
    match crate::engine::walker::model::node(img, s) {
        crate::engine::walker::model::Node::Leaf { key: k, value, live } => {
            lemma_run_bound(k, key, depth);
            lemma_chunks(run(k, key, depth));
        },
        crate::engine::walker::model::Node::Prefix { bytes, child } => {
            if bytes.len() > 0 && crate::engine::walker::model::continues(key, depth, bytes) {
                lemma_insert_cost(img, child, key, leaf, depth + bytes.len());
            } else {
                lemma_run_bound(bytes, key.skip(depth), 0);
                lemma_chunks(run(bytes, key.skip(depth), 0));
            }
        },
        crate::engine::walker::model::Node::Inner { pairs } => {
            if depth < key.len() {
                if let Some(c) = crate::engine::walker::model::child_of(pairs, key[depth]) {
                    lemma_insert_cost(img, c as int, key, leaf, depth + 1);
                }
            }
        },
        _ => {},
    }
}

/// A run is no longer than what is left of either.
proof fn lemma_run_bound(x: Seq<u8>, y: Seq<u8>, from: int)
    requires
        0 <= from,
    ensures
        0 <= run(x, y, from),
        from <= y.len() ==> run(x, y, from) <= y.len() - from,
    decreases x.len() - from,
{
    if from < x.len() && from < y.len() && x[from] == y[from] {
        lemma_run_bound(x, y, from + 1);
    }
}

/// In a valid tree an insertion takes the same room in every extension.
pub proof fn lemma_insert_cost_extends(
    a: Seq<u8>,
    b: Seq<u8>,
    s: int,
    path: Seq<u8>,
    key: Seq<u8>,
    leaf: int,
    depth: int,
)
    requires
        crate::store::blob_frame::extends(a, b),
        crate::engine::walker::laws::valid_at(a, s, path),
    ensures
        insert_cost(b, s, key, leaf, depth) == insert_cost(a, s, key, leaf, depth),
    decreases key.len() - depth,
{
    crate::engine::walker::laws::lemma_node_extends(a, b, s);
    match crate::engine::walker::model::node(a, s) {
        crate::engine::walker::model::Node::Prefix { bytes, child } => {
            if bytes.len() > 0 && crate::engine::walker::model::continues(key, depth, bytes) {
                lemma_insert_cost_extends(
                    a,
                    b,
                    child,
                    path + bytes,
                    key,
                    leaf,
                    depth + bytes.len(),
                );
            }
        },
        crate::engine::walker::model::Node::Inner { pairs } => {
            if depth < key.len() {
                if let Some(c) = crate::engine::walker::model::child_of(pairs, key[depth]) {
                    let i = crate::engine::walker::settled::lemma_child_listed(pairs, key[depth]);
                    assert(crate::engine::walker::laws::valid_at(
                        a,
                        pairs[i].1 as int,
                        path.push(pairs[i].0),
                    ));
                    lemma_insert_cost_extends(
                        a,
                        b,
                        c as int,
                        path.push(pairs[i].0),
                        key,
                        leaf,
                        depth + 1,
                    );
                }
            }
        },
        _ => {},
    }
}

/// Room that an inner node with `n` children takes.
pub open spec fn inner_cost(n: int) -> Cost {
    crate::engine::walker::migrate::one_node(
        crate::layout::node::node_size(crate::engine::walker::writers::inner_type(n)),
    )
}

/// Room that a fork inside the bytes of a prefix node takes: after `c` of them,
/// with a prefix node for those behind it.
pub open spec fn split_cost(bytes: Seq<u8>, c: int, leaf: int) -> Cost {
    crate::engine::walker::migrate::plus(
        branch_cost(c, leaf),
        if c + 1 == bytes.len() {
            Cost { bytes: 0, slots: 0 }
        } else {
            crate::engine::walker::migrate::one_node(128)
        },
    )
}

/// `t` in `b` is `child` in `a` with the bytes `seg` in front, `from` bytes in.
pub open spec fn wraps(
    a: Seq<u8>,
    child: int,
    b: Seq<u8>,
    t: int,
    seg: Seq<u8>,
    from: int,
) -> bool {
    forall|k: Seq<u8>|
        from <= k.len() ==> {
            let out = #[trigger] crate::engine::walker::model::find(b, t, k, from);
            if crate::engine::walker::model::continues(k, from, seg) {
                let inner = crate::engine::walker::model::find(a, child, k, from + seg.len());
                !(inner is Corrupt) ==> out == inner
            } else {
                out is Missing
            }
        }
}

/// The same for validity.
pub open spec fn wraps_valid(
    a: Seq<u8>,
    child: int,
    b: Seq<u8>,
    t: int,
    seg: Seq<u8>,
    from: int,
) -> bool {
    forall|path: Seq<u8>|
        path.len() == from && path.len() + seg.len() <= crate::engine::walker::laws::MAX_KEY
            && crate::engine::walker::laws::valid_at(a, child, path + seg)
            ==> #[trigger] crate::engine::walker::laws::valid_at(b, t, path)
}

proof fn lemma_wrap_one(a: Seq<u8>, child: int, b: Seq<u8>, t: int, seg: Seq<u8>, from: int)
    requires
        crate::store::blob_frame::extends(a, b),
        crate::engine::walker::model::node(b, t) == (crate::engine::walker::model::Node::Prefix {
            bytes: seg,
            child,
        }),
        seg.len() > 0,
        0 <= from,
    ensures
        wraps(a, child, b, t, seg, from),
        wraps_valid(a, child, b, t, seg, from),
{
    assert forall|k: Seq<u8>| from <= k.len() implies {
        let out = #[trigger] crate::engine::walker::model::find(b, t, k, from);
        if crate::engine::walker::model::continues(k, from, seg) {
            let inner = crate::engine::walker::model::find(a, child, k, from + seg.len());
            !(inner is Corrupt) ==> out == inner
        } else {
            out is Missing
        }
    } by {
        let inner = crate::engine::walker::model::find(a, child, k, from + seg.len());
        if crate::engine::walker::model::continues(k, from, seg) && !(inner is Corrupt) {
            crate::engine::walker::laws::lemma_find_extends(a, b, child, k, from + seg.len());
        }
    }
    assert forall|path: Seq<u8>|
        path.len() == from && path.len() + seg.len() <= crate::engine::walker::laws::MAX_KEY
            && crate::engine::walker::laws::valid_at(a, child, path + seg) implies
        #[trigger] crate::engine::walker::laws::valid_at(b, t, path) by {
        crate::engine::walker::laws::lemma_valid_extends(a, b, child, path + seg);
    }
}

proof fn lemma_continues_split(k: Seq<u8>, from: int, s1: Seq<u8>, s2: Seq<u8>)
    requires
        0 <= from <= k.len(),
    ensures
        crate::engine::walker::model::continues(k, from, s1 + s2)
            == (crate::engine::walker::model::continues(k, from, s1)
            && crate::engine::walker::model::continues(k, from + s1.len(), s2)),
{
    let n = from + s1.len() + s2.len();
    if n <= k.len() {
        let whole = k.subrange(from, n);
        assert(whole =~= k.subrange(from, from + s1.len()) + k.subrange(from + s1.len(), n));
        if whole == s1 + s2 {
            assert(k.subrange(from, from + s1.len()) =~= s1) by {
                assert forall|i: int| 0 <= i < s1.len() implies k[from + i] == s1[i] by {
                    assert(whole[i] == (s1 + s2)[i]);
                }
            }
            assert(k.subrange(from + s1.len(), n) =~= s2) by {
                assert forall|i: int| 0 <= i < s2.len() implies k[from + s1.len() + i]
                    == s2[i] by {
                    assert(whole[s1.len() + i] == (s1 + s2)[s1.len() + i]);
                }
            }
        }
    }
}

proof fn lemma_wrap_compose(
    a: Seq<u8>,
    child: int,
    b1: Seq<u8>,
    s: int,
    b2: Seq<u8>,
    t: int,
    s1: Seq<u8>,
    s2: Seq<u8>,
    from: int,
)
    requires
        0 <= from,
        wraps(a, child, b1, s, s2, from + s1.len()),
        wraps(b1, s, b2, t, s1, from),
        wraps_valid(a, child, b1, s, s2, from + s1.len()),
        wraps_valid(b1, s, b2, t, s1, from),
    ensures
        wraps(a, child, b2, t, s1 + s2, from),
        wraps_valid(a, child, b2, t, s1 + s2, from),
{
    let seg = s1 + s2;
    let mid = from + s1.len();
    assert forall|k: Seq<u8>| from <= k.len() implies {
        let out = #[trigger] crate::engine::walker::model::find(b2, t, k, from);
        if crate::engine::walker::model::continues(k, from, seg) {
            let inner = crate::engine::walker::model::find(a, child, k, from + seg.len());
            !(inner is Corrupt) ==> out == inner
        } else {
            out is Missing
        }
    } by {
        lemma_continues_split(k, from, s1, s2);
        assert(mid + s2.len() == from + seg.len());
        if crate::engine::walker::model::continues(k, from, s1) {
            let out1 = crate::engine::walker::model::find(b1, s, k, mid);
            let out2 = crate::engine::walker::model::find(b2, t, k, from);
        }
    }
    assert forall|path: Seq<u8>|
        path.len() == from && path.len() + seg.len() <= crate::engine::walker::laws::MAX_KEY
            && crate::engine::walker::laws::valid_at(a, child, path + seg) implies
        #[trigger] crate::engine::walker::laws::valid_at(b2, t, path) by {
        assert(path + seg =~= (path + s1) + s2);
        assert(crate::engine::walker::laws::valid_at(b1, s, path + s1));
    }
}

/// Put the bytes `key[from .. to]` in front of `child`.
fn wrap_prefix(frame: &mut BlobFrame, key: &[u8], from: usize, to: usize, child: u16) -> (r: Result<
    u16,
>)
    requires
        crate::store::blob_frame::frame_ok(old(frame)@),
        from <= to <= key@.len(),
        child != 0,
    ensures
        crate::store::blob_frame::frame_ok(final(frame)@),
        crate::store::blob_frame::extends(old(frame)@, final(frame)@),
        crate::store::blob_frame::same_header(old(frame)@, final(frame)@),
        match r {
            Ok(t) => {
                &&& t != 0
                &&& crate::engine::walker::migrate::spent(old(frame)@, final(frame)@, wrap_cost(to - from))
                &&& wraps(
                    old(frame)@,
                    child as int,
                    final(frame)@,
                    t as int,
                    key@.subrange(from as int, to as int),
                    from as int,
                )
                &&& wraps_valid(
                    old(frame)@,
                    child as int,
                    final(frame)@,
                    t as int,
                    key@.subrange(from as int, to as int),
                    from as int,
                )
            },
            Err(e) => e == Error::OutOfSpace && !crate::engine::walker::migrate::affords(
                old(frame)@,
                wrap_cost(to - from),
            ),
        },
    decreases to - from,
{
    let ghost a = frame@;
    proof {
        crate::store::blob_frame::lemma_extends_refl(a);
        lemma_chunks(to - from);
        if to - from > 120 {
            lemma_chunks(to - from - 120);
        }
    }
    if from == to {
        proof {
            let seg = key@.subrange(from as int, to as int);
            assert(seg =~= Seq::empty());
            assert forall|k: Seq<u8>| from <= k.len() implies
                crate::engine::walker::model::continues(k, from as int, seg) by {
                assert(k.subrange(from as int, from as int) =~= seg);
            }
            assert(wraps(a, child as int, a, child as int, seg, from as int));
            assert(wraps_valid(a, child as int, a, child as int, seg, from as int)) by {
                assert forall|path: Seq<u8>| #[trigger] crate::engine::walker::laws::valid_at(
                    a,
                    child as int,
                    path + seg,
                ) implies crate::engine::walker::laws::valid_at(a, child as int, path) by {
                    assert(path + seg =~= path);
                }
            }
        }
        return Ok(child);
    }
    let mid: usize = if to - from <= 120 {
        from
    } else {
        to - 120
    };
    let part: &[u8] = slice_subrange(key, mid, to);
    let s: u16 = match alloc_prefix(frame, part, child) {
        Ok(s) => s,
        Err(e) => {
            return Err(e);
        },
    };
    let ghost b1 = frame@;
    proof {
        lemma_wrap_one(a, child as int, b1, s as int, part@, mid as int);
    }
    let r = wrap_prefix(frame, key, from, mid, s);
    proof {
        crate::store::blob_frame::lemma_extends_trans(a, b1, frame@);
        if let Ok(t) = r {
            let s1 = key@.subrange(from as int, mid as int);
            lemma_wrap_compose(
                a,
                child as int,
                b1,
                s as int,
                frame@,
                t as int,
                s1,
                part@,
                from as int,
            );
            assert(s1 + part@ =~= key@.subrange(from as int, to as int));
        }
    }
    r
}

/// `t` in `b` leads to the new leaf of `key` and, for the byte `ob` after `c`
/// shared bytes, to what `os` in `a` leads to.
pub open spec fn branched(
    a: Seq<u8>,
    b: Seq<u8>,
    t: int,
    ob: u8,
    os: int,
    key: Seq<u8>,
    value: crate::engine::walker::model::Stamped,
    depth: int,
    c: int,
) -> bool {
    forall|k: Seq<u8>|
        crate::engine::walker::laws::agrees(k, key, depth) ==> {
            let out = #[trigger] crate::engine::walker::model::find(b, t, k, depth);
            if k == key {
                out == crate::engine::walker::model::Outcome::Found(value)
            } else if crate::engine::walker::model::continues(
                k,
                depth,
                key.subrange(depth, depth + c),
            ) && depth + c < k.len() && k[depth + c] == ob {
                let inner = crate::engine::walker::model::find(a, os, k, depth + c + 1);
                !(inner is Corrupt) ==> out == inner
            } else {
                out is Missing
            }
        }
}

proof fn lemma_two_children(pairs: Seq<(u8, u16)>, ob: u8, os: u16, kb: u8, ks: u16, b: u8)
    requires
        ob != kb,
        pairs == seq![(ob, os), (kb, ks)] || pairs == seq![(kb, ks), (ob, os)],
    ensures
        crate::engine::walker::model::child_of(pairs, b) == (if b == ob {
            Some(os)
        } else if b == kb {
            Some(ks)
        } else {
            None
        }),
{
    crate::engine::walker::model::lemma_child_of(pairs, b);
    if b == ob || b == kb {
        let i = if pairs[0].0 == b {
            0int
        } else {
            1
        };
        assert(crate::engine::walker::model::is_child(pairs, b, i));
    } else {
        assert(!crate::engine::walker::model::has_child(pairs, b));
    }
}

proof fn lemma_fork(
    a: Seq<u8>,
    b: Seq<u8>,
    f: int,
    pairs: Seq<(u8, u16)>,
    ob: u8,
    os: u16,
    leaf: u16,
    key: Seq<u8>,
    value: crate::engine::walker::model::Stamped,
    d: int,
)
    requires
        crate::store::blob_frame::extends(a, b),
        0 <= d < key.len(),
        ob != key[d],
        pairs == seq![(ob, os), (key[d], leaf)] || pairs == seq![(key[d], leaf), (ob, os)],
        crate::engine::walker::model::node(b, f) == (crate::engine::walker::model::Node::Inner {
            pairs,
        }),
        crate::engine::walker::model::node(b, leaf as int)
            == (crate::engine::walker::model::Node::Leaf { key, value, live: true }),
    ensures
        branched(a, b, f, ob, os as int, key, value, d, 0),
{
    assert forall|k: Seq<u8>| crate::engine::walker::laws::agrees(k, key, d) implies {
        let out = #[trigger] crate::engine::walker::model::find(b, f, k, d);
        if k == key {
            out == crate::engine::walker::model::Outcome::Found(value)
        } else if crate::engine::walker::model::continues(k, d, key.subrange(d, d + 0)) && d + 0
            < k.len() && k[d + 0] == ob {
            let inner = crate::engine::walker::model::find(a, os as int, k, d + 0 + 1);
            !(inner is Corrupt) ==> out == inner
        } else {
            out is Missing
        }
    } by {
        assert(k.subrange(d, d) =~= key.subrange(d, d + 0));
        if d < k.len() {
            lemma_two_children(pairs, ob, os, key[d], leaf, k[d]);
            if k[d] == ob {
                let inner = crate::engine::walker::model::find(a, os as int, k, d + 1);
                if !(inner is Corrupt) {
                    crate::engine::walker::laws::lemma_find_extends(a, b, os as int, k, d + 1);
                }
            } else if k[d] == key[d] {
                assert(crate::engine::walker::model::find(b, leaf as int, k, d + 1) == (if k
                    == key {
                    crate::engine::walker::model::Outcome::Found(value)
                } else {
                    crate::engine::walker::model::Outcome::Missing
                }));
            }
        }
    }
}

proof fn lemma_fork_valid(
    a: Seq<u8>,
    b: Seq<u8>,
    f: int,
    pairs: Seq<(u8, u16)>,
    ob: u8,
    os: u16,
    leaf: u16,
    key: Seq<u8>,
    value: crate::engine::walker::model::Stamped,
    d: int,
)
    requires
        crate::store::blob_frame::extends(a, b),
        0 <= d < key.len() <= 65535,
        ob != key[d],
        crate::engine::walker::writers::pairs_ok(pairs),
        pairs == seq![(ob, os), (key[d], leaf)] || pairs == seq![(key[d], leaf), (ob, os)],
        crate::engine::walker::model::node(b, f) == (crate::engine::walker::model::Node::Inner {
            pairs,
        }),
        crate::engine::walker::model::node(b, leaf as int)
            == (crate::engine::walker::model::Node::Leaf { key, value, live: true }),
        crate::engine::walker::laws::valid_at(a, os as int, key.take(d).push(ob)),
    ensures
        crate::engine::walker::laws::valid_at(b, f, key.take(d)),
{
    let path = key.take(d);
    crate::engine::walker::laws::lemma_valid_extends(a, b, os as int, path.push(ob));
    crate::engine::walker::laws::lemma_take_push(key, d);
    assert(key.take(d + 1).is_prefix_of(key)) by {
        assert(key.subrange(0, d + 1) =~= key.take(d + 1));
    }
    assert(crate::engine::walker::laws::valid_at(b, leaf as int, path.push(key[d])));
    assert forall|i: int| 0 <= i < pairs.len() implies crate::engine::walker::laws::valid_at(
        b,
        (#[trigger] pairs[i]).1 as int,
        path.push(pairs[i].0),
    ) by {
        assert(i == 0 || i == 1);
    }
}

proof fn lemma_branch_wrapped(
    a: Seq<u8>,
    b2: Seq<u8>,
    f: int,
    b3: Seq<u8>,
    t: int,
    ob: u8,
    os: int,
    key: Seq<u8>,
    value: crate::engine::walker::model::Stamped,
    depth: int,
    c: int,
)
    requires
        0 <= depth,
        0 <= c,
        depth + c < key.len(),
        branched(a, b2, f, ob, os, key, value, depth + c, 0),
        wraps(b2, f, b3, t, key.subrange(depth, depth + c), depth),
    ensures
        branched(a, b3, t, ob, os, key, value, depth, c),
{
    let seg = key.subrange(depth, depth + c);
    let d = depth + c;
    assert forall|k: Seq<u8>| crate::engine::walker::laws::agrees(k, key, depth) implies {
        let out = #[trigger] crate::engine::walker::model::find(b3, t, k, depth);
        if k == key {
            out == crate::engine::walker::model::Outcome::Found(value)
        } else if crate::engine::walker::model::continues(
            k,
            depth,
            key.subrange(depth, depth + c),
        ) && depth + c < k.len() && k[depth + c] == ob {
            let inner = crate::engine::walker::model::find(a, os, k, depth + c + 1);
            !(inner is Corrupt) ==> out == inner
        } else {
            out is Missing
        }
    } by {
        if crate::engine::walker::model::continues(k, depth, seg) {
            crate::engine::walker::laws::lemma_take_step(k, depth, seg);
            crate::engine::walker::laws::lemma_take_step(key, depth, seg);
            assert(crate::engine::walker::laws::agrees(k, key, d));
            let inner = crate::engine::walker::model::find(b2, f, k, d);
            assert(k.subrange(d, d + 0) =~= key.subrange(d, d + 0));
            assert(crate::engine::walker::model::continues(k, d, key.subrange(d, d + 0)));
        }
    }
}

/// Branch off a new leaf for `key` after `c` more bytes, with what was there
/// under `other_byte`.
#[verifier::rlimit(40)]
fn branch(
    frame: &mut BlobFrame,
    key: &[u8],
    value: &[u8],
    seq: u64,
    depth: usize,
    c: usize,
    other_byte: u8,
    other_slot: u16,
) -> (r: Result<u16>)
    requires
        crate::store::blob_frame::frame_ok(old(frame)@),
        key@.len() <= 65535,
        value@.len() <= 65535,
        depth + c < key@.len(),
        other_byte != key@[depth + c],
        other_slot != 0,
    ensures
        crate::store::blob_frame::frame_ok(final(frame)@),
        crate::store::blob_frame::extends(old(frame)@, final(frame)@),
        crate::store::blob_frame::same_header(old(frame)@, final(frame)@),
        match r {
            Ok(t) => {
                &&& t != 0
                &&& crate::engine::walker::migrate::spent(
                    old(frame)@,
                    final(frame)@,
                    branch_cost(
                        c as int,
                        crate::layout::leaf::leaf_size(key@.len() as int, value@.len() as int),
                    ),
                )
                &&& branched(
                    old(frame)@,
                    final(frame)@,
                    t as int,
                    other_byte,
                    other_slot as int,
                    key@,
                    crate::engine::walker::model::stamp(value@, seq),
                    depth as int,
                    c as int,
                )
                &&& crate::engine::walker::laws::valid_at(
                    old(frame)@,
                    other_slot as int,
                    key@.take(depth + c).push(other_byte),
                ) ==> crate::engine::walker::laws::valid_at(
                    final(frame)@,
                    t as int,
                    key@.take(depth as int),
                )
            },
            Err(e) => e == Error::OutOfSpace && !crate::engine::walker::migrate::affords(
                old(frame)@,
                branch_cost(
                    c as int,
                    crate::layout::leaf::leaf_size(key@.len() as int, value@.len() as int),
                ),
            ),
        },
{
    let ghost a = frame@;
    let ghost size = crate::layout::leaf::leaf_size(key@.len() as int, value@.len() as int);
    let d: usize = depth + c;
    proof {
        lemma_chunks(c as int);
        crate::layout::leaf::leaf_size_is_tight(key@.len() as int, value@.len() as int);
        crate::store::blob_frame::lemma_extends_refl(a);
    }
    let leaf: u16 = match alloc_leaf(frame, key, value, seq) {
        Ok(s) => s,
        Err(e) => {
            return Err(e);
        },
    };
    let ghost b1 = frame@;
    let kb: u8 = key[d];
    let mut pairs: Vec<(u8, u16)> = Vec::with_capacity(2);
    if other_byte < kb {
        pairs.push((other_byte, other_slot));
        pairs.push((kb, leaf));
        assert(pairs@ =~= seq![(other_byte, other_slot), (kb, leaf)]);
    } else {
        pairs.push((kb, leaf));
        pairs.push((other_byte, other_slot));
        assert(pairs@ =~= seq![(kb, leaf), (other_byte, other_slot)]);
    }
    let f: u16 = match alloc_inner(frame, pairs.as_slice()) {
        Ok(s) => s,
        Err(e) => {
            return Err(e);
        },
    };
    let ghost b2 = frame@;
    proof {
        crate::store::blob_frame::lemma_extends_trans(a, b1, b2);
        crate::engine::walker::laws::lemma_node_extends(b1, b2, leaf as int);
        lemma_fork(
            a,
            b2,
            f as int,
            pairs@,
            other_byte,
            other_slot,
            leaf,
            key@,
            crate::engine::walker::model::stamp(value@, seq),
            d as int,
        );
    }
    let r = wrap_prefix(frame, key, depth, d, f);
    proof {
        crate::store::blob_frame::lemma_extends_trans(a, b2, frame@);
        if let Ok(t) = r {
            lemma_branch_wrapped(
                a,
                b2,
                f as int,
                frame@,
                t as int,
                other_byte,
                other_slot as int,
                key@,
                crate::engine::walker::model::stamp(value@, seq),
                depth as int,
                c as int,
            );
            if crate::engine::walker::laws::valid_at(
                a,
                other_slot as int,
                key@.take(depth + c).push(other_byte),
            ) {
                lemma_fork_valid(
                    a,
                    b2,
                    f as int,
                    pairs@,
                    other_byte,
                    other_slot,
                    leaf,
                    key@,
                    crate::engine::walker::model::stamp(value@, seq),
                    d as int,
                );
                let seg = key@.subrange(depth as int, d as int);
                crate::engine::walker::laws::lemma_take_step(key@, depth as int, seg);
                assert(key@.take(depth as int) + seg == key@.take(d as int));
            }
        }
    }
    r
}

// ---------- what an insertion does to searches ----------

/// Searches from `t` in `b` are those from `s` in `a`, but that `key` is found
/// with `value`.
pub open spec fn inserted(
    a: Seq<u8>,
    s: int,
    b: Seq<u8>,
    t: int,
    key: Seq<u8>,
    value: crate::engine::walker::model::Stamped,
    depth: int,
) -> bool {
    forall|k: Seq<u8>|
        crate::engine::walker::laws::agrees(k, key, depth) ==> {
            let out = #[trigger] crate::engine::walker::model::find(b, t, k, depth);
            let before = crate::engine::walker::model::find(a, s, k, depth);
            if k == key {
                out == crate::engine::walker::model::Outcome::Found(value)
            } else {
                !(before is Corrupt) ==> out == before
            }
        }
}

/// Whether `k` and `key` differ and one starts with the other.
pub open spec fn prefix_related(k: Seq<u8>, key: Seq<u8>) -> bool {
    k != key && (k.is_prefix_of(key) || key.is_prefix_of(k))
}

/// Whether a key below `s` stands in the prefix relation to `key`.
pub open spec fn conflict(img: Seq<u8>, s: int, key: Seq<u8>, depth: int) -> bool {
    exists|k: Seq<u8>|
        crate::engine::walker::laws::agrees(k, key, depth) && prefix_related(k, key)
            && #[trigger] crate::engine::walker::model::find(img, s, k, depth) is Found
}

proof fn lemma_inserted_fresh(
    a: Seq<u8>,
    s: int,
    b: Seq<u8>,
    t: int,
    key: Seq<u8>,
    value: crate::engine::walker::model::Stamped,
    depth: int,
)
    requires
        match crate::engine::walker::model::node(a, s) {
            crate::engine::walker::model::Node::Empty => true,
            crate::engine::walker::model::Node::Leaf { key: k, value: v, live } => !live || k
                == key,
            _ => false,
        },
        crate::engine::walker::model::node(b, t) == (crate::engine::walker::model::Node::Leaf {
            key,
            value,
            live: true,
        }),
    ensures
        inserted(a, s, b, t, key, value, depth),
{
}

proof fn lemma_inserted_split_leaf(
    a: Seq<u8>,
    s: int,
    k0: Seq<u8>,
    v0: crate::engine::walker::model::Stamped,
    b: Seq<u8>,
    t: int,
    key: Seq<u8>,
    value: crate::engine::walker::model::Stamped,
    depth: int,
    c: int,
)
    requires
        0 <= depth,
        0 <= c,
        depth + c < key.len(),
        depth + c < k0.len(),
        crate::engine::walker::model::node(a, s) == (crate::engine::walker::model::Node::Leaf {
            key: k0,
            value: v0,
            live: true,
        }),
        k0.subrange(depth, depth + c) == key.subrange(depth, depth + c),
        branched(a, b, t, k0[depth + c], s, key, value, depth, c),
        k0 != key,
    ensures
        inserted(a, s, b, t, key, value, depth),
{
    assert forall|k: Seq<u8>| crate::engine::walker::laws::agrees(k, key, depth) implies {
        let out = #[trigger] crate::engine::walker::model::find(b, t, k, depth);
        let before = crate::engine::walker::model::find(a, s, k, depth);
        if k == key {
            out == crate::engine::walker::model::Outcome::Found(value)
        } else {
            !(before is Corrupt) ==> out == before
        }
    } by {
        let inner = crate::engine::walker::model::find(a, s, k, depth + c + 1);
        assert(inner == crate::engine::walker::model::find(a, s, k, depth));
        if k == k0 {
            assert(crate::engine::walker::model::continues(
                k,
                depth,
                key.subrange(depth, depth + c),
            ));
        }
    }
}

proof fn lemma_inserted_split_prefix(
    a: Seq<u8>,
    s: int,
    bytes: Seq<u8>,
    child: int,
    a1: Seq<u8>,
    tail: int,
    b: Seq<u8>,
    t: int,
    key: Seq<u8>,
    value: crate::engine::walker::model::Stamped,
    depth: int,
    c: int,
)
    requires
        0 <= depth,
        0 <= c < bytes.len(),
        depth + c < key.len(),
        crate::store::blob_frame::extends(a, a1),
        crate::engine::walker::model::node(a, s) == (crate::engine::walker::model::Node::Prefix {
            bytes,
            child,
        }),
        key.subrange(depth, depth + c) == bytes.take(c),
        key[depth + c] != bytes[c],
        if c + 1 == bytes.len() {
            tail == child
        } else {
            crate::engine::walker::model::node(a1, tail)
                == (crate::engine::walker::model::Node::Prefix { bytes: bytes.skip(c + 1), child })
        },
        branched(a1, b, t, bytes[c], tail, key, value, depth, c),
    ensures
        inserted(a, s, b, t, key, value, depth),
{
    let one = seq![bytes[c]];
    let rest = bytes.skip(c + 1);
    assert(bytes =~= bytes.take(c) + (one + rest));
    assert forall|k: Seq<u8>| crate::engine::walker::laws::agrees(k, key, depth) implies {
        let out = #[trigger] crate::engine::walker::model::find(b, t, k, depth);
        let before = crate::engine::walker::model::find(a, s, k, depth);
        if k == key {
            out == crate::engine::walker::model::Outcome::Found(value)
        } else {
            !(before is Corrupt) ==> out == before
        }
    } by {
        lemma_continues_split(k, depth, bytes.take(c), one + rest);
        if crate::engine::walker::model::continues(k, depth, bytes.take(c)) {
            lemma_continues_split(k, depth + c, one, rest);
            if depth + c < k.len() {
                assert(k.subrange(depth + c, depth + c + 1) =~= seq![k[depth + c]]);
                assert(crate::engine::walker::model::continues(k, depth + c, one) == (k[depth + c]
                    == bytes[c])) by {
                    assert(seq![k[depth + c]][0] == k[depth + c] && one[0] == bytes[c]);
                }
                if k[depth + c] == bytes[c] {
                    let at = depth + c + 1;
                    let inner = crate::engine::walker::model::find(a1, tail, k, at);
                    let old_inner = crate::engine::walker::model::find(
                        a,
                        child,
                        k,
                        depth + bytes.len(),
                    );
                    assert(at + rest.len() == depth + bytes.len());
                    if crate::engine::walker::model::continues(k, at, rest) && !(
                    old_inner is Corrupt) {
                        crate::engine::walker::laws::lemma_find_extends(
                            a,
                            a1,
                            child,
                            k,
                            depth + bytes.len(),
                        );
                        assert(inner == old_inner);
                    }
                    if c + 1 == bytes.len() {
                        assert(k.subrange(at, at) =~= rest);
                        assert(crate::engine::walker::model::continues(k, at, rest));
                    }
                }
            }
        }
        if k == key {
            assert(!crate::engine::walker::model::continues(key, depth + c, one) || depth + c
                >= key.len());
        }
    }
}

proof fn lemma_inserted_below_prefix(
    a: Seq<u8>,
    s: int,
    bytes: Seq<u8>,
    child: int,
    b1: Seq<u8>,
    c1: int,
    b: Seq<u8>,
    t: int,
    key: Seq<u8>,
    value: crate::engine::walker::model::Stamped,
    depth: int,
)
    requires
        0 <= depth,
        bytes.len() > 0,
        crate::engine::walker::model::continues(key, depth, bytes),
        crate::store::blob_frame::extends(b1, b),
        crate::engine::walker::model::node(a, s) == (crate::engine::walker::model::Node::Prefix {
            bytes,
            child,
        }),
        crate::engine::walker::model::node(b, t) == (crate::engine::walker::model::Node::Prefix {
            bytes,
            child: c1,
        }),
        inserted(a, child, b1, c1, key, value, depth + bytes.len()),
    ensures
        inserted(a, s, b, t, key, value, depth),
{
    let d = depth + bytes.len();
    assert forall|k: Seq<u8>| crate::engine::walker::laws::agrees(k, key, depth) implies {
        let out = #[trigger] crate::engine::walker::model::find(b, t, k, depth);
        let before = crate::engine::walker::model::find(a, s, k, depth);
        if k == key {
            out == crate::engine::walker::model::Outcome::Found(value)
        } else {
            !(before is Corrupt) ==> out == before
        }
    } by {
        if crate::engine::walker::model::continues(k, depth, bytes) {
            crate::engine::walker::laws::lemma_take_step(k, depth, bytes);
            crate::engine::walker::laws::lemma_take_step(key, depth, bytes);
            assert(crate::engine::walker::laws::agrees(k, key, d));
            let mid = crate::engine::walker::model::find(b1, c1, k, d);
            if !(mid is Corrupt) {
                crate::engine::walker::laws::lemma_find_extends(b1, b, c1, k, d);
            }
        }
    }
}

/// Replacing one child changes that child only.
proof fn lemma_child_update(pairs: Seq<(u8, u16)>, i: int, x: u16, b: u8)
    requires
        crate::engine::walker::model::strictly_sorted(pairs),
        0 <= i < pairs.len(),
    ensures
        crate::engine::walker::model::strictly_sorted(pairs.update(i, (pairs[i].0, x))),
        crate::engine::walker::model::child_of(pairs.update(i, (pairs[i].0, x)), b) == (if b
            == pairs[i].0 {
            Some(x)
        } else {
            crate::engine::walker::model::child_of(pairs, b)
        }),
{
    let new = pairs.update(i, (pairs[i].0, x));
    crate::engine::walker::model::lemma_child_of(new, b);
    crate::engine::walker::model::lemma_child_of(pairs, b);
    assert(crate::engine::walker::model::strictly_sorted(new)) by {
        assert forall|p: int, q: int|
            #![trigger new[p], new[q]]
            0 <= p < q < new.len() implies new[p].0 < new[q].0 by {
            assert(new[p].0 == pairs[p].0 && new[q].0 == pairs[q].0);
        }
    }
    if b == pairs[i].0 {
        crate::engine::walker::laws::lemma_sorted_child(new, i);
    } else if crate::engine::walker::model::child_of(pairs, b) is Some {
        let j = crate::engine::walker::laws::lemma_child_listed(pairs, b);
        crate::engine::walker::laws::lemma_sorted_child(new, j);
    } else if crate::engine::walker::model::child_of(new, b) is Some {
        let j = crate::engine::walker::laws::lemma_child_listed(new, b);
        assert(pairs[j].0 == b);
        assert(crate::engine::walker::model::has_child(pairs, b));
    }
}

/// Adding a child in its place keeps the order and the other children.
proof fn lemma_child_insert(pairs: Seq<(u8, u16)>, pos: int, kb: u8, x: u16, b: u8)
    requires
        crate::engine::walker::model::strictly_sorted(pairs),
        0 <= pos <= pairs.len(),
        forall|i: int| 0 <= i < pos ==> (#[trigger] pairs[i]).0 < kb,
        forall|i: int| pos <= i < pairs.len() ==> kb < (#[trigger] pairs[i]).0,
    ensures
        crate::engine::walker::model::strictly_sorted(pairs.insert(pos, (kb, x))),
        crate::engine::walker::model::child_of(pairs.insert(pos, (kb, x)), b) == (if b == kb {
            Some(x)
        } else {
            crate::engine::walker::model::child_of(pairs, b)
        }),
{
    let new = pairs.insert(pos, (kb, x));
    assert forall|i: int| 0 <= i < new.len() implies #[trigger] new[i] == (if i < pos {
        pairs[i]
    } else if i == pos {
        (kb, x)
    } else {
        pairs[i - 1]
    }) by {}
    assert(crate::engine::walker::model::strictly_sorted(new));
    crate::engine::walker::model::lemma_child_of(new, b);
    crate::engine::walker::model::lemma_child_of(pairs, b);
    if b == kb {
        crate::engine::walker::laws::lemma_sorted_child(new, pos);
    } else if crate::engine::walker::model::child_of(pairs, b) is Some {
        let j = crate::engine::walker::laws::lemma_child_listed(pairs, b);
        let n = if j < pos {
            j
        } else {
            j + 1
        };
        assert(new[n] == pairs[j]);
        crate::engine::walker::laws::lemma_sorted_child(new, n);
    } else if crate::engine::walker::model::child_of(new, b) is Some {
        let n = crate::engine::walker::laws::lemma_child_listed(new, b);
        let j = if n < pos {
            n
        } else {
            n - 1
        };
        assert(pairs[j].0 == b);
        assert(crate::engine::walker::model::has_child(pairs, b));
    }
}

proof fn lemma_inserted_at_inner(
    a: Seq<u8>,
    s: int,
    pairs: Seq<(u8, u16)>,
    b1: Seq<u8>,
    c1: u16,
    new: Seq<(u8, u16)>,
    b: Seq<u8>,
    t: int,
    key: Seq<u8>,
    value: crate::engine::walker::model::Stamped,
    depth: int,
)
    requires
        0 <= depth < key.len(),
        crate::store::blob_frame::extends(a, b1),
        crate::store::blob_frame::extends(b1, b),
        crate::engine::walker::model::node(a, s) == (crate::engine::walker::model::Node::Inner {
            pairs,
        }),
        crate::engine::walker::model::node(b, t) == (crate::engine::walker::model::Node::Inner {
            pairs: new,
        }),
        forall|x: u8| #[trigger]
            crate::engine::walker::model::child_of(new, x) == (if x == key[depth] {
                Some(c1)
            } else {
                crate::engine::walker::model::child_of(pairs, x)
            }),
        match crate::engine::walker::model::child_of(pairs, key[depth]) {
            Some(c) => inserted(a, c as int, b1, c1 as int, key, value, depth + 1),
            None => crate::engine::walker::model::node(b1, c1 as int)
                == (crate::engine::walker::model::Node::Leaf { key, value, live: true }),
        },
    ensures
        inserted(a, s, b, t, key, value, depth),
{
    assert forall|k: Seq<u8>| crate::engine::walker::laws::agrees(k, key, depth) implies {
        let out = #[trigger] crate::engine::walker::model::find(b, t, k, depth);
        let before = crate::engine::walker::model::find(a, s, k, depth);
        if k == key {
            out == crate::engine::walker::model::Outcome::Found(value)
        } else {
            !(before is Corrupt) ==> out == before
        }
    } by {
        if depth < k.len() {
            let x = k[depth];
            let _ = crate::engine::walker::model::child_of(new, x);
            if x == key[depth] {
                crate::engine::walker::laws::lemma_take_push(k, depth);
                crate::engine::walker::laws::lemma_take_push(key, depth);
                assert(crate::engine::walker::laws::agrees(k, key, depth + 1));
                let mid = crate::engine::walker::model::find(b1, c1 as int, k, depth + 1);
                if !(mid is Corrupt) {
                    crate::engine::walker::laws::lemma_find_extends(
                        b1,
                        b,
                        c1 as int,
                        k,
                        depth + 1,
                    );
                }
                if crate::engine::walker::model::child_of(pairs, x) is None {
                    assert(mid == (if k == key {
                        crate::engine::walker::model::Outcome::Found(value)
                    } else {
                        crate::engine::walker::model::Outcome::Missing
                    }));
                }
            } else {
                match crate::engine::walker::model::child_of(pairs, x) {
                    Some(c) => {
                        crate::store::blob_frame::lemma_extends_trans(a, b1, b);
                        let inner = crate::engine::walker::model::find(
                            a,
                            c as int,
                            k,
                            depth + 1,
                        );
                        if !(inner is Corrupt) {
                            crate::engine::walker::laws::lemma_find_extends(
                                a,
                                b,
                                c as int,
                                k,
                                depth + 1,
                            );
                        }
                    },
                    None => {},
                }
            }
        }
    }
}

// ---------- the insertion ----------

/// What an insertion did.
pub struct InsertOutcome {
    /// The slot of the tree with the key in it.
    pub new_root_slot: u16,
    /// The value that the key had before.
    pub previous: Option<Vec<u8>>,
}

/// What an insertion of `key` below `s` in `a` gives: the outcome, and the
/// image `b`.
pub open spec fn insert_result(
    a: Seq<u8>,
    s: int,
    b: Seq<u8>,
    r: Result<InsertOutcome>,
    key: Seq<u8>,
    value: crate::engine::walker::model::Stamped,
    depth: int,
) -> bool {
    let leaf = crate::layout::leaf::leaf_size(key.len() as int, value.bytes.len() as int);
    let path = key.take(depth);
    &&& crate::store::blob_frame::frame_ok(b)
    &&& crate::store::blob_frame::extends(a, b)
    &&& crate::store::blob_frame::same_header(a, b)
    &&& match r {
        Ok(o) => {
            &&& o.new_root_slot != 0
            &&& crate::engine::walker::migrate::spent(a, b, insert_cost(a, s, key, leaf, depth))
            &&& inserted(a, s, b, o.new_root_slot as int, key, value, depth)
            &&& match crate::engine::walker::model::find(a, s, key, depth) {
                crate::engine::walker::model::Outcome::Found(v) => o.previous matches Some(p)
                    && p@ == v.bytes,
                crate::engine::walker::model::Outcome::Missing => o.previous is None,
                _ => false,
            }
            &&& crate::engine::walker::laws::valid_at(a, s, path)
                || crate::engine::walker::model::node(a, s) is Empty
                ==> crate::engine::walker::laws::valid_at(b, o.new_root_slot as int, path)
        },
        Err(Error::NotYetImplemented(_)) => {
            &&& !(crate::engine::walker::model::node(a, s) is Empty)
            &&& crate::engine::walker::laws::valid_at(a, s, path)
                ==> crate::engine::walker::model::find(a, s, key, depth) is Missing && conflict(
                a,
                s,
                key,
                depth,
            )
        },
        Err(Error::OutOfSpace) => !crate::engine::walker::migrate::affords(
            a,
            insert_cost(a, s, key, leaf, depth),
        ),
        Err(Error::NodeCorrupt { .. }) => {
            &&& !(crate::engine::walker::model::node(a, s) is Empty)
            &&& !crate::engine::walker::laws::valid_at(a, s, path)
        },
        Err(_) => false,
    }
}

/// Length of the longest run of equal bytes of `a` and `b` from `from` on.
fn common_run(a: &[u8], b: &[u8], from: usize) -> (c: usize)
    requires
        from <= a@.len(),
        from <= b@.len(),
    ensures
        from + c <= a@.len(),
        from + c <= b@.len(),
        a@.subrange(from as int, from + c) == b@.subrange(from as int, from + c),
        from + c < a@.len() && from + c < b@.len() ==> a@[from + c] != b@[from + c],
        c == run(a@, b@, from as int),
{
    let mut c: usize = 0;
    while c < a.len() - from && c < b.len() - from && a[from + c] == b[from + c]
        invariant
            from + c <= a@.len(),
            from + c <= b@.len(),
            forall|i: int| from <= i < from + c ==> a@[i] == b@[i],
        decreases a@.len() - from - c,
    {
        c += 1;
    }
    assert(a@.subrange(from as int, from + c) =~= b@.subrange(from as int, from + c));
    proof {
        lemma_run(a@, b@, from as int, c as int);
    }
    c
}

/// Insert where a leaf stands.
fn insert_at_leaf(
    frame: &mut BlobFrame,
    slot: u16,
    key: &[u8],
    value: &[u8],
    seq: u64,
    depth: usize,
) -> (r: Result<InsertOutcome>)
    requires
        crate::store::blob_frame::frame_ok(old(frame)@),
        key@.len() <= 65535,
        value@.len() <= 65535,
        depth <= key@.len(),
        crate::store::blob_frame::has_body(old(frame)@, slot as int),
        crate::store::blob_frame::type_at(old(frame)@, slot as int) == Some(NodeType::Leaf),
    ensures
        insert_result(
            old(frame)@,
            slot as int,
            final(frame)@,
            r,
            key@,
            crate::engine::walker::model::stamp(value@, seq),
            depth as int,
        ),
{
    let ghost a = frame@;
    proof {
        crate::store::blob_frame::lemma_extends_refl(a);
        crate::store::blob_frame::lemma_len_at(a, slot as int);
        crate::layout::leaf::leaf_size_is_tight(key@.len() as int, value@.len() as int);
    }
    let body: &[u8] = match frame.body_of_slot(slot) {
        Some(b) => b,
        None => {
            return Err(Error::node_corrupt("insert: leaf body"));
        },
    };
    let leaf = read_leaf(body);
    proof {
        crate::bytes::lemma_le16(body@, 8);
        crate::bytes::lemma_le16(body@, 10);
        crate::layout::leaf::leaf_size_is_tight(
            crate::bytes::le16(body@, 10),
            crate::bytes::le16(body@, 8),
        );
    }
    let (k0, v0) = match split_leaf_body(body, &leaf) {
        Ok(kv) => kv,
        Err(e) => {
            return Err(e);
        },
    };
    let ghost gk = k0@;
    let ghost gv = crate::engine::walker::model::stamp(v0@, leaf.seq);
    let live: bool = leaf.tombstone == 0;
    assert(crate::engine::walker::model::node(a, slot as int)
        == (crate::engine::walker::model::Node::Leaf { key: gk, value: gv, live }));
    if !live || same_bytes(k0, key) {
        let previous: Option<Vec<u8>> = if live {
            Some(slice_to_vec(v0))
        } else {
            None
        };
        match alloc_leaf(frame, key, value, seq) {
            Ok(t) => {
                proof {
                    lemma_inserted_fresh(
                        a,
                        slot as int,
                        frame@,
                        t as int,
                        key@,
                        crate::engine::walker::model::stamp(value@, seq),
                        depth as int,
                    );
                    assert(key@.take(depth as int).is_prefix_of(key@)) by {
                        assert(key@.subrange(0, depth as int) =~= key@.take(depth as int));
                    }
                }
                return Ok(InsertOutcome { new_root_slot: t, previous });
            },
            Err(e) => {
                return Err(e);
            },
        }
    }
    if k0.len() < depth {
        return Err(Error::node_corrupt("insert: leaf key shorter than its path"));
    }
    let c: usize = common_run(k0, key, depth);
    if depth + c == k0.len() || depth + c == key.len() {
        proof {
            if crate::engine::walker::laws::valid_at(a, slot as int, key@.take(depth as int)) {
                let path = key@.take(depth as int);
                assert(path == gk.subrange(0, depth as int));
                assert(gk.take(depth as int) =~= path);
                assert(gk.subrange(depth as int, depth + c) == key@.subrange(
                    depth as int,
                    depth + c,
                ));
                assert(crate::engine::walker::model::continues(
                    gk,
                    depth as int,
                    gk.subrange(depth as int, depth + c),
                ));
                crate::engine::walker::laws::lemma_take_step(
                    gk,
                    depth as int,
                    gk.subrange(depth as int, depth + c),
                );
                crate::engine::walker::laws::lemma_take_step(
                    key@,
                    depth as int,
                    gk.subrange(depth as int, depth + c),
                );
                assert(gk.take(depth + c) == key@.take(depth + c));
                if depth + c == gk.len() {
                    assert(gk =~= gk.take(depth + c));
                    assert(gk =~= key@.subrange(0, gk.len() as int));
                } else {
                    assert(key@ =~= key@.take(depth + c));
                    assert(key@ =~= gk.subrange(0, key@.len() as int));
                }
                assert(crate::engine::walker::model::find(a, slot as int, gk, depth as int)
                    is Found);
                assert(prefix_related(gk, key@));
                assert(conflict(a, slot as int, key@, depth as int));
            }
        }
        return Err(Error::NotYetImplemented("insert: one key is a strict prefix of another"));
    }
    let ob: u8 = k0[depth + c];
    match branch(frame, key, value, seq, depth, c, ob, slot) {
        Ok(t) => {
            proof {
                lemma_inserted_split_leaf(
                    a,
                    slot as int,
                    gk,
                    gv,
                    frame@,
                    t as int,
                    key@,
                    crate::engine::walker::model::stamp(value@, seq),
                    depth as int,
                    c as int,
                );
                let path = key@.take(depth as int);
                if crate::engine::walker::laws::valid_at(a, slot as int, path) {
                    assert(gk.take(depth as int) =~= path);
                    let seg = gk.subrange(depth as int, depth + c);
                    crate::engine::walker::laws::lemma_take_step(gk, depth as int, seg);
                    crate::engine::walker::laws::lemma_take_step(key@, depth as int, seg);
                    crate::engine::walker::laws::lemma_take_push(gk, depth + c);
                    let p = key@.take(depth + c).push(ob);
                    assert(p == gk.take(depth + c + 1));
                    assert(p.is_prefix_of(gk)) by {
                        assert(gk.subrange(0, depth + c + 1) =~= p);
                    }
                    assert(crate::engine::walker::laws::valid_at(a, slot as int, p));
                }
            }
            Ok(InsertOutcome { new_root_slot: t, previous: None })
        },
        Err(e) => Err(e),
    }
}

/// Insert where a prefix node stands that `key` leaves after `c` of its bytes.
fn split_prefix(
    frame: &mut BlobFrame,
    slot: u16,
    bytes: &[u8],
    child: u16,
    key: &[u8],
    value: &[u8],
    seq: u64,
    depth: usize,
    c: usize,
) -> (r: Result<InsertOutcome>)
    requires
        crate::store::blob_frame::frame_ok(old(frame)@),
        key@.len() <= 65535,
        value@.len() <= 65535,
        depth + c < key@.len(),
        c < bytes@.len() <= 120,
        child != 0,
        crate::engine::walker::model::node(old(frame)@, slot as int)
            == (crate::engine::walker::model::Node::Prefix { bytes: bytes@, child: child as int }),
        key@.subrange(depth as int, depth + c) == bytes@.take(c as int),
        key@[depth + c] != bytes@[c as int],
        c == run(bytes@, key@.skip(depth as int), 0),
    ensures
        insert_result(
            old(frame)@,
            slot as int,
            final(frame)@,
            r,
            key@,
            crate::engine::walker::model::stamp(value@, seq),
            depth as int,
        ),
{
    let ghost a = frame@;
    let ghost path = key@.take(depth as int);
    let ghost rest = bytes@.skip(c + 1);
    proof {
        lemma_chunks(c as int);
        crate::store::blob_frame::lemma_extends_refl(a);
        crate::layout::leaf::leaf_size_is_tight(key@.len() as int, value@.len() as int);
        assert(!crate::engine::walker::model::continues(key@, depth as int, bytes@)) by {
            if crate::engine::walker::model::continues(key@, depth as int, bytes@) {
                assert(key@.subrange(depth as int, depth + bytes@.len())[c as int]
                    == bytes@[c as int]);
            }
        }
        assert(crate::engine::walker::model::find(a, slot as int, key@, depth as int) is Missing);
    }
    let tail: u16 = if c + 1 == bytes.len() {
        child
    } else {
        let part: &[u8] = slice_subrange(bytes, c + 1, bytes.len());
        assert(part@ =~= rest);
        match alloc_prefix(frame, part, child) {
            Ok(s) => s,
            Err(e) => {
                return Err(e);
            },
        }
    };
    let ghost a1 = frame@;
    let r = branch(frame, key, value, seq, depth, c, bytes[c], tail);
    proof {
        crate::store::blob_frame::lemma_extends_trans(a, a1, frame@);
    }
    match r {
        Ok(t) => {
            proof {
                lemma_inserted_split_prefix(
                    a,
                    slot as int,
                    bytes@,
                    child as int,
                    a1,
                    tail as int,
                    frame@,
                    t as int,
                    key@,
                    crate::engine::walker::model::stamp(value@, seq),
                    depth as int,
                    c as int,
                );
                if crate::engine::walker::laws::valid_at(a, slot as int, path) {
                    let p = key@.take(depth + c).push(bytes@[c as int]);
                    crate::engine::walker::laws::lemma_take_step(
                        key@,
                        depth as int,
                        bytes@.take(c as int),
                    );
                    assert(p + rest =~= path + bytes@);
                    crate::engine::walker::laws::lemma_valid_extends(
                        a,
                        a1,
                        child as int,
                        path + bytes@,
                    );
                    if c + 1 == bytes@.len() {
                        assert(p =~= path + bytes@);
                    }
                    assert(crate::engine::walker::laws::valid_at(a1, tail as int, p));
                }
            }
            Ok(InsertOutcome { new_root_slot: t, previous: None })
        },
        Err(e) => Err(e),
    }
}

/// Insert where a prefix node stands.
fn insert_at_prefix(
    frame: &mut BlobFrame,
    slot: u16,
    key: &[u8],
    value: &[u8],
    seq: u64,
    depth: usize,
) -> (r: Result<InsertOutcome>)
    requires
        crate::store::blob_frame::frame_ok(old(frame)@),
        key@.len() <= 65535,
        value@.len() <= 65535,
        depth <= key@.len(),
        crate::store::blob_frame::has_body(old(frame)@, slot as int),
        crate::store::blob_frame::type_at(old(frame)@, slot as int) == Some(NodeType::Prefix),
    ensures
        insert_result(
            old(frame)@,
            slot as int,
            final(frame)@,
            r,
            key@,
            crate::engine::walker::model::stamp(value@, seq),
            depth as int,
        ),
    decreases key@.len() - depth, 0int,
{
    let ghost a = frame@;
    let ghost path = key@.take(depth as int);
    proof {
        crate::store::blob_frame::lemma_extends_refl(a);
        crate::store::blob_frame::lemma_len_at(a, slot as int);
        crate::layout::leaf::leaf_size_is_tight(key@.len() as int, value@.len() as int);
    }
    let body: &[u8] = match frame.body_of_slot(slot) {
        Some(b) => b,
        None => {
            return Err(Error::node_corrupt("insert: prefix body"));
        },
    };
    let len: u32 = read_u32(body, 4);
    if len == 0 || len > 120 {
        return Err(Error::node_corrupt("insert: prefix length out of range"));
    }
    let child: u16 = read_u16(body, 0);
    let bytes: Vec<u8> = slice_to_vec(slice_subrange(body, 8, 8 + len as usize));
    assert(crate::engine::walker::model::node(a, slot as int)
        == (crate::engine::walker::model::Node::Prefix { bytes: bytes@, child: child as int }));
    if child == 0 {
        proof {
            assert(crate::engine::walker::model::node(a, 0) is Bad);
            assert(!crate::engine::walker::laws::valid_at(a, 0, path + bytes@));
        }
        return Err(Error::node_corrupt("insert: prefix without child"));
    }
    let rest: &[u8] = slice_subrange(key, depth, key.len());
    let c: usize = common_run(bytes.as_slice(), rest, 0);
    assert(key@.subrange(depth as int, depth + c) =~= bytes@.take(c as int)) by {
        assert(bytes@.subrange(0, c as int) =~= bytes@.take(c as int));
        assert(rest@.subrange(0, c as int) =~= key@.subrange(depth as int, depth + c));
    }
    assert(rest@ =~= key@.skip(depth as int));
    if c < bytes.len() {
        if c < rest.len() {
            return split_prefix(
                frame,
                slot,
                bytes.as_slice(),
                child,
                key,
                value,
                seq,
                depth,
                c,
            );
        }
        proof {
            assert(depth + c == key@.len());
            if crate::engine::walker::laws::valid_at(a, slot as int, path) {
                lemma_conflict_in_prefix(a, slot as int, bytes@, child as int, key@, depth as int);
            }
        }
        return Err(Error::NotYetImplemented("insert: key ends inside a prefix"));
    }
    assert(bytes@.take(c as int) =~= bytes@);
    assert(crate::engine::walker::model::continues(key@, depth as int, bytes@));
    let d: usize = depth + c;
    let below = insert_at(frame, child, key, value, seq, d);
    let ghost b1 = frame@;
    proof {
        crate::engine::walker::laws::lemma_take_step(key@, depth as int, bytes@);
        if crate::engine::walker::laws::valid_at(a, slot as int, path) {
            assert(crate::engine::walker::laws::valid_at(a, child as int, key@.take(d as int)));
        }
    }
    let o: InsertOutcome = match below {
        Ok(o) => o,
        Err(e) => {
            proof {
                if e matches Error::NotYetImplemented(_) && crate::engine::walker::laws::valid_at(
                    a,
                    slot as int,
                    path,
                ) {
                    let k = choose|k: Seq<u8>|
                        crate::engine::walker::laws::agrees(k, key@, d as int) && prefix_related(
                            k,
                            key@,
                        ) && #[trigger] crate::engine::walker::model::find(
                            a,
                            child as int,
                            k,
                            d as int,
                        ) is Found;
                    lemma_conflict_below_prefix(
                        a,
                        slot as int,
                        bytes@,
                        child as int,
                        key@,
                        k,
                        depth as int,
                    );
                }
            }
            return Err(e);
        },
    };
    match alloc_prefix(frame, bytes.as_slice(), o.new_root_slot) {
        Ok(t) => {
            proof {
                crate::store::blob_frame::lemma_extends_trans(a, b1, frame@);
                lemma_inserted_below_prefix(
                    a,
                    slot as int,
                    bytes@,
                    child as int,
                    b1,
                    o.new_root_slot as int,
                    frame@,
                    t as int,
                    key@,
                    crate::engine::walker::model::stamp(value@, seq),
                    depth as int,
                );
                if crate::engine::walker::laws::valid_at(a, slot as int, path) {
                    crate::engine::walker::laws::lemma_valid_extends(
                        b1,
                        frame@,
                        o.new_root_slot as int,
                        path + bytes@,
                    );
                }
            }
            Ok(InsertOutcome { new_root_slot: t, previous: o.previous })
        },
        Err(e) => Err(e),
    }
}

proof fn lemma_conflict_below_prefix(
    a: Seq<u8>,
    s: int,
    bytes: Seq<u8>,
    child: int,
    key: Seq<u8>,
    k: Seq<u8>,
    depth: int,
)
    requires
        0 <= depth,
        bytes.len() > 0,
        crate::engine::walker::model::continues(key, depth, bytes),
        crate::engine::walker::model::node(a, s) == (crate::engine::walker::model::Node::Prefix {
            bytes,
            child,
        }),
        crate::engine::walker::laws::agrees(k, key, depth + bytes.len()),
        prefix_related(k, key),
        crate::engine::walker::model::find(a, child, k, depth + bytes.len()) is Found,
    ensures
        conflict(a, s, key, depth),
{
    let d = depth + bytes.len();
    assert(k.subrange(depth, d) =~= bytes) by {
        assert forall|i: int| 0 <= i < bytes.len() implies k[depth + i] == bytes[i] by {
            assert(k.take(d)[depth + i] == key.take(d)[depth + i]);
            assert(key.subrange(depth, d)[i] == key[depth + i]);
        }
    }
    assert(k.take(depth) =~= key.take(depth)) by {
        assert forall|i: int| 0 <= i < depth implies k[i] == key[i] by {
            assert(k.take(d)[i] == key.take(d)[i]);
        }
    }
    assert(crate::engine::walker::model::find(a, s, k, depth) is Found);
}

proof fn lemma_conflict_in_prefix(
    a: Seq<u8>,
    s: int,
    bytes: Seq<u8>,
    child: int,
    key: Seq<u8>,
    depth: int,
)
    requires
        0 <= depth <= key.len(),
        key.len() - depth < bytes.len(),
        key.subrange(depth, key.len() as int) == bytes.take(key.len() - depth),
        crate::engine::walker::model::node(a, s) == (crate::engine::walker::model::Node::Prefix {
            bytes,
            child,
        }),
        crate::engine::walker::laws::valid_at(a, s, key.take(depth)),
    ensures
        conflict(a, s, key, depth),
        crate::engine::walker::model::find(a, s, key, depth) is Missing,
{
    let path = key.take(depth);
    let k = crate::engine::walker::laws::lemma_valid_nonempty(a, child, path + bytes);
    let d = depth + bytes.len();
    assert forall|i: int| 0 <= i < d implies k[i] == (path + bytes)[i] by {
        assert(k.subrange(0, d)[i] == k[i]);
    }
    assert(k.subrange(depth, d) =~= bytes);
    assert(k.take(depth) =~= path);
    assert(k.subrange(0, key.len() as int) =~= key) by {
        assert forall|i: int| 0 <= i < key.len() implies k[i] == key[i] by {
            if i >= depth {
                assert(key.subrange(depth, key.len() as int)[i - depth] == key[i]);
                assert(bytes.take(key.len() - depth)[i - depth] == bytes[i - depth]);
            }
        }
    }
    assert(prefix_related(k, key));
    assert(crate::engine::walker::model::find(a, s, k, depth) is Found);
}

/// The node with one child replaced or added is valid where the old one was.
proof fn lemma_inner_valid(
    a: Seq<u8>,
    s: int,
    old_pairs: Seq<(u8, u16)>,
    b1: Seq<u8>,
    b: Seq<u8>,
    t: int,
    pairs: Seq<(u8, u16)>,
    kb: u8,
    c1: u16,
    path: Seq<u8>,
)
    requires
        crate::store::blob_frame::extends(a, b),
        crate::store::blob_frame::extends(b1, b),
        crate::engine::walker::model::node(a, s) == (crate::engine::walker::model::Node::Inner {
            pairs: old_pairs,
        }),
        crate::engine::walker::model::node(b, t) == (crate::engine::walker::model::Node::Inner {
            pairs,
        }),
        crate::engine::walker::laws::valid_at(a, s, path),
        crate::engine::walker::laws::valid_at(b1, c1 as int, path.push(kb)),
        pairs.len() >= 1,
        crate::engine::walker::writers::pairs_ok(pairs),
        forall|i: int|
            0 <= i < pairs.len() ==> #[trigger] pairs[i] == (kb, c1) || old_pairs.contains(pairs[i]),
    ensures
        crate::engine::walker::laws::valid_at(b, t, path),
{
    assert forall|i: int| 0 <= i < pairs.len() implies crate::engine::walker::laws::valid_at(
        b,
        (#[trigger] pairs[i]).1 as int,
        path.push(pairs[i].0),
    ) by {
        if pairs[i] == (kb, c1) {
            crate::engine::walker::laws::lemma_valid_extends(b1, b, c1 as int, path.push(kb));
        } else {
            assert(old_pairs.contains(pairs[i]));
            let j = choose|j: int| 0 <= j < old_pairs.len() && old_pairs[j] == pairs[i];
            assert(crate::engine::walker::laws::valid_at(
                a,
                old_pairs[j].1 as int,
                path.push(old_pairs[j].0),
            ));
            crate::engine::walker::laws::lemma_valid_extends(
                a,
                b,
                pairs[i].1 as int,
                path.push(pairs[i].0),
            );
        }
    }
}

proof fn lemma_conflict_below_inner(
    a: Seq<u8>,
    s: int,
    pairs: Seq<(u8, u16)>,
    child: u16,
    key: Seq<u8>,
    depth: int,
)
    requires
        0 <= depth < key.len(),
        crate::engine::walker::model::node(a, s) == (crate::engine::walker::model::Node::Inner {
            pairs,
        }),
        crate::engine::walker::model::child_of(pairs, key[depth]) == Some(child),
        conflict(a, child as int, key, depth + 1),
    ensures
        conflict(a, s, key, depth),
{
    let k = choose|k: Seq<u8>|
        crate::engine::walker::laws::agrees(k, key, depth + 1) && prefix_related(k, key)
            && #[trigger] crate::engine::walker::model::find(a, child as int, k, depth + 1)
            is Found;
    assert(k[depth] == k.take(depth + 1)[depth]);
    assert(key[depth] == key.take(depth + 1)[depth]);
    assert(k.take(depth) =~= key.take(depth)) by {
        assert forall|i: int| 0 <= i < depth implies k[i] == key[i] by {
            assert(k.take(depth + 1)[i] == key.take(depth + 1)[i]);
        }
    }
    assert(crate::engine::walker::model::find(a, s, k, depth) is Found);
}

/// Insert below the child at `pos` of an inner node.
fn insert_below_child(
    frame: &mut BlobFrame,
    slot: u16,
    pairs: Vec<(u8, u16)>,
    pos: usize,
    key: &[u8],
    value: &[u8],
    seq: u64,
    depth: usize,
) -> (r: Result<InsertOutcome>)
    requires
        crate::store::blob_frame::frame_ok(old(frame)@),
        key@.len() <= 65535,
        value@.len() <= 65535,
        depth < key@.len(),
        pos < pairs@.len(),
        pairs@[pos as int].0 == key@[depth as int],
        crate::engine::walker::writers::pairs_ok(pairs@),
        crate::engine::walker::model::node(old(frame)@, slot as int)
            == (crate::engine::walker::model::Node::Inner { pairs: pairs@ }),
    ensures
        insert_result(
            old(frame)@,
            slot as int,
            final(frame)@,
            r,
            key@,
            crate::engine::walker::model::stamp(value@, seq),
            depth as int,
        ),
    decreases key@.len() - depth, 0int,
{
    let ghost a = frame@;
    let ghost path = key@.take(depth as int);
    let ghost old_pairs = pairs@;
    let mut pairs = pairs;
    let (kb, child): (u8, u16) = pairs[pos];
    proof {
        crate::store::blob_frame::lemma_extends_refl(a);
        crate::engine::walker::laws::lemma_sorted_child(old_pairs, pos as int);
        crate::engine::walker::laws::lemma_take_push(key@, depth as int);
    }
    let below = insert_at(frame, child, key, value, seq, depth + 1);
    let ghost b1 = frame@;
    let o: InsertOutcome = match below {
        Ok(o) => o,
        Err(e) => {
            proof {
                if e is NotYetImplemented && crate::engine::walker::laws::valid_at(
                    a,
                    slot as int,
                    path,
                ) {
                    assert(crate::engine::walker::laws::valid_at(
                        a,
                        old_pairs[pos as int].1 as int,
                        path.push(old_pairs[pos as int].0),
                    ));
                    lemma_conflict_below_inner(
                        a,
                        slot as int,
                        old_pairs,
                        child,
                        key@,
                        depth as int,
                    );
                }
                if e is NodeCorrupt && crate::engine::walker::laws::valid_at(
                    a,
                    slot as int,
                    path,
                ) {
                    assert(crate::engine::walker::laws::valid_at(
                        a,
                        old_pairs[pos as int].1 as int,
                        path.push(old_pairs[pos as int].0),
                    ));
                }
            }
            return Err(e);
        },
    };
    pairs.set(pos, (kb, o.new_root_slot));
    proof {
        assert(pairs@ =~= old_pairs.update(
            pos as int,
            (old_pairs[pos as int].0, o.new_root_slot),
        ));
        assert forall|x: u8| #[trigger]
            crate::engine::walker::model::child_of(pairs@, x) == (if x == key@[depth as int] {
                Some(o.new_root_slot)
            } else {
                crate::engine::walker::model::child_of(old_pairs, x)
            }) by {
            lemma_child_update(old_pairs, pos as int, o.new_root_slot, x);
        }
        lemma_child_update(old_pairs, pos as int, o.new_root_slot, kb);
    }
    match alloc_inner(frame, pairs.as_slice()) {
        Ok(t) => {
            proof {
                crate::store::blob_frame::lemma_extends_trans(a, b1, frame@);
                lemma_inserted_at_inner(
                    a,
                    slot as int,
                    old_pairs,
                    b1,
                    o.new_root_slot,
                    pairs@,
                    frame@,
                    t as int,
                    key@,
                    crate::engine::walker::model::stamp(value@, seq),
                    depth as int,
                );
                if crate::engine::walker::laws::valid_at(a, slot as int, path) {
                    assert(crate::engine::walker::laws::valid_at(
                        a,
                        old_pairs[pos as int].1 as int,
                        path.push(old_pairs[pos as int].0),
                    ));
                    assert forall|i: int| 0 <= i < pairs@.len() implies #[trigger] pairs@[i] == (
                        kb,
                        o.new_root_slot,
                    ) || old_pairs.contains(pairs@[i]) by {
                        if i != pos {
                            assert(pairs@[i] == old_pairs[i]);
                        }
                    }
                    lemma_inner_valid(
                        a,
                        slot as int,
                        old_pairs,
                        b1,
                        frame@,
                        t as int,
                        pairs@,
                        kb,
                        o.new_root_slot,
                        path,
                    );
                }
            }
            Ok(InsertOutcome { new_root_slot: t, previous: o.previous })
        },
        Err(e) => Err(e),
    }
}

/// Add a leaf as a new child at `pos` of an inner node.
fn add_child(
    frame: &mut BlobFrame,
    slot: u16,
    pairs: Vec<(u8, u16)>,
    pos: usize,
    key: &[u8],
    value: &[u8],
    seq: u64,
    depth: usize,
) -> (r: Result<InsertOutcome>)
    requires
        crate::store::blob_frame::frame_ok(old(frame)@),
        key@.len() <= 65535,
        value@.len() <= 65535,
        depth < key@.len(),
        pos <= pairs@.len(),
        forall|i: int| 0 <= i < pos ==> (#[trigger] pairs@[i]).0 < key@[depth as int],
        forall|i: int| pos <= i < pairs@.len() ==> key@[depth as int] < (#[trigger] pairs@[i]).0,
        crate::engine::walker::writers::pairs_ok(pairs@),
        crate::engine::walker::model::node(old(frame)@, slot as int)
            == (crate::engine::walker::model::Node::Inner { pairs: pairs@ }),
    ensures
        insert_result(
            old(frame)@,
            slot as int,
            final(frame)@,
            r,
            key@,
            crate::engine::walker::model::stamp(value@, seq),
            depth as int,
        ),
{
    let ghost a = frame@;
    let ghost path = key@.take(depth as int);
    let ghost old_pairs = pairs@;
    let mut pairs = pairs;
    let kb: u8 = key[depth];
    proof {
        crate::store::blob_frame::lemma_extends_refl(a);
        crate::layout::leaf::leaf_size_is_tight(key@.len() as int, value@.len() as int);
        crate::engine::walker::model::lemma_child_of(old_pairs, kb);
        assert(!crate::engine::walker::model::has_child(old_pairs, kb));
    }
    let leaf: u16 = match alloc_leaf(frame, key, value, seq) {
        Ok(t) => t,
        Err(e) => {
            return Err(e);
        },
    };
    let ghost b1 = frame@;
    pairs.insert(pos, (kb, leaf));
    proof {
        assert forall|x: u8| #[trigger]
            crate::engine::walker::model::child_of(pairs@, x) == (if x == key@[depth as int] {
                Some(leaf)
            } else {
                crate::engine::walker::model::child_of(old_pairs, x)
            }) by {
            lemma_child_insert(old_pairs, pos as int, kb, leaf, x);
        }
        lemma_child_insert(old_pairs, pos as int, kb, leaf, kb);
        assert forall|i: int| 0 <= i < pairs@.len() implies #[trigger] pairs@[i] == (kb, leaf)
            || old_pairs.contains(pairs@[i]) by {
            if i < pos {
                assert(pairs@[i] == old_pairs[i]);
            } else if i > pos {
                assert(pairs@[i] == old_pairs[i - 1]);
            }
        }
        assert forall|i: int| 0 <= i < pairs@.len() implies (#[trigger] pairs@[i]).1 != 0 by {
            if pairs@[i] != (kb, leaf) {
                assert(old_pairs.contains(pairs@[i]));
            }
        }
    }
    match alloc_inner(frame, pairs.as_slice()) {
        Ok(t) => {
            proof {
                crate::store::blob_frame::lemma_extends_trans(a, b1, frame@);
                lemma_inserted_at_inner(
                    a,
                    slot as int,
                    old_pairs,
                    b1,
                    leaf,
                    pairs@,
                    frame@,
                    t as int,
                    key@,
                    crate::engine::walker::model::stamp(value@, seq),
                    depth as int,
                );
                if crate::engine::walker::laws::valid_at(a, slot as int, path) {
                    crate::engine::walker::laws::lemma_take_push(key@, depth as int);
                    assert(path.push(kb).is_prefix_of(key@)) by {
                        assert(key@.subrange(0, depth + 1) =~= key@.take(depth + 1));
                    }
                    assert(crate::engine::walker::laws::valid_at(b1, leaf as int, path.push(kb)));
                    lemma_inner_valid(
                        a,
                        slot as int,
                        old_pairs,
                        b1,
                        frame@,
                        t as int,
                        pairs@,
                        kb,
                        leaf,
                        path,
                    );
                }
            }
            Ok(InsertOutcome { new_root_slot: t, previous: None })
        },
        Err(e) => Err(e),
    }
}

/// Insert where an inner node stands.
fn insert_at_inner(
    frame: &mut BlobFrame,
    slot: u16,
    ntype: NodeType,
    key: &[u8],
    value: &[u8],
    seq: u64,
    depth: usize,
) -> (r: Result<InsertOutcome>)
    requires
        crate::store::blob_frame::frame_ok(old(frame)@),
        key@.len() <= 65535,
        value@.len() <= 65535,
        depth <= key@.len(),
        crate::engine::walker::readers::is_inner(ntype),
        crate::store::blob_frame::has_body(old(frame)@, slot as int),
        crate::store::blob_frame::type_at(old(frame)@, slot as int) == Some(ntype),
    ensures
        insert_result(
            old(frame)@,
            slot as int,
            final(frame)@,
            r,
            key@,
            crate::engine::walker::model::stamp(value@, seq),
            depth as int,
        ),
    decreases key@.len() - depth, 1int,
{
    let ghost a = frame@;
    let ghost path = key@.take(depth as int);
    proof {
        crate::store::blob_frame::lemma_extends_refl(a);
        crate::layout::leaf::leaf_size_is_tight(key@.len() as int, value@.len() as int);
    }
    let pairs: Vec<(u8, u16)> = match child_pairs(frame, slot, ntype) {
        Some(p) => p,
        None => {
            proof {
                lemma_bad_index(a, slot as int);
            }
            return Err(Error::node_corrupt("insert: Node48 index out of range"));
        },
    };
    if depth == key.len() {
        proof {
            if crate::engine::walker::laws::valid_at(a, slot as int, path) {
                let k = crate::engine::walker::laws::lemma_valid_nonempty(a, slot as int, path);
                assert(path =~= key@);
                assert(k.take(depth as int) =~= path);
                assert(crate::engine::walker::model::find(a, slot as int, k, depth as int)
                    is Found);
                assert(conflict(a, slot as int, key@, depth as int));
            }
        }
        return Err(Error::NotYetImplemented("insert: key ends at an inner node"));
    }
    if !pairs_in_order(pairs.as_slice()) {
        return Err(Error::node_corrupt("insert: children out of order"));
    }
    let kb: u8 = key[depth];
    let mut pos: usize = 0;
    while pos < pairs.len() && pairs[pos].0 < kb
        invariant
            pos <= pairs@.len(),
            forall|i: int| 0 <= i < pos ==> (#[trigger] pairs@[i]).0 < kb,
        decreases pairs@.len() - pos,
    {
        pos += 1;
    }
    if pos < pairs.len() && pairs[pos].0 == kb {
        return insert_below_child(frame, slot, pairs, pos, key, value, seq, depth);
    }
    proof {
        assert forall|i: int| pos <= i < pairs@.len() implies kb < (#[trigger] pairs@[i]).0 by {
            if i > pos {
                assert(pairs@[pos as int].0 < pairs@[i].0);
            }
        }
    }
    add_child(frame, slot, pairs, pos, key, value, seq, depth)
}

/// A `Node48` with an index entry out of range lists a child that is no slot.
pub proof fn lemma_bad_index(a: Seq<u8>, s: int)
    requires
        a.len() == PAGE_SIZE,
        crate::store::blob_frame::has_body(a, s),
        crate::store::blob_frame::type_at(a, s) == Some(NodeType::Node48),
        !crate::engine::walker::model::index48_ok(
            crate::store::blob_frame::body_at(a, s),
            256,
        ),
    ensures
        crate::engine::walker::model::node(a, s) is Inner,
        !crate::engine::walker::writers::pairs_ok(
            crate::engine::walker::model::node(a, s)->pairs,
        ),
{
    let body = crate::store::blob_frame::body_at(a, s);
    let pairs = crate::engine::walker::model::pairs48(body, 256);
    crate::engine::walker::model::lemma_pairs48(body, 256);
    let b = choose|b: int| 0 <= b < 256 && !(#[trigger] body[8 + b] <= 48);
    let byte = b as u8;
    assert(body[8 + byte] != 0);
    assert(crate::engine::walker::model::has_child(pairs, byte));
    let i = choose|i: int| 0 <= i < pairs.len() && (#[trigger] pairs[i]).0 == byte;
    assert(pairs[i].1 == 0);
    assert(crate::engine::walker::model::node(a, s) == (crate::engine::walker::model::Node::Inner {
        pairs,
    }));
}

/// Insert `key` below `slot`, which is reached after `depth` of its bytes.
pub fn insert_at(
    frame: &mut BlobFrame,
    slot: u16,
    key: &[u8],
    value: &[u8],
    seq: u64,
    depth: usize,
) -> (r: Result<InsertOutcome>)
    requires
        crate::store::blob_frame::frame_ok(old(frame)@),
        key@.len() <= 65535,
        value@.len() <= 65535,
        depth <= key@.len(),
    ensures
        insert_result(
            old(frame)@,
            slot as int,
            final(frame)@,
            r,
            key@,
            crate::engine::walker::model::stamp(value@, seq),
            depth as int,
        ),
    decreases key@.len() - depth, 2int,
{
    let ghost a = frame@;
    proof {
        crate::store::blob_frame::lemma_extends_refl(a);
        crate::layout::leaf::leaf_size_is_tight(key@.len() as int, value@.len() as int);
    }
    let ntype: NodeType = match resolve_typed(frame, slot) {
        Ok((t, _body)) => t,
        Err(e) => {
            return Err(e);
        },
    };
    match ntype {
        NodeType::Invalid => Err(Error::node_corrupt("insert: invalid node")),
        NodeType::EmptyRoot => match alloc_leaf(frame, key, value, seq) {
            Ok(t) => {
                proof {
                    lemma_inserted_fresh(
                        a,
                        slot as int,
                        frame@,
                        t as int,
                        key@,
                        crate::engine::walker::model::stamp(value@, seq),
                        depth as int,
                    );
                    assert(key@.take(depth as int).is_prefix_of(key@)) by {
                        assert(key@.subrange(0, depth as int) =~= key@.take(depth as int));
                    }
                }
                Ok(InsertOutcome { new_root_slot: t, previous: None })
            },
            Err(e) => Err(e),
        },
        NodeType::Leaf => insert_at_leaf(frame, slot, key, value, seq, depth),
        NodeType::Prefix => insert_at_prefix(frame, slot, key, value, seq, depth),
        NodeType::Blob => Err(
            Error::NotYetImplemented("insert: crossing into another blob"),
        ),
        _ => insert_at_inner(frame, slot, ntype, key, value, seq, depth),
    }
}

// ---------- laws ----------

/// An insertion takes its leaf and a copy of every node on the way to it: 128 bytes
/// for a prefix, and 16, 56, 360 or 520 bytes for an inner node of up to 4, 16, 48
/// or 256 children. Where it forks a leaf off another after `c` shared bytes it
/// takes a node of 16 bytes, and a prefix node for every 120 of the shared bytes.
pub proof fn an_insertion_takes_its_leaf_and_its_way(
    img: Seq<u8>,
    s: int,
    key: Seq<u8>,
    leaf: int,
    depth: int,
    c: int,
)
    requires
        0 <= depth <= key.len(),
    ensures
        match crate::engine::walker::model::node(img, s) {
            crate::engine::walker::model::Node::Empty => insert_cost(
                img,
                s,
                key,
                leaf,
                depth,
            ).bytes == leaf && insert_cost(img, s, key, leaf, depth).slots == 1,
            crate::engine::walker::model::Node::Leaf { key: k, value, live } => {
                let cost = insert_cost(img, s, key, leaf, depth);
                &&& !live || k == key ==> cost.bytes == leaf && cost.slots == 1
                &&& live && k != key && 0 <= c && depth + c < key.len() && depth + c < k.len() && (
                forall|i: int| depth <= i < depth + c ==> k[i] == #[trigger] key[i])
                    && k[depth + c] != key[depth + c] ==> cost.bytes == leaf + 16 + 128 * (
                cost.slots - 2) && 120 * (cost.slots - 3) < c <= 120 * (cost.slots - 2)
            },
            crate::engine::walker::model::Node::Prefix { bytes, child } => {
                let cost = insert_cost(img, s, key, leaf, depth);
                bytes.len() > 0 && depth + bytes.len() <= key.len() && key.subrange(
                    depth,
                    depth + bytes.len(),
                ) == bytes ==> {
                    let below = insert_cost(img, child, key, leaf, depth + bytes.len());
                    cost.bytes == below.bytes + 128 && cost.slots == below.slots + 1
                }
            },
            crate::engine::walker::model::Node::Inner { pairs } => depth < key.len() ==> {
                let cost = insert_cost(img, s, key, leaf, depth);
                let (below, n) = match crate::engine::walker::model::child_of(pairs, key[depth]) {
                    Some(x) => (
                        insert_cost(img, x as int, key, leaf, depth + 1),
                        pairs.len() as int,
                    ),
                    None => (Cost { bytes: leaf, slots: 1 }, pairs.len() as int + 1),
                };
                &&& cost.slots == below.slots + 1
                &&& cost.bytes - below.bytes == (if n <= 4 {
                    16int
                } else if n <= 16 {
                    56
                } else if n <= 48 {
                    360
                } else {
                    520
                })
            },
            _ => true,
        },
{
    match crate::engine::walker::model::node(img, s) {
        crate::engine::walker::model::Node::Leaf { key: k, value, live } => {
            if live && k != key && 0 <= c && depth + c < key.len() && depth + c < k.len() && (
            forall|i: int| depth <= i < depth + c ==> k[i] == #[trigger] key[i]) && k[depth + c]
                != key[depth + c] {
                lemma_run(k, key, depth, c);
                reveal(chunks);
                assert(chunks(c) == (c + 119) / 120);
            }
        },
        _ => {},
    }
}

/// A put below a node finds the key with its value and stamp, gives the value that
/// was found there before, and changes no other search that ended well.
pub proof fn an_insertion_changes_one_key(
    a: Seq<u8>,
    s: int,
    b: Seq<u8>,
    o: InsertOutcome,
    key: Seq<u8>,
    value: crate::engine::walker::model::Stamped,
    k: Seq<u8>,
)
    requires
        insert_result(a, s, b, Ok(o), key, value, 0),
    ensures
        crate::engine::walker::model::find(b, o.new_root_slot as int, key, 0)
            == crate::engine::walker::model::Outcome::Found(value),
        k != key && !(crate::engine::walker::model::find(a, s, k, 0) is Corrupt)
            ==> crate::engine::walker::model::find(b, o.new_root_slot as int, k, 0)
            == crate::engine::walker::model::find(a, s, k, 0),
        match crate::engine::walker::model::find(a, s, key, 0) {
            crate::engine::walker::model::Outcome::Found(v) => o.previous is Some
                && o.previous->0@ == v.bytes,
            _ => o.previous is None,
        },
{
    assert(k.take(0) =~= key.take(0));
    assert(crate::engine::walker::laws::agrees(k, key, 0));
    assert(crate::engine::walker::laws::agrees(key, key, 0));
    let found = crate::engine::walker::model::find(b, o.new_root_slot as int, k, 0);
    let own = crate::engine::walker::model::find(b, o.new_root_slot as int, key, 0);
}

} // verus!
