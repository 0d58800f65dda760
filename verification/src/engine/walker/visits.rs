//! How many crossings a walk over a frame meets, where no node is shared.
use vstd::prelude::*;

use crate::engine::walker::model::Node;

verus! {

/// Crossings that a walk from slot `s`, `fuel` levels deep, meets.
pub open spec fn visits(img: Seq<u8>, s: int, fuel: nat) -> nat
    decreases fuel, 0nat,
{
    match crate::engine::walker::model::node(img, s) {
        Node::Blob { guid, prefix } => 1,
        Node::Prefix { bytes, child } => if fuel == 0 {
            0
        } else {
            visits(img, child, (fuel - 1) as nat)
        },
        Node::Inner { pairs } => if fuel == 0 {
            0
        } else {
            listed_visits(img, pairs, pairs.len(), (fuel - 1) as nat)
        },
        _ => 0,
    }
}

/// Crossings that walks from the first `n` listed children meet.
pub open spec fn listed_visits(img: Seq<u8>, pairs: Seq<(u8, u16)>, n: nat, fuel: nat) -> nat
    decreases fuel, n,
{
    if n == 0 {
        0
    } else {
        listed_visits(img, pairs, (n - 1) as nat, fuel) + visits(
            img,
            pairs[n - 1].1 as int,
            fuel,
        )
    }
}

/// Whether a walk from slot `s`, `fuel` levels deep, comes to slot `x`.
pub open spec fn reaches(img: Seq<u8>, s: int, fuel: nat, x: int) -> bool
    decreases fuel,
{
    ||| x == s
    ||| fuel > 0 && match crate::engine::walker::model::node(img, s) {
        Node::Prefix { bytes, child } => reaches(img, child, (fuel - 1) as nat, x),
        Node::Inner { pairs } => exists|i: int|
            0 <= i < pairs.len() && reaches(
                img,
                (#[trigger] pairs[i]).1 as int,
                (fuel - 1) as nat,
                x,
            ),
        _ => false,
    }
}

/// Whether walks from two slots come to no slot both.
pub open spec fn apart(img: Seq<u8>, s: int, t: int, fuel: nat) -> bool {
    forall|x: int| #[trigger] reaches(img, s, fuel, x) ==> !reaches(img, t, fuel, x)
}

/// Whether a walk comes to no slot twice.
pub open spec fn unshared(img: Seq<u8>, s: int, fuel: nat) -> bool
    decreases fuel,
{
    fuel == 0 || match crate::engine::walker::model::node(img, s) {
        Node::Prefix { bytes, child } => {
            &&& unshared(img, child, (fuel - 1) as nat)
            &&& !reaches(img, child, (fuel - 1) as nat, s)
        },
        Node::Inner { pairs } => {
            &&& forall|i: int|
                0 <= i < pairs.len() ==> unshared(
                    img,
                    (#[trigger] pairs[i]).1 as int,
                    (fuel - 1) as nat,
                ) && !reaches(img, pairs[i].1 as int, (fuel - 1) as nat, s)
            &&& forall|i: int, j: int|
                0 <= i < j < pairs.len() ==> apart(
                    img,
                    (#[trigger] pairs[i]).1 as int,
                    (#[trigger] pairs[j]).1 as int,
                    (fuel - 1) as nat,
                )
        },
        _ => true,
    }
}

/// What a walk from `s` did to a clean frame without sharing: it changed nodes
/// that it came to and no others, and its count went from `n0` to `n1`.
#[verifier::opaque]
pub open spec fn walked(a: Seq<u8>, b: Seq<u8>, s: int, fuel: nat, n0: u32, n1: u32) -> bool {
    crate::engine::walker::laws::clean(a) && crate::store::blob_frame::in_use(a, s) && unshared(
        a,
        s,
        fuel,
    ) ==> {
        &&& forall|x: int|
            crate::store::blob_frame::in_use(a, x) && !reaches(a, s, fuel, x)
                ==> #[trigger] crate::engine::walker::model::node(b, x)
                == crate::engine::walker::model::node(a, x)
        &&& n1 == crate::engine::walker::merge::capped(n0 + visits(a, s, fuel))
    }
}

/// A walk comes only to slots in use.
proof fn lemma_reaches_in_use(img: Seq<u8>, s: int, fuel: nat, x: int)
    requires
        crate::engine::walker::laws::clean(img),
        crate::store::blob_frame::in_use(img, s),
        reaches(img, s, fuel, x),
    ensures
        crate::store::blob_frame::in_use(img, x),
    decreases fuel,
{
    if x != s {
        assert(crate::engine::walker::laws::clean_node(img, s));
        match crate::engine::walker::model::node(img, s) {
            Node::Prefix { bytes, child } => {
                lemma_reaches_in_use(img, child, (fuel - 1) as nat, x);
            },
            Node::Inner { pairs } => {
                let i = choose|i: int|
                    0 <= i < pairs.len() && reaches(
                        img,
                        (#[trigger] pairs[i]).1 as int,
                        (fuel - 1) as nat,
                        x,
                    );
                assert(crate::store::blob_frame::in_use(
                    img,
                    crate::engine::walker::model::node(img, s)->Inner_pairs[i].1 as int,
                ));
                lemma_reaches_in_use(img, pairs[i].1 as int, (fuel - 1) as nat, x);
            },
            _ => {},
        }
    }
}

/// Where the nodes that a walk comes to are the same, the walk is.
proof fn lemma_same_region(a: Seq<u8>, b: Seq<u8>, s: int, fuel: nat)
    requires
        forall|x: int| #[trigger]
            reaches(a, s, fuel, x) ==> crate::engine::walker::model::node(b, x)
                == crate::engine::walker::model::node(a, x),
    ensures
        visits(b, s, fuel) == visits(a, s, fuel),
        forall|x: int| #[trigger] reaches(b, s, fuel, x) == reaches(a, s, fuel, x),
        unshared(b, s, fuel) == unshared(a, s, fuel),
    decreases fuel, 0nat,
{
    assert(reaches(a, s, fuel, s));
    if fuel > 0 {
        let less = (fuel - 1) as nat;
        match crate::engine::walker::model::node(a, s) {
            Node::Prefix { bytes, child } => {
                assert forall|x: int| #[trigger] reaches(a, child, less, x) implies
                    crate::engine::walker::model::node(b, x)
                    == crate::engine::walker::model::node(a, x) by {
                    assert(reaches(a, s, fuel, x));
                }
                lemma_same_region(a, b, child, less);
                assert forall|x: int| #[trigger] reaches(b, s, fuel, x) == reaches(
                    a,
                    s,
                    fuel,
                    x,
                ) by {
                    assert(reaches(b, child, less, x) == reaches(a, child, less, x));
                }
            },
            Node::Inner { pairs } => {
                assert forall|i: int| 0 <= i < pairs.len() implies visits(
                    b,
                    (#[trigger] pairs[i]).1 as int,
                    less,
                ) == visits(a, pairs[i].1 as int, less) && unshared(b, pairs[i].1 as int, less)
                    == unshared(a, pairs[i].1 as int, less) && (forall|x: int| #[trigger]
                    reaches(b, pairs[i].1 as int, less, x) == reaches(
                        a,
                        pairs[i].1 as int,
                        less,
                        x,
                    )) by {
                    assert forall|x: int| #[trigger]
                        reaches(a, pairs[i].1 as int, less, x) implies
                        crate::engine::walker::model::node(b, x)
                        == crate::engine::walker::model::node(a, x) by {
                        assert(reaches(a, s, fuel, x));
                    }
                    lemma_same_region(a, b, pairs[i].1 as int, less);
                }
                lemma_same_list(a, b, pairs, pairs.len(), less);
                assert(less + 1 == fuel);
                lemma_same_unshared(a, b, s, pairs, less);
            },
            _ => {},
        }
    }
}

proof fn lemma_same_list(a: Seq<u8>, b: Seq<u8>, pairs: Seq<(u8, u16)>, n: nat, fuel: nat)
    requires
        n <= pairs.len(),
        forall|i: int|
            0 <= i < pairs.len() ==> visits(b, (#[trigger] pairs[i]).1 as int, fuel) == visits(
                a,
                pairs[i].1 as int,
                fuel,
            ),
    ensures
        listed_visits(b, pairs, n, fuel) == listed_visits(a, pairs, n, fuel),
    decreases n,
{
    if n > 0 {
        lemma_same_list(a, b, pairs, (n - 1) as nat, fuel);
        assert(visits(b, pairs[n - 1].1 as int, fuel) == visits(a, pairs[n - 1].1 as int, fuel));
    }
}

proof fn lemma_same_unshared(a: Seq<u8>, b: Seq<u8>, s: int, pairs: Seq<(u8, u16)>, less: nat)
    requires
        crate::engine::walker::model::node(a, s) == (Node::Inner { pairs }),
        crate::engine::walker::model::node(b, s) == (Node::Inner { pairs }),
        forall|i: int|
            0 <= i < pairs.len() ==> unshared(b, (#[trigger] pairs[i]).1 as int, less) == unshared(
                a,
                pairs[i].1 as int,
                less,
            ) && (forall|x: int| #[trigger]
                reaches(b, pairs[i].1 as int, less, x) == reaches(a, pairs[i].1 as int, less, x)),
    ensures
        unshared(b, s, less + 1) == unshared(a, s, less + 1),
        forall|x: int| #[trigger] reaches(b, s, less + 1, x) == reaches(a, s, less + 1, x),
{
    assert forall|i: int, x: int| 0 <= i < pairs.len() implies #[trigger] reaches(
        b,
        pairs[i].1 as int,
        less,
        x,
    ) == reaches(a, pairs[i].1 as int, less, x) by {
        let p = pairs[i];
    }
    assert forall|x: int| #[trigger] reaches(b, s, less + 1, x) == reaches(a, s, less + 1, x) by {
        if reaches(a, s, less + 1, x) && x != s {
            let i = choose|i: int|
                0 <= i < pairs.len() && reaches(a, (#[trigger] pairs[i]).1 as int, less, x);
            assert(reaches(b, pairs[i].1 as int, less, x));
        }
        if reaches(b, s, less + 1, x) && x != s {
            let i = choose|i: int|
                0 <= i < pairs.len() && reaches(b, (#[trigger] pairs[i]).1 as int, less, x);
            assert(reaches(a, pairs[i].1 as int, less, x));
        }
    }
    assert forall|i: int, j: int| 0 <= i < j < pairs.len() implies apart(
        b,
        (#[trigger] pairs[i]).1 as int,
        (#[trigger] pairs[j]).1 as int,
        less,
    ) == apart(a, pairs[i].1 as int, pairs[j].1 as int, less) by {
        let (s1, s2) = (pairs[i].1 as int, pairs[j].1 as int);
        if apart(a, s1, s2, less) {
            assert forall|x: int| #[trigger] reaches(b, s1, less, x) implies !reaches(
                b,
                s2,
                less,
                x,
            ) by {
                assert(reaches(a, s1, less, x));
            }
        }
        if apart(b, s1, s2, less) {
            assert forall|x: int| #[trigger] reaches(a, s1, less, x) implies !reaches(
                a,
                s2,
                less,
                x,
            ) by {
                assert(reaches(b, s1, less, x));
            }
        }
    }
}

// ---------- counting through a walk ----------

/// A slot where no walk goes further.
pub proof fn lemma_walked_end(a: Seq<u8>, s: int, fuel: nat, n: u32)
    requires
        match crate::engine::walker::model::node(a, s) {
            Node::Blob { guid, prefix } => false,
            Node::Prefix { bytes, child } => fuel == 0,
            Node::Inner { pairs } => fuel == 0,
            _ => true,
        },
    ensures
        walked(a, a, s, fuel, n, n),
{
    reveal(walked);
}

/// A crossing is met once.
pub proof fn lemma_walked_crossing(
    a: Seq<u8>,
    b: Seq<u8>,
    s: int,
    fuel: nat,
    n0: u32,
    n1: u32,
)
    requires
        crate::engine::walker::model::node(a, s) is Blob,
        crate::store::blob_frame::extends(a, b),
        n1 == crate::engine::walker::merge::counted(n0),
    ensures
        walked(a, b, s, fuel, n0, n1),
{
    reveal(walked);
    if crate::engine::walker::laws::clean(a) {
        assert forall|x: int| crate::store::blob_frame::in_use(a, x) implies
            #[trigger] crate::engine::walker::model::node(b, x)
            == crate::engine::walker::model::node(a, x) by {
            assert(crate::engine::walker::laws::clean_node(a, x));
            crate::engine::walker::laws::lemma_node_extends(a, b, x);
        }
    }
}

/// Whether only slot `s` of the nodes of `b` changed on the way to `f`.
pub open spec fn only_slot(b: Seq<u8>, f: Seq<u8>, s: int) -> bool {
    forall|x: int|
        crate::store::blob_frame::in_use(b, x) && x != s
            ==> #[trigger] crate::engine::walker::model::node(f, x)
            == crate::engine::walker::model::node(b, x)
}

/// The walk below a prefix node, and its edge moved.
pub proof fn lemma_walked_prefix(
    a: Seq<u8>,
    b: Seq<u8>,
    f: Seq<u8>,
    s: int,
    child: int,
    fuel: nat,
    n0: u32,
    n1: u32,
)
    requires
        fuel > 0,
        crate::engine::walker::laws::clean(a) ==> (crate::engine::walker::model::node(a, s)
            matches Node::Prefix { bytes, child: c } && c == child),
        crate::store::blob_frame::slots_of(a) <= crate::store::blob_frame::slots_of(b)
            <= crate::layout::MAX_SLOTS,
        walked(a, b, child, (fuel - 1) as nat, n0, n1),
        crate::engine::walker::laws::clean(a) ==> only_slot(b, f, s),
    ensures
        walked(a, f, s, fuel, n0, n1),
{
    reveal(walked);
    if crate::engine::walker::laws::clean(a) && crate::store::blob_frame::in_use(a, s) && unshared(
        a,
        s,
        fuel,
    ) {
        assert(crate::engine::walker::laws::clean_node(a, s));
        assert forall|x: int|
            crate::store::blob_frame::in_use(a, x) && !reaches(a, s, fuel, x) implies
            #[trigger] crate::engine::walker::model::node(f, x)
            == crate::engine::walker::model::node(a, x) by {
            assert(!reaches(a, child, (fuel - 1) as nat, x));
            assert(crate::engine::walker::model::node(b, x) == crate::engine::walker::model::node(
                a,
                x,
            ));
        }
    }
}

/// What walks over the first `i` listed children of `s` did.
#[verifier::opaque]
pub open spec fn walked_list(
    a: Seq<u8>,
    b: Seq<u8>,
    s: int,
    pairs: Seq<(u8, u16)>,
    i: nat,
    fuel: nat,
    n0: u32,
    n1: u32,
) -> bool {
    crate::engine::walker::laws::clean(a) && crate::store::blob_frame::in_use(a, s) && unshared(
        a,
        s,
        fuel + 1,
    ) ==> {
        &&& forall|x: int|
            crate::store::blob_frame::in_use(a, x) && x != s && (forall|j: int|
                0 <= j < i ==> !reaches(a, (#[trigger] pairs[j]).1 as int, fuel, x))
                ==> #[trigger] crate::engine::walker::model::node(b, x)
                == crate::engine::walker::model::node(a, x)
        &&& n1 == crate::engine::walker::merge::capped(n0 + listed_visits(a, pairs, i, fuel))
    }
}

/// Before the first child.
pub proof fn lemma_walked_list_start(
    a: Seq<u8>,
    s: int,
    pairs: Seq<(u8, u16)>,
    fuel: nat,
    n: u32,
)
    ensures
        walked_list(a, a, s, pairs, 0, fuel, n, n),
{
    reveal(walked_list);
}

/// Before child `i` is walked, its part of the frame is as it was.
pub proof fn lemma_walked_list_next(
    a: Seq<u8>,
    b: Seq<u8>,
    s: int,
    pairs: Seq<(u8, u16)>,
    i: nat,
    fuel: nat,
    n0: u32,
    n1: u32,
)
    requires
        crate::engine::walker::laws::clean(a),
        crate::store::blob_frame::in_use(a, s),
        unshared(a, s, fuel + 1),
        crate::engine::walker::model::node(a, s) == (Node::Inner { pairs }),
        i < pairs.len(),
        walked_list(a, b, s, pairs, i, fuel, n0, n1),
    ensures
        crate::store::blob_frame::in_use(a, pairs[i as int].1 as int),
        visits(b, pairs[i as int].1 as int, fuel) == visits(a, pairs[i as int].1 as int, fuel),
        unshared(b, pairs[i as int].1 as int, fuel),
        forall|x: int| #[trigger]
            reaches(b, pairs[i as int].1 as int, fuel, x) == reaches(
                a,
                pairs[i as int].1 as int,
                fuel,
                x,
            ),
        forall|x: int| #[trigger]
            reaches(a, pairs[i as int].1 as int, fuel, x)
                ==> crate::engine::walker::model::node(b, x)
                == crate::engine::walker::model::node(a, x),
        !reaches(a, pairs[i as int].1 as int, fuel, s),
{
    reveal(walked_list);
    let c = pairs[i as int].1 as int;
    assert(crate::engine::walker::laws::clean_node(a, s));
    assert(crate::store::blob_frame::in_use(
        a,
        crate::engine::walker::model::node(a, s)->Inner_pairs[i as int].1 as int,
    ));
    assert forall|x: int| #[trigger] reaches(a, c, fuel, x) implies
        crate::engine::walker::model::node(b, x) == crate::engine::walker::model::node(a, x) by {
        lemma_reaches_in_use(a, c, fuel, x);
        assert(x != s);
        assert forall|j: int| 0 <= j < i implies !reaches(
            a,
            (#[trigger] pairs[j]).1 as int,
            fuel,
            x,
        ) by {
            assert(apart(a, pairs[j].1 as int, pairs[i as int].1 as int, fuel));
        }
    }
    lemma_same_region(a, b, c, fuel);
}

/// Child `i` is walked, and its edge moved.
pub proof fn lemma_walked_list_step(
    a: Seq<u8>,
    b: Seq<u8>,
    c: Seq<u8>,
    f: Seq<u8>,
    s: int,
    pairs: Seq<(u8, u16)>,
    i: nat,
    fuel: nat,
    n0: u32,
    n1: u32,
    n2: u32,
)
    requires
        crate::engine::walker::model::node(a, s) == (Node::Inner { pairs }),
        i < pairs.len(),
        n1 <= n2,
        crate::store::blob_frame::slots_of(a) <= crate::store::blob_frame::slots_of(b)
            <= crate::store::blob_frame::slots_of(c) <= crate::layout::MAX_SLOTS,
        crate::engine::walker::laws::clean(a) ==> crate::engine::walker::laws::clean(b),
        walked_list(a, b, s, pairs, i, fuel, n0, n1),
        walked(b, c, pairs[i as int].1 as int, fuel, n1, n2),
        crate::engine::walker::laws::clean(a) ==> only_slot(c, f, s),
    ensures
        walked_list(a, f, s, pairs, i + 1, fuel, n0, n2),
{
    if crate::engine::walker::laws::clean(a) && crate::store::blob_frame::in_use(a, s) && unshared(
        a,
        s,
        fuel + 1,
    ) {
        let ch = pairs[i as int].1 as int;
        lemma_walked_list_next(a, b, s, pairs, i, fuel, n0, n1);
        reveal(walked);
        reveal(walked_list);
        assert forall|x: int|
            crate::store::blob_frame::in_use(a, x) && x != s && (forall|j: int|
                0 <= j < i + 1 ==> !reaches(a, (#[trigger] pairs[j]).1 as int, fuel, x)) implies
            #[trigger] crate::engine::walker::model::node(f, x)
            == crate::engine::walker::model::node(a, x) by {
            assert(!reaches(a, pairs[i as int].1 as int, fuel, x));
            assert(!reaches(b, ch, fuel, x));
            assert(crate::engine::walker::model::node(b, x) == crate::engine::walker::model::node(
                a,
                x,
            ));
            assert(crate::engine::walker::model::node(c, x) == crate::engine::walker::model::node(
                b,
                x,
            ));
        }
        assert(listed_visits(a, pairs, i + 1, fuel) == listed_visits(a, pairs, i, fuel) + visits(
            a,
            ch,
            fuel,
        ));
    } else {
        reveal(walked_list);
    }
}

/// All children are walked.
pub proof fn lemma_walked_list_end(
    a: Seq<u8>,
    b: Seq<u8>,
    s: int,
    pairs: Seq<(u8, u16)>,
    fuel: nat,
    n0: u32,
    n1: u32,
)
    requires
        crate::engine::walker::model::node(a, s) == (Node::Inner { pairs }),
        walked_list(a, b, s, pairs, pairs.len(), fuel, n0, n1),
    ensures
        walked(a, b, s, fuel + 1, n0, n1),
{
    reveal(walked);
    reveal(walked_list);
    if crate::engine::walker::laws::clean(a) && crate::store::blob_frame::in_use(a, s) && unshared(
        a,
        s,
        fuel + 1,
    ) {
        assert forall|x: int|
            crate::store::blob_frame::in_use(a, x) && !reaches(a, s, fuel + 1, x) implies
            #[trigger] crate::engine::walker::model::node(b, x)
            == crate::engine::walker::model::node(a, x) by {
            assert forall|j: int| 0 <= j < pairs.len() implies !reaches(
                a,
                (#[trigger] pairs[j]).1 as int,
                fuel,
                x,
            ) by {
                if reaches(a, pairs[j].1 as int, fuel, x) {
                    assert(reaches(a, s, fuel + 1, x));
                }
            }
        }
        assert(visits(a, s, fuel + 1) == listed_visits(a, pairs, pairs.len(), fuel));
    }
}

/// A walk leaves a node alone that it does not come to.
pub proof fn lemma_walked_past(
    a: Seq<u8>,
    b: Seq<u8>,
    s: int,
    fuel: nat,
    n0: u32,
    n1: u32,
    x: int,
)
    requires
        walked(a, b, s, fuel, n0, n1),
        crate::engine::walker::laws::clean(a),
        crate::store::blob_frame::in_use(a, s),
        unshared(a, s, fuel),
        crate::store::blob_frame::in_use(a, x),
        !reaches(a, s, fuel, x),
    ensures
        crate::engine::walker::model::node(b, x) == crate::engine::walker::model::node(a, x),
{
    reveal(walked);
}

/// The crossings that a walk without sharing meets, each once.
proof fn lemma_met(img: Seq<u8>, s: int, fuel: nat) -> (w: Seq<int>)
    requires
        crate::engine::walker::laws::clean(img),
        crate::store::blob_frame::in_use(img, s),
        unshared(img, s, fuel),
    ensures
        w.no_duplicates(),
        w.len() == visits(img, s, fuel),
        forall|k: int|
            0 <= k < w.len() ==> reaches(img, s, fuel, #[trigger] w[k])
                && crate::store::blob_frame::in_use(img, w[k])
                && crate::engine::walker::model::node(img, w[k]) is Blob,
        forall|x: int| #[trigger]
            reaches(img, s, fuel, x) && crate::engine::walker::model::node(img, x) is Blob
                ==> w.contains(x),
    decreases fuel, 0nat,
{
    assert(crate::engine::walker::laws::clean_node(img, s));
    match crate::engine::walker::model::node(img, s) {
        Node::Blob { guid, prefix } => {
            assert(seq![s][0] == s);
            seq![s]
        },
        Node::Prefix { bytes, child } => if fuel == 0 {
            Seq::empty()
        } else {
            let w = lemma_met(img, child, (fuel - 1) as nat);
            assert forall|x: int| #[trigger]
                reaches(img, s, fuel, x) && crate::engine::walker::model::node(img, x)
                    is Blob implies w.contains(x) by {
                assert(reaches(img, child, (fuel - 1) as nat, x));
            }
            assert forall|k: int| 0 <= k < w.len() implies reaches(
                img,
                s,
                fuel,
                #[trigger] w[k],
            ) by {
                assert(reaches(img, child, (fuel - 1) as nat, w[k]));
            }
            w
        },
        Node::Inner { pairs } => if fuel == 0 {
            Seq::empty()
        } else {
            let less = (fuel - 1) as nat;
            let w = lemma_met_list(img, s, pairs, pairs.len(), less);
            assert forall|x: int| #[trigger]
                reaches(img, s, fuel, x) && crate::engine::walker::model::node(img, x)
                    is Blob implies w.contains(x) by {
                let i = choose|i: int|
                    0 <= i < pairs.len() && reaches(img, (#[trigger] pairs[i]).1 as int, less, x);
                assert(reaches(img, pairs[i].1 as int, less, x));
            }
            assert forall|k: int| 0 <= k < w.len() implies reaches(
                img,
                s,
                fuel,
                #[trigger] w[k],
            ) by {
                let i = choose|i: int|
                    0 <= i < pairs.len() && reaches(
                        img,
                        (#[trigger] pairs[i]).1 as int,
                        less,
                        w[k],
                    );
                assert(reaches(img, pairs[i].1 as int, less, w[k]));
            }
            w
        },
        _ => Seq::empty(),
    }
}

proof fn lemma_met_list(img: Seq<u8>, s: int, pairs: Seq<(u8, u16)>, n: nat, fuel: nat) -> (w: Seq<
    int,
>)
    requires
        crate::engine::walker::laws::clean(img),
        crate::store::blob_frame::in_use(img, s),
        crate::engine::walker::model::node(img, s) == (Node::Inner { pairs }),
        unshared(img, s, fuel + 1),
        n <= pairs.len(),
    ensures
        w.no_duplicates(),
        w.len() == listed_visits(img, pairs, n, fuel),
        forall|k: int|
            0 <= k < w.len() ==> crate::store::blob_frame::in_use(img, #[trigger] w[k])
                && crate::engine::walker::model::node(img, w[k]) is Blob && exists|i: int|
                0 <= i < n && reaches(img, (#[trigger] pairs[i]).1 as int, fuel, w[k]),
        forall|i: int, x: int|
            0 <= i < n && #[trigger] reaches(img, pairs[i].1 as int, fuel, x)
                && crate::engine::walker::model::node(img, x) is Blob ==> w.contains(x),
    decreases fuel, n + 1,
{
    if n == 0 {
        Seq::empty()
    } else {
        let m = (n - 1) as nat;
        let c = pairs[m as int].1 as int;
        assert(crate::engine::walker::laws::clean_node(img, s));
        assert(crate::store::blob_frame::in_use(
            img,
            crate::engine::walker::model::node(img, s)->Inner_pairs[m as int].1 as int,
        ));
        let w1 = lemma_met_list(img, s, pairs, m, fuel);
        let w2 = lemma_met(img, c, fuel);
        let w = w1 + w2;
        assert forall|i: int, x: int|
            0 <= i < n && #[trigger] reaches(img, pairs[i].1 as int, fuel, x)
                && crate::engine::walker::model::node(img, x) is Blob implies w.contains(x) by {
            if i < m {
                assert(w1.contains(x));
                let k = choose|k: int| 0 <= k < w1.len() && w1[k] == x;
                assert(w[k] == x);
            } else {
                assert(w2.contains(x));
                let k = choose|k: int| 0 <= k < w2.len() && w2[k] == x;
                assert(w[w1.len() + k] == x);
            }
        }
        assert forall|k: int| 0 <= k < w.len() implies crate::store::blob_frame::in_use(
            img,
            #[trigger] w[k],
        ) && crate::engine::walker::model::node(img, w[k]) is Blob && exists|i: int|
            0 <= i < n && reaches(img, (#[trigger] pairs[i]).1 as int, fuel, w[k]) by {
            if k < w1.len() {
                assert(w[k] == w1[k]);
                let i = choose|i: int|
                    0 <= i < m && reaches(img, (#[trigger] pairs[i]).1 as int, fuel, w1[k]);
                assert(reaches(img, pairs[i].1 as int, fuel, w[k]));
            } else {
                assert(w[k] == w2[k - w1.len()]);
                assert(reaches(img, pairs[m as int].1 as int, fuel, w[k]));
            }
        }
        assert forall|p: int, q: int| 0 <= p < w1.len() && 0 <= q < w2.len() implies w1[p]
            != w2[q] by {
            let i = choose|i: int|
                0 <= i < m && reaches(img, (#[trigger] pairs[i]).1 as int, fuel, w1[p]);
            assert(apart(img, pairs[i].1 as int, pairs[m as int].1 as int, fuel));
            assert(reaches(img, c, fuel, w2[q]));
        }
        assert forall|p: int, q: int| 0 <= p < w.len() && 0 <= q < w.len() && p != q implies w[p]
            != w[q] by {
            let n1 = w1.len();
            if p < n1 && q < n1 {
                assert(w1[p] != w1[q]);
            } else if p >= n1 && q >= n1 {
                assert(w2[p - n1] != w2[q - n1]);
            } else if p < n1 {
                assert(w1[p] != w2[q - n1]);
            } else {
                assert(w1[q] != w2[p - n1]);
            }
        }
        w
    }
}

/// A walk over a clean frame without sharing meets fewer crossings than there are
/// slots.
pub proof fn a_walk_meets_fewer_crossings_than_slots(img: Seq<u8>, s: int, fuel: nat)
    requires
        crate::engine::walker::laws::clean(img),
        crate::store::blob_frame::in_use(img, s),
        unshared(img, s, fuel),
    ensures
        visits(img, s, fuel) < crate::store::blob_frame::slots_of(img) <= crate::layout::MAX_SLOTS,
{
    let w = lemma_met(img, s, fuel);
    let all = vstd::set_lib::set_int_range(1, crate::store::blob_frame::slots_of(img));
    vstd::set_lib::lemma_int_range(1, crate::store::blob_frame::slots_of(img));
    w.unique_seq_to_set();
    assert(w.to_set().subset_of(all));
    vstd::set_lib::lemma_len_subset(w.to_set(), all);
}

/// A walk over a clean frame without sharing counts the crossings that it comes to:
/// as many as there are such slots, each once.
pub proof fn a_walk_counts_every_crossing_once(img: Seq<u8>, s: int, fuel: nat, met: Set<int>)
    requires
        crate::engine::walker::laws::clean(img),
        crate::store::blob_frame::in_use(img, s),
        unshared(img, s, fuel),
        forall|x: int| #[trigger]
            met.contains(x) <==> reaches(img, s, fuel, x) && crate::engine::walker::model::node(
                img,
                x,
            ) is Blob,
    ensures
        met.finite(),
        visits(img, s, fuel) == met.len(),
{
    let w = lemma_met(img, s, fuel);
    w.unique_seq_to_set();
    assert(w.to_set() =~= met) by {
        assert forall|x: int| w.to_set().contains(x) implies met.contains(x) by {
            let k = choose|k: int| 0 <= k < w.len() && w[k] == x;
            assert(reaches(img, s, fuel, w[k]));
        }
    }
}

/// The count after a walk over a clean frame without sharing.
pub proof fn lemma_walked_count(a: Seq<u8>, b: Seq<u8>, s: int, fuel: nat, n0: u32, n1: u32)
    requires
        walked(a, b, s, fuel, n0, n1),
        crate::engine::walker::laws::clean(a),
        crate::store::blob_frame::in_use(a, s),
        unshared(a, s, fuel),
    ensures
        n1 == crate::engine::walker::merge::capped(n0 + visits(a, s, fuel)),
{
    reveal(walked);
}

} // verus!
