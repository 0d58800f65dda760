//! Get and put on the tree of one frame.
use vstd::prelude::*;

use crate::api::errors::{Error, Result};
use crate::engine::walker::insert::insert_at;
use crate::engine::walker::lookup::{lookup, LookupResult};
use crate::engine::walker::migrate::{compact, Cost};
use crate::layout::PAGE_SIZE;
use crate::store::blob_frame::BlobFrame;

verus! {

/// The search for `key` from the root of a frame.
pub open spec fn search(img: Seq<u8>, key: Seq<u8>) -> crate::engine::walker::model::Outcome {
    crate::engine::walker::model::find(img, crate::store::blob_frame::root_of(img), key, 0)
}

/// What a frame stores: every key that its root finds, with the value found.
pub open spec fn entries(img: Seq<u8>) -> Map<Seq<u8>, Seq<u8>> {
    Map::new(|k: Seq<u8>| search(img, k) is Found, |k: Seq<u8>| search(img, k)->Found_0.bytes)
}

/// Whether a stored key stands in the strict-prefix relation to `key`.
pub open spec fn clashes(m: Map<Seq<u8>, Seq<u8>>, key: Seq<u8>) -> bool {
    exists|k: Seq<u8>| #[trigger]
        m.dom().contains(k) && crate::engine::walker::insert::prefix_related(k, key)
}

/// What a get from the image `img` gives.
pub open spec fn get_outcome(img: Seq<u8>, key: Seq<u8>, r: Result<Option<Vec<u8>>>) -> bool {
    match search(img, key) {
        crate::engine::walker::model::Outcome::Found(v) => r matches Ok(Some(b)) && b@ == v.bytes,
        crate::engine::walker::model::Outcome::Missing => r matches Ok(None),
        crate::engine::walker::model::Outcome::Cross { guid, depth } => r matches Err(e) && e
            == Error::NotYetImplemented("lookup: crossing into another blob"),
        crate::engine::walker::model::Outcome::Corrupt => r matches Err(Error::NodeCorrupt { .. }),
    }
}

/// Look `key` up from the root of `frame`.
pub fn get_in_frame(frame: &BlobFrame, key: &[u8]) -> (r: Result<Option<Vec<u8>>>)
    requires
        frame@.len() == PAGE_SIZE,
    ensures
        get_outcome(frame@, key@, r),
{
    let root: u16 = frame.root_slot();
    match lookup(frame, root, key) {
        Ok(LookupResult::Found(v)) => Ok(Some(vstd::slice::slice_to_vec(v))),
        Ok(LookupResult::NotFound) => Ok(None),
        Err(e) => Err(e),
    }
}

/// Room that a put of `key` with `value` takes.
pub open spec fn put_cost(img: Seq<u8>, key: Seq<u8>, value: Seq<u8>) -> Cost {
    crate::engine::walker::insert::insert_cost(
        img,
        crate::store::blob_frame::root_of(img),
        key,
        crate::layout::leaf::leaf_size(key.len() as int, value.len() as int),
        0,
    )
}

/// Whether a put fits the frame as it is.
pub open spec fn fits_now(img: Seq<u8>, key: Seq<u8>, value: Seq<u8>) -> bool {
    crate::engine::walker::migrate::affords(img, put_cost(img, key, value))
}

/// Whether a put fits once the frame is compacted.
pub open spec fn fits_compacted(img: Seq<u8>, key: Seq<u8>, value: Seq<u8>) -> bool {
    let live = crate::engine::walker::migrate::live_cost(img);
    let cost = put_cost(img, key, value);
    &&& crate::layout::DATA_AREA_START + 8 + live.bytes + cost.bytes <= PAGE_SIZE
    &&& 2 + live.slots + cost.slots <= crate::layout::MAX_SLOTS
}

/// Whether a put fits the frame, as it is or compacted.
pub open spec fn fits(img: Seq<u8>, key: Seq<u8>, value: Seq<u8>) -> bool {
    fits_now(img, key, value) || fits_compacted(img, key, value)
}

/// Whether the tree of `b` takes what that of `a` and a put take: behind all that
/// `a` holds where it fits there, behind the live nodes of `a` otherwise.
pub open spec fn room_taken(a: Seq<u8>, b: Seq<u8>, key: Seq<u8>, value: Seq<u8>) -> bool {
    let live = crate::engine::walker::migrate::live_cost(a);
    let cost = put_cost(a, key, value);
    if fits_now(a, key, value) {
        crate::engine::walker::migrate::spent(a, b, cost)
    } else {
        &&& crate::store::blob_frame::bump_of(b) == crate::layout::DATA_AREA_START + 8 + live.bytes
            + cost.bytes
        &&& crate::store::blob_frame::slots_of(b) == 2 + live.slots + cost.slots
    }
}

/// What a put of a short enough key and value into the image `a` gives: the
/// result, and the image `b`.
pub open spec fn put_result(
    a: Seq<u8>,
    b: Seq<u8>,
    r: Result<Option<Vec<u8>>>,
    key: Seq<u8>,
    value: Seq<u8>,
    seq: u64,
) -> bool {
    put_made(a, b, r, key, value, seq, fits(a, key, value))
}

/// The same, where `room` says that there is room for the put.
pub open spec fn put_made(
    a: Seq<u8>,
    b: Seq<u8>,
    r: Result<Option<Vec<u8>>>,
    key: Seq<u8>,
    value: Seq<u8>,
    seq: u64,
    room: bool,
) -> bool {
    &&& crate::store::blob_frame::frame_ok(b)
    &&& r is Ok ==> search(b, key) == crate::engine::walker::model::Outcome::Found(
        crate::engine::walker::model::stamp(value, seq),
    )
    &&& crate::engine::walker::laws::valid_tree(a) ==> {
        &&& crate::engine::walker::laws::valid_tree(b)
        &&& match r {
            Ok(previous) => {
                &&& entries(b) == entries(a).insert(key, value)
                &&& match previous {
                    Some(p) => entries(a).dom().contains(key) && p@ == entries(a)[key],
                    None => !entries(a).dom().contains(key),
                }
                &&& !clashes(entries(a), key)
                &&& room
            },
            Err(e) => {
                &&& entries(b) == entries(a)
                &&& match e {
                    Error::NotYetImplemented(_) => !entries(a).dom().contains(key) && clashes(
                        entries(a),
                        key,
                    ),
                    Error::OutOfSpace => !room,
                    _ => false,
                }
            },
        }
    }
}

/// What a put into the image `a` gives: the result, and the image `b`.
pub open spec fn put_outcome(
    a: Seq<u8>,
    b: Seq<u8>,
    r: Result<Option<Vec<u8>>>,
    key: Seq<u8>,
    value: Seq<u8>,
    seq: u64,
) -> bool {
    if key.len() > 65535 {
        r == Err::<Option<Vec<u8>>, Error>(Error::KeyTooLong) && b == a
    } else if value.len() > 65535 {
        r == Err::<Option<Vec<u8>>, Error>(Error::ValueTooLong) && b == a
    } else {
        put_result(a, b, r, key, value, seq)
    }
}

/// In a valid tree every search finds a value or nothing.
pub proof fn lemma_search_valid(img: Seq<u8>, key: Seq<u8>)
    requires
        crate::engine::walker::laws::valid_tree(img),
    ensures
        search(img, key) is Found || search(img, key) is Missing,
{
    let root = crate::store::blob_frame::root_of(img);
    if !(crate::engine::walker::model::node(img, root) is Empty) {
        assert(key.take(0) =~= Seq::empty());
        crate::engine::walker::laws::lemma_valid_find(img, root, key, 0);
    }
}

/// Stored keys never stand in the strict-prefix relation to one another.
pub proof fn stored_keys_are_prefix_free(img: Seq<u8>, k1: Seq<u8>, k2: Seq<u8>)
    requires
        crate::engine::walker::laws::valid_tree(img),
        entries(img).dom().contains(k1),
        entries(img).dom().contains(k2),
        k1.is_prefix_of(k2),
    ensures
        k1 == k2,
{
    let root = crate::store::blob_frame::root_of(img);
    assert(k1.take(0) =~= Seq::empty());
    crate::engine::walker::laws::lemma_prefix_free(img, root, k1, k2, 0);
}

/// A root that was inserted below gives the new entries.
proof fn lemma_inserted_entries(
    a: Seq<u8>,
    b: Seq<u8>,
    key: Seq<u8>,
    value: crate::engine::walker::model::Stamped,
)
    requires
        crate::engine::walker::laws::valid_tree(a),
        crate::engine::walker::laws::valid_tree(b),
        crate::engine::walker::insert::inserted(
            a,
            crate::store::blob_frame::root_of(a),
            b,
            crate::store::blob_frame::root_of(b),
            key,
            value,
            0,
        ),
    ensures
        entries(b) == entries(a).insert(key, value.bytes),
        !clashes(entries(a), key),
{
    assert forall|k: Seq<u8>| #![auto]
        if k == key {
            search(b, k) == crate::engine::walker::model::Outcome::Found(value)
        } else {
            search(b, k) == search(a, k)
        } by {
        assert(k.take(0) =~= key.take(0));
        assert(crate::engine::walker::laws::agrees(k, key, 0));
        lemma_search_valid(a, k);
    }
    assert(entries(b) =~= entries(a).insert(key, value.bytes));
    if clashes(entries(a), key) {
        let k = choose|k: Seq<u8>| #[trigger]
            entries(a).dom().contains(k) && crate::engine::walker::insert::prefix_related(k, key);
        assert(entries(b).dom().contains(k));
        assert(entries(b).dom().contains(key));
        if k.is_prefix_of(key) {
            stored_keys_are_prefix_free(b, k, key);
        } else {
            stored_keys_are_prefix_free(b, key, k);
        }
    }
}

/// Searches that end well end alike when the frame grows under the same root.
proof fn lemma_same_root_entries(a: Seq<u8>, b: Seq<u8>)
    requires
        crate::engine::walker::laws::valid_tree(a),
        crate::store::blob_frame::frame_ok(b),
        crate::store::blob_frame::extends(a, b),
        crate::store::blob_frame::root_of(a) == crate::store::blob_frame::root_of(b),
    ensures
        crate::engine::walker::laws::valid_tree(b),
        entries(b) == entries(a),
{
    let root = crate::store::blob_frame::root_of(a);
    if crate::engine::walker::model::node(a, root) is Empty {
        crate::engine::walker::laws::lemma_node_extends(a, b, root);
    } else {
        crate::engine::walker::laws::lemma_valid_extends(a, b, root, Seq::empty());
    }
    assert forall|k: Seq<u8>| #[trigger] search(b, k) == search(a, k) by {
        lemma_search_valid(a, k);
        crate::engine::walker::laws::lemma_find_extends(a, b, root, k, 0);
    }
    assert(entries(b) =~= entries(a));
}

/// A compacted frame has the same entries.
proof fn lemma_cloned_entries(a: Seq<u8>, b: Seq<u8>)
    requires
        crate::engine::walker::migrate::cloned(
            a,
            crate::store::blob_frame::root_of(a),
            b,
            crate::store::blob_frame::root_of(b),
        ),
    ensures
        entries(b) == entries(a),
        forall|k: Seq<u8>| #[trigger] search(b, k) == search(a, k),
{
    assert forall|k: Seq<u8>| #[trigger] search(b, k) == search(a, k) by {
        let out = crate::engine::walker::model::find(
            b,
            crate::store::blob_frame::root_of(b),
            k,
            0,
        );
    }
    assert(entries(b) =~= entries(a));
}

/// Put into a frame without compacting it first.
fn put_once(frame: &mut BlobFrame, key: &[u8], value: &[u8], seq: u64) -> (r: Result<
    Option<Vec<u8>>,
>)
    requires
        crate::store::blob_frame::frame_ok(old(frame)@),
        key@.len() <= 65535,
        value@.len() <= 65535,
    ensures
        put_made(
            old(frame)@,
            final(frame)@,
            r,
            key@,
            value@,
            seq,
            fits_now(old(frame)@, key@, value@),
        ),
        r is Ok ==> crate::engine::walker::migrate::spent(
            old(frame)@,
            final(frame)@,
            put_cost(old(frame)@, key@, value@),
        ),
        r is Err ==> crate::store::blob_frame::extends(old(frame)@, final(frame)@)
            && crate::store::blob_frame::same_header(old(frame)@, final(frame)@),
{
    let ghost a = frame@;
    let root: u16 = frame.root_slot();
    assert(key@.take(0) =~= Seq::empty());
    match insert_at(frame, root, key, value, seq, 0) {
        Ok(o) => {
            let ghost b1 = frame@;
            frame.set_root_slot(o.new_root_slot);
            proof {
                let b = frame@;
                let t = o.new_root_slot as int;
                assert(crate::engine::walker::laws::agrees(key@, key@, 0));
                crate::engine::walker::laws::lemma_find_extends(b1, b, t, key@, 0);
                if crate::engine::walker::laws::valid_tree(a) {
                    lemma_put_grown(
                        a,
                        b1,
                        b,
                        t,
                        key@,
                        crate::engine::walker::model::stamp(value@, seq),
                    );
                    lemma_search_valid(a, key@);
                    lemma_inserted_entries(
                        a,
                        b,
                        key@,
                        crate::engine::walker::model::stamp(value@, seq),
                    );
                }
            }
            Ok(o.previous)
        },
        Err(e) => {
            proof {
                if crate::engine::walker::laws::valid_tree(a) {
                    lemma_same_root_entries(a, frame@);
                    if e is NotYetImplemented {
                        let k = choose|k: Seq<u8>|
                            crate::engine::walker::laws::agrees(k, key@, 0)
                                && crate::engine::walker::insert::prefix_related(k, key@)
                                && #[trigger] crate::engine::walker::model::find(
                                a,
                                root as int,
                                k,
                                0,
                            ) is Found;
                        assert(entries(a).dom().contains(k));
                    }
                }
            }
            Err(e)
        },
    }
}

/// Installing the new root keeps what the insertion made.
proof fn lemma_put_grown(
    a: Seq<u8>,
    b1: Seq<u8>,
    b: Seq<u8>,
    t: int,
    key: Seq<u8>,
    value: crate::engine::walker::model::Stamped,
)
    requires
        crate::engine::walker::laws::valid_tree(a),
        crate::store::blob_frame::frame_ok(b),
        crate::store::blob_frame::extends(b1, b),
        crate::store::blob_frame::root_of(b) == t,
        crate::engine::walker::laws::valid_at(b1, t, Seq::empty()),
        crate::engine::walker::insert::inserted(
            a,
            crate::store::blob_frame::root_of(a),
            b1,
            t,
            key,
            value,
            0,
        ),
    ensures
        crate::engine::walker::laws::valid_tree(b),
        crate::engine::walker::insert::inserted(
            a,
            crate::store::blob_frame::root_of(a),
            b,
            t,
            key,
            value,
            0,
        ),
{
    crate::engine::walker::laws::lemma_valid_extends(b1, b, t, Seq::empty());
    let root = crate::store::blob_frame::root_of(a);
    assert forall|k: Seq<u8>| crate::engine::walker::laws::agrees(k, key, 0) implies {
        let out = #[trigger] crate::engine::walker::model::find(b, t, k, 0);
        let before = crate::engine::walker::model::find(a, root, k, 0);
        if k == key {
            out == crate::engine::walker::model::Outcome::Found(value)
        } else {
            !(before is Corrupt) ==> out == before
        }
    } by {
        let mid = crate::engine::walker::model::find(b1, t, k, 0);
        lemma_search_valid(a, k);
        crate::engine::walker::laws::lemma_find_extends(b1, b, t, k, 0);
    }
}

/// Growing a frame under the same root leaves the room its tree takes.
proof fn lemma_live_cost_extends(a: Seq<u8>, b: Seq<u8>)
    requires
        crate::engine::walker::laws::valid_tree(a),
        crate::store::blob_frame::extends(a, b),
        crate::store::blob_frame::root_of(a) == crate::store::blob_frame::root_of(b),
    ensures
        crate::engine::walker::migrate::live_cost(b)
            == crate::engine::walker::migrate::live_cost(a),
{
    let root = crate::store::blob_frame::root_of(a);
    crate::engine::walker::laws::lemma_node_extends(a, b, root);
    if !(crate::engine::walker::model::node(a, root) is Empty) {
        crate::engine::walker::migrate::lemma_cost_extends(
            a,
            b,
            root,
            Seq::empty(),
            crate::engine::walker::migrate::MAX_DEPTH as nat,
        );
    }
}

/// Growing a frame under the same root leaves the room that a put takes.
proof fn lemma_put_cost_extends(a: Seq<u8>, b: Seq<u8>, key: Seq<u8>, value: Seq<u8>)
    requires
        crate::engine::walker::laws::valid_tree(a),
        crate::store::blob_frame::extends(a, b),
        crate::store::blob_frame::root_of(a) == crate::store::blob_frame::root_of(b),
    ensures
        put_cost(b, key, value) == put_cost(a, key, value),
{
    let root = crate::store::blob_frame::root_of(a);
    let leaf = crate::layout::leaf::leaf_size(key.len() as int, value.len() as int);
    crate::engine::walker::laws::lemma_node_extends(a, b, root);
    if !(crate::engine::walker::model::node(a, root) is Empty) {
        crate::engine::walker::insert::lemma_insert_cost_extends(
            a,
            b,
            root,
            Seq::empty(),
            key,
            leaf,
            0,
        );
    }
}

/// A put of a key and a value of at most 65535 bytes each, where no stored key is
/// a strict prefix of the key or the other way round, succeeds in every valid tree
/// whose frame has room for the leaf, for one inner node per byte of the key and
/// for 672 bytes and four slots besides.
pub proof fn a_put_with_room_succeeds(
    a: Seq<u8>,
    b: Seq<u8>,
    r: Result<Option<Vec<u8>>>,
    key: Seq<u8>,
    value: Seq<u8>,
    seq: u64,
)
    requires
        put_outcome(a, b, r, key, value, seq),
        crate::engine::walker::laws::valid_tree(a),
        key.len() <= 65535,
        value.len() <= 65535,
        forall|k: Seq<u8>| #[trigger]
            entries(a).dom().contains(k) && k != key ==> !k.is_prefix_of(key) && !key.is_prefix_of(
                k,
            ),
        crate::store::blob_frame::bump_of(a) + (key.len() + value.len() + 24) + 520 * key.len()
            + 672 <= 524288,
        crate::store::blob_frame::slots_of(a) + key.len() + 4 <= 10240,
    ensures
        r is Ok,
        entries(b).dom().contains(key) && entries(b)[key] == value,
        forall|k: Seq<u8>|
            k != key ==> (#[trigger] entries(b).dom().contains(k) == entries(a).dom().contains(k))
                && (entries(a).dom().contains(k) ==> entries(b)[k] == entries(a)[k]),
{
    a_put_takes_bounded_room(a, key, value);
    crate::layout::leaf::leaf_size_is_tight(key.len() as int, value.len() as int);
}

/// The same where the frame is used up but has that room once it is compacted:
/// behind the nodes that are live.
pub proof fn a_put_with_room_behind_the_live_nodes_succeeds(
    a: Seq<u8>,
    b: Seq<u8>,
    r: Result<Option<Vec<u8>>>,
    key: Seq<u8>,
    value: Seq<u8>,
    seq: u64,
)
    requires
        put_outcome(a, b, r, key, value, seq),
        crate::engine::walker::laws::valid_tree(a),
        key.len() <= 65535,
        value.len() <= 65535,
        forall|k: Seq<u8>| #[trigger]
            entries(a).dom().contains(k) && k != key ==> !k.is_prefix_of(key) && !key.is_prefix_of(
                k,
            ),
        45064 + crate::engine::walker::migrate::live_cost(a).bytes + (key.len() + value.len() + 24)
            + 520 * key.len() + 672 <= 524288,
        2 + crate::engine::walker::migrate::live_cost(a).slots + key.len() + 4 <= 10240,
    ensures
        r is Ok,
{
    a_put_takes_bounded_room(a, key, value);
    crate::layout::leaf::leaf_size_is_tight(key.len() as int, value.len() as int);
}

/// A put is refused as clashing only where a stored key is a strict prefix of the
/// key or the other way round, and then the tree stays as it was.
pub proof fn a_put_clashes_only_with_prefixes(
    a: Seq<u8>,
    b: Seq<u8>,
    r: Result<Option<Vec<u8>>>,
    key: Seq<u8>,
    value: Seq<u8>,
    seq: u64,
) -> (k: Seq<u8>)
    requires
        put_outcome(a, b, r, key, value, seq),
        crate::engine::walker::laws::valid_tree(a),
        r matches Err(Error::NotYetImplemented(_)),
    ensures
        entries(a).dom().contains(k),
        k != key,
        k.is_prefix_of(key) || key.is_prefix_of(k),
        forall|x: Seq<u8>| #[trigger]
            entries(b).dom().contains(x) == entries(a).dom().contains(x) && (
            entries(a).dom().contains(x) ==> entries(b)[x] == entries(a)[x]),
{
    choose|k: Seq<u8>| #[trigger]
        entries(a).dom().contains(k) && crate::engine::walker::insert::prefix_related(k, key)
}

/// A get right after a put gives the value that was put, byte for byte, and the put
/// gave what a get gave before it. A get of any other key gives what it gave.
pub proof fn a_put_is_got(
    a: Seq<u8>,
    b: Seq<u8>,
    previous: Option<Vec<u8>>,
    key: Seq<u8>,
    value: Seq<u8>,
    seq: u64,
    asked: Seq<u8>,
    before: Result<Option<Vec<u8>>>,
    after: Result<Option<Vec<u8>>>,
)
    requires
        put_outcome(a, b, Ok(previous), key, value, seq),
        crate::engine::walker::laws::valid_tree(a),
        get_outcome(a, asked, before),
        get_outcome(b, asked, after),
    ensures
        before is Ok && after is Ok,
        asked == key ==> after->Ok_0 is Some && after->Ok_0->0@ == value,
        asked == key ==> (previous is Some) == (before->Ok_0 is Some) && (previous is Some
            ==> previous->0@ == before->Ok_0->0@),
        asked != key ==> (after->Ok_0 is Some) == (before->Ok_0 is Some) && (after->Ok_0 is Some
            ==> after->Ok_0->0@ == before->Ok_0->0@),
{
    lemma_search_valid(a, asked);
    lemma_search_valid(b, asked);
    assert(entries(b).dom().contains(asked) == (search(b, asked) is Found));
    assert(entries(a).dom().contains(asked) == (search(a, asked) is Found));
    if entries(a).dom().contains(asked) {
        assert(entries(a)[asked] == search(a, asked)->Found_0.bytes);
    }
    if entries(b).dom().contains(asked) {
        assert(entries(b)[asked] == search(b, asked)->Found_0.bytes);
    }
}

/// A put leaf bears the number it was put with.
pub proof fn a_put_leaf_bears_its_number(
    a: Seq<u8>,
    b: Seq<u8>,
    previous: Option<Vec<u8>>,
    key: Seq<u8>,
    value: Seq<u8>,
    seq: u64,
)
    requires
        put_outcome(a, b, Ok(previous), key, value, seq),
    ensures
        search(b, key) is Found,
        search(b, key)->Found_0.bytes == value,
        search(b, key)->Found_0.seq == seq,
{
}

/// A put that fails changes the answer to no get.
pub proof fn a_failed_put_changes_nothing(
    a: Seq<u8>,
    b: Seq<u8>,
    e: Error,
    key: Seq<u8>,
    value: Seq<u8>,
    seq: u64,
    asked: Seq<u8>,
    before: Result<Option<Vec<u8>>>,
    after: Result<Option<Vec<u8>>>,
)
    requires
        put_outcome(a, b, Err(e), key, value, seq),
        crate::engine::walker::laws::valid_tree(a),
        get_outcome(a, asked, before),
        get_outcome(b, asked, after),
    ensures
        before is Ok && after is Ok,
        (after->Ok_0 is Some) == (before->Ok_0 is Some),
        after->Ok_0 is Some ==> after->Ok_0->0@ == before->Ok_0->0@,
{
    lemma_search_valid(a, asked);
    lemma_search_valid(b, asked);
    assert(entries(b).dom().contains(asked) == (search(b, asked) is Found));
    assert(entries(a).dom().contains(asked) == (search(a, asked) is Found));
    if entries(a).dom().contains(asked) {
        assert(entries(a)[asked] == search(a, asked)->Found_0.bytes);
    }
    if entries(b).dom().contains(asked) {
        assert(entries(b)[asked] == search(b, asked)->Found_0.bytes);
    }
}

/// A key of more than 65535 bytes is refused, and so is a value of more; nothing
/// else is refused for its length.
pub proof fn only_what_is_too_long_is_refused_as_such(
    a: Seq<u8>,
    b: Seq<u8>,
    r: Result<Option<Vec<u8>>>,
    key: Seq<u8>,
    value: Seq<u8>,
    seq: u64,
)
    requires
        put_outcome(a, b, r, key, value, seq),
        crate::engine::walker::laws::valid_tree(a),
    ensures
        r == Err::<Option<Vec<u8>>, Error>(Error::KeyTooLong) <==> key.len() > 65535,
        r == Err::<Option<Vec<u8>>, Error>(Error::ValueTooLong) <==> key.len() <= 65535
            && value.len() > 65535,
        key.len() > 65535 || value.len() > 65535 ==> b == a,
{
}

/// A put finds no space only where what it takes fits neither behind what the frame
/// holds nor behind its live nodes. A put that succeeds takes exactly that room.
pub proof fn a_put_takes_the_room_it_needs(
    a: Seq<u8>,
    b: Seq<u8>,
    r: Result<Option<Vec<u8>>>,
    key: Seq<u8>,
    value: Seq<u8>,
    seq: u64,
)
    requires
        put_outcome(a, b, r, key, value, seq),
        crate::engine::walker::laws::valid_tree(a),
        r is Ok ==> room_taken(a, b, key, value),
    ensures
        ({
            let cost = put_cost(a, key, value);
            let live = crate::engine::walker::migrate::live_cost(a);
            let bump = crate::store::blob_frame::bump_of(a);
            let slots = crate::store::blob_frame::slots_of(a);
            let fits_behind = bump + cost.bytes <= 524288 && slots + cost.slots <= 10240;
            let fits_packed = 45064 + live.bytes + cost.bytes <= 524288 && 2 + live.slots
                + cost.slots <= 10240;
            &&& r == Err::<Option<Vec<u8>>, Error>(Error::OutOfSpace) ==> !fits_behind
                && !fits_packed
            &&& r is Ok ==> fits_behind || fits_packed
            &&& r is Ok && fits_behind ==> crate::store::blob_frame::bump_of(b) == bump + cost.bytes
                && crate::store::blob_frame::slots_of(b) == slots + cost.slots
            &&& r is Ok && !fits_behind ==> crate::store::blob_frame::bump_of(b) == 45064
                + live.bytes + cost.bytes && crate::store::blob_frame::slots_of(b) == 2
                + live.slots + cost.slots
        }),
{
}

/// A tree without entries has room for every key and value that is short enough.
pub proof fn an_empty_tree_takes_every_entry(img: Seq<u8>, key: Seq<u8>, value: Seq<u8>)
    requires
        crate::engine::walker::model::node(img, crate::store::blob_frame::root_of(img)) is Empty,
        key.len() <= 65535,
        value.len() <= 65535,
    ensures
        fits(img, key, value),
{
    crate::layout::leaf::leaf_size_is_tight(key.len() as int, value.len() as int);
}

/// A put takes its leaf, and at most one node for every byte of the key and four
/// more.
pub proof fn a_put_takes_bounded_room(img: Seq<u8>, key: Seq<u8>, value: Seq<u8>)
    ensures
        0 <= put_cost(img, key, value).bytes <= crate::layout::leaf::leaf_size(
            key.len() as int,
            value.len() as int,
        ) + 520 * key.len() + 672,
        0 <= put_cost(img, key, value).slots <= key.len() + 4,
{
    crate::layout::leaf::leaf_size_is_tight(key.len() as int, value.len() as int);
    crate::engine::walker::insert::lemma_insert_cost(
        img,
        crate::store::blob_frame::root_of(img),
        key,
        crate::layout::leaf::leaf_size(key.len() as int, value.len() as int),
        0,
    );
}

/// Put `key` with `value` into the tree of `frame`, compacting the frame where
/// its space is used up. Gives the previous value.
pub fn put_in_frame(frame: &mut BlobFrame, key: &[u8], value: &[u8], seq: u64) -> (r: Result<
    Option<Vec<u8>>,
>)
    requires
        crate::store::blob_frame::frame_ok(old(frame)@),
    ensures
        crate::store::blob_frame::frame_ok(final(frame)@),
        put_outcome(old(frame)@, final(frame)@, r, key@, value@, seq),
        crate::engine::walker::laws::valid_tree(old(frame)@) && r is Ok ==> room_taken(
            old(frame)@,
            final(frame)@,
            key@,
            value@,
        ),
{
    if key.len() > 65535 {
        return Err(Error::KeyTooLong);
    }
    if value.len() > 65535 {
        return Err(Error::ValueTooLong);
    }
    let ghost a = frame@;
    let first = put_once(frame, key, value, seq);
    let full: bool = match &first {
        Err(Error::OutOfSpace) => true,
        _ => false,
    };
    if !full {
        return first;
    }
    proof {
        crate::store::blob_frame::lemma_empty_image(
            crate::store::blob_frame::guid_of(frame@),
            crate::store::blob_frame::epoch_of(frame@),
        );
        crate::layout::leaf::leaf_size_is_tight(key@.len() as int, value@.len() as int);
        if crate::engine::walker::laws::valid_tree(a) {
            lemma_live_cost_extends(a, frame@);
            lemma_put_cost_extends(a, frame@, key@, value@);
            a_put_takes_bounded_room(a, key@, value@);
        }
    }
    let mut packed: BlobFrame = match compact(frame) {
        Ok(f) => f,
        Err(_e) => {
            return Err(Error::OutOfSpace);
        },
    };
    let ghost b1 = frame@;
    let ghost p0 = packed@;
    proof {
        lemma_cloned_entries(b1, p0);
        crate::engine::walker::migrate::lemma_mirrors_cost(
            b1,
            crate::store::blob_frame::root_of(b1),
            p0,
            crate::store::blob_frame::root_of(p0),
            crate::engine::walker::migrate::MAX_DEPTH as nat,
            key@,
            crate::layout::leaf::leaf_size(key@.len() as int, value@.len() as int),
            0,
        );
    }
    let second = put_once(&mut packed, key, value, seq);
    match second {
        Ok(previous) => {
            *frame = packed;
            Ok(previous)
        },
        Err(e) => Err(e),
    }
}

} // verus!
