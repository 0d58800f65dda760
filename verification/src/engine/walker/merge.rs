//! Parent-local merge pass: walks one parent frame looking for crossings whose
//! child blob is small enough to fold back inline, and folds them.
//!
//! A child is folded if it has no crossings of its own and no dead leaf, and its
//! tree fits into the parent.
//!
//! A fold copies the child's tree into the parent, points the edge that led to
//! the crossing at the copy, and only then stages the child for reclaim. Each
//! crossing is inspected at most once; copied subtrees are not walked again.
use vstd::prelude::*;
use vstd::slice::slice_subrange;

use crate::api::errors::{is_blob_store_not_found, Error, Result};
use crate::bytes::read_u32;
use crate::engine::walker::migrate::{clone_subtree, tombstone_below, MAX_DEPTH};
use crate::engine::walker::readers::{child_pairs, ntype_of, read_prefix};
use crate::engine::walker::writers::{alloc_prefix, inner_update_child, set_prefix_child};
use crate::layout::{BlobGuid, NodeType, BLOB_MAX_INLINE, DATA_AREA_START, MAX_SLOTS, PAGE_SIZE};
use crate::store::backend::{Backend, Call};
use crate::store::blob_frame::{read_guid, BlobFrame};
use crate::store::buffer_manager::{BufferManager, STRUCTURAL_SEQ};

verus! {

/// Counters of one merge pass.
#[derive(Debug, Clone, Copy, PartialEq, Eq, Structural)]
pub struct MergeStats {
    /// Child blobs folded into the parent.
    pub merged: u32,
    /// Crossings inspected, mergeable or not.
    pub inspected: u32,
}

impl Default for MergeStats {
    fn default() -> (stats: Self)
        ensures
            stats == (MergeStats { merged: 0, inspected: 0 }),
    {
        MergeStats { merged: 0, inspected: 0 }
    }
}

/// A fold whose edge is not rewired yet.
#[derive(Debug, Clone, Copy)]
pub struct PreparedBlobMerge {
    /// Slot of the crossing in the parent.
    pub parent_bn: u16,
    /// Slot of the copied subtree in the parent.
    pub inlined_root: u16,
    /// The blob that was folded in.
    pub child_guid: BlobGuid,
}

/// What became of one subtree.
#[derive(Debug, Clone, Copy)]
pub struct SubtreeMerge {
    /// Slot of the subtree now.
    pub root: u16,
    /// The fold that moved it, to be finalized by whoever owns the edge.
    pub prepared: Option<PreparedBlobMerge>,
}

impl SubtreeMerge {
    /// The subtree stays where it is.
    pub fn unchanged(root: u16) -> (m: Self)
        ensures
            m == (SubtreeMerge { root, prepared: None }),
    {
        SubtreeMerge { root, prepared: None }
    }
}

// ---------- what a pass keeps ----------

/// One more, up to the greatest count.
pub open spec fn counted(n: u32) -> u32 {
    if n == u32::MAX {
        n
    } else {
        (n + 1) as u32
    }
}

/// What a counter shows of `n`: it stays at the greatest count it holds.
pub open spec fn capped(n: int) -> u32 {
    if n > u32::MAX {
        u32::MAX
    } else {
        n as u32
    }
}

/// Every node of `a` is still there in `b`, with its type.
pub open spec fn shape_kept(a: Seq<u8>, b: Seq<u8>) -> bool {
    &&& crate::store::blob_frame::slots_of(a) <= crate::store::blob_frame::slots_of(b)
    &&& forall|s: int| #[trigger]
        crate::store::blob_frame::has_body(a, s) ==> crate::store::blob_frame::has_body(b, s)
            && crate::store::blob_frame::type_at(b, s) == crate::store::blob_frame::type_at(a, s)
}

/// Blobs staged for reclaim.
pub open spec fn staged(s: crate::store::buffer_manager::BufferState) -> int {
    s.deletes.len() as int + s.structural.len()
}

/// A pass changes nothing of a buffer manager's books but what it stages.
pub open spec fn books_kept(
    a: crate::store::buffer_manager::BufferState,
    b: crate::store::buffer_manager::BufferState,
) -> bool {
    &&& b.dirty == a.dirty
    &&& b.aside == a.aside
    &&& b.capacity == a.capacity
    &&& b.next_serial == a.next_serial
    &&& b.fork_barrier == a.fork_barrier
    &&& b.epoch == a.epoch
    &&& b.cow == a.cow
    &&& a.deletes.is_prefix_of(b.deletes)
    &&& a.structural.is_prefix_of(b.structural)
}

/// A store whose blobs count their crossings: one that counts none has none.
pub open spec fn honest<B: Backend>(bm: BufferManager<B>) -> bool {
    &&& bm.inner().faithful()
    &&& forall|id: u128| #[trigger]
        bm.seen().dom().contains(id) ==> crate::store::blob_frame::ext_blobs_of(bm.seen()[id]) == 0
            ==> crate::engine::walker::settled::crossing_free(
            bm.seen()[id],
            crate::store::blob_frame::root_of(bm.seen()[id]),
        )
}

/// What every step of a pass keeps, with `open` folds prepared but not
/// finalized.
#[verifier::opaque]
pub open spec fn pass_kept<B: Backend>(
    bm0: BufferManager<B>,
    bm1: BufferManager<B>,
    a: Seq<u8>,
    b: Seq<u8>,
    stats0: MergeStats,
    stats1: MergeStats,
    open: int,
) -> bool {
    &&& bm1.wf()
    &&& crate::store::blob_frame::frame_ok(b)
    &&& books_kept(bm0@, bm1@)
    &&& crate::store::blob_frame::guid_of(b) == crate::store::blob_frame::guid_of(a)
    &&& crate::store::blob_frame::epoch_of(b) == crate::store::blob_frame::epoch_of(a)
    &&& crate::store::blob_frame::root_of(b) == crate::store::blob_frame::root_of(a)
    &&& shape_kept(a, b)
    &&& crate::store::blob_frame::bump_of(a) <= crate::store::blob_frame::bump_of(b)
    &&& bm0.inner().faithful() ==> {
        &&& bm1.inner().faithful()
        &&& bm1.seen() == bm0.seen()
        &&& crate::engine::walker::equivalence::equivalent(bm0.seen(), a, b)
    }
    &&& bm0.inner().faithful() && bm0.inner().steady() ==> bm1.inner().steady()
    &&& crate::engine::walker::laws::clean(a) ==> crate::engine::walker::laws::clean(b)
    &&& honest(bm0) && crate::engine::walker::laws::clean(a)
        ==> crate::engine::walker::settled::evolves(a, b)
    &&& stats0.inspected <= stats1.inspected
    &&& stats0.merged <= stats0.inspected ==> stats1.merged <= stats1.inspected
    &&& staged(bm1@) - staged(bm0@) + open >= 0
    &&& stats1.merged == capped(stats0.merged + (staged(bm1@) - staged(bm0@) + open))
}

/// What a pass keeps, in the open.
pub proof fn lemma_pass_basic<B: Backend>(
    bm0: BufferManager<B>,
    bm1: BufferManager<B>,
    a: Seq<u8>,
    b: Seq<u8>,
    st0: MergeStats,
    st1: MergeStats,
    open: int,
)
    requires
        pass_kept(bm0, bm1, a, b, st0, st1, open),
    ensures
        bm1.wf(),
        crate::store::blob_frame::frame_ok(b),
        crate::store::blob_frame::slots_of(a) <= crate::store::blob_frame::slots_of(b),
        crate::store::blob_frame::bump_of(a) <= crate::store::blob_frame::bump_of(b),
        crate::store::blob_frame::guid_of(b) == crate::store::blob_frame::guid_of(a),
        crate::store::blob_frame::root_of(b) == crate::store::blob_frame::root_of(a),
        bm0.inner().faithful() ==> bm1.inner().faithful() && bm1.seen() == bm0.seen(),
        healthy(bm0) ==> healthy(bm1),
        honest(bm0) ==> honest(bm1),
        crate::engine::walker::laws::clean(a) ==> crate::engine::walker::laws::clean(b),
        honest(bm0) && crate::engine::walker::laws::clean(a)
            ==> crate::engine::walker::settled::evolves(a, b),
        st0.inspected <= st1.inspected,
        st0.merged <= st0.inspected ==> st1.merged <= st1.inspected,
        books_kept(bm0@, bm1@),
        bm0.inner().faithful() && bm0.inner().steady() ==> bm1.inner().steady(),
{
    reveal(pass_kept);
}

/// A pass keeps every slot's type.
pub proof fn lemma_pass_shape<B: Backend>(
    bm0: BufferManager<B>,
    bm1: BufferManager<B>,
    a: Seq<u8>,
    b: Seq<u8>,
    st0: MergeStats,
    st1: MergeStats,
    open: int,
    s: int,
)
    requires
        pass_kept(bm0, bm1, a, b, st0, st1, open),
        crate::store::blob_frame::has_body(a, s),
    ensures
        crate::store::blob_frame::has_body(b, s),
        crate::store::blob_frame::type_at(b, s) == crate::store::blob_frame::type_at(a, s),
{
    reveal(pass_kept);
}

/// Counting a fold opens it.
proof fn lemma_pass_counted<B: Backend>(
    bm0: BufferManager<B>,
    bm1: BufferManager<B>,
    a: Seq<u8>,
    b: Seq<u8>,
    st0: MergeStats,
    st1: MergeStats,
    st2: MergeStats,
)
    requires
        pass_kept(bm0, bm1, a, b, st0, st1, 0),
        st1 == (MergeStats { inspected: counted(st0.inspected), ..st0 }),
        st2 == (MergeStats { merged: counted(st1.merged), ..st1 }),
    ensures
        pass_kept(bm0, bm1, a, b, st0, st2, 1),
{
    reveal(pass_kept);
}

/// Two steps in a row.
pub proof fn lemma_pass_trans<B: Backend>(
    bm0: BufferManager<B>,
    bm1: BufferManager<B>,
    bm2: BufferManager<B>,
    a: Seq<u8>,
    b: Seq<u8>,
    c: Seq<u8>,
    st0: MergeStats,
    st1: MergeStats,
    st2: MergeStats,
    open1: int,
    open2: int,
)
    requires
        pass_kept(bm0, bm1, a, b, st0, st1, open1),
        pass_kept(bm1, bm2, b, c, st1, st2, open2),
    ensures
        pass_kept(bm0, bm2, a, c, st0, st2, open1 + open2),
{
    reveal(pass_kept);
    if bm0.inner().faithful() {
        crate::engine::walker::equivalence::lemma_equivalent_trans(bm0.seen(), a, b, c);
    }
    if honest(bm0) && crate::engine::walker::laws::clean(a) {
        crate::engine::walker::settled::lemma_evolves_trans(a, b, c);
    }
    lemma_prefix_trans(bm0@.deletes, bm1@.deletes, bm2@.deletes);
    lemma_prefix_trans(bm0@.structural, bm1@.structural, bm2@.structural);
    assert forall|s: int| #[trigger] crate::store::blob_frame::has_body(a, s) implies
        crate::store::blob_frame::has_body(c, s) && crate::store::blob_frame::type_at(c, s)
        == crate::store::blob_frame::type_at(a, s) by {
        assert(crate::store::blob_frame::has_body(b, s));
    }
}

/// A start of a start is a start.
pub proof fn lemma_prefix_trans<T>(a: Seq<T>, b: Seq<T>, c: Seq<T>)
    requires
        a.is_prefix_of(b),
        b.is_prefix_of(c),
    ensures
        a.is_prefix_of(c),
{
    assert forall|i: int| 0 <= i < a.len() implies a[i] == c[i] by {
        assert(b.subrange(0, a.len() as int)[i] == b[i]);
        assert(c.subrange(0, b.len() as int)[i] == c[i]);
    }
    assert(a =~= c.subrange(0, a.len() as int));
}

/// Growing the frame, with the manager only looked at, keeps all of it.
pub proof fn lemma_pass_grown<B: Backend>(
    bm0: BufferManager<B>,
    bm1: BufferManager<B>,
    a: Seq<u8>,
    b: Seq<u8>,
    st: MergeStats,
    inspected: u32,
)
    requires
        bm1.wf(),
        crate::store::blob_frame::frame_ok(b),
        crate::store::blob_frame::extends(a, b),
        crate::store::blob_frame::bump_of(a) <= crate::store::blob_frame::bump_of(b),
        crate::store::blob_frame::guid_of(b) == crate::store::blob_frame::guid_of(a),
        crate::store::blob_frame::epoch_of(b) == crate::store::blob_frame::epoch_of(a),
        crate::store::blob_frame::root_of(b) == crate::store::blob_frame::root_of(a),
        crate::engine::walker::laws::clean(a) ==> crate::engine::walker::laws::clean(b),
        books_kept(bm0@, bm1@),
        staged(bm1@) == staged(bm0@),
        bm0.inner().faithful() ==> bm1.inner().faithful() && bm1.seen() == bm0.seen(),
        bm0.inner().faithful() && bm0.inner().steady() ==> bm1.inner().steady(),
        st.inspected <= inspected,
    ensures
        pass_kept(bm0, bm1, a, b, st, MergeStats { inspected, ..st }, 0),
{
    reveal(pass_kept);
    crate::engine::walker::equivalence::lemma_equivalent_extends(bm0.seen(), a, b);
    if crate::engine::walker::laws::clean(a) {
        crate::engine::walker::settled::lemma_evolves_extends(a, b);
    }
    assert forall|s: int| #[trigger] crate::store::blob_frame::has_body(a, s) implies
        crate::store::blob_frame::has_body(b, s) && crate::store::blob_frame::type_at(b, s)
        == crate::store::blob_frame::type_at(a, s) by {
        assert(crate::store::blob_frame::same_node(a, b, s));
    }
}

/// Every list starts with itself.
pub proof fn lemma_books_refl(s: crate::store::buffer_manager::BufferState)
    ensures
        books_kept(s, s),
{
    assert(s.deletes =~= s.deletes.subrange(0, s.deletes.len() as int));
    assert(s.structural =~= s.structural.subrange(0, s.structural.len() as int));
}

// ---------- which children are folded ----------

/// Room for a fold of `child` into `parent`: the copy, and a prefix node.
pub open spec fn fold_fits(child: Seq<u8>, parent: Seq<u8>) -> bool {
    crate::engine::walker::migrate::affords(
        parent,
        crate::engine::walker::migrate::plus(
            crate::engine::walker::migrate::copy_cost(
                child,
                crate::store::blob_frame::root_of(child),
                MAX_DEPTH as nat,
            ),
            crate::engine::walker::migrate::one_node(128),
        ),
    )
}

/// Whether the tree of a blob has a dead leaf.
pub open spec fn has_dead(img: Seq<u8>) -> bool {
    crate::engine::walker::migrate::has_tombstone(
        img,
        crate::store::blob_frame::root_of(img),
        MAX_DEPTH as nat,
    )
}

/// Whether `child` is folded into `parent`: it has no crossings of its own and
/// no dead leaf, and the fold fits.
pub open spec fn mergeable(child: Seq<u8>, parent: Seq<u8>) -> bool {
    &&& crate::store::blob_frame::ext_blobs_of(child) == 0
    &&& !has_dead(child)
    &&& fold_fits(child, parent)
}

/// Whether the tree of a blob can be copied.
pub open spec fn sound_blob(img: Seq<u8>) -> bool {
    &&& crate::store::blob_frame::frame_ok(img)
    &&& crate::engine::walker::migrate::copyable(
        img,
        crate::store::blob_frame::root_of(img),
        MAX_DEPTH as nat,
    )
}

/// A store without faults whose blobs can all be copied.
pub open spec fn healthy<B: Backend>(bm: BufferManager<B>) -> bool {
    &&& bm.inner().faithful()
    &&& bm.inner().steady()
    &&& forall|id: u128| #[trigger] bm.seen().dom().contains(id) ==> sound_blob(bm.seen()[id])
}

/// What a read of the blob `id` fails with for reasons of the store's own.
pub open spec fn read_fault<B: Backend>(bm: BufferManager<B>, id: u128) -> Option<Error> {
    if bm.inner().faithful() && bm.inner().steady() {
        None
    } else {
        bm.fault(Call::Read(id))
    }
}

/// Whether a look at the blob `id` takes `bm0` to `bm1`.
pub open spec fn looked_at<B: Backend>(
    bm0: BufferManager<B>,
    bm1: BufferManager<B>,
    id: u128,
) -> bool {
    &&& bm1.wf()
    &&& bm1@ == crate::store::buffer_manager::looked_up(bm0@, id)
    &&& bm0.inner().faithful() ==> bm1.inner().faithful() && bm1.seen() == bm0.seen()
    &&& bm0.inner().faithful() && bm0.inner().steady() ==> bm1.inner().steady()
}

/// A look changes nothing that a pass keeps.
proof fn lemma_looked_at<B: Backend>(bm0: BufferManager<B>, bm1: BufferManager<B>, id: u128)
    requires
        looked_at(bm0, bm1, id),
    ensures
        books_kept(bm0@, bm1@),
        staged(bm1@) == staged(bm0@),
{
    lemma_books_refl(bm0@);
}

/// What loading the child `id` gives: the store's own fault, an error where
/// there is no such blob or its image is no frame, and the frame otherwise.
pub open spec fn load_outcome<B: Backend>(
    bm: BufferManager<B>,
    id: u128,
    r: Result<BlobFrame>,
) -> bool {
    match read_fault(bm, id) {
        Some(e) => r == Err::<BlobFrame, Error>(e),
        None => bm.inner().faithful() ==> (if !bm.seen().dom().contains(id) {
            r == Err::<BlobFrame, Error>(crate::store::backend::missing_blob())
        } else if crate::store::blob_frame::frame_ok(bm.seen()[id]) {
            r matches Ok(f) && f@ == bm.seen()[id]
        } else {
            r == Err::<BlobFrame, Error>(Error::corrupt("blob frame: bad layout"))
        }),
    }
}

/// The child frame behind a crossing.
fn load_child<B: Backend>(bm: &mut BufferManager<B>, guid: BlobGuid) -> (r: Result<BlobFrame>)
    requires
        old(bm).wf(),
    ensures
        looked_at(*old(bm), *final(bm), crate::layout::guid_id(guid)),
        load_outcome(*old(bm), crate::layout::guid_id(guid), r),
        r matches Ok(f) ==> crate::store::blob_frame::frame_ok(f@),
        old(bm).inner().faithful() ==> (r matches Ok(f) ==> old(bm).seen().dom().contains(
            crate::layout::guid_id(guid),
        ) && f@ == old(bm).seen()[crate::layout::guid_id(guid)]),
{
    match bm.peek_image(guid) {
        Ok(buf) => BlobFrame::wrap(buf.into_bytes()),
        Err(e) => Err(e),
    }
}

/// Whether a copy of the tree of `child` has room in a frame of its own.
pub open spec fn fits_alone(child: Seq<u8>) -> bool {
    let cost = crate::engine::walker::migrate::copy_cost(
        child,
        crate::store::blob_frame::root_of(child),
        MAX_DEPTH as nat,
    );
    DATA_AREA_START + 8 + cost.bytes <= PAGE_SIZE && 2 + cost.slots <= MAX_SLOTS
}

/// Whether the child `id` is folded into `parent`, or the error that comes of
/// asking. A tree that cannot be copied is an error, unless so much of it is
/// copied first that no frame has room for it.
pub open spec fn fold_outcome<B: Backend>(
    bm: BufferManager<B>,
    id: u128,
    parent: Seq<u8>,
    r: Result<bool>,
) -> bool {
    match read_fault(bm, id) {
        Some(e) => r == Err::<bool, Error>(e),
        None => bm.inner().faithful() ==> (if !bm.seen().dom().contains(id) {
            r == Err::<bool, Error>(crate::store::backend::missing_blob())
        } else if !crate::store::blob_frame::frame_ok(bm.seen()[id]) {
            r == Err::<bool, Error>(Error::corrupt("blob frame: bad layout"))
        } else if crate::store::blob_frame::ext_blobs_of(bm.seen()[id]) != 0 {
            r == Ok::<bool, Error>(false)
        } else if sound_blob(bm.seen()[id]) {
            r == Ok::<bool, Error>(mergeable(bm.seen()[id], parent))
        } else {
            ||| r matches Err(Error::NodeCorrupt { .. })
            ||| r == Ok::<bool, Error>(false) && !fits_alone(bm.seen()[id])
        }),
    }
}

/// A readable child without crossings and without tombstones is folded whenever
/// the bytes of its live nodes and a prefix node of 128 bytes fit behind the last
/// byte in use of the parent, and its live nodes and one more fit the slot table
/// of the parent; and no other child is.
pub proof fn a_child_that_has_room_is_folded<B: Backend>(
    bm: BufferManager<B>,
    id: u128,
    parent: Seq<u8>,
    r: Result<bool>,
)
    requires
        bm.inner().faithful(),
        bm.inner().steady() || bm.fault(Call::Read(id)) is None,
        bm.seen().dom().contains(id),
        sound_blob(bm.seen()[id]),
        fold_outcome(bm, id, parent, r),
    ensures
        r is Ok,
        ({
            let child = bm.seen()[id];
            let cost = crate::engine::walker::migrate::copy_cost(
                child,
                crate::store::blob_frame::root_of(child),
                65536,
            );
            r->Ok_0 == (crate::store::blob_frame::ext_blobs_of(child) == 0
                && !crate::engine::walker::migrate::has_tombstone(
                child,
                crate::store::blob_frame::root_of(child),
                65536,
            ) && crate::store::blob_frame::bump_of(parent) + cost.bytes + 128 <= 524288
                && crate::store::blob_frame::slots_of(parent) + cost.slots + 1 <= 10240)
        }),
{
}

/// A valid tree can be copied, and has no tombstone.
pub proof fn a_valid_tree_is_sound(img: Seq<u8>)
    requires
        crate::engine::walker::laws::valid_tree(img),
    ensures
        sound_blob(img),
        !has_dead(img),
{
    let root = crate::store::blob_frame::root_of(img);
    if !(crate::engine::walker::model::node(img, root) is Empty) {
        crate::engine::walker::migrate::lemma_valid_copyable(
            img,
            root,
            Seq::empty(),
            MAX_DEPTH as nat,
        );
        lemma_valid_no_tombstone(img, root, Seq::empty(), MAX_DEPTH as nat);
    }
}

proof fn lemma_valid_no_tombstone(img: Seq<u8>, s: int, path: Seq<u8>, fuel: nat)
    requires
        crate::engine::walker::laws::valid_at(img, s, path),
    ensures
        !crate::engine::walker::migrate::has_tombstone(img, s, fuel),
    decreases fuel,
{
    match crate::engine::walker::model::node(img, s) {
        crate::engine::walker::model::Node::Prefix { bytes, child } => {
            if fuel > 0 {
                lemma_valid_no_tombstone(img, child, path + bytes, (fuel - 1) as nat);
            }
        },
        crate::engine::walker::model::Node::Inner { pairs } => {
            if fuel > 0 {
                assert forall|i: int|
                    0 <= i < pairs.len() implies !crate::engine::walker::migrate::has_tombstone(
                    img,
                    (#[trigger] pairs[i]).1 as int,
                    (fuel - 1) as nat,
                ) by {
                    lemma_valid_no_tombstone(
                        img,
                        pairs[i].1 as int,
                        path.push(pairs[i].0),
                        (fuel - 1) as nat,
                    );
                }
            }
        },
        _ => {},
    }
}

/// A child that holds a valid tree, counts no crossing and has room in the parent is
/// folded, whatever it stores.
pub proof fn a_valid_child_that_has_room_is_folded<B: Backend>(
    bm: BufferManager<B>,
    id: u128,
    parent: Seq<u8>,
    r: Result<bool>,
)
    requires
        bm.inner().faithful(),
        bm.inner().steady() || bm.fault(Call::Read(id)) is None,
        bm.seen().dom().contains(id),
        crate::engine::walker::laws::valid_tree(bm.seen()[id]),
        crate::store::blob_frame::ext_blobs_of(bm.seen()[id]) == 0,
        ({
            let child = bm.seen()[id];
            let cost = crate::engine::walker::migrate::copy_cost(
                child,
                crate::store::blob_frame::root_of(child),
                65536,
            );
            crate::store::blob_frame::bump_of(parent) + cost.bytes + 128 <= 524288
                && crate::store::blob_frame::slots_of(parent) + cost.slots + 1 <= 10240
        }),
        fold_outcome(bm, id, parent, r),
    ensures
        r == Ok::<bool, Error>(true),
{
    a_valid_tree_is_sound(bm.seen()[id]);
}

/// A store without faults whose blobs all hold valid trees, or trees that can be
/// copied and count their crossings, is one that a pass over a clean parent ends well
/// on.
pub proof fn a_store_of_valid_trees_is_healthy<B: Backend>(bm: BufferManager<B>)
    requires
        bm.inner().faithful(),
        bm.inner().steady(),
        forall|id: u128| #[trigger]
            bm.seen().dom().contains(id) ==> crate::engine::walker::laws::valid_tree(bm.seen()[id])
                || (sound_blob(bm.seen()[id]) && crate::store::blob_frame::ext_blobs_of(
                bm.seen()[id],
            ) != 0),
    ensures
        healthy(bm),
{
    assert forall|id: u128| #[trigger] bm.seen().dom().contains(id) implies sound_blob(
        bm.seen()[id],
    ) by {
        if crate::engine::walker::laws::valid_tree(bm.seen()[id]) {
            a_valid_tree_is_sound(bm.seen()[id]);
        }
    }
}

/// A store whose blobs all hold valid trees, or count their crossings, is honest: a
/// valid tree has none.
pub proof fn a_store_of_valid_trees_is_honest<B: Backend>(bm: BufferManager<B>)
    requires
        bm.inner().faithful(),
        forall|id: u128| #[trigger]
            bm.seen().dom().contains(id) ==> crate::engine::walker::laws::valid_tree(bm.seen()[id])
                || (sound_blob(bm.seen()[id]) && crate::store::blob_frame::ext_blobs_of(
                bm.seen()[id],
            ) != 0),
    ensures
        honest(bm),
{
    assert forall|id: u128| #[trigger]
        bm.seen().dom().contains(id) implies crate::store::blob_frame::ext_blobs_of(bm.seen()[id])
        == 0 ==> crate::engine::walker::settled::crossing_free(
        bm.seen()[id],
        crate::store::blob_frame::root_of(bm.seen()[id]),
    ) by {
        let img = bm.seen()[id];
        let root = crate::store::blob_frame::root_of(img);
        if crate::store::blob_frame::ext_blobs_of(img) == 0 {
            assert forall|k: Seq<u8>, d: int| 0 <= d <= k.len() implies !(
            #[trigger] crate::engine::walker::model::find(img, root, k, d) is Cross) by {
                if !(crate::engine::walker::model::node(img, root) is Empty) {
                    lemma_valid_no_crossing(img, root, Seq::empty(), k, d);
                }
            }
        }
    }
}

proof fn lemma_valid_no_crossing(img: Seq<u8>, s: int, path: Seq<u8>, k: Seq<u8>, d: int)
    requires
        crate::engine::walker::laws::valid_at(img, s, path),
        0 <= d <= k.len(),
    ensures
        !(crate::engine::walker::model::find(img, s, k, d) is Cross),
    decreases k.len() - d,
{
    match crate::engine::walker::model::node(img, s) {
        crate::engine::walker::model::Node::Prefix { bytes, child } => {
            if crate::engine::walker::model::continues(k, d, bytes) {
                lemma_valid_no_crossing(img, child, path + bytes, k, d + bytes.len());
            }
        },
        crate::engine::walker::model::Node::Inner { pairs } => {
            if d < k.len() {
                if let Some(c) = crate::engine::walker::model::child_of(pairs, k[d]) {
                    let i = crate::engine::walker::settled::lemma_child_listed(pairs, k[d]);
                    lemma_valid_no_crossing(img, c as int, path.push(pairs[i].0), k, d + 1);
                }
            }
        },
        _ => {},
    }
}

/// A child that is not there is reported missing, one whose bytes are no frame
/// corrupt, and one with crossings of its own is not folded; a fault of the store is
/// handed on.
pub proof fn a_child_that_cannot_be_read_is_reported<B: Backend>(
    bm: BufferManager<B>,
    id: u128,
    parent: Seq<u8>,
    r: Result<bool>,
)
    requires
        bm.inner().faithful(),
        fold_outcome(bm, id, parent, r),
    ensures
        !bm.inner().steady() && bm.fault(Call::Read(id)) is Some ==> r == Err::<bool, Error>(
            bm.fault(Call::Read(id))->0,
        ),
        bm.inner().steady() || bm.fault(Call::Read(id)) is None ==> {
            &&& !bm.seen().dom().contains(id) ==> r == Err::<bool, Error>(
                Error::BlobStoreIo(crate::api::errors::StoreFault::NotFound),
            )
            &&& bm.seen().dom().contains(id) && !crate::store::blob_frame::frame_ok(bm.seen()[id])
                ==> (r is Err && r->Err_0 is NodeCorrupt)
            &&& bm.seen().dom().contains(id) && crate::store::blob_frame::frame_ok(bm.seen()[id])
                && crate::store::blob_frame::ext_blobs_of(bm.seen()[id]) > 0 ==> r == Ok::<
                bool,
                Error,
            >(false)
        },
{
}

/// A fold fits exactly where the bytes of the child's live nodes and 128 more fit
/// behind the last byte in use of the parent, and its live nodes and one more fit the
/// slot table.
pub proof fn a_fold_takes_the_live_nodes_and_a_prefix(child: Seq<u8>, parent: Seq<u8>)
    ensures
        ({
            let cost = crate::engine::walker::migrate::copy_cost(
                child,
                crate::store::blob_frame::root_of(child),
                65536,
            );
            fold_fits(child, parent) <==> crate::store::blob_frame::bump_of(parent) + cost.bytes
                + 128 <= 524288 && crate::store::blob_frame::slots_of(parent) + cost.slots + 1
                <= 10240
        }),
{
}

/// A pass that succeeds came to no crossing whose child is there and is no frame, nor
/// to one whose child counts no crossings and holds no tree, unless no frame has
/// room for what it holds.
pub proof fn a_whole_pass_met_only_frames(
    blobs: Map<u128, Seq<u8>>,
    img: Seq<u8>,
    s: int,
    fuel: nat,
    x: int,
    child: BlobGuid,
)
    requires
        passable(blobs, img, s, fuel),
        crate::engine::walker::visits::reaches(img, s, fuel, x),
        crate::engine::walker::reclaim::crosses(img, x, child@),
        blobs.dom().contains(crate::layout::guid_id(child)),
    ensures
        crate::store::blob_frame::frame_ok(blobs[crate::layout::guid_id(child)]),
        ({
            let c = blobs[crate::layout::guid_id(child)];
            let cost = crate::engine::walker::migrate::copy_cost(
                c,
                crate::store::blob_frame::root_of(c),
                65536,
            );
            crate::store::blob_frame::ext_blobs_of(c) == 0 && 45064 + cost.bytes <= 524288 && 2
                + cost.slots <= 10240 ==> crate::engine::walker::migrate::copyable(
                c,
                crate::store::blob_frame::root_of(c),
                65536,
            )
        }),
{
    assert(!stops_at(blobs, img, x));
    assert(crate::engine::walker::equivalence::bytes_id(child@) == crate::layout::guid_id(child));
}

/// After a pass no search of at most 65536 bytes ends at a crossing to a child that
/// is there, without crossings and tombstones, and that has room in the parent.
pub proof fn a_pass_leaves_no_crossing_to_a_child_that_has_room(
    blobs: Map<u128, Seq<u8>>,
    parent: Seq<u8>,
    key: Seq<u8>,
    child: BlobGuid,
)
    requires
        crate::engine::walker::settled::settled(
            blobs,
            parent,
            crate::store::blob_frame::root_of(parent),
            65536,
        ),
        key.len() <= 65536,
        blobs.dom().contains(crate::layout::guid_id(child)),
        ({
            let img = blobs[crate::layout::guid_id(child)];
            let cost = crate::engine::walker::migrate::copy_cost(
                img,
                crate::store::blob_frame::root_of(img),
                65536,
            );
            &&& crate::store::blob_frame::ext_blobs_of(img) == 0
            &&& forall|t: int|
                (#[trigger] crate::engine::walker::model::node(
                    img,
                    t,
                ) matches crate::engine::walker::model::Node::Leaf {
                    key: k,
                    value,
                    live,
                } ==> live)
            &&& crate::store::blob_frame::bump_of(parent) + cost.bytes + 128 <= 524288
            &&& crate::store::blob_frame::slots_of(parent) + cost.slots + 1 <= 10240
        }),
    ensures
        !(crate::engine::walker::model::find(
            parent,
            crate::store::blob_frame::root_of(parent),
            key,
            0,
        ) matches crate::engine::walker::model::Outcome::Cross { guid, depth } && guid == child@),
{
    let img = blobs[crate::layout::guid_id(child)];
    crate::engine::walker::migrate::only_a_dead_leaf_is_a_tombstone(
        img,
        crate::store::blob_frame::root_of(img),
        65536,
    );
    let found = crate::engine::walker::model::find(
        parent,
        crate::store::blob_frame::root_of(parent),
        key,
        0,
    );
    assert(mergeable(img, parent));
    assert(crate::engine::walker::equivalence::bytes_id(child@) == crate::layout::guid_id(child));
}

/// Whether the child behind the crossing to `guid` is to be folded into `frame`.
pub fn is_mergeable<B: Backend>(
    bm: &mut BufferManager<B>,
    frame: &BlobFrame,
    guid: BlobGuid,
) -> (r: Result<bool>)
    requires
        old(bm).wf(),
        crate::store::blob_frame::frame_ok(frame@),
    ensures
        looked_at(*old(bm), *final(bm), crate::layout::guid_id(guid)),
        fold_outcome(*old(bm), crate::layout::guid_id(guid), frame@, r),
        old(bm).inner().faithful() && r == Ok::<bool, Error>(true) ==> old(
            bm,
        ).seen().dom().contains(crate::layout::guid_id(guid)) && sound_blob(
            old(bm).seen()[crate::layout::guid_id(guid)],
        ) && mergeable(old(bm).seen()[crate::layout::guid_id(guid)], frame@),
{
    let child: BlobFrame = match load_child(bm, guid) {
        Ok(f) => f,
        Err(e) => {
            return Err(e);
        },
    };
    if child.num_ext_blobs() != 0 {
        return Ok(false);
    }
    let mut scratch: BlobFrame = BlobFrame::init(guid, 0);
    proof {
        crate::store::blob_frame::lemma_empty_image(guid@, 0);
        crate::engine::walker::migrate::lemma_cost(
            child@,
            crate::store::blob_frame::root_of(child@),
            MAX_DEPTH as nat,
        );
    }
    match clone_subtree(&child, child.root_slot(), &mut scratch, MAX_DEPTH) {
        Ok(_copy) => {
            let bytes: u32 = scratch.space_used() - (DATA_AREA_START + 8);
            let slots: u16 = scratch.num_slots() - 2;
            Ok(
                !tombstone_below(&child, child.root_slot(), MAX_DEPTH) && frame.space_used() + bytes + 128 <= PAGE_SIZE && frame.num_slots() + slots + 1
                    <= MAX_SLOTS,
            )
        },
        Err(Error::OutOfSpace) => Ok(false),
        Err(e) => Err(e),
    }
}

// ---------- children that stop a pass ----------

/// Whether the blob `id` is there and cannot be read as a tree: its image is no
/// frame, or holds no tree that could be copied.
pub open spec fn unreadable(blobs: Map<u128, Seq<u8>>, id: u128) -> bool {
    &&& blobs.dom().contains(id)
    &&& {
        ||| !crate::store::blob_frame::frame_ok(blobs[id])
        ||| crate::store::blob_frame::ext_blobs_of(blobs[id]) == 0 && !sound_blob(blobs[id])
            && fits_alone(blobs[id])
    }
}

/// Whether slot `x` holds a crossing to a child that cannot be read.
pub open spec fn stops_at(blobs: Map<u128, Seq<u8>>, img: Seq<u8>, x: int) -> bool {
    crate::engine::walker::model::node(img, x) matches crate::engine::walker::model::Node::Blob {
        guid,
        prefix,
    } && unreadable(blobs, crate::engine::walker::equivalence::bytes_id(guid))
}

/// Whether a walk from slot `s`, `fuel` levels deep, comes to no child that
/// cannot be read.
pub open spec fn passable(blobs: Map<u128, Seq<u8>>, img: Seq<u8>, s: int, fuel: nat) -> bool {
    forall|x: int| #[trigger]
        crate::engine::walker::visits::reaches(img, s, fuel, x) ==> !stops_at(blobs, img, x)
}

/// A walk that ended well on a store without faults came to no child that cannot
/// be read.
#[verifier::opaque]
pub open spec fn passed<B: Backend>(
    bm: BufferManager<B>,
    img: Seq<u8>,
    s: int,
    fuel: nat,
) -> bool {
    bm.inner().faithful() && bm.inner().steady() && crate::engine::walker::laws::clean(img)
        && crate::store::blob_frame::in_use(img, s) && crate::engine::walker::visits::unshared(
        img,
        s,
        fuel,
    ) ==> passable(bm.seen(), img, s, fuel)
}

/// A slot where no walk goes further.
proof fn lemma_passed_end<B: Backend>(bm: BufferManager<B>, img: Seq<u8>, s: int, fuel: nat)
    requires
        match crate::engine::walker::model::node(img, s) {
            crate::engine::walker::model::Node::Prefix { bytes, child } => fuel == 0,
            crate::engine::walker::model::Node::Inner { pairs } => fuel == 0,
            _ => true,
        },
        bm.inner().faithful() && bm.inner().steady() ==> !stops_at(bm.seen(), img, s),
    ensures
        passed(bm, img, s, fuel),
{
    reveal(passed);
}

/// The walk below a prefix node.
proof fn lemma_passed_prefix<B: Backend>(
    bm: BufferManager<B>,
    img: Seq<u8>,
    s: int,
    child: int,
    fuel: nat,
)
    requires
        fuel > 0,
        crate::engine::walker::laws::clean(img) ==> (crate::engine::walker::model::node(img, s)
            matches crate::engine::walker::model::Node::Prefix { bytes, child: c } && c == child),
        passed(bm, img, child, (fuel - 1) as nat),
    ensures
        passed(bm, img, s, fuel),
{
    reveal(passed);
    if bm.inner().faithful() && bm.inner().steady() && crate::engine::walker::laws::clean(img)
        && crate::store::blob_frame::in_use(img, s) && crate::engine::walker::visits::unshared(
        img,
        s,
        fuel,
    ) {
        assert(crate::engine::walker::laws::clean_node(img, s));
        assert forall|x: int| #[trigger]
            crate::engine::walker::visits::reaches(img, s, fuel, x) implies !stops_at(
            bm.seen(),
            img,
            x,
        ) by {
            if x != s {
                assert(crate::engine::walker::visits::reaches(
                    img,
                    child,
                    (fuel - 1) as nat,
                    x,
                ));
            }
        }
    }
}

/// Walks over the first `i` listed children of `s` came to no child that cannot
/// be read.
#[verifier::opaque]
pub open spec fn passed_list<B: Backend>(
    bm: BufferManager<B>,
    img: Seq<u8>,
    s: int,
    pairs: Seq<(u8, u16)>,
    i: int,
    fuel: nat,
) -> bool {
    bm.inner().faithful() && bm.inner().steady() && crate::engine::walker::laws::clean(img)
        && crate::store::blob_frame::in_use(img, s) && crate::engine::walker::visits::unshared(
        img,
        s,
        fuel + 1,
    ) ==> forall|j: int|
        0 <= j < i ==> passable(bm.seen(), img, (#[trigger] pairs[j]).1 as int, fuel)
}

/// Before the first child.
proof fn lemma_passed_start<B: Backend>(
    bm: BufferManager<B>,
    img: Seq<u8>,
    s: int,
    pairs: Seq<(u8, u16)>,
    fuel: nat,
)
    ensures
        passed_list(bm, img, s, pairs, 0, fuel),
{
    reveal(passed_list);
}

/// Child `i` was walked in the frame `b`.
proof fn lemma_passed_step<B: Backend>(
    bm0: BufferManager<B>,
    bm1: BufferManager<B>,
    a: Seq<u8>,
    b: Seq<u8>,
    s: int,
    pairs: Seq<(u8, u16)>,
    i: nat,
    fuel: nat,
    n0: u32,
    n1: u32,
)
    requires
        crate::engine::walker::model::node(a, s) == (crate::engine::walker::model::Node::Inner {
            pairs,
        }),
        i < pairs.len(),
        passed_list(bm0, a, s, pairs, i as int, fuel),
        passed(bm1, b, pairs[i as int].1 as int, fuel),
        crate::engine::walker::visits::walked_list(a, b, s, pairs, i, fuel, n0, n1),
        crate::engine::walker::laws::clean(a) ==> crate::engine::walker::laws::clean(b),
        crate::store::blob_frame::slots_of(a) <= crate::store::blob_frame::slots_of(b)
            <= MAX_SLOTS,
        bm0.inner().faithful() && bm0.inner().steady() ==> bm1.inner().faithful()
            && bm1.inner().steady() && bm1.seen() == bm0.seen(),
    ensures
        passed_list(bm0, a, s, pairs, i as int + 1, fuel),
{
    reveal(passed_list);
    reveal(passed);
    if bm0.inner().faithful() && bm0.inner().steady() && crate::engine::walker::laws::clean(a)
        && crate::store::blob_frame::in_use(a, s) && crate::engine::walker::visits::unshared(
        a,
        s,
        fuel + 1,
    ) {
        crate::engine::walker::visits::lemma_walked_list_next(a, b, s, pairs, i, fuel, n0, n1);
        let ch = pairs[i as int].1 as int;
        assert forall|x: int| #[trigger]
            crate::engine::walker::visits::reaches(a, ch, fuel, x) implies !stops_at(
            bm0.seen(),
            a,
            x,
        ) by {
            assert(crate::engine::walker::visits::reaches(b, ch, fuel, x));
            assert(!stops_at(bm1.seen(), b, x));
        }
    }
}

/// All children were walked.
proof fn lemma_passed_inner<B: Backend>(
    bm: BufferManager<B>,
    img: Seq<u8>,
    s: int,
    pairs: Seq<(u8, u16)>,
    fuel: nat,
)
    requires
        crate::engine::walker::model::node(img, s) == (crate::engine::walker::model::Node::Inner {
            pairs,
        }),
        passed_list(bm, img, s, pairs, pairs.len() as int, fuel),
    ensures
        passed(bm, img, s, fuel + 1),
{
    reveal(passed_list);
    reveal(passed);
    if bm.inner().faithful() && bm.inner().steady() && crate::engine::walker::laws::clean(img)
        && crate::store::blob_frame::in_use(img, s) && crate::engine::walker::visits::unshared(
        img,
        s,
        fuel + 1,
    ) {
        assert forall|x: int| #[trigger]
            crate::engine::walker::visits::reaches(img, s, fuel + 1, x) implies !stops_at(
            bm.seen(),
            img,
            x,
        ) by {
            if x != s {
                let j = choose|j: int|
                    0 <= j < pairs.len() && crate::engine::walker::visits::reaches(
                        img,
                        (#[trigger] pairs[j]).1 as int,
                        fuel,
                        x,
                    );
                assert(passable(bm.seen(), img, pairs[j].1 as int, fuel));
            }
        }
    }
}

// ---------- folding one child ----------

/// A copy of the child's tree behind the crossing's prefix answers what the
/// crossing leads to.
proof fn lemma_fold(
    blobs: Map<u128, Seq<u8>>,
    child: Seq<u8>,
    b: Seq<u8>,
    bn: int,
    guid: Seq<u8>,
    prefix: Seq<u8>,
    c1: int,
    t: int,
)
    requires
        crate::engine::walker::model::node(b, bn) == (crate::engine::walker::model::Node::Blob {
            guid,
            prefix,
        }),
        blobs[crate::engine::walker::equivalence::bytes_id(guid)] == child,
        crate::engine::walker::migrate::cloned(
            child,
            crate::store::blob_frame::root_of(child),
            b,
            c1,
        ),
        if prefix.len() == 0 {
            t == c1
        } else {
            crate::engine::walker::model::node(b, t)
                == (crate::engine::walker::model::Node::Prefix { bytes: prefix, child: c1 })
        },
    ensures
        crate::engine::walker::equivalence::replaces(blobs, b, bn, t),
{
    assert forall|k: Seq<u8>, d: int|
        0 <= d <= k.len() && !(crate::engine::walker::model::find(b, bn, k, d)
            is Corrupt) implies {
        let out = #[trigger] crate::engine::walker::model::find(b, t, k, d);
        &&& !(out is Corrupt)
        &&& crate::engine::walker::equivalence::leads(
            blobs,
            k,
            crate::engine::walker::model::find(b, bn, k, d),
            out,
        )
    } by {
        let from = crate::engine::walker::model::find(b, bn, k, d);
        let out = crate::engine::walker::model::find(b, t, k, d);
        if prefix.len() == 0 {
            assert(k.subrange(d, d) =~= prefix);
            assert(crate::engine::walker::model::continues(k, d, prefix));
        }
        if crate::engine::walker::model::continues(k, d, prefix) {
            let inner = crate::engine::walker::model::find(b, c1, k, d + prefix.len());
            assert(out == inner);
            assert(crate::engine::walker::equivalence::follow(blobs, k, inner, 0) == inner);
            assert(crate::engine::walker::equivalence::follow(blobs, k, from, 1) == inner);
        } else {
            crate::engine::walker::equivalence::lemma_leads_refl(blobs, k, from);
        }
    }
}

/// A copy of a tree without crossings has none behind the crossing's prefix.
proof fn lemma_fold_free(
    child: Seq<u8>,
    b: Seq<u8>,
    prefix: Seq<u8>,
    c1: int,
    t: int,
)
    requires
        crate::engine::walker::migrate::cloned(
            child,
            crate::store::blob_frame::root_of(child),
            b,
            c1,
        ),
        if prefix.len() == 0 {
            t == c1
        } else {
            crate::engine::walker::model::node(b, t)
                == (crate::engine::walker::model::Node::Prefix { bytes: prefix, child: c1 })
        },
    ensures
        crate::engine::walker::settled::crossing_free(
            child,
            crate::store::blob_frame::root_of(child),
        ) ==> crate::engine::walker::settled::crossing_free(b, t),
{
    if crate::engine::walker::settled::crossing_free(
        child,
        crate::store::blob_frame::root_of(child),
    ) {
        assert forall|k: Seq<u8>, d: int| 0 <= d <= k.len() implies !(
        #[trigger] crate::engine::walker::model::find(b, t, k, d) is Cross) by {
            let root = crate::store::blob_frame::root_of(child);
            let e = d + prefix.len();
            if crate::engine::walker::model::continues(k, d, prefix) {
                assert(!(crate::engine::walker::model::find(child, root, k, e) is Cross));
                assert(crate::engine::walker::model::find(b, c1, k, e)
                    == crate::engine::walker::model::find(child, root, k, e));
            }
            if prefix.len() == 0 {
                assert(k.subrange(d, d) =~= prefix);
            }
        }
    }
}

/// Copy the tree of `child` into `frame` behind the bytes of the crossing at
/// `bn`. Gives the slot of the copy.
pub fn fold_child(
    child: &BlobFrame,
    frame: &mut BlobFrame,
    bn: u16,
    guid: BlobGuid,
    prefix: &[u8],
) -> (r: Result<u16>)
    requires
        crate::store::blob_frame::frame_ok(child@),
        crate::store::blob_frame::frame_ok(old(frame)@),
        prefix@.len() <= BLOB_MAX_INLINE,
        crate::engine::walker::model::node(old(frame)@, bn as int)
            == (crate::engine::walker::model::Node::Blob { guid: guid@, prefix: prefix@ }),
    ensures
        crate::store::blob_frame::frame_ok(final(frame)@),
        crate::store::blob_frame::extends(old(frame)@, final(frame)@),
        crate::store::blob_frame::same_header(old(frame)@, final(frame)@),
        crate::engine::walker::laws::clean(old(frame)@) ==> crate::engine::walker::laws::clean(
            final(frame)@,
        ),
        crate::store::blob_frame::bump_of(old(frame)@) <= crate::store::blob_frame::bump_of(
            final(frame)@,
        ),
        match r {
            Ok(_) => sound_blob(child@),
            Err(Error::OutOfSpace) => !fold_fits(child@, old(frame)@),
            Err(Error::NodeCorrupt { .. }) => !sound_blob(child@),
            Err(_) => false,
        },
        r matches Ok(t) ==> {
            &&& crate::engine::walker::settled::crossing_free(
                child@,
                crate::store::blob_frame::root_of(child@),
            ) ==> crate::engine::walker::settled::crossing_free(final(frame)@, t as int)
            &&& crate::store::blob_frame::slots_of(old(frame)@) <= t
                < crate::store::blob_frame::slots_of(final(frame)@)
            &&& t != bn
            &&& forall|blobs: Map<u128, Seq<u8>>|
                blobs[crate::layout::guid_id(guid)] == child@
                    ==> #[trigger] crate::engine::walker::equivalence::replaces(
                    blobs,
                    final(frame)@,
                    bn as int,
                    t as int,
                )
        },
{
    let ghost a = frame@;
    let ghost root = crate::store::blob_frame::root_of(child@);
    proof {
        crate::store::blob_frame::lemma_extends_refl(a);
        crate::engine::walker::migrate::lemma_cost(child@, root, MAX_DEPTH as nat);
    }
    let c1: u16 = match clone_subtree(child, child.root_slot(), frame, MAX_DEPTH) {
        Ok(t) => t,
        Err(e) => {
            return Err(e);
        },
    };
    let ghost b1 = frame@;
    proof {
        crate::engine::walker::laws::lemma_node_extends(a, b1, bn as int);
    }
    if prefix.len() == 0 {
        proof {
            lemma_fold_free(child@, b1, prefix@, c1 as int, c1 as int);
            assert forall|blobs: Map<u128, Seq<u8>>|
                blobs[crate::layout::guid_id(guid)] == child@ implies
                #[trigger] crate::engine::walker::equivalence::replaces(
                blobs,
                b1,
                bn as int,
                c1 as int,
            ) by {
                lemma_fold(blobs, child@, b1, bn as int, guid@, prefix@, c1 as int, c1 as int);
            }
        }
        return Ok(c1);
    }
    let r = alloc_prefix(frame, prefix, c1);
    let ghost b = frame@;
    proof {
        crate::engine::walker::migrate::lemma_append_clean(
            b1,
            b,
            r,
            crate::engine::walker::model::Node::Prefix { bytes: prefix@, child: c1 as int },
            128,
        );
        crate::store::blob_frame::lemma_extends_refl(b1);
        crate::store::blob_frame::lemma_extends_trans(a, b1, b);
        if let Ok(t) = r {
            crate::engine::walker::laws::lemma_node_extends(a, b, bn as int);
            crate::engine::walker::migrate::lemma_cloned_extends(child@, root, b1, c1 as int, b);
            lemma_fold_free(child@, b, prefix@, c1 as int, t as int);
            assert forall|blobs: Map<u128, Seq<u8>>|
                blobs[crate::layout::guid_id(guid)] == child@ implies
                #[trigger] crate::engine::walker::equivalence::replaces(
                blobs,
                b,
                bn as int,
                t as int,
            ) by {
                lemma_fold(blobs, child@, b, bn as int, guid@, prefix@, c1 as int, t as int);
            }
        }
    }
    r
}

/// What copying the child `id` into `parent` gives: the store's own fault, an
/// error where there is no such blob or its image is no frame, and otherwise the
/// copy, or the reason why there is none.
pub open spec fn copy_outcome<B: Backend>(
    bm: BufferManager<B>,
    id: u128,
    parent: Seq<u8>,
    r: Result<PreparedBlobMerge>,
) -> bool {
    match read_fault(bm, id) {
        Some(e) => r == Err::<PreparedBlobMerge, Error>(e),
        None => bm.inner().faithful() ==> (if !bm.seen().dom().contains(id) {
            r == Err::<PreparedBlobMerge, Error>(crate::store::backend::missing_blob())
        } else if !crate::store::blob_frame::frame_ok(bm.seen()[id]) {
            r == Err::<PreparedBlobMerge, Error>(Error::corrupt("blob frame: bad layout"))
        } else {
            match r {
                Ok(_) => sound_blob(bm.seen()[id]),
                Err(Error::OutOfSpace) => !fold_fits(bm.seen()[id], parent),
                Err(Error::NodeCorrupt { .. }) => !sound_blob(bm.seen()[id]),
                Err(_) => false,
            }
        }),
    }
}

/// Copy the child behind the crossing at `bn` into `frame`. The edge still leads
/// to the crossing afterwards.
fn merge_blob<B: Backend>(
    bm: &mut BufferManager<B>,
    frame: &mut BlobFrame,
    bn: u16,
    guid: BlobGuid,
    prefix: &[u8],
) -> (r: Result<PreparedBlobMerge>)
    requires
        old(bm).wf(),
        crate::store::blob_frame::frame_ok(old(frame)@),
        prefix@.len() <= BLOB_MAX_INLINE,
        crate::engine::walker::model::node(old(frame)@, bn as int)
            == (crate::engine::walker::model::Node::Blob { guid: guid@, prefix: prefix@ }),
    ensures
        looked_at(*old(bm), *final(bm), crate::layout::guid_id(guid)),
        crate::store::blob_frame::frame_ok(final(frame)@),
        crate::store::blob_frame::extends(old(frame)@, final(frame)@),
        crate::store::blob_frame::same_header(old(frame)@, final(frame)@),
        crate::engine::walker::laws::clean(old(frame)@) ==> crate::engine::walker::laws::clean(
            final(frame)@,
        ),
        crate::store::blob_frame::bump_of(old(frame)@) <= crate::store::blob_frame::bump_of(
            final(frame)@,
        ),
        r matches Ok(p) ==> {
            &&& old(bm).inner().faithful() && crate::engine::walker::settled::crossing_free(
                old(bm).seen()[crate::layout::guid_id(guid)],
                crate::store::blob_frame::root_of(old(bm).seen()[crate::layout::guid_id(guid)]),
            ) ==> crate::engine::walker::settled::crossing_free(
                final(frame)@,
                p.inlined_root as int,
            )
            &&& p.parent_bn == bn
            &&& p.child_guid == guid
            &&& crate::store::blob_frame::slots_of(old(frame)@) <= p.inlined_root
                < crate::store::blob_frame::slots_of(final(frame)@)
            &&& p.inlined_root != bn
            &&& old(bm).inner().faithful() ==> crate::engine::walker::equivalence::replaces(
                old(bm).seen(),
                final(frame)@,
                bn as int,
                p.inlined_root as int,
            )
        },
        copy_outcome(*old(bm), crate::layout::guid_id(guid), old(frame)@, r),
{
    proof {
        crate::store::blob_frame::lemma_extends_refl(frame@);
    }
    let child: BlobFrame = match load_child(bm, guid) {
        Ok(f) => f,
        Err(e) => {
            return Err(e);
        },
    };
    match fold_child(&child, frame, bn, guid, prefix) {
        Ok(t) => Ok(PreparedBlobMerge { parent_bn: bn, inlined_root: t, child_guid: guid }),
        Err(e) => Err(e),
    }
}

/// Finalize a fold once the edge points at the copy: the crossing is abandoned,
/// the parent has one crossing less, and the child is staged for reclaim.
fn finalize_blob_merge<B: Backend>(
    bm: &mut BufferManager<B>,
    parent_frame: &mut BlobFrame,
    prepared: PreparedBlobMerge,
    seq: u64,
)
    requires
        old(bm).wf(),
        crate::store::blob_frame::frame_ok(old(parent_frame)@),
        crate::engine::walker::reclaim::crosses(
            old(parent_frame)@,
            prepared.parent_bn as int,
            prepared.child_guid@,
        ),
    ensures
        final(bm).wf(),
        final(bm).inner() == old(bm).inner(),
        crate::store::blob_frame::frame_ok(final(parent_frame)@),
        crate::store::blob_frame::header_update(old(parent_frame)@, final(parent_frame)@),
        crate::store::blob_frame::root_of(final(parent_frame)@)
            == crate::store::blob_frame::root_of(old(parent_frame)@),
        crate::store::blob_frame::guid_of(final(parent_frame)@)
            == crate::store::blob_frame::guid_of(old(parent_frame)@),
        crate::store::blob_frame::epoch_of(final(parent_frame)@)
            == crate::store::blob_frame::epoch_of(old(parent_frame)@),
        crate::store::blob_frame::compactions_of(final(parent_frame)@)
            == crate::store::blob_frame::compactions_of(old(parent_frame)@),
        seq == STRUCTURAL_SEQ ==> exists|parent: BlobGuid|
            parent@ == crate::store::blob_frame::guid_of(old(parent_frame)@) && final(bm)@ == (
            crate::store::buffer_manager::BufferState {
                structural: #[trigger] old(bm)@.structural.push((parent, prepared.child_guid)),
                ..old(bm)@
            }),
        seq != STRUCTURAL_SEQ ==> final(bm)@ == (crate::store::buffer_manager::BufferState {
            deletes: old(bm)@.deletes.push((prepared.child_guid, seq)),
            ..old(bm)@
        }),
        crate::engine::walker::reclaim::lists(
            old(bm)@,
            final(bm)@,
            crate::store::blob_frame::guid_of(old(parent_frame)@),
            prepared.child_guid@,
            seq,
        ),
        crate::engine::walker::reclaim::counts_less(old(parent_frame)@, final(parent_frame)@, 1),
{
    let ghost a = parent_frame@;
    proof {
        crate::bytes::lemma_le32(a, 28);
        crate::bytes::lemma_le32(a, 36);
    }
    parent_frame.note_abandoned(prepared.parent_bn);
    let ghost b = parent_frame@;
    let n: u32 = parent_frame.num_ext_blobs();
    parent_frame.set_num_ext_blobs(if n > 0 {
        n - 1
    } else {
        0
    });
    proof {
        crate::store::blob_frame::lemma_extends_trans(a, b, parent_frame@);
    }
    let parent_guid: BlobGuid = parent_frame.blob_guid();
    let ghost s0 = bm@;
    if seq == STRUCTURAL_SEQ {
        bm.stage_structural_reclaim(parent_guid, prepared.child_guid);
    } else {
        bm.mark_for_delete(prepared.child_guid, seq);
    }
    proof {
        crate::engine::walker::reclaim::lemma_lists(
            s0,
            bm@,
            parent_guid,
            prepared.child_guid,
            seq,
        );
    }
}

/// Finalizing a prepared fold closes it.
proof fn lemma_pass_finalized<B: Backend>(
    bm0: BufferManager<B>,
    bm1: BufferManager<B>,
    a: Seq<u8>,
    b: Seq<u8>,
    st: MergeStats,
)
    requires
        bm0.wf(),
        bm1.wf(),
        bm1.inner() == bm0.inner(),
        crate::store::blob_frame::frame_ok(b),
        crate::store::blob_frame::header_update(a, b),
        crate::store::blob_frame::guid_of(b) == crate::store::blob_frame::guid_of(a),
        crate::store::blob_frame::epoch_of(b) == crate::store::blob_frame::epoch_of(a),
        crate::store::blob_frame::root_of(b) == crate::store::blob_frame::root_of(a),
        staged(bm1@) == staged(bm0@) + 1,
        books_kept(bm0@, bm1@),
        bm1@.cache == bm0@.cache,
    ensures
        pass_kept(bm0, bm1, a, b, st, st, -1),
{
    reveal(pass_kept);
    crate::engine::walker::equivalence::lemma_equivalent_extends(bm0.seen(), a, b);
    assert forall|s: int| #[trigger] crate::store::blob_frame::has_body(a, s) implies
        crate::store::blob_frame::has_body(b, s) && crate::store::blob_frame::type_at(b, s)
        == crate::store::blob_frame::type_at(a, s) by {
        assert(crate::store::blob_frame::same_node(a, b, s));
    }
    if crate::engine::walker::laws::clean(a) {
        crate::engine::walker::laws::lemma_clean_grow(a, b);
        crate::engine::walker::settled::lemma_evolves_extends(a, b);
    }
}

/// Whether nothing became of the nodes of `a` but that edges lead from crossings
/// to their folds.
pub open spec fn only_rewired<B: Backend>(
    bm0: BufferManager<B>,
    bm1: BufferManager<B>,
    a: Seq<u8>,
    b: Seq<u8>,
) -> bool {
    crate::engine::walker::rewire::rewired_only(
        bm0.inner().faithful(),
        bm0.seen(),
        bm0@,
        bm1@,
        a,
        b,
    )
}

/// A walk over one child more.
proof fn lemma_rewired_step<B: Backend>(
    bm0: BufferManager<B>,
    bm1: BufferManager<B>,
    bm2: BufferManager<B>,
    a: Seq<u8>,
    b: Seq<u8>,
    c: Seq<u8>,
    st0: MergeStats,
    st1: MergeStats,
    st2: MergeStats,
    open: int,
)
    requires
        pass_kept(bm0, bm1, a, b, st0, st1, 0),
        pass_kept(bm1, bm2, b, c, st1, st2, open),
        only_rewired(bm0, bm1, a, b),
        only_rewired(bm1, bm2, b, c),
    ensures
        only_rewired(bm0, bm2, a, c),
{
    reveal(pass_kept);
    crate::engine::walker::rewire::lemma_rewired_trans(
        bm0.inner().faithful(),
        bm1.inner().faithful(),
        bm0.seen(),
        bm1.seen(),
        bm0@,
        bm1@,
        bm2@,
        a,
        b,
        c,
    );
}

/// Whether slot `c` of `a` holds a crossing that can be folded into `b`.
pub open spec fn folds_at(
    blobs: Map<u128, Seq<u8>>,
    a: Seq<u8>,
    b: Seq<u8>,
    c: int,
) -> bool {
    crate::engine::walker::model::node(a, c) matches crate::engine::walker::model::Node::Blob {
        guid,
        prefix,
    } && crate::engine::walker::settled::foldable(blobs, guid, b)
}

/// Whether slot `c` was walked: where it is a crossing, its child is listed for
/// reclaim, or on a healthy store cannot be folded.
pub open spec fn tried<B: Backend>(
    bm0: BufferManager<B>,
    bm1: BufferManager<B>,
    img: Seq<u8>,
    c: int,
) -> bool {
    &&& crate::store::blob_frame::has_body(img, c)
    &&& healthy(bm0) ==> (crate::engine::walker::model::node(img, c)
        matches crate::engine::walker::model::Node::Blob { guid, prefix }
        ==> crate::engine::walker::reclaim::listed_since(bm0@, bm1@, guid)
        || !crate::engine::walker::settled::foldable(bm0.seen(), guid, img))
}

/// What was tried stays so.
proof fn lemma_tried_kept<B: Backend>(
    bm0: BufferManager<B>,
    bm1: BufferManager<B>,
    bm2: BufferManager<B>,
    a: Seq<u8>,
    b: Seq<u8>,
    c: int,
)
    requires
        tried(bm0, bm1, a, c),
        only_rewired(bm1, bm2, a, b),
        books_kept(bm0@, bm1@),
        bm1@.deletes.is_prefix_of(bm2@.deletes),
        bm1@.structural.is_prefix_of(bm2@.structural),
        crate::store::blob_frame::slots_of(a) <= crate::store::blob_frame::slots_of(b),
        crate::store::blob_frame::bump_of(a) <= crate::store::blob_frame::bump_of(b),
    ensures
        tried(bm0, bm2, b, c),
{
    reveal(crate::engine::walker::rewire::rewired_only);
    assert(crate::store::blob_frame::has_body(b, c));
    if let crate::engine::walker::model::Node::Blob { guid, prefix } =
        crate::engine::walker::model::node(b, c) {
        crate::engine::walker::reclaim::lemma_listed_trans(bm0@, bm1@, bm2@, guid);
    }
}

/// Whether the first `i` listed children were walked.
#[verifier::opaque]
pub open spec fn all_tried<B: Backend>(
    bm0: BufferManager<B>,
    bm1: BufferManager<B>,
    img: Seq<u8>,
    pairs: Seq<(u8, u16)>,
    i: int,
) -> bool {
    forall|j: int| 0 <= j < i ==> tried(bm0, bm1, img, (#[trigger] pairs[j]).1 as int)
}

/// Before the first child.
proof fn lemma_tried_start<B: Backend>(
    bm0: BufferManager<B>,
    img: Seq<u8>,
    pairs: Seq<(u8, u16)>,
)
    ensures
        all_tried(bm0, bm0, img, pairs, 0),
{
    reveal(all_tried);
}

/// One child more was walked, from `a` to `b`.
proof fn lemma_tried_step<B: Backend>(
    bm0: BufferManager<B>,
    bm1: BufferManager<B>,
    bm2: BufferManager<B>,
    a: Seq<u8>,
    b: Seq<u8>,
    pairs: Seq<(u8, u16)>,
    i: int,
)
    requires
        0 <= i < pairs.len(),
        all_tried(bm0, bm1, a, pairs, i),
        only_rewired(bm1, bm2, a, b),
        books_kept(bm0@, bm1@),
        bm1@.deletes.is_prefix_of(bm2@.deletes),
        bm1@.structural.is_prefix_of(bm2@.structural),
        crate::store::blob_frame::slots_of(a) <= crate::store::blob_frame::slots_of(b),
        crate::store::blob_frame::bump_of(a) <= crate::store::blob_frame::bump_of(b),
        tried(bm0, bm2, b, pairs[i].1 as int),
    ensures
        all_tried(bm0, bm2, b, pairs, i + 1),
{
    reveal(all_tried);
    assert forall|j: int| 0 <= j < i + 1 implies tried(
        bm0,
        bm2,
        b,
        (#[trigger] pairs[j]).1 as int,
    ) by {
        if j < i {
            lemma_tried_kept(bm0, bm1, bm2, a, b, pairs[j].1 as int);
        }
    }
}

/// The walk of a child that was not folded.
proof fn lemma_tried_stays<B: Backend>(
    bm0: BufferManager<B>,
    bm1: BufferManager<B>,
    bm2: BufferManager<B>,
    a: Seq<u8>,
    b: Seq<u8>,
    c: int,
)
    requires
        crate::store::blob_frame::has_body(a, c),
        only_rewired(bm1, bm2, a, b),
        healthy(bm0) ==> healthy(bm1) && bm1.seen() == bm0.seen(),
        healthy(bm1) ==> !folds_at(bm1.seen(), a, b, c),
    ensures
        tried(bm0, bm2, b, c),
{
    reveal(crate::engine::walker::rewire::rewired_only);
    assert(crate::store::blob_frame::has_body(b, c));
}

/// The walk of a child, from `b` to `c`, its edge moved from `slot` to the copy
/// `t` in `d`, and the fold finalized in `g`.
proof fn lemma_child_folded<B: Backend>(
    bm0: BufferManager<B>,
    bm1: BufferManager<B>,
    bm2: BufferManager<B>,
    bm3: BufferManager<B>,
    a: Seq<u8>,
    b: Seq<u8>,
    c: Seq<u8>,
    d: Seq<u8>,
    g: Seq<u8>,
    slot: int,
    child: u16,
    t: u16,
    parent: Seq<u8>,
    guid: Seq<u8>,
    seq: u64,
)
    requires
        only_rewired(bm0, bm2, a, c),
        only_rewired(bm1, bm2, b, c),
        edge_moved(c, d, slot, child as int, t as int),
        crate::store::blob_frame::extends(d, g),
        crate::store::blob_frame::slots_of(d) <= crate::store::blob_frame::slots_of(g),
        crate::store::blob_frame::type_at(c, slot) != Some(NodeType::Blob),
        crate::engine::walker::reclaim::crosses(b, child as int, guid),
        crate::engine::walker::reclaim::crosses(c, child as int, guid),
        crate::engine::walker::reclaim::lists(bm2@, bm3@, parent, guid, seq),
        bm0.inner().faithful() ==> bm1.inner().faithful() && bm1.seen() == bm0.seen(),
        bm1.inner().faithful() ==> crate::engine::walker::equivalence::replaces(
            bm1.seen(),
            c,
            child as int,
            t as int,
        ),
        crate::store::blob_frame::slots_of(a) <= crate::store::blob_frame::slots_of(b) <= t
            < crate::store::blob_frame::slots_of(c),
        books_kept(bm0@, bm1@),
        books_kept(bm1@, bm2@),
    ensures
        only_rewired(bm0, bm3, a, g),
        only_rewired(bm1, bm3, b, g),
        tried(bm0, bm3, g, child as int),
        crate::engine::walker::reclaim::listed_since(bm1@, bm3@, guid),
        bm1@.deletes.is_prefix_of(bm3@.deletes),
        bm1@.structural.is_prefix_of(bm3@.structural),
{
    lemma_prefix_trans(bm0@.deletes, bm1@.deletes, bm2@.deletes);
    lemma_prefix_trans(bm0@.structural, bm1@.structural, bm2@.structural);
    lemma_prefix_trans(bm1@.deletes, bm2@.deletes, bm3@.deletes);
    lemma_prefix_trans(bm1@.structural, bm2@.structural, bm3@.structural);
    assert(crate::engine::walker::reclaim::listed_since(bm2@, bm3@, guid));
    crate::engine::walker::rewire::lemma_rewired_moved(
        bm0.inner().faithful(),
        bm0.seen(),
        bm0@,
        bm2@,
        bm3@,
        a,
        c,
        d,
        g,
        slot,
        child,
        t,
        guid,
    );
    crate::engine::walker::rewire::lemma_rewired_moved(
        bm1.inner().faithful(),
        bm1.seen(),
        bm1@,
        bm2@,
        bm3@,
        b,
        c,
        d,
        g,
        slot,
        child,
        t,
        guid,
    );
    crate::engine::walker::reclaim::lemma_listed_trans(bm1@, bm2@, bm3@, guid);
    crate::engine::walker::reclaim::lemma_listed_trans(bm0@, bm1@, bm3@, guid);
    assert(crate::store::blob_frame::has_body(b, child as int));
    assert(tried(bm0, bm3, g, child as int)) by {
        reveal(crate::engine::walker::rewire::rewired_only);
    }
}

/// Folds that a walk hands up unfinalized.
pub open spec fn open_folds(m: SubtreeMerge) -> int {
    if m.prepared is Some {
        1
    } else {
        0
    }
}

/// What a walk over the subtree at `slot`, `fuel` levels deep, gives.
pub open spec fn subtree_result<B: Backend>(
    bm0: BufferManager<B>,
    bm1: BufferManager<B>,
    a: Seq<u8>,
    b: Seq<u8>,
    st0: MergeStats,
    st1: MergeStats,
    slot: u16,
    fuel: int,
    r: Result<SubtreeMerge>,
) -> bool {
    match r {
        Ok(m) => {
            &&& pass_kept(
                bm0,
                bm1,
                a,
                b,
                st0,
                st1,
                open_folds(m),
            )
            &&& crate::engine::walker::visits::walked(
                a,
                b,
                slot as int,
                fuel as nat,
                st0.inspected,
                st1.inspected,
            )
            &&& passed(bm0, a, slot as int, fuel as nat)
            &&& crate::store::blob_frame::has_body(a, slot as int)
            &&& match m.prepared {
                Some(p) => {
                    &&& p.parent_bn == slot
                    &&& p.inlined_root == m.root
                    &&& crate::engine::walker::reclaim::crosses(a, slot as int, p.child_guid@)
                    &&& crate::engine::walker::reclaim::crosses(b, slot as int, p.child_guid@)
                    &&& m.root != slot
                    &&& crate::store::blob_frame::slots_of(a) <= m.root
                        < crate::store::blob_frame::slots_of(b)
                    &&& bm0.inner().faithful() ==> crate::engine::walker::equivalence::replaces(
                        bm0.seen(),
                        b,
                        slot as int,
                        m.root as int,
                    )
                    &&& honest(bm0) && crate::engine::walker::laws::clean(a)
                        ==> crate::engine::walker::settled::crossing_free(b, m.root as int)
                },
                None => {
                    &&& m.root == slot
                    &&& healthy(bm0) ==> !folds_at(bm0.seen(), a, b, slot as int)
                    &&& honest(bm0) && healthy(bm0) && crate::engine::walker::laws::clean(a)
                        && crate::store::blob_frame::in_use(a, slot as int)
                        ==> crate::engine::walker::settled::settled(
                        bm0.seen(),
                        b,
                        slot as int,
                        fuel,
                    )
                },
            }
        },
        Err(e) => {
            &&& exists|open: int| #[trigger] pass_kept(bm0, bm1, a, b, st0, st1, open)
            &&& !crate::api::errors::not_found(e)
            &&& bm0.inner().faithful() && bm0.inner().steady() ==> e is NodeCorrupt
            &&& !(healthy(bm0) && crate::engine::walker::laws::clean(a)
                && crate::store::blob_frame::in_use(a, slot as int)
                && crate::engine::walker::visits::unshared(a, slot as int, fuel as nat))
        },
    }
}

/// The error `e` is handed on, unless it says that there is no such blob: then
/// the crossing at `bn` stays as it is.
pub open spec fn handed_on(e: Error, bn: u16, r: Result<SubtreeMerge>) -> bool {
    r == (if crate::api::errors::not_found(e) {
        Ok::<SubtreeMerge, Error>(SubtreeMerge { root: bn, prepared: None })
    } else {
        Err::<SubtreeMerge, Error>(e)
    })
}

/// What comes of the crossing at `bn` to the child `id`: it stays as it is where
/// the child is not to be folded, and it is folded where it is and the second
/// read of the child goes well. Every error on the way is handed on.
pub open spec fn crossing_outcome<B: Backend>(
    bm: BufferManager<B>,
    id: u128,
    parent: Seq<u8>,
    bn: u16,
    r: Result<SubtreeMerge>,
) -> bool {
    exists|fold: Result<bool>| #[trigger]
        fold_outcome(bm, id, parent, fold) && match fold {
            Ok(true) => exists|next: BufferManager<B>, copy: Result<PreparedBlobMerge>|
                looked_at(bm, next, id) && #[trigger] copy_outcome(next, id, parent, copy)
                    && match copy {
                    Ok(p) => r == Ok::<SubtreeMerge, Error>(
                        SubtreeMerge { root: p.inlined_root, prepared: Some(p) },
                    ),
                    Err(e) => handed_on(e, bn, r),
                },
            Ok(false) => r == Ok::<SubtreeMerge, Error>(SubtreeMerge { root: bn, prepared: None }),
            Err(e) => handed_on(e, bn, r),
        }
}

/// Inspect the crossing at `bn`, and fold its child in where it is mergeable.
fn merge_at_blob_node<B: Backend>(
    bm: &mut BufferManager<B>,
    frame: &mut BlobFrame,
    bn: u16,
    stats: &mut MergeStats,
    Ghost(fuel): Ghost<int>,
) -> (r: Result<SubtreeMerge>)
    requires
        old(bm).wf(),
        crate::store::blob_frame::frame_ok(old(frame)@),
        crate::store::blob_frame::has_body(old(frame)@, bn as int),
        crate::store::blob_frame::type_at(old(frame)@, bn as int) == Some(NodeType::Blob),
    ensures
        subtree_result(
            *old(bm),
            *final(bm),
            old(frame)@,
            final(frame)@,
            *old(stats),
            *final(stats),
            bn,
            fuel,
            r,
        ),
        books_kept(old(bm)@, final(bm)@),
        staged(final(bm)@) == staged(old(bm)@),
        crate::store::blob_frame::extends(old(frame)@, final(frame)@),
        crate::store::blob_frame::ext_blobs_of(final(frame)@)
            == crate::store::blob_frame::ext_blobs_of(old(frame)@),
        crate::store::blob_frame::gap_of(final(frame)@) == crate::store::blob_frame::gap_of(
            old(frame)@,
        ),
        match crate::engine::walker::model::node(old(frame)@, bn as int) {
            crate::engine::walker::model::Node::Blob { guid, prefix } => {
                let id = crate::engine::walker::equivalence::bytes_id(guid);
                let folds = old(bm).seen().dom().contains(id) && mergeable(
                    old(bm).seen()[id],
                    old(frame)@,
                );
                &&& final(stats).inspected == counted(old(stats).inspected)
                &&& r matches Ok(m) ==> {
                    &&& final(stats).merged == (if m.prepared is Some {
                        counted(old(stats).merged)
                    } else {
                        old(stats).merged
                    })
                    &&& m.prepared matches Some(p) ==> crate::layout::guid_id(p.child_guid) == id
                    &&& healthy(*old(bm)) ==> (m.prepared is Some) == folds
                }
                &&& r is Err ==> final(stats).merged == old(stats).merged
                &&& healthy(*old(bm)) ==> r is Ok
                &&& crossing_outcome(*old(bm), id, old(frame)@, bn, r)
            },
            _ => r == Err::<SubtreeMerge, Error>(
                Error::corrupt("merge_at_blob_node: prefix_len exceeds inline buffer"),
            ) && *final(stats) == *old(stats) && final(frame)@ == old(frame)@,
        },
{
    let ghost bm0 = *bm;
    let ghost a = frame@;
    let ghost st0 = *stats;
    proof {
        crate::store::blob_frame::lemma_extends_refl(a);
        crate::store::blob_frame::lemma_len_at(a, bn as int);
        lemma_books_refl(bm@);
        lemma_pass_grown(bm0, bm0, a, a, st0, st0.inspected);
    }
    let body: &[u8] = match frame.body_of_slot(bn) {
        Some(b) => b,
        None => {
            return Err(Error::node_corrupt("merge_at_blob_node: body resolution failed"));
        },
    };
    let len: u32 = read_u32(body, 16);
    if len as usize > BLOB_MAX_INLINE {
        proof {
            if crate::engine::walker::laws::clean(a) {
                assert(crate::engine::walker::laws::clean_node(a, bn as int));
            }
        }
        return Err(
            Error::node_corrupt("merge_at_blob_node: prefix_len exceeds inline buffer"),
        );
    }
    let guid: BlobGuid = read_guid(body, 0);
    let prefix: Vec<u8> = vstd::slice::slice_to_vec(slice_subrange(body, 24, 24 + len as usize));
    assert(crate::engine::walker::model::node(a, bn as int)
        == (crate::engine::walker::model::Node::Blob { guid: guid@, prefix: prefix@ }));
    stats.inspected = stats.inspected.saturating_add(1);
    let ghost st1 = *stats;
    let fold: Result<bool> = is_mergeable(bm, frame, guid);
    let ghost bm1 = *bm;
    let ghost id = crate::layout::guid_id(guid);
    proof {
        lemma_looked_at(bm0, bm1, id);
        lemma_pass_grown(bm0, bm1, a, a, st0, st1.inspected);
        crate::engine::walker::visits::lemma_walked_crossing(
            a,
            a,
            bn as int,
            fuel as nat,
            st0.inspected,
            st1.inspected,
        );
    }
    proof {
        if fold is Ok || crate::api::errors::not_found(fold->Err_0) {
            lemma_passed_end(bm0, a, bn as int, fuel as nat);
        }
    }
    match fold {
        Ok(true) => {},
        Ok(false) => {
            return Ok(SubtreeMerge::unchanged(bn));
        },
        Err(e) => {
            if is_blob_store_not_found(&e) {
                return Ok(SubtreeMerge::unchanged(bn));
            }
            return Err(e);
        },
    }
    let merged = merge_blob(bm, frame, bn, guid, prefix.as_slice());
    proof {
        lemma_looked_at(bm1, *bm, id);
        assert(copy_outcome(bm1, id, a, merged));
        lemma_pass_grown(bm1, *bm, a, frame@, st1, st1.inspected);
        lemma_pass_trans(bm0, bm1, *bm, a, a, frame@, st0, st1, st1, 0, 0);
        crate::engine::walker::visits::lemma_walked_crossing(
            a,
            frame@,
            bn as int,
            fuel as nat,
            st0.inspected,
            st1.inspected,
        );
    }
    match merged {
        Ok(prepared) => {
            stats.merged = stats.merged.saturating_add(1);
            proof {
                lemma_pass_counted(bm0, *bm, a, frame@, st0, st1, *stats);
            }
            Ok(SubtreeMerge { root: prepared.inlined_root, prepared: Some(prepared) })
        },
        Err(e) => {
            if is_blob_store_not_found(&e) {
                return Ok(SubtreeMerge::unchanged(bn));
            }
            Err(e)
        },
    }
}

// ---------- the walk ----------

/// In `b` the edge from `p` to `c` leads to `c2`, and nothing else changed.
#[verifier::opaque]
pub open spec fn edge_moved(a: Seq<u8>, b: Seq<u8>, p: int, c: int, c2: int) -> bool {
    &&& crate::engine::walker::writers::only_changed(a, b, p)
    &&& crate::engine::walker::equivalence::rewired(a, b, p, c, c2)
    &&& crate::engine::walker::model::node(a, p) is Inner
        ==> crate::engine::walker::writers::list_replaced(
        crate::engine::walker::model::node(a, p)->Inner_pairs,
        crate::engine::walker::model::node(b, p)->Inner_pairs,
        c as u16,
        c2 as u16,
    )
    &&& crate::engine::walker::laws::clean(a) ==> crate::engine::walker::laws::clean(b)
}

/// Moving an edge of `p`, and growing the frame, changes no other node.
proof fn lemma_only_slot(b: Seq<u8>, m: Seq<u8>, f: Seq<u8>, p: int, c: int, c2: int)
    requires
        crate::engine::walker::laws::clean(b),
        m == b || edge_moved(b, m, p, c, c2),
        crate::store::blob_frame::extends(m, f),
    ensures
        crate::engine::walker::visits::only_slot(b, f, p),
{
    reveal(edge_moved);
    assert forall|x: int| crate::store::blob_frame::in_use(b, x) && x != p implies
        #[trigger] crate::engine::walker::model::node(f, x) == crate::engine::walker::model::node(
        b,
        x,
    ) by {
        assert(crate::engine::walker::laws::clean_node(b, x));
        assert(crate::store::blob_frame::has_body(b, x));
        if m != b {
            assert(crate::store::blob_frame::same_node(b, m, x));
        }
        crate::engine::walker::laws::lemma_node_extends(m, f, x);
    }
}

/// Moving an edge of `p` leaves the crossing `x` as it was.
proof fn lemma_crossing_stays(
    b: Seq<u8>,
    m: Seq<u8>,
    p: int,
    c: int,
    c2: int,
    x: int,
    guid: Seq<u8>,
)
    requires
        m == b || edge_moved(b, m, p, c, c2),
        crate::store::blob_frame::type_at(b, p) != Some(NodeType::Blob),
        crate::engine::walker::reclaim::crosses(b, x, guid),
    ensures
        crate::engine::walker::reclaim::crosses(m, x, guid),
{
    reveal(edge_moved);
    assert(crate::store::blob_frame::has_body(b, x));
    if m != b && x != p {
        assert(crate::store::blob_frame::same_node(b, m, x));
    }
}

/// Rewiring an edge of a clean frame to a slot in use keeps it clean.
proof fn lemma_edge_moved(a: Seq<u8>, b: Seq<u8>, p: int, c: int, c2: int)
    requires
        crate::store::blob_frame::has_body(a, p),
        crate::engine::walker::writers::only_changed(a, b, p),
        crate::engine::walker::equivalence::rewired(a, b, p, c, c2),
        crate::engine::walker::model::node(a, p) is Inner
            ==> crate::engine::walker::writers::refs_replaced(
            crate::engine::walker::model::node(a, p)->pairs,
            crate::engine::walker::model::node(b, p)->pairs,
            c2,
        ) && crate::engine::walker::writers::list_replaced(
            crate::engine::walker::model::node(a, p)->Inner_pairs,
            crate::engine::walker::model::node(b, p)->Inner_pairs,
            c as u16,
            c2 as u16,
        ),
        1 <= c2 < crate::store::blob_frame::slots_of(a),
    ensures
        edge_moved(a, b, p, c, c2),
{
    reveal(edge_moved);
    if crate::engine::walker::laws::clean(a) {
        assert(crate::engine::walker::laws::clean_node(a, p));
        crate::engine::walker::equivalence::lemma_rewire_clean(a, b, p, c, c2);
    }
}

/// The child of the prefix node at `slot`.
fn prefix_child(frame: &BlobFrame, slot: u16) -> (r: Result<u16>)
    requires
        crate::store::blob_frame::frame_ok(frame@),
        crate::store::blob_frame::has_body(frame@, slot as int),
        crate::store::blob_frame::type_at(frame@, slot as int) == Some(NodeType::Prefix),
    ensures
        r matches Ok(c) && c == crate::bytes::le16(
            crate::store::blob_frame::body_at(frame@, slot as int),
            0,
        ),
{
    proof {
        let body = crate::store::blob_frame::body_at(frame@, slot as int);
        crate::store::blob_frame::lemma_len_at(frame@, slot as int);
        crate::bytes::lemma_le16(body, 0);
        crate::bytes::lemma_le16(body, 2);
    }
    match read_prefix(frame, slot) {
        Ok(p) => Ok((p.child % 65536) as u16),
        Err(e) => Err(e),
    }
}

/// Giving a prefix node another child moves its one edge.
proof fn lemma_prefix_moved(a: Seq<u8>, b: Seq<u8>, p: int, c: int, c2: int)
    requires
        crate::store::blob_frame::has_body(a, p),
        crate::store::blob_frame::type_at(a, p) == Some(NodeType::Prefix),
        crate::bytes::le16(crate::store::blob_frame::body_at(a, p), 0) == c,
        crate::engine::walker::writers::only_changed(a, b, p),
        crate::engine::walker::model::node(b, p) == crate::engine::walker::writers::with_child(
            crate::engine::walker::model::node(a, p),
            c2,
        ),
        1 <= c2 < crate::store::blob_frame::slots_of(a),
    ensures
        edge_moved(a, b, p, c, c2),
{
    lemma_edge_moved(a, b, p, c, c2);
}

/// Whether the node at `s` is a prefix node whose child is `c`.
pub open spec fn prefix_leads_to(img: Seq<u8>, s: int, c: int) -> bool {
    crate::engine::walker::model::node(img, s) matches crate::engine::walker::model::Node::Prefix {
        bytes,
        child,
    } && child == c
}

/// Point the prefix node at `slot` from its child `from` to `to`. Says `false`,
/// changing nothing, where its child is not `from`.
fn move_prefix_edge(frame: &mut BlobFrame, slot: u16, from: u16, to: u16) -> (moved: bool)
    requires
        crate::store::blob_frame::frame_ok(old(frame)@),
        crate::store::blob_frame::has_body(old(frame)@, slot as int),
        crate::store::blob_frame::type_at(old(frame)@, slot as int) == Some(NodeType::Prefix),
        1 <= to < crate::store::blob_frame::slots_of(old(frame)@),
    ensures
        moved == (crate::bytes::le16(
            crate::store::blob_frame::body_at(old(frame)@, slot as int),
            0,
        ) == from),
        moved ==> edge_moved(
            old(frame)@,
            final(frame)@,
            slot as int,
            from as int,
            to as int,
        ),
        !moved ==> final(frame)@ == old(frame)@,
        to != from ==> !prefix_leads_to(final(frame)@, slot as int, from as int),
{
    let ghost a = frame@;
    match prefix_child(frame, slot) {
        Ok(c) => {
            if c != from {
                return false;
            }
        },
        Err(_e) => {
            return false;
        },
    }
    match set_prefix_child(frame, slot, to) {
        Ok(()) => {},
        Err(_e) => {
            return false;
        },
    }
    proof {
        lemma_prefix_moved(a, frame@, slot as int, from as int, to as int);
    }
    true
}

/// Point the child of `byte` of the inner node at `slot` from `from` to `to`.
/// Says `false`, changing nothing, where that child is not `from`.
fn move_inner_edge(
    frame: &mut BlobFrame,
    slot: u16,
    ntype: NodeType,
    byte: u8,
    from: u16,
    to: u16,
) -> (moved: bool)
    requires
        crate::store::blob_frame::frame_ok(old(frame)@),
        crate::store::blob_frame::has_body(old(frame)@, slot as int),
        crate::store::blob_frame::type_at(old(frame)@, slot as int) == Some(ntype),
        crate::engine::walker::readers::is_inner(ntype),
        1 <= to < crate::store::blob_frame::slots_of(old(frame)@),
    ensures
        moved ==> from != 0 && edge_moved(
            old(frame)@,
            final(frame)@,
            slot as int,
            from as int,
            to as int,
        ) && crate::engine::walker::model::child_of(
            crate::engine::walker::model::node(final(frame)@, slot as int)->pairs,
            byte,
        ) == Some(to) && crate::engine::walker::model::node(final(frame)@, slot as int) is Inner
            && crate::engine::walker::writers::child_replaced(
            crate::engine::walker::model::node(old(frame)@, slot as int)->Inner_pairs,
            crate::engine::walker::model::node(final(frame)@, slot as int)->Inner_pairs,
            byte,
            from,
            to,
        ),
        crate::engine::walker::model::node(old(frame)@, slot as int) is Inner,
        crate::store::blob_frame::slots_of(final(frame)@) == crate::store::blob_frame::slots_of(
            old(frame)@,
        ),
        crate::store::blob_frame::bump_of(final(frame)@) == crate::store::blob_frame::bump_of(
            old(frame)@,
        ),
        moved == (from != 0 && crate::engine::walker::model::child_of(
            crate::engine::walker::model::node(old(frame)@, slot as int)->pairs,
            byte,
        ) == Some(from)),
        !moved ==> final(frame)@ == old(frame)@,
{
    let ghost a = frame@;
    if from == 0 || !inner_update_child(frame, slot, ntype, byte, from, to) {
        return false;
    }
    proof {
        lemma_edge_moved(a, frame@, slot as int, from as int, to as int);
    }
    true
}

/// Moving the edge of an open fold keeps it open.
proof fn lemma_pass_moved<B: Backend>(
    bm0: BufferManager<B>,
    bm1: BufferManager<B>,
    a: Seq<u8>,
    b: Seq<u8>,
    m: Seq<u8>,
    p: int,
    c: int,
    c2: int,
    st0: MergeStats,
    st1: MergeStats,
)
    requires
        pass_kept(bm0, bm1, a, b, st0, st1, 1),
        crate::store::blob_frame::has_body(b, p),
        edge_moved(b, m, p, c, c2),
        bm0.inner().faithful() ==> crate::engine::walker::equivalence::replaces(
            bm0.seen(),
            b,
            c,
            c2,
        ),
        crate::store::blob_frame::in_use(b, c2),
        honest(bm0) && crate::engine::walker::laws::clean(a)
            ==> crate::engine::walker::settled::crossing_free(b, c2),
    ensures
        pass_kept(bm0, bm1, a, m, st0, st1, 1),
        honest(bm0) && crate::engine::walker::laws::clean(a)
            ==> crate::engine::walker::settled::evolves(b, m),
{
    reveal(pass_kept);
    reveal(edge_moved);
    if honest(bm0) && crate::engine::walker::laws::clean(a) {
        crate::engine::walker::settled::lemma_evolves_moved(b, m, p, c, c2);
        crate::engine::walker::settled::lemma_evolves_trans(a, b, m);
    }
    if bm0.inner().faithful() {
        crate::engine::walker::equivalence::lemma_rewire(bm0.seen(), b, m, p, c, c2);
        crate::engine::walker::equivalence::lemma_equivalent_trans(bm0.seen(), a, b, m);
    }
    assert forall|s: int| #[trigger] crate::store::blob_frame::has_body(a, s) implies
        crate::store::blob_frame::has_body(m, s) && crate::store::blob_frame::type_at(m, s)
        == crate::store::blob_frame::type_at(a, s) by {
        assert(crate::store::blob_frame::has_body(b, s));
        if s != p {
            assert(crate::store::blob_frame::same_node(b, m, s));
        }
    }
}

/// Finalize a fold whose edge was moved.
fn close_fold<B: Backend>(
    bm: &mut BufferManager<B>,
    frame: &mut BlobFrame,
    prepared: PreparedBlobMerge,
    seq: u64,
    Ghost(bm0): Ghost<BufferManager<B>>,
    Ghost(a): Ghost<Seq<u8>>,
    Ghost(st0): Ghost<MergeStats>,
    Ghost(st1): Ghost<MergeStats>,
)
    requires
        pass_kept(bm0, *old(bm), a, old(frame)@, st0, st1, 1),
        crate::engine::walker::reclaim::crosses(
            old(frame)@,
            prepared.parent_bn as int,
            prepared.child_guid@,
        ),
    ensures
        pass_kept(bm0, *final(bm), a, final(frame)@, st0, st1, 0),
        crate::store::blob_frame::extends(old(frame)@, final(frame)@),
        crate::store::blob_frame::slots_of(final(frame)@) == crate::store::blob_frame::slots_of(
            old(frame)@,
        ),
        crate::store::blob_frame::bump_of(final(frame)@) == crate::store::blob_frame::bump_of(
            old(frame)@,
        ),
        crate::engine::walker::laws::clean(old(frame)@)
            ==> crate::engine::walker::settled::evolves(old(frame)@, final(frame)@),
        crate::engine::walker::reclaim::lists(
            old(bm)@,
            final(bm)@,
            crate::store::blob_frame::guid_of(old(frame)@),
            prepared.child_guid@,
            seq,
        ),
        crate::engine::walker::reclaim::counts_less(old(frame)@, final(frame)@, 1),
{
    let ghost bm1 = *bm;
    let ghost m = frame@;
    proof {
        lemma_pass_basic(bm0, bm1, a, m, st0, st1, 1);
    }
    finalize_blob_merge(bm, frame, prepared, seq);
    proof {
        lemma_staged_one(bm1@, bm@);
        lemma_pass_finalized(bm1, *bm, m, frame@, st1);
        if crate::engine::walker::laws::clean(m) {
            crate::engine::walker::laws::lemma_clean_grow(m, frame@);
            crate::engine::walker::settled::lemma_evolves_extends(m, frame@);
        }
        lemma_pass_trans(bm0, bm1, *bm, a, m, frame@, st0, st1, st1, 1, -1);
    }
}

/// One entry more on either list is one more staged.
proof fn lemma_staged_one(
    a: crate::store::buffer_manager::BufferState,
    b: crate::store::buffer_manager::BufferState,
)
    requires
        (exists|x: (BlobGuid, BlobGuid)|
            b == (crate::store::buffer_manager::BufferState {
                structural: #[trigger] a.structural.push(x),
                ..a
            })) || (exists|x: (BlobGuid, u64)|
            b == (crate::store::buffer_manager::BufferState {
                deletes: #[trigger] a.deletes.push(x),
                ..a
            })),
    ensures
        staged(b) == staged(a) + 1,
        books_kept(a, b),
        b.cache == a.cache,
{
    lemma_books_refl(a);
    if exists|x: (BlobGuid, BlobGuid)|
        b == (crate::store::buffer_manager::BufferState {
            structural: #[trigger] a.structural.push(x),
            ..a
        }) {
        assert(a.structural =~= b.structural.subrange(0, a.structural.len() as int));
    } else {
        assert(a.deletes =~= b.deletes.subrange(0, a.deletes.len() as int));
    }
}

/// Walk below a prefix node.
#[verifier::rlimit(40)]
fn merge_under_prefix<B: Backend>(
    bm: &mut BufferManager<B>,
    frame: &mut BlobFrame,
    slot: u16,
    stats: &mut MergeStats,
    seq: u64,
    fuel: u32,
) -> (r: Result<SubtreeMerge>)
    requires
        old(bm).wf(),
        crate::store::blob_frame::frame_ok(old(frame)@),
        crate::store::blob_frame::has_body(old(frame)@, slot as int),
        crate::store::blob_frame::type_at(old(frame)@, slot as int) == Some(NodeType::Prefix),
        fuel > 0,
    ensures
        subtree_result(
            *old(bm),
            *final(bm),
            old(frame)@,
            final(frame)@,
            *old(stats),
            *final(stats),
            slot,
            fuel as int,
            r,
        ),
        crate::engine::walker::reclaim::reclaims(
            honest(*old(bm)),
            old(bm)@,
            final(bm)@,
            old(frame)@,
            final(frame)@,
            slot as int,
            fuel as nat,
            seq,
        ),
        only_rewired(*old(bm), *final(bm), old(frame)@, final(frame)@),
        r matches Ok(m) ==> m.prepared is None && tried(
            *old(bm),
            *final(bm),
            final(frame)@,
            crate::bytes::le16(
                crate::store::blob_frame::body_at(old(frame)@, slot as int),
                0,
            ),
        ),
    decreases fuel, 0int,
{
    let ghost bm0 = *bm;
    let ghost a = frame@;
    let ghost st0 = *stats;
    proof {
        crate::store::blob_frame::lemma_extends_refl(a);
        crate::store::blob_frame::lemma_len_at(a, slot as int);
        lemma_books_refl(bm@);
        lemma_pass_grown(bm0, bm0, a, a, st0, st0.inspected);
        crate::engine::walker::rewire::lemma_rewired_start(
            bm0.inner().faithful(),
            bm0.seen(),
            bm0@,
            bm0@,
            a,
            a,
        );
        crate::engine::walker::reclaim::lemma_reclaims_start(
            honest(bm0),
            bm0@,
            bm0@,
            a,
            a,
            slot as int,
            fuel as nat,
            seq,
        );
    }
    let child: u16 = match prefix_child(frame, slot) {
        Ok(c) => c,
        Err(e) => {
            return Err(e);
        },
    };
    proof {
        if crate::engine::walker::laws::clean(a) {
            assert(crate::engine::walker::laws::clean_node(a, slot as int));
        }
    }
    let below = try_merge_subtree(bm, frame, child, stats, seq, fuel - 1);
    let ghost b = frame@;
    let ghost bm1 = *bm;
    let ghost n1 = stats.inspected;
    proof {
        let open = match below {
            Ok(m) => open_folds(m),
            Err(_) => choose|open: int| #[trigger] pass_kept(bm0, bm1, a, b, st0, *stats, open),
        };
        lemma_pass_basic(bm0, bm1, a, b, st0, *stats, open);
        if crate::engine::walker::laws::clean(a) {
            crate::engine::walker::settled::lemma_evolves_extends(a, a);
            crate::engine::walker::reclaim::lemma_prefix_on(
                a,
                slot as int,
                child as int,
                fuel as nat,
            );
        }
        crate::engine::walker::reclaim::lemma_reclaims_step(
            honest(bm0),
            honest(bm0),
            bm0@,
            bm0@,
            bm1@,
            a,
            a,
            b,
            slot as int,
            0,
            child as int,
            fuel as nat,
            seq,
        );
    }
    match below {
        Ok(m) => {
            proof {
                lemma_pass_basic(bm0, *bm, a, b, st0, *stats, open_folds(m));
                lemma_pass_shape(bm0, *bm, a, b, st0, *stats, open_folds(m), slot as int);
                crate::store::blob_frame::lemma_extends_refl(b);
                if crate::engine::walker::laws::clean(a) {
                    lemma_only_slot(b, b, b, slot as int, 0, 0);
                }
            }
            if let Some(prepared) = m.prepared {
                if !move_prefix_edge(frame, slot, child, prepared.inlined_root) {
                    proof {
                        if crate::engine::walker::laws::clean(a)
                            && crate::store::blob_frame::in_use(a, slot as int)
                            && crate::engine::walker::visits::unshared(
                            a,
                            slot as int,
                            fuel as nat,
                        ) {
                            crate::engine::walker::visits::lemma_walked_past(
                                a,
                                b,
                                child as int,
                                (fuel - 1) as nat,
                                st0.inspected,
                                n1,
                                slot as int,
                            );
                        }
                    }
                    return Err(
                        Error::node_corrupt("merge_under_prefix: edge leads to another child"),
                    );
                }
                let ghost c = frame@;
                proof {
                    lemma_pass_moved(
                        bm0,
                        *bm,
                        a,
                        b,
                        c,
                        slot as int,
                        child as int,
                        prepared.inlined_root as int,
                        st0,
                        *stats,
                    );
                    lemma_pass_basic(bm0, *bm, a, c, st0, *stats, 1);
                    lemma_pass_shape(bm0, *bm, a, c, st0, *stats, 1, slot as int);
                    lemma_crossing_stays(
                        b,
                        c,
                        slot as int,
                        child as int,
                        prepared.inlined_root as int,
                        child as int,
                        prepared.child_guid@,
                    );
                }
                close_fold(
                    bm,
                    frame,
                    prepared,
                    seq,
                    Ghost(bm0),
                    Ghost(a),
                    Ghost(st0),
                    Ghost(*stats),
                );
                proof {
                    if crate::engine::walker::laws::clean(a) {
                        assert(crate::engine::walker::laws::clean_node(c, slot as int));
                        crate::engine::walker::laws::lemma_node_extends(c, frame@, slot as int);
                        lemma_only_slot(
                            b,
                            c,
                            frame@,
                            slot as int,
                            child as int,
                            prepared.inlined_root as int,
                        );
                    }
                    if honest(bm0) && crate::engine::walker::laws::clean(a) {
                        crate::engine::walker::settled::lemma_evolves_trans(b, c, frame@);
                        crate::engine::walker::reclaim::lemma_prefix_led(
                            a,
                            b,
                            c,
                            slot as int,
                            child as int,
                            prepared.inlined_root as int,
                        );
                    }
                    crate::engine::walker::reclaim::lemma_reclaims_moved(
                        honest(bm0),
                        bm0@,
                        bm1@,
                        bm@,
                        a,
                        b,
                        c,
                        frame@,
                        slot as int,
                        0,
                        child,
                        prepared.inlined_root as int,
                        fuel as nat,
                        seq,
                        prepared.child_guid@,
                    );
                    lemma_child_folded(
                        bm0,
                        bm0,
                        bm1,
                        *bm,
                        a,
                        a,
                        b,
                        c,
                        frame@,
                        slot as int,
                        child,
                        prepared.inlined_root,
                        crate::store::blob_frame::guid_of(c),
                        prepared.child_guid@,
                        seq,
                    );
                }
            }
            proof {
                if m.prepared is None {
                    lemma_tried_stays(bm0, bm0, *bm, a, frame@, child as int);
                }
                lemma_passed_prefix(bm0, a, slot as int, child as int, fuel as nat);
                crate::engine::walker::visits::lemma_walked_prefix(
                    a,
                    b,
                    frame@,
                    slot as int,
                    child as int,
                    fuel as nat,
                    st0.inspected,
                    n1,
                );
                if honest(bm0) && healthy(bm0) && crate::engine::walker::laws::clean(a) {
                    lemma_pass_basic(bm0, *bm, a, frame@, st0, *stats, 0);
                    crate::engine::walker::settled::lemma_settled_prefix(
                        bm0.seen(),
                        a,
                        frame@,
                        slot as int,
                        child as int,
                        fuel as int,
                    );
                }
            }
            Ok(SubtreeMerge::unchanged(slot))
        },
        Err(e) => Err(e),
    }
}

/// Walk below an inner node.
#[verifier::rlimit(100)]
fn merge_under_inner<B: Backend>(
    bm: &mut BufferManager<B>,
    frame: &mut BlobFrame,
    slot: u16,
    ntype: NodeType,
    stats: &mut MergeStats,
    seq: u64,
    fuel: u32,
) -> (r: Result<SubtreeMerge>)
    requires
        old(bm).wf(),
        crate::store::blob_frame::frame_ok(old(frame)@),
        crate::store::blob_frame::has_body(old(frame)@, slot as int),
        crate::store::blob_frame::type_at(old(frame)@, slot as int) == Some(ntype),
        fuel > 0,
    ensures
        !crate::engine::walker::readers::is_inner(ntype) ==> {
            &&& r == Err::<SubtreeMerge, Error>(
                Error::corrupt("merge_under_inner: called on a non-inner NodeType"),
            )
            &&& final(frame)@ == old(frame)@
            &&& *final(stats) == *old(stats)
            &&& *final(bm) == *old(bm)
        },
        crate::engine::walker::readers::is_inner(ntype) ==> subtree_result(
            *old(bm),
            *final(bm),
            old(frame)@,
            final(frame)@,
            *old(stats),
            *final(stats),
            slot,
            fuel as int,
            r,
        ) && crate::engine::walker::reclaim::reclaims(
            honest(*old(bm)),
            old(bm)@,
            final(bm)@,
            old(frame)@,
            final(frame)@,
            slot as int,
            fuel as nat,
            seq,
        ) && only_rewired(*old(bm), *final(bm), old(frame)@, final(frame)@),
        crate::engine::walker::readers::is_inner(ntype)
            ==> crate::engine::walker::rewire::node_kept(
            old(bm).inner().faithful(),
            old(bm).seen(),
            old(bm)@,
            final(bm)@,
            old(frame)@,
            final(frame)@,
            crate::engine::walker::model::node(old(frame)@, slot as int),
            crate::engine::walker::model::node(final(frame)@, slot as int),
        ),
        r matches Ok(m) ==> m.prepared is None && m.root == slot && (forall|j: int|
            0 <= j < crate::engine::walker::model::node(
                old(frame)@,
                slot as int,
            )->Inner_pairs.len() ==> tried(
                *old(bm),
                *final(bm),
                final(frame)@,
                (#[trigger] crate::engine::walker::model::node(
                    old(frame)@,
                    slot as int,
                )->Inner_pairs[j]).1 as int,
            )),
        r is Ok ==> crate::engine::walker::reclaim::edges_follow(
            honest(*old(bm)),
            old(bm)@,
            final(bm)@,
            old(frame)@,
            final(frame)@,
            slot as int,
            fuel as nat,
        ),
        ntype == NodeType::Node48 && !crate::engine::walker::model::index48_ok(
            crate::store::blob_frame::body_at(old(frame)@, slot as int),
            256,
        ) ==> {
            &&& r == Err::<SubtreeMerge, Error>(
                Error::corrupt("merge_under_inner: Node48 index out of range"),
            )
            &&& final(frame)@ == old(frame)@
            &&& *final(stats) == *old(stats)
            &&& *final(bm) == *old(bm)
        },
    decreases fuel, 0int,
{
    let ghost bm0 = *bm;
    let ghost a = frame@;
    let ghost st0 = *stats;
    proof {
        crate::store::blob_frame::lemma_extends_refl(a);
        lemma_books_refl(bm@);
        lemma_pass_grown(bm0, bm0, a, a, st0, st0.inspected);
        crate::engine::walker::rewire::lemma_rewired_start(
            bm0.inner().faithful(),
            bm0.seen(),
            bm0@,
            bm0@,
            a,
            a,
        );
        crate::engine::walker::reclaim::lemma_reclaims_start(
            honest(bm0),
            bm0@,
            bm0@,
            a,
            a,
            slot as int,
            fuel as nat,
            seq,
        );
    }
    match ntype {
        NodeType::Node4 | NodeType::Node16 | NodeType::Node48 | NodeType::Node256 => {},
        _ => {
            return Err(Error::node_corrupt("merge_under_inner: called on a non-inner NodeType"));
        },
    }
    proof {
        crate::engine::walker::rewire::lemma_rewired_at(
            bm0.inner().faithful(),
            bm0.seen(),
            bm0@,
            bm0@,
            a,
            a,
            slot as int,
        );
    }
    // The children are listed once; the node's body stays where it is through the
    // walk, so rewiring by byte is safe.
    let pairs: Vec<(u8, u16)> = match child_pairs(frame, slot, ntype) {
        Some(p) => p,
        None => {
            proof {
                lemma_unclean_index(a, slot as int);
            }
            return Err(Error::node_corrupt("merge_under_inner: Node48 index out of range"));
        },
    };
    let mut i: usize = 0;
    proof {
        crate::engine::walker::visits::lemma_walked_list_start(
            a,
            slot as int,
            pairs@,
            (fuel - 1) as nat,
            st0.inspected,
        );
        lemma_passed_start(bm0, a, slot as int, pairs@, (fuel - 1) as nat);
        lemma_tried_start(bm0, a, pairs@);
        crate::engine::walker::reclaim::lemma_edges_start(
            honest(bm0),
            bm0@,
            a,
            slot as int,
            pairs@,
            fuel as nat,
        );
    }
    while i < pairs.len()
        invariant
            passed_list(bm0, a, slot as int, pairs@, i as int, (fuel - 1) as nat),
            only_rewired(bm0, *bm, a, frame@),
            all_tried(bm0, *bm, frame@, pairs@, i as int),
            crate::engine::walker::reclaim::edges_so_far(
                honest(bm0),
                bm0@,
                bm@,
                a,
                frame@,
                slot as int,
                pairs@,
                i as int,
                fuel as nat,
            ),
            ntype == NodeType::Node48 ==> crate::engine::walker::model::index48_ok(
                crate::store::blob_frame::body_at(a, slot as int),
                256,
            ),
            i <= pairs@.len(),
            fuel > 0,
            crate::engine::walker::visits::walked_list(
                a,
                frame@,
                slot as int,
                pairs@,
                i as nat,
                (fuel - 1) as nat,
                st0.inspected,
                stats.inspected,
            ),
            crate::engine::walker::readers::is_inner(ntype),
            bm0 == *old(bm),
            a == old(frame)@,
            st0 == *old(stats),
            pass_kept(bm0, *bm, a, frame@, st0, *stats, 0),
            crate::engine::walker::reclaim::reclaims(
                honest(bm0),
                bm0@,
                bm@,
                a,
                frame@,
                slot as int,
                fuel as nat,
                seq,
            ),
            crate::store::blob_frame::has_body(a, slot as int),
            crate::store::blob_frame::type_at(a, slot as int) == Some(ntype),
            crate::engine::walker::model::node(a, slot as int)
                == (crate::engine::walker::model::Node::Inner { pairs: pairs@ }),
            honest(bm0) && healthy(bm0) && crate::engine::walker::laws::clean(a) ==> forall|j: int|
                0 <= j < i ==> #[trigger] crate::engine::walker::settled::child_done(
                    bm0.seen(),
                    frame@,
                    slot as int,
                    pairs@,
                    j,
                    fuel - 1,
                ),
        decreases pairs@.len() - i,
    {
        let (byte, child): (u8, u16) = pairs[i];
        let ghost bm1 = *bm;
        let ghost b = frame@;
        let ghost st1 = *stats;
        proof {
            lemma_pass_basic(bm0, bm1, a, b, st0, st1, 0);
            if crate::engine::walker::laws::clean(a) {
                lemma_clean_child(a, slot as int, pairs@, i as int);
                if crate::store::blob_frame::in_use(a, slot as int)
                    && crate::engine::walker::visits::unshared(a, slot as int, fuel as nat) {
                    crate::engine::walker::reclaim::lemma_edges_next(
                        honest(bm0),
                        bm0@,
                        bm1@,
                        a,
                        b,
                        slot as int,
                        pairs@,
                        i as nat,
                        (fuel - 1) as nat,
                        st0.inspected,
                        st1.inspected,
                    );
                }
            }
        }
        let below = try_merge_subtree(bm, frame, child, stats, seq, fuel - 1);
        proof {
            let open = match below {
                Ok(m) => open_folds(m),
                Err(_) => choose|open: int| #[trigger]
                    pass_kept(bm1, *bm, b, frame@, st1, *stats, open),
            };
            lemma_pass_basic(bm1, *bm, b, frame@, st1, *stats, open);
            lemma_rewired_step(bm0, bm1, *bm, a, b, frame@, st0, st1, *stats, open);
            crate::engine::walker::rewire::lemma_rewired_at(
                bm0.inner().faithful(),
                bm0.seen(),
                bm0@,
                bm@,
                a,
                frame@,
                slot as int,
            );
            crate::engine::walker::reclaim::lemma_reclaims_step(
                honest(bm0),
                honest(bm1),
                bm0@,
                bm1@,
                bm@,
                a,
                b,
                frame@,
                slot as int,
                i as int,
                child as int,
                fuel as nat,
                seq,
            );
        }
        match below {
            Ok(m) => {
                proof {
                    let open = open_folds(m);
                    lemma_pass_trans(bm0, bm1, *bm, a, b, frame@, st0, st1, *stats, 0, open);
                    lemma_pass_basic(bm0, *bm, a, frame@, st0, *stats, open);
                    lemma_pass_shape(bm0, *bm, a, frame@, st0, *stats, open, slot as int);
                }
                let ghost c = frame@;
                let ghost bm2 = *bm;
                let ghost st2 = *stats;
                let ghost mut fold: Option<(u16, Seq<u8>)> = None;
                proof {
                    crate::store::blob_frame::lemma_extends_refl(c);
                    if crate::engine::walker::laws::clean(a) {
                        lemma_only_slot(c, c, c, slot as int, 0, 0);
                    }
                }
                if let Some(prepared) = m.prepared {
                    if !move_inner_edge(frame, slot, ntype, byte, child, prepared.inlined_root) {
                        proof {
                            if crate::engine::walker::laws::clean(a)
                                && crate::store::blob_frame::in_use(a, slot as int)
                                && crate::engine::walker::visits::unshared(
                                a,
                                slot as int,
                                fuel as nat,
                            ) {
                                crate::engine::walker::reclaim::lemma_edge_stays(
                                    honest(bm0),
                                    bm0@,
                                    bm1@,
                                    a,
                                    b,
                                    c,
                                    slot as int,
                                    pairs@,
                                    i as nat,
                                    (fuel - 1) as nat,
                                    st0.inspected,
                                    st1.inspected,
                                    st2.inspected,
                                );
                            }
                        }
                        return Err(
                            Error::node_corrupt("merge_under_inner: edge leads to another child"),
                        );
                    }
                    let ghost d = frame@;
                    proof {
                        lemma_pass_moved(
                            bm0,
                            *bm,
                            a,
                            c,
                            d,
                            slot as int,
                            child as int,
                            prepared.inlined_root as int,
                            st0,
                            *stats,
                        );
                        lemma_pass_basic(bm0, bm2, a, d, st0, st2, 1);
                        lemma_pass_shape(bm0, bm2, a, d, st0, st2, 1, slot as int);
                        lemma_crossing_stays(
                            c,
                            d,
                            slot as int,
                            child as int,
                            prepared.inlined_root as int,
                            child as int,
                            prepared.child_guid@,
                        );
                    }
                    close_fold(
                        bm,
                        frame,
                        prepared,
                        seq,
                        Ghost(bm0),
                        Ghost(a),
                        Ghost(st0),
                        Ghost(st2),
                    );
                    proof {
                        if crate::engine::walker::laws::clean(a) {
                            lemma_only_slot(
                                c,
                                d,
                                frame@,
                                slot as int,
                                child as int,
                                prepared.inlined_root as int,
                            );
                            assert(crate::engine::walker::laws::clean_node(d, slot as int));
                            crate::engine::walker::laws::lemma_node_extends(
                                d,
                                frame@,
                                slot as int,
                            );
                        }
                        if honest(bm0) && crate::engine::walker::laws::clean(a) {
                            crate::engine::walker::settled::lemma_evolves_trans(c, d, frame@);
                            crate::engine::walker::settled::lemma_free_kept(
                                c,
                                frame@,
                                prepared.inlined_root as int,
                            );
                        }
                        fold = Some((prepared.inlined_root, prepared.child_guid@));
                        lemma_pass_basic(bm1, bm2, b, c, st1, st2, 1);
                        lemma_child_folded(
                            bm0,
                            bm1,
                            bm2,
                            *bm,
                            a,
                            b,
                            c,
                            d,
                            frame@,
                            slot as int,
                            child,
                            prepared.inlined_root,
                            crate::store::blob_frame::guid_of(d),
                            prepared.child_guid@,
                            seq,
                        );
                        crate::engine::walker::reclaim::lemma_reclaims_moved(
                            honest(bm0),
                            bm0@,
                            bm2@,
                            bm@,
                            a,
                            c,
                            d,
                            frame@,
                            slot as int,
                            i as int,
                            child,
                            prepared.inlined_root as int,
                            fuel as nat,
                            seq,
                            prepared.child_guid@,
                        );
                    }
                }
                proof {
                    lemma_pass_basic(bm1, bm2, b, c, st1, st2, open_folds(m));
                    lemma_pass_basic(bm0, *bm, a, frame@, st0, *stats, 0);
                    if honest(bm0) && crate::engine::walker::laws::clean(a) {
                        if m.prepared is None {
                            crate::engine::walker::settled::lemma_evolves_extends(c, c);
                        }
                        crate::engine::walker::settled::lemma_evolves_trans(b, c, frame@);
                    }
                    lemma_pass_basic(bm0, bm1, a, b, st0, st1, 0);
                    if m.prepared is None {
                        lemma_tried_stays(bm0, bm1, *bm, b, frame@, child as int);
                    }
                    lemma_tried_step(bm0, bm1, *bm, b, frame@, pairs@, i as int);
                    lemma_passed_step(
                        bm0,
                        bm1,
                        a,
                        b,
                        slot as int,
                        pairs@,
                        i as nat,
                        (fuel - 1) as nat,
                        st0.inspected,
                        st1.inspected,
                    );
                    crate::engine::walker::reclaim::lemma_edges_step(
                        honest(bm0),
                        bm0@,
                        bm1@,
                        bm@,
                        a,
                        b,
                        c,
                        frame@,
                        slot as int,
                        pairs@,
                        i as nat,
                        (fuel - 1) as nat,
                        st0.inspected,
                        st1.inspected,
                        st2.inspected,
                        fold,
                    );
                    crate::engine::walker::visits::lemma_walked_list_step(
                        a,
                        b,
                        c,
                        frame@,
                        slot as int,
                        pairs@,
                        i as nat,
                        (fuel - 1) as nat,
                        st0.inspected,
                        st1.inspected,
                        st2.inspected,
                    );
                    if honest(bm0) && healthy(bm0) && crate::engine::walker::laws::clean(a) {
                        if m.prepared is None {
                            crate::store::blob_frame::lemma_extends_refl(c);
                            crate::engine::walker::settled::lemma_evolves_extends(c, c);
                        }
                        crate::engine::walker::settled::lemma_child_walked(
                            bm0.seen(),
                            a,
                            b,
                            c,
                            frame@,
                            slot as int,
                            pairs@,
                            i as int,
                            fuel - 1,
                            match m.prepared {
                                Some(p) => Some(p.inlined_root),
                                None => None,
                            },
                        );
                    }
                }
            },
            Err(e) => {
                proof {
                    let open = choose|open: int| #[trigger]
                        pass_kept(bm1, *bm, b, frame@, st1, *stats, open);
                    lemma_pass_trans(bm0, bm1, *bm, a, b, frame@, st0, st1, *stats, 0, open);
                }
                return Err(e);
            },
        }
        i += 1;
    }
    proof {
        crate::engine::walker::rewire::lemma_rewired_at(
            bm0.inner().faithful(),
            bm0.seen(),
            bm0@,
            bm@,
            a,
            frame@,
            slot as int,
        );
        lemma_passed_inner(bm0, a, slot as int, pairs@, (fuel - 1) as nat);
        reveal(all_tried);
        crate::engine::walker::reclaim::lemma_edges_end(
            honest(bm0),
            bm0@,
            bm@,
            a,
            frame@,
            slot as int,
            pairs@,
            i as int,
            fuel as nat,
        );
        crate::engine::walker::visits::lemma_walked_list_end(
            a,
            frame@,
            slot as int,
            pairs@,
            (fuel - 1) as nat,
            st0.inspected,
            stats.inspected,
        );
        if honest(bm0) && healthy(bm0) && crate::engine::walker::laws::clean(a) {
            lemma_pass_basic(bm0, *bm, a, frame@, st0, *stats, 0);
            crate::engine::walker::settled::lemma_settled_inner(
                bm0.seen(),
                a,
                frame@,
                slot as int,
                pairs@,
                fuel as int,
            );
        }
    }
    Ok(SubtreeMerge::unchanged(slot))
}

/// In a clean frame a listed child is a slot in use.
proof fn lemma_clean_child(a: Seq<u8>, s: int, pairs: Seq<(u8, u16)>, i: int)
    requires
        crate::engine::walker::laws::clean(a),
        crate::store::blob_frame::has_body(a, s),
        crate::engine::walker::model::node(a, s) == (crate::engine::walker::model::Node::Inner {
            pairs,
        }),
        0 <= i < pairs.len(),
    ensures
        crate::store::blob_frame::in_use(a, pairs[i].1 as int),
{
    assert(crate::engine::walker::laws::clean_node(a, s));
    assert(crate::engine::walker::model::node(a, s)->pairs[i] == pairs[i]);
}

/// A `Node48` with an index entry out of range is in no clean frame.
proof fn lemma_unclean_index(a: Seq<u8>, s: int)
    requires
        crate::store::blob_frame::frame_ok(a),
        crate::store::blob_frame::has_body(a, s),
        crate::store::blob_frame::type_at(a, s) == Some(NodeType::Node48),
        !crate::engine::walker::model::index48_ok(
            crate::store::blob_frame::body_at(a, s),
            256,
        ),
    ensures
        !crate::engine::walker::laws::clean(a),
{
    crate::engine::walker::insert::lemma_bad_index(a, s);
    let body = crate::store::blob_frame::body_at(a, s);
    let pairs = crate::engine::walker::model::pairs48(body, 256);
    crate::engine::walker::model::lemma_pairs48(body, 256);
    if crate::engine::walker::laws::clean(a) {
        assert(crate::engine::walker::laws::clean_node(a, s));
        assert(crate::engine::walker::writers::pairs_ok(pairs)) by {
            assert forall|i: int| 0 <= i < pairs.len() implies (#[trigger] pairs[i]).1 != 0 by {
                assert(crate::store::blob_frame::in_use(a, pairs[i].1 as int));
            }
        }
    }
}

/// Walk the subtree at `slot` and fold every mergeable child below it. A
/// subtree deeper than `fuel` levels is left as it is from there on.
fn try_merge_subtree<B: Backend>(
    bm: &mut BufferManager<B>,
    frame: &mut BlobFrame,
    slot: u16,
    stats: &mut MergeStats,
    seq: u64,
    fuel: u32,
) -> (r: Result<SubtreeMerge>)
    requires
        old(bm).wf(),
        crate::store::blob_frame::frame_ok(old(frame)@),
    ensures
        subtree_result(
            *old(bm),
            *final(bm),
            old(frame)@,
            final(frame)@,
            *old(stats),
            *final(stats),
            slot,
            fuel as int,
            r,
        ),
        crate::engine::walker::reclaim::reclaims(
            honest(*old(bm)),
            old(bm)@,
            final(bm)@,
            old(frame)@,
            final(frame)@,
            slot as int,
            fuel as nat,
            seq,
        ),
        only_rewired(*old(bm), *final(bm), old(frame)@, final(frame)@),
    decreases fuel, 1int,
{
    let ghost bm0 = *bm;
    let ghost a = frame@;
    let ghost st0 = *stats;
    proof {
        crate::store::blob_frame::lemma_extends_refl(a);
        lemma_books_refl(bm@);
        lemma_pass_grown(bm0, bm0, a, a, st0, st0.inspected);
        crate::engine::walker::rewire::lemma_rewired_start(
            bm0.inner().faithful(),
            bm0.seen(),
            bm0@,
            bm0@,
            a,
            a,
        );
        crate::engine::walker::reclaim::lemma_reclaims_start(
            honest(bm0),
            bm0@,
            bm0@,
            a,
            a,
            slot as int,
            fuel as nat,
            seq,
        );
    }
    let ntype: NodeType = match ntype_of(frame, slot) {
        Ok(t) => t,
        Err(e) => {
            proof {
                if crate::store::blob_frame::in_use(a, slot as int) {
                    assert(crate::store::blob_frame::has_body(a, slot as int));
                }
            }
            return Err(e);
        },
    };
    assert(crate::store::blob_frame::has_body(a, slot as int));
    match ntype {
        NodeType::Invalid => Err(
            Error::node_corrupt("try_merge_subtree: hit NodeType::Invalid"),
        ),
        NodeType::EmptyRoot => {
            proof {
                lemma_passed_end(bm0, a, slot as int, fuel as nat);
                crate::engine::walker::visits::lemma_walked_end(
                    a,
                    slot as int,
                    fuel as nat,
                    st0.inspected,
                );
            }
            Ok(SubtreeMerge::unchanged(slot))
        },
        NodeType::Leaf => {
            proof {
                lemma_passed_end(bm0, a, slot as int, fuel as nat);
                crate::engine::walker::visits::lemma_walked_end(
                    a,
                    slot as int,
                    fuel as nat,
                    st0.inspected,
                );
            }
            Ok(SubtreeMerge::unchanged(slot))
        },
        NodeType::Blob => {
            proof {
                if crate::engine::walker::laws::clean(a) {
                    assert(crate::engine::walker::laws::clean_node(a, slot as int));
                }
            }
            let r = merge_at_blob_node(bm, frame, slot, stats, Ghost(fuel as int));
            proof {
                let open = match r {
                    Ok(m) => open_folds(m),
                    Err(_) => choose|open: int| #[trigger]
                        pass_kept(bm0, *bm, a, frame@, st0, *stats, open),
                };
                lemma_pass_basic(bm0, *bm, a, frame@, st0, *stats, open);
                crate::engine::walker::rewire::lemma_rewired_start(
                    bm0.inner().faithful(),
                    bm0.seen(),
                    bm0@,
                    bm@,
                    a,
                    frame@,
                );
                crate::engine::walker::reclaim::lemma_reclaims_start(
                    honest(bm0),
                    bm0@,
                    bm@,
                    a,
                    frame@,
                    slot as int,
                    fuel as nat,
                    seq,
                );
            }
            r
        },
        NodeType::Prefix => if fuel == 0 {
            proof {
                lemma_passed_end(bm0, a, slot as int, 0);
                crate::engine::walker::visits::lemma_walked_end(a, slot as int, 0, st0.inspected);
            }
            Ok(SubtreeMerge::unchanged(slot))
        } else {
            merge_under_prefix(bm, frame, slot, stats, seq, fuel)
        },
        _ => if fuel == 0 {
            proof {
                lemma_passed_end(bm0, a, slot as int, 0);
                crate::engine::walker::visits::lemma_walked_end(a, slot as int, 0, st0.inspected);
            }
            Ok(SubtreeMerge::unchanged(slot))
        } else {
            merge_under_inner(bm, frame, slot, ntype, stats, seq, fuel)
        },
    }
}

// ---------- one pass over a parent ----------

/// Every search from the root that ended well ends well, and where following
/// crossings leads.
pub open spec fn answers_kept(blobs: Map<u128, Seq<u8>>, a: Seq<u8>, b: Seq<u8>) -> bool {
    forall|k: Seq<u8>|
        !(crate::engine::walker::model::find(a, crate::store::blob_frame::root_of(a), k, 0)
            is Corrupt) ==> {
            let out = #[trigger] crate::engine::walker::model::find(
                b,
                crate::store::blob_frame::root_of(b),
                k,
                0,
            );
            &&& !(out is Corrupt)
            &&& crate::engine::walker::equivalence::leads(
                blobs,
                k,
                crate::engine::walker::model::find(a, crate::store::blob_frame::root_of(a), k, 0),
                out,
            )
        }
}

/// After a pass a key that the parent stores itself is found with the same value,
/// and one that it does not store is not. A key behind a crossing is still looked
/// for there, or it is found, or not found, in the parent as it was in the child.
pub proof fn a_pass_keeps_every_answer(
    blobs: Map<u128, Seq<u8>>,
    a: Seq<u8>,
    b: Seq<u8>,
    key: Seq<u8>,
)
    requires
        answers_kept(blobs, a, b),
    ensures
        ({
            let x = crate::engine::walker::model::find(
                a,
                crate::store::blob_frame::root_of(a),
                key,
                0,
            );
            let y = crate::engine::walker::model::find(
                b,
                crate::store::blob_frame::root_of(b),
                key,
                0,
            );
            match x {
                crate::engine::walker::model::Outcome::Corrupt => true,
                crate::engine::walker::model::Outcome::Cross { guid, depth } => {
                    let img = blobs[vstd::bytes::spec_u128_from_le_bytes(guid)];
                    let z = crate::engine::walker::model::find(
                        img,
                        crate::store::blob_frame::root_of(img),
                        key,
                        depth,
                    );
                    y == x || (!(z is Cross) ==> y == z)
                },
                _ => y == x,
            }
        }),
{
    let x = crate::engine::walker::model::find(a, crate::store::blob_frame::root_of(a), key, 0);
    let y = crate::engine::walker::model::find(b, crate::store::blob_frame::root_of(b), key, 0);
    if !(x is Corrupt) {
        let n = choose|n: nat| #[trigger]
            crate::engine::walker::equivalence::follow(blobs, key, x, n) == y;
        if x is Cross && n > 0 {
            let img = blobs[vstd::bytes::spec_u128_from_le_bytes(x->guid)];
            let z = crate::engine::walker::model::find(
                img,
                crate::store::blob_frame::root_of(img),
                key,
                x->depth,
            );
            assert(crate::engine::walker::equivalence::follow(blobs, key, z, (n - 1) as nat) == y);
        }
    }
}

/// A pass changes no stored blob and no dirty mark, keeps the parent's guid and
/// epoch, and takes nothing off a reclaim list.
pub proof fn a_pass_changes_the_parent_only<B: Backend>(
    bm0: BufferManager<B>,
    bm1: BufferManager<B>,
    a: Seq<u8>,
    b: Seq<u8>,
    id: u128,
)
    requires
        bm0.inner().faithful(),
        parent_kept(bm0, bm1, a, b),
    ensures
        crate::store::blob_frame::frame_ok(b),
        b.subrange(0, 16) == a.subrange(0, 16),
        crate::store::blob_frame::epoch_of(b) == crate::store::blob_frame::epoch_of(a),
        bm1.inner().faithful(),
        bm1.seen().dom().contains(id) == bm0.seen().dom().contains(id),
        bm0.seen().dom().contains(id) ==> bm1.seen()[id] == bm0.seen()[id],
        bm1@.dirty == bm0@.dirty,
        bm1@.cow == bm0@.cow,
        bm1@.fork_barrier == bm0@.fork_barrier && bm1@.epoch == bm0@.epoch,
        bm0@.deletes.len() <= bm1@.deletes.len(),
        bm0@.structural.len() <= bm1@.structural.len(),
        answers_kept(bm0.seen(), a, b),
{
}

/// A pass leaves every leaf and every crossing of the parent where it is, and every
/// prefix its bytes.
pub proof fn a_pass_moves_edges_only<B: Backend>(
    bm0: BufferManager<B>,
    bm1: BufferManager<B>,
    a: Seq<u8>,
    b: Seq<u8>,
    s: int,
)
    requires
        only_rewired(bm0, bm1, a, b),
        crate::store::blob_frame::has_body(a, s),
    ensures
        match crate::engine::walker::model::node(a, s) {
            crate::engine::walker::model::Node::Prefix { bytes, child } =>
                crate::engine::walker::model::node(b, s)
                matches crate::engine::walker::model::Node::Prefix { bytes: y, child: c } && y
                == bytes,
            crate::engine::walker::model::Node::Inner { pairs } =>
                crate::engine::walker::model::node(b, s)
                matches crate::engine::walker::model::Node::Inner { pairs: q } && q.len()
                == pairs.len() && forall|j: int|
                0 <= j < pairs.len() ==> (#[trigger] q[j]).0 == pairs[j].0,
            n => crate::engine::walker::model::node(b, s) == n,
        },
{
    reveal(crate::engine::walker::rewire::rewired_only);
}

/// A look at a child changes nothing that readers see, and no mark.
pub proof fn a_look_changes_nothing<B: Backend>(
    bm0: BufferManager<B>,
    bm1: BufferManager<B>,
    id: u128,
)
    requires
        looked_at(bm0, bm1, id),
        bm0.inner().faithful(),
    ensures
        bm1.seen() == bm0.seen(),
        bm1@.dirty == bm0@.dirty,
        bm1@.deletes == bm0@.deletes && bm1@.structural == bm0@.structural,
{
}

/// A count up to 4294967295 is shown as it is.
pub proof fn counts_are_exact(n: int)
    requires
        0 <= n <= 0xffff_ffff,
    ensures
        capped(n) == n,
{
}

/// What a pass over a parent keeps, whatever came of it.
pub open spec fn parent_kept<B: Backend>(
    bm0: BufferManager<B>,
    bm1: BufferManager<B>,
    a: Seq<u8>,
    b: Seq<u8>,
) -> bool {
    &&& bm1.wf()
    &&& crate::store::blob_frame::frame_ok(b)
    &&& books_kept(bm0@, bm1@)
    &&& crate::store::blob_frame::guid_of(b) == crate::store::blob_frame::guid_of(a)
    &&& crate::store::blob_frame::epoch_of(b) == crate::store::blob_frame::epoch_of(a)
    &&& bm0.inner().faithful() ==> {
        &&& bm1.inner().faithful()
        &&& bm1.seen() == bm0.seen()
        &&& answers_kept(bm0.seen(), a, b)
    }
    &&& bm0.inner().faithful() && bm0.inner().steady() ==> bm1.inner().steady()
    &&& crate::engine::walker::laws::clean(a) ==> crate::engine::walker::laws::clean(b)
}

/// The root moved to the fold `t`, or stayed: what `f` answers.
proof fn lemma_answers_kept(
    blobs: Map<u128, Seq<u8>>,
    a: Seq<u8>,
    b: Seq<u8>,
    f: Seq<u8>,
    t: int,
)
    requires
        crate::engine::walker::equivalence::equivalent(blobs, a, b),
        t == crate::store::blob_frame::root_of(a) || crate::engine::walker::equivalence::replaces(
            blobs,
            b,
            crate::store::blob_frame::root_of(a),
            t,
        ),
        crate::store::blob_frame::extends(b, f),
        crate::store::blob_frame::root_of(f) == t,
    ensures
        answers_kept(blobs, a, f),
{
    let root = crate::store::blob_frame::root_of(a);
    assert forall|k: Seq<u8>|
        !(crate::engine::walker::model::find(a, root, k, 0) is Corrupt) implies {
        let out = #[trigger] crate::engine::walker::model::find(f, t, k, 0);
        &&& !(out is Corrupt)
        &&& crate::engine::walker::equivalence::leads(
            blobs,
            k,
            crate::engine::walker::model::find(a, root, k, 0),
            out,
        )
    } by {
        let x = crate::engine::walker::model::find(a, root, k, 0);
        let y = crate::engine::walker::model::find(b, root, k, 0);
        let z = crate::engine::walker::model::find(b, t, k, 0);
        if t != root {
            crate::engine::walker::equivalence::lemma_leads_trans(blobs, k, x, y, z);
        }
        crate::engine::walker::laws::lemma_find_extends(b, f, t, k, 0);
    }
}

/// A pass over the tree, the root moved to its fold `t` where it was folded, and
/// that fold staged.
proof fn lemma_parent_kept<B: Backend>(
    bm0: BufferManager<B>,
    bm1: BufferManager<B>,
    bm2: BufferManager<B>,
    a: Seq<u8>,
    b: Seq<u8>,
    f: Seq<u8>,
    st0: MergeStats,
    st1: MergeStats,
    open: int,
)
    requires
        pass_kept(bm0, bm1, a, b, st0, st1, open),
        bm2.wf(),
        bm2.inner() == bm1.inner(),
        bm2@.cache == bm1@.cache,
        books_kept(bm1@, bm2@),
        staged(bm2@) == staged(bm1@) + open,
        crate::store::blob_frame::frame_ok(f),
        crate::store::blob_frame::header_update(b, f),
        crate::store::blob_frame::guid_of(f) == crate::store::blob_frame::guid_of(b),
        crate::store::blob_frame::epoch_of(f) == crate::store::blob_frame::epoch_of(b),
        crate::store::blob_frame::root_of(f) == crate::store::blob_frame::root_of(b) || (
        bm0.inner().faithful() ==> crate::engine::walker::equivalence::replaces(
            bm0.seen(),
            b,
            crate::store::blob_frame::root_of(a),
            crate::store::blob_frame::root_of(f),
        )),
    ensures
        parent_kept(bm0, bm2, a, f),
        crate::engine::walker::laws::clean(a) ==> crate::engine::walker::laws::clean(b)
            && crate::engine::walker::settled::evolves(b, f),
        st1.merged == capped(st0.merged + (staged(bm2@) - staged(bm0@))),
{
    reveal(pass_kept);
    lemma_prefix_trans(bm0@.deletes, bm1@.deletes, bm2@.deletes);
    lemma_prefix_trans(bm0@.structural, bm1@.structural, bm2@.structural);
    if bm0.inner().faithful() {
        lemma_answers_kept(bm0.seen(), a, b, f, crate::store::blob_frame::root_of(f));
    }
    if crate::engine::walker::laws::clean(a) {
        crate::engine::walker::laws::lemma_clean_grow(b, f);
        crate::engine::walker::settled::lemma_evolves_extends(b, f);
    }
}

/// A pass that stopped at a fault.
proof fn lemma_pass_stopped<B: Backend>(
    bm0: BufferManager<B>,
    bm1: BufferManager<B>,
    a: Seq<u8>,
    b: Seq<u8>,
    st0: MergeStats,
    st1: MergeStats,
    open: int,
)
    requires
        pass_kept(bm0, bm1, a, b, st0, st1, open),
    ensures
        parent_kept(bm0, bm1, a, b),
{
    reveal(pass_kept);
    crate::store::blob_frame::lemma_extends_refl(b);
    if bm0.inner().faithful() {
        lemma_answers_kept(bm0.seen(), a, b, b, crate::store::blob_frame::root_of(b));
    }
}

/// Move the root to its fold, where it was folded, and finalize that fold.
fn finish_pass<B: Backend>(
    bm: &mut BufferManager<B>,
    parent_frame: &mut BlobFrame,
    m: SubtreeMerge,
    seq: u64,
    Ghost(bm0): Ghost<BufferManager<B>>,
    Ghost(a): Ghost<Seq<u8>>,
    Ghost(st0): Ghost<MergeStats>,
    Ghost(st1): Ghost<MergeStats>,
)
    requires
        m.prepared matches Some(p) ==> (subtree_result(
            bm0,
            *old(bm),
            a,
            old(parent_frame)@,
            st0,
            st1,
            p.parent_bn,
            MAX_DEPTH as int,
            Ok(m),
        ) && p.parent_bn == crate::store::blob_frame::root_of(a)),
        pass_kept(bm0, *old(bm), a, old(parent_frame)@, st0, st1, open_folds(m)),
        only_rewired(bm0, *old(bm), a, old(parent_frame)@),
        crate::engine::walker::reclaim::reclaims(
            honest(bm0),
            bm0@,
            old(bm)@,
            a,
            old(parent_frame)@,
            crate::store::blob_frame::root_of(a),
            MAX_DEPTH as nat,
            seq,
        ),
    ensures
        parent_kept(bm0, *final(bm), a, final(parent_frame)@),
        crate::engine::walker::reclaim::reclaimed(
            honest(bm0),
            bm0@,
            final(bm)@,
            a,
            final(parent_frame)@,
            seq,
        ),
        st1.merged == capped(st0.merged + (staged(final(bm)@) - staged(bm0@))),
        only_rewired(bm0, *final(bm), a, final(parent_frame)@),
        m.prepared is None ==> final(parent_frame)@ == old(parent_frame)@,
        crate::store::blob_frame::root_of(final(parent_frame)@) == (match m.prepared {
            Some(p) => p.inlined_root as int,
            None => crate::store::blob_frame::root_of(a),
        }),
        m.prepared matches Some(p) ==> honest(bm0) && crate::engine::walker::laws::clean(a)
            ==> crate::engine::walker::settled::crossing_free(
            final(parent_frame)@,
            p.inlined_root as int,
        ),
{
    let ghost bm1 = *bm;
    let ghost b = parent_frame@;
    proof {
        lemma_pass_basic(bm0, bm1, a, b, st0, st1, open_folds(m));
        crate::store::blob_frame::lemma_extends_refl(b);
        lemma_books_refl(bm1@);
    }
    if let Some(prepared) = m.prepared {
        parent_frame.set_root_slot(prepared.inlined_root);
        let ghost c = parent_frame@;
        finalize_blob_merge(bm, parent_frame, prepared, seq);
        proof {
            lemma_staged_one(bm1@, bm@);
            crate::store::blob_frame::lemma_extends_trans(b, c, parent_frame@);
        }
    }
    proof {
        let f = parent_frame@;
        lemma_parent_kept(bm0, bm1, *bm, a, b, f, st0, st1, open_folds(m));
        crate::engine::walker::rewire::lemma_rewired_grown(
            bm0.inner().faithful(),
            bm0.seen(),
            bm0@,
            bm1@,
            bm@,
            a,
            b,
            f,
        );
        if m.prepared is Some && honest(bm0) && crate::engine::walker::laws::clean(a) {
            crate::engine::walker::settled::lemma_free_kept(b, f, m.root as int);
        }
        match m.prepared {
            Some(p) => {
                crate::engine::walker::reclaim::lemma_reclaimed_root(
                    honest(bm0),
                    bm0@,
                    bm1@,
                    bm@,
                    a,
                    b,
                    f,
                    seq,
                    p.child_guid@,
                );
            },
            None => {
                crate::engine::walker::reclaim::lemma_reclaimed_here(
                    honest(bm0),
                    bm0@,
                    bm@,
                    a,
                    f,
                    seq,
                );
            },
        }
    }
}

/// What a pass over a parent frame does, and what comes of it.
pub open spec fn pass_outcome<B: Backend>(
    bm0: BufferManager<B>,
    bm1: BufferManager<B>,
    a: Seq<u8>,
    b: Seq<u8>,
    seq: u64,
    r: Result<MergeStats>,
) -> bool {
    let root = crate::store::blob_frame::root_of(a);
    let fit = crate::engine::walker::laws::clean(a) && crate::store::blob_frame::in_use(a, root);
    let plain = fit && crate::engine::walker::visits::unshared(a, root, MAX_DEPTH as nat);
    &&& parent_kept(bm0, bm1, a, b)
    &&& crate::engine::walker::reclaim::reclaimed(honest(bm0), bm0@, bm1@, a, b, seq)
    &&& only_rewired(bm0, bm1, a, b)
    &&& healthy(bm0) && plain ==> r is Ok
    &&& match r {
        Ok(stats) => {
            &&& bm0.inner().faithful() && bm0.inner().steady() && plain ==> passable(
                bm0.seen(),
                a,
                root,
                MAX_DEPTH as nat,
            )
            &&& stats.merged <= stats.inspected
            &&& stats.merged == capped(staged(bm1@) - staged(bm0@))
            &&& plain ==> stats.inspected == crate::engine::walker::visits::visits(
                a,
                root,
                MAX_DEPTH as nat,
            )
            &&& honest(bm0) && healthy(bm0) && fit ==> crate::engine::walker::settled::settled(
                bm0.seen(),
                b,
                crate::store::blob_frame::root_of(b),
                MAX_DEPTH as int,
            )
        },
        Err(e) => {
            &&& !crate::api::errors::not_found(e)
            &&& bm0.inner().faithful() && bm0.inner().steady() ==> e is NodeCorrupt
        },
    }
}

/// A pass over a clean parent, in a store without faults whose blobs are valid trees
/// or count their crossings, ends well. After it no search of at most 65536 bytes
/// ends at a crossing to a child that is there, is a valid tree without crossings, and
/// has room in the parent.
pub proof fn a_pass_folds_every_child_that_has_room<B: Backend>(
    bm0: BufferManager<B>,
    bm1: BufferManager<B>,
    a: Seq<u8>,
    b: Seq<u8>,
    seq: u64,
    r: Result<MergeStats>,
    key: Seq<u8>,
    child: BlobGuid,
)
    requires
        bm0.inner().faithful(),
        bm0.inner().steady(),
        forall|id: u128| #[trigger]
            bm0.seen().dom().contains(id) ==> crate::engine::walker::laws::valid_tree(
                bm0.seen()[id],
            ) || (sound_blob(bm0.seen()[id]) && crate::store::blob_frame::ext_blobs_of(
                bm0.seen()[id],
            ) != 0),
        crate::engine::walker::laws::clean(a),
        crate::store::blob_frame::in_use(a, crate::store::blob_frame::root_of(a)),
        crate::engine::walker::visits::unshared(a, crate::store::blob_frame::root_of(a), 65536),
        pass_outcome(bm0, bm1, a, b, seq, r),
        key.len() <= 65536,
    ensures
        r is Ok,
        ({
            let id = crate::layout::guid_id(child);
            let img = bm0.seen()[id];
            let cost = crate::engine::walker::migrate::copy_cost(
                img,
                crate::store::blob_frame::root_of(img),
                65536,
            );
            bm0.seen().dom().contains(id) && crate::store::blob_frame::ext_blobs_of(img) == 0
                && crate::store::blob_frame::bump_of(b) + cost.bytes + 128 <= 524288
                && crate::store::blob_frame::slots_of(b) + cost.slots + 1 <= 10240 ==> !(
            crate::engine::walker::model::find(
                b,
                crate::store::blob_frame::root_of(b),
                key,
                0,
            ) matches crate::engine::walker::model::Outcome::Cross { guid, depth } && guid
                == child@)
        }),
{
    a_store_of_valid_trees_is_healthy(bm0);
    a_store_of_valid_trees_is_honest(bm0);
    let id = crate::layout::guid_id(child);
    assert(crate::engine::walker::equivalence::bytes_id(child@) == id);
    if bm0.seen().dom().contains(id) && crate::store::blob_frame::ext_blobs_of(bm0.seen()[id])
        == 0 {
        a_valid_tree_is_sound(bm0.seen()[id]);
        let root = crate::store::blob_frame::root_of(b);
        let out = crate::engine::walker::model::find(b, root, key, 0);
        assert(out matches crate::engine::walker::model::Outcome::Cross { guid, depth }
            ==> !crate::engine::walker::settled::foldable(bm0.seen(), guid, b));
    }
}

/// A pass that ends well inspected every crossing of a clean parent once and counts
/// each child it folded; one that fails does not say that a blob was not found.
pub proof fn a_pass_counts_what_it_did<B: Backend>(
    bm0: BufferManager<B>,
    bm1: BufferManager<B>,
    a: Seq<u8>,
    b: Seq<u8>,
    seq: u64,
    r: Result<MergeStats>,
)
    requires
        pass_outcome(bm0, bm1, a, b, seq, r),
    ensures
        r matches Ok(stats) ==> {
            let new = bm1@.deletes.len() + bm1@.structural.len() - bm0@.deletes.len()
                - bm0@.structural.len();
            &&& stats.merged <= stats.inspected
            &&& 0 <= new <= 0xffff_ffff ==> stats.merged == new
            &&& crate::engine::walker::laws::clean(a) && crate::store::blob_frame::in_use(
                a,
                crate::store::blob_frame::root_of(a),
            ) && crate::engine::walker::visits::unshared(
                a,
                crate::store::blob_frame::root_of(a),
                65536,
            ) ==> stats.inspected == crate::engine::walker::visits::visits(
                a,
                crate::store::blob_frame::root_of(a),
                65536,
            )
        },
        r matches Err(e) ==> !crate::api::errors::not_found(e),
{
}

/// Walk the tree of `parent_frame` from its root and fold every mergeable
/// child back into the parent; where the root itself is a crossing that is
/// folded, the root moves to the copy.
///
/// A folded child is staged for reclaim: against its parent where `seq` is the
/// structural sequence, for deferred deletion at `seq` otherwise. A child that
/// is not there is passed over; one that cannot be read stops the pass with its
/// error, and so do a fault of the store and an edge that does not lead to the
/// child listed for its byte. After a whole pass no search of at most `MAX_DEPTH`
/// bytes ends at a crossing that could still be folded.
pub fn try_merge_children<B: Backend>(
    bm: &mut BufferManager<B>,
    parent_frame: &mut BlobFrame,
    seq: u64,
) -> (r: Result<MergeStats>)
    requires
        old(bm).wf(),
        crate::store::blob_frame::frame_ok(old(parent_frame)@),
    ensures
        pass_outcome(*old(bm), *final(bm), old(parent_frame)@, final(parent_frame)@, seq, r),
{
    let ghost bm0 = *bm;
    let ghost a = parent_frame@;
    let mut stats: MergeStats = MergeStats { merged: 0, inspected: 0 };
    let ghost st0 = stats;
    let root: u16 = parent_frame.root_slot();
    let merged = try_merge_subtree(bm, parent_frame, root, &mut stats, seq, MAX_DEPTH);
    let ghost bm1 = *bm;
    let ghost b = parent_frame@;
    match merged {
        Ok(m) => {
            proof {
                lemma_pass_basic(bm0, bm1, a, b, st0, stats, open_folds(m));
                reveal(passed);
                if crate::engine::walker::laws::clean(a) && crate::store::blob_frame::in_use(
                    a,
                    root as int,
                ) && crate::engine::walker::visits::unshared(a, root as int, MAX_DEPTH as nat) {
                    crate::engine::walker::visits::lemma_walked_count(
                        a,
                        b,
                        root as int,
                        MAX_DEPTH as nat,
                        0,
                        stats.inspected,
                    );
                    crate::engine::walker::visits::a_walk_meets_fewer_crossings_than_slots(
                        a,
                        root as int,
                        MAX_DEPTH as nat,
                    );
                }
            }
            finish_pass(bm, parent_frame, m, seq, Ghost(bm0), Ghost(a), Ghost(st0), Ghost(stats));
            Ok(stats)
        },
        Err(e) => {
            proof {
                let open = choose|open: int| #[trigger]
                    pass_kept(bm0, bm1, a, b, st0, stats, open);
                lemma_pass_basic(bm0, bm1, a, b, st0, stats, open);
                lemma_pass_stopped(bm0, bm1, a, b, st0, stats, open);
                crate::engine::walker::reclaim::lemma_reclaimed_here(
                    honest(bm0),
                    bm0@,
                    bm1@,
                    a,
                    b,
                    seq,
                );
            }
            Err(e)
        },
    }
}

} // verus!
