//! Copy-on-write forking of frames at crossings.
//!
//! Before a write goes down into a child frame that a live snapshot may still
//! reference, the frame is forked under a fresh guid and the parent's crossing
//! is pointed at the fork, so that the shared frame stays as it is for the snapshot.
//!
//! Without a live snapshot the fork barrier is 0 and nothing is forked.
use vstd::prelude::*;

use crate::api::errors::{Error, Result};
use crate::bytes::same_bytes;
use crate::engine::walker::model::Outcome;
use crate::engine::walker::readers::ntype_of;
use crate::engine::walker::writers::repoint_blob_node;
use crate::layout::{frame_created_epoch, BlobGuid, NodeType, PAGE_SIZE};
use crate::store::backend::Backend;
use crate::store::blob_frame::{read_guid, BlobFrame};
use crate::store::buffer_manager::{BufferManager, Pin, STRUCTURAL_SEQ};
use crate::store::cached_blob::CachedBlob;

verus! {

/// Whether a frame created in `epoch` may be visible to a live snapshot.
pub open spec fn shared(barrier: u64, epoch: int) -> bool {
    barrier != 0 && epoch <= barrier
}

/// Whether `child` may be visible to a live snapshot and so has to be forked
/// before it is written in place.
pub fn child_is_snapshot_shared<B: Backend>(bm: &BufferManager<B>, child: &CachedBlob) -> (r: bool)
    requires
        child@.bytes.len() == PAGE_SIZE,
    ensures
        r == shared(
            bm@.fork_barrier,
            crate::store::blob_frame::epoch_of(child@.bytes),
        ),
{
    let barrier: u64 = bm.fork_barrier();
    if barrier == 0 {
        return false;
    }
    let probe = child.read();
    frame_created_epoch(probe.as_slice()) <= barrier
}

/// What is wrong with the crossing at `slot` of `img` to the blob `child`.
pub open spec fn edge_fault(img: Seq<u8>, slot: int, child: BlobGuid) -> Option<Error> {
    if !crate::store::blob_frame::in_use(img, slot) {
        Some(Error::corrupt("walker: invalid slot"))
    } else {
        match crate::store::blob_frame::type_at(img, slot) {
            None => Some(Error::corrupt("walker: undecodable node type")),
            Some(NodeType::Blob) => {
                if crate::store::blob_frame::body_at(img, slot).subrange(0, 16) != child@ {
                    Some(Error::corrupt("COW parent edge child identity changed"))
                } else {
                    None
                }
            },
            Some(_) => Some(Error::corrupt("COW parent edge is not a BlobNode")),
        }
    }
}

/// Check that the crossing at `slot` leads to `child`.
fn check_edge(frame: &BlobFrame, slot: u16, child: BlobGuid) -> (r: Result<()>)
    requires
        crate::store::blob_frame::frame_ok(frame@),
    ensures
        match edge_fault(frame@, slot as int, child) {
            None => r == Ok::<(), Error>(()),
            Some(e) => r == Err::<(), Error>(e),
        },
{
    match ntype_of(frame, slot) {
        Ok(NodeType::Blob) => {},
        Ok(_t) => {
            return Err(Error::node_corrupt("COW parent edge is not a BlobNode"));
        },
        Err(e) => {
            return Err(e);
        },
    }
    proof {
        assert(crate::store::blob_frame::has_body(frame@, slot as int));
        crate::store::blob_frame::lemma_len_at(frame@, slot as int);
    }
    let body: &[u8] = match frame.body_of_slot(slot) {
        Some(b) => b,
        None => {
            return Err(Error::node_corrupt("COW parent edge body missing"));
        },
    };
    let edge: BlobGuid = read_guid(body, 0);
    if !same_bytes(edge.as_slice(), child.as_slice()) {
        return Err(Error::node_corrupt("COW parent edge child identity changed"));
    }
    Ok(())
}

/// The manager's books after the frame `bytes` is forked to `image` as `guid`,
/// and the shared frame is staged against its parent.
pub open spec fn forked(
    s: crate::store::buffer_manager::BufferState,
    image: Seq<u8>,
    guid: BlobGuid,
    parent: BlobGuid,
    child: BlobGuid,
    child_epoch: u64,
) -> crate::store::buffer_manager::BufferState {
    crate::store::buffer_manager::BufferState {
        cow: s.cow.push((parent, child, child_epoch)),
        ..crate::store::buffer_manager::fork_cached(
            s,
            crate::layout::guid_id(guid),
            image,
            STRUCTURAL_SEQ,
        )
    }
}

/// The crossing at `slot` leads to `guid`, and nothing else changed.
pub open spec fn repointed(a: Seq<u8>, b: Seq<u8>, slot: int, guid: Seq<u8>) -> bool {
    &&& crate::engine::walker::writers::only_changed(a, b, slot)
    &&& crate::store::blob_frame::body_at(b, slot).subrange(0, 16) == guid
    &&& crate::engine::walker::model::node(b, slot) == (
    match crate::engine::walker::model::node(a, slot) {
        crate::engine::walker::model::Node::Blob { guid: g, prefix } => {
            crate::engine::walker::model::Node::Blob { guid, prefix }
        },
        n => n,
    })
}

/// What forking the child `bytes` behind the crossing at `slot` gives on a manager
/// in state `s` and a parent `a`: the outcome, the state `t` and the parent `b`.
pub open spec fn fork_outcome(
    s: crate::store::buffer_manager::BufferState,
    t: crate::store::buffer_manager::BufferState,
    a: Seq<u8>,
    b: Seq<u8>,
    child: BlobGuid,
    bytes: Seq<u8>,
    slot: int,
    fork_guid: BlobGuid,
    r: Result<Option<(BlobGuid, Pin)>>,
) -> bool {
    match r {
        Ok(None) => {
            &&& !shared(s.fork_barrier, crate::store::blob_frame::epoch_of(bytes))
            &&& t == s
            &&& b == a
        },
        Ok(Some((guid, pin))) => {
            &&& shared(s.fork_barrier, crate::store::blob_frame::epoch_of(bytes))
            &&& edge_fault(a, slot, child) is None
            &&& crate::store::blob_frame::frame_ok(bytes)
            &&& guid == fork_guid
            &&& pin.id() == crate::layout::guid_id(fork_guid)
            &&& crate::store::buffer_manager::claims(
                t.cache,
                pin,
                crate::store::buffer_manager::place(t.cache, pin.id()),
            )
            &&& repointed(a, b, slot, fork_guid@)
            &&& exists|image: Seq<u8>, parent_guid: BlobGuid|
                crate::store::buffer_manager::is_fork(bytes, image, fork_guid, s.epoch)
                    && parent_guid@ == crate::store::blob_frame::guid_of(a) && t
                    == #[trigger] forked(
                    s,
                    image,
                    fork_guid,
                    parent_guid,
                    child,
                    crate::store::blob_frame::epoch_of(bytes) as u64,
                )
        },
        Err(e) => {
            &&& shared(s.fork_barrier, crate::store::blob_frame::epoch_of(bytes))
            &&& Some(e) == (match edge_fault(a, slot, child) {
                Some(fault) => Some(fault),
                None => if crate::store::blob_frame::frame_ok(bytes) {
                    None
                } else {
                    Some(Error::corrupt("blob frame: bad layout"))
                },
            })
            &&& t == s
            &&& b == a
        },
    }
}

/// Fork the child frame `child_bytes` under `fork_guid` if a live snapshot may
/// reference it, and point the crossing at `parent_slot` to the fork.
///
/// Gives the fork's guid and a pin on it to go down into, or `None` when no live
/// snapshot can see the child, which is then written in place. The crossing is
/// checked before anything is allocated: a fault leaves nothing behind.
///
/// The fork and the new edge change no answer. They are dirty at the structural
/// sequence; a write further down lowers that of the fork.
pub fn fork_child_if_shared<B: Backend>(
    bm: &mut BufferManager<B>,
    parent: &mut BlobFrame,
    child_guid: BlobGuid,
    child_bytes: &[u8],
    parent_slot: u16,
    fork_guid: BlobGuid,
) -> (r: Result<Option<(BlobGuid, Pin)>>)
    requires
        old(bm).wf(),
        crate::store::blob_frame::frame_ok(old(parent)@),
        child_bytes@.len() == PAGE_SIZE,
    ensures
        final(bm).wf(),
        final(bm).inner() == old(bm).inner(),
        crate::store::blob_frame::frame_ok(final(parent)@),
        fork_outcome(
            old(bm)@,
            final(bm)@,
            old(parent)@,
            final(parent)@,
            child_guid,
            child_bytes@,
            parent_slot as int,
            fork_guid,
            r,
        ),
{
    let ghost s = bm@;
    let barrier: u64 = bm.fork_barrier();
    let child_epoch: u64 = frame_created_epoch(child_bytes);
    if barrier == 0 || child_epoch > barrier {
        return Ok(None);
    }
    match check_edge(parent, parent_slot, child_guid) {
        Ok(()) => {},
        Err(e) => {
            return Err(e);
        },
    }
    let parent_guid: BlobGuid = parent.blob_guid();
    let fork_pin: Pin = match bm.fork_frame(child_bytes, fork_guid, STRUCTURAL_SEQ) {
        Ok(pin) => pin,
        Err(e) => {
            return Err(e);
        },
    };
    match repoint_blob_node(parent, parent_slot, fork_guid) {
        Ok(()) => {},
        Err(e) => {
            return Err(e);
        },
    }
    let ghost mid = bm@;
    bm.stage_cow_reclaim(parent_guid, child_guid, child_epoch);
    proof {
        let image = choose|image: Seq<u8>| #[trigger]
            crate::store::buffer_manager::is_fork(child_bytes@, image, fork_guid, s.epoch) && mid
                == (crate::store::buffer_manager::BufferState {
                cow: s.cow,
                ..forked(s, image, fork_guid, parent_guid, child_guid, child_epoch)
            });
        let epoch = crate::store::blob_frame::epoch_of(child_bytes@) as u64;
        assert(epoch == child_epoch);
        assert(bm@ == forked(s, image, fork_guid, parent_guid, child_guid, epoch));
    }
    Ok(Some((fork_guid, fork_pin)))
}

// ---------- laws ----------

/// Every frame that exists when a snapshot is taken is forked before it is
/// written: one created in an epoch up to that of the manager is never written in
/// place, as long as the barrier stays where the snapshot put it or rises.
pub proof fn a_frame_that_a_snapshot_sees_is_forked(
    before: crate::store::buffer_manager::BufferState,
    s: crate::store::buffer_manager::BufferState,
    t: crate::store::buffer_manager::BufferState,
    a: Seq<u8>,
    b: Seq<u8>,
    child: BlobGuid,
    bytes: Seq<u8>,
    slot: int,
    fork_guid: BlobGuid,
    r: Result<Option<(BlobGuid, Pin)>>,
)
    requires
        crate::store::buffer_manager::state_ok(before),
        before.epoch < u64::MAX,
        crate::store::blob_frame::epoch_of(bytes) <= before.epoch,
        s.fork_barrier >= crate::store::buffer_manager::snapshotted(before).fork_barrier,
        fork_outcome(s, t, a, b, child, bytes, slot, fork_guid, r),
    ensures
        !(r matches Ok(None)),
        shared(s.fork_barrier, crate::store::blob_frame::epoch_of(bytes)),
{
}

/// A frame created after the last snapshot is written in place, and so is every
/// frame while there is no snapshot: nothing is forked, staged or pointed
/// elsewhere.
pub proof fn a_frame_that_no_snapshot_sees_is_not_forked(
    before: crate::store::buffer_manager::BufferState,
    s: crate::store::buffer_manager::BufferState,
    t: crate::store::buffer_manager::BufferState,
    a: Seq<u8>,
    b: Seq<u8>,
    child: BlobGuid,
    bytes: Seq<u8>,
    slot: int,
    fork_guid: BlobGuid,
    r: Result<Option<(BlobGuid, Pin)>>,
)
    requires
        before.epoch < u64::MAX,
        s.fork_barrier == crate::store::buffer_manager::unsnapshotted(before).fork_barrier || (
        s.fork_barrier == crate::store::buffer_manager::snapshotted(before).fork_barrier
            && crate::store::blob_frame::epoch_of(bytes)
            >= crate::store::buffer_manager::snapshotted(before).epoch),
        fork_outcome(s, t, a, b, child, bytes, slot, fork_guid, r),
    ensures
        r matches Ok(None),
        t == s,
        b == a,
{
}

/// A fork is private: no live snapshot can see it, so it is not forked again.
pub proof fn a_fork_is_not_shared<B: Backend>(
    bm: BufferManager<B>,
    bytes: Seq<u8>,
    image: Seq<u8>,
    guid: BlobGuid,
)
    requires
        bm.wf(),
        crate::store::buffer_manager::is_fork(bytes, image, guid, bm@.epoch),
    ensures
        !shared(bm@.fork_barrier, crate::store::blob_frame::epoch_of(image)),
{
}

/// A fork answers every search as the frame that it was forked from.
pub proof fn a_fork_answers_alike(
    bytes: Seq<u8>,
    image: Seq<u8>,
    guid: BlobGuid,
    epoch: u64,
    s: int,
    key: Seq<u8>,
    depth: int,
)
    requires
        crate::store::blob_frame::frame_ok(bytes),
        crate::store::buffer_manager::is_fork(bytes, image, guid, epoch),
        0 <= depth <= key.len(),
    ensures
        crate::engine::walker::model::find(image, s, key, depth)
            == crate::engine::walker::model::find(bytes, s, key, depth),
    decreases key.len() - depth,
{
    if crate::store::blob_frame::has_body(bytes, s) {
        assert(crate::store::blob_frame::same_node(bytes, image, s));
    } else {
        assert(!crate::store::blob_frame::in_use(bytes, s));
    }
    assert(crate::engine::walker::model::node(image, s) == crate::engine::walker::model::node(
        bytes,
        s,
    ));
    match crate::engine::walker::model::node(bytes, s) {
        crate::engine::walker::model::Node::Prefix { bytes: p, child } => {
            if p.len() > 0 && crate::engine::walker::model::continues(key, depth, p) {
                a_fork_answers_alike(bytes, image, guid, epoch, child, key, depth + p.len());
            }
        },
        crate::engine::walker::model::Node::Inner { pairs } => {
            if depth < key.len() {
                if let Some(c) = crate::engine::walker::model::child_of(pairs, key[depth]) {
                    a_fork_answers_alike(bytes, image, guid, epoch, c as int, key, depth + 1);
                }
            }
        },
        _ => {},
    }
}

/// The outcome `x` with a crossing to `from` turned into one to `to`.
pub open spec fn redirected(x: Outcome, y: Outcome, from: Seq<u8>, to: Seq<u8>) -> bool {
    y == x || (x matches Outcome::Cross { guid, depth } && guid == from && y == (Outcome::Cross {
        guid: to,
        depth,
    }))
}

/// Pointing a parent's crossing at the fork redirects the searches that took
/// it, and no others.
pub proof fn repointing_redirects_only_the_child(
    a: Seq<u8>,
    b: Seq<u8>,
    slot: int,
    child: BlobGuid,
    fork: BlobGuid,
    s: int,
    key: Seq<u8>,
    depth: int,
)
    requires
        crate::store::blob_frame::frame_ok(a),
        edge_fault(a, slot, child) is None,
        repointed(a, b, slot, fork@),
        0 <= depth <= key.len(),
    ensures
        redirected(
            crate::engine::walker::model::find(a, s, key, depth),
            crate::engine::walker::model::find(b, s, key, depth),
            child@,
            fork@,
        ),
    decreases key.len() - depth,
{
    if s != slot {
        if crate::store::blob_frame::has_body(a, s) {
            assert(crate::store::blob_frame::same_node(a, b, s));
        } else {
            assert(!crate::store::blob_frame::in_use(a, s));
        }
        assert(crate::engine::walker::model::node(b, s) == crate::engine::walker::model::node(a, s));
    }
    match crate::engine::walker::model::node(a, s) {
        crate::engine::walker::model::Node::Prefix { bytes, child: c } => {
            if bytes.len() > 0 && crate::engine::walker::model::continues(key, depth, bytes) {
                repointing_redirects_only_the_child(
                    a,
                    b,
                    slot,
                    child,
                    fork,
                    c,
                    key,
                    depth + bytes.len(),
                );
            }
        },
        crate::engine::walker::model::Node::Inner { pairs } => {
            if depth < key.len() {
                if let Some(c) = crate::engine::walker::model::child_of(pairs, key[depth]) {
                    repointing_redirects_only_the_child(
                        a,
                        b,
                        slot,
                        child,
                        fork,
                        c as int,
                        key,
                        depth + 1,
                    );
                }
            }
        },
        _ => {},
    }
}

/// A search that took the crossing leads to the fork, at the same depth.
pub proof fn a_repointed_crossing_leads_to_the_fork(
    a: Seq<u8>,
    b: Seq<u8>,
    slot: int,
    fork: BlobGuid,
    key: Seq<u8>,
    depth: int,
)
    requires
        repointed(a, b, slot, fork@),
        0 <= depth <= key.len(),
    ensures
        crate::engine::walker::model::node(a, slot) is Blob && crate::engine::walker::model::find(
            a,
            slot,
            key,
            depth,
        ) is Cross ==> crate::engine::walker::model::find(b, slot, key, depth) == (Outcome::Cross {
            guid: fork@,
            depth: crate::engine::walker::model::find(a, slot, key, depth)->depth,
        }),
{
}

/// A frame that a snapshot may see is forked wherever the parent's slot holds a
/// crossing to it and its bytes are a frame. The fork bears the given guid and the
/// current epoch, it is cached, pinned and dirty, and the frame it was forked from
/// is staged once with the parent's guid and its own epoch.
pub proof fn a_shared_frame_is_forked_and_staged(
    s: crate::store::buffer_manager::BufferState,
    t: crate::store::buffer_manager::BufferState,
    a: Seq<u8>,
    b: Seq<u8>,
    child: BlobGuid,
    bytes: Seq<u8>,
    slot: int,
    fork_guid: BlobGuid,
    r: Result<Option<(BlobGuid, Pin)>>,
)
    requires
        crate::store::buffer_manager::cache_ok(s.cache),
        crate::store::blob_frame::frame_ok(a),
        crate::store::blob_frame::frame_ok(bytes),
        crate::store::blob_frame::in_use(a, slot),
        crate::store::blob_frame::type_at(a, slot) == Some(NodeType::Blob),
        crate::store::blob_frame::body_at(a, slot).subrange(0, 16) == child@,
        s.fork_barrier > 0,
        crate::store::blob_frame::epoch_of(bytes) <= s.fork_barrier,
        fork_outcome(s, t, a, b, child, bytes, slot, fork_guid, r),
    ensures
        r matches Ok(Some((g, p))) && g == fork_guid,
        t.cow.len() == s.cow.len() + 1,
        t.cow[s.cow.len() as int].0@ == a.subrange(0, 16),
        t.cow[s.cow.len() as int].1 == child,
        t.cow[s.cow.len() as int].2 == crate::store::blob_frame::epoch_of(bytes),
        t.dirty.dom().contains(crate::layout::guid_id(fork_guid)),
        exists|i: int|
            0 <= i < t.cache.len() && (#[trigger] t.cache[i]).id == crate::layout::guid_id(
                fork_guid,
            ) && t.cache[i].pins == 1 && t.cache[i].blob.bytes.subrange(0, 16) == fork_guid@
                && crate::store::blob_frame::epoch_of(t.cache[i].blob.bytes) == s.epoch,
        t.deletes == s.deletes && t.structural == s.structural,
        crate::store::blob_frame::body_at(b, slot).subrange(0, 16) == fork_guid@,
{
    crate::bytes::lemma_le64(bytes, 16);
    let (image, parent_guid) = choose|image: Seq<u8>, parent_guid: BlobGuid|
        crate::store::buffer_manager::is_fork(bytes, image, fork_guid, s.epoch) && parent_guid@
            == crate::store::blob_frame::guid_of(a) && t == #[trigger] forked(
            s,
            image,
            fork_guid,
            parent_guid,
            child,
            crate::store::blob_frame::epoch_of(bytes) as u64,
        );
    let id = crate::layout::guid_id(fork_guid);
    let f = crate::store::buffer_manager::fork_cached(s, id, image, STRUCTURAL_SEQ);
    assert(t.cache == f.cache && t.dirty == f.dirty);
    crate::store::cache_laws::a_fork_is_pinned_and_dirty(
        s,
        id,
        image,
        STRUCTURAL_SEQ,
        crate::store::buffer_manager::fresh(id, image, 0, 0, 0),
        id,
    );
}

} // verus!
