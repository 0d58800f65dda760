//! Leasing of fixed buffer slots.
//!
//! A pool hands out the slots of one slab of `PAGE_SIZE` frames whose addresses
//! stay stable for the pool's lifetime, so that a ring can register them once.
//! The slab itself belongs to whoever registers it; the pool decides how large
//! it is, which slot lies where, and which slot is leased next. Free slots form
//! a list through `next`, and the head carries a tag that changes with every
//! lease and every return.
use vstd::prelude::*;

use crate::layout::PAGE_SIZE;

verus! {

/// Index of a registered buffer.
pub type FixedBufferIndex = u16;

/// Alignment of the slab.
pub const BUF_ALIGN: usize = 4096;

/// End of the free list.
pub const EMPTY_FIXED_SLOT: u32 = 0xffff_ffff;

/// The word that holds a tag and a slot index.
pub open spec fn packed(tag: u32, index: u32) -> int {
    tag * 0x1_0000_0000 + index
}

/// Pack the tag and the index of the free list's head into one word.
pub fn pack_free_head(tag: u32, index: u32) -> (head: u64)
    ensures
        head == packed(tag, index),
{
    tag as u64 * 0x1_0000_0000 + index as u64
}

/// The tag and the index that [`pack_free_head`] packed.
pub fn unpack_free_head(head: u64) -> (parts: (u32, u32))
    ensures
        head == packed(parts.0, parts.1),
{
    ((head / 0x1_0000_0000) as u32, (head % 0x1_0000_0000) as u32)
}

/// A packed head unpacks to the parts it was packed from, and to no others.
pub proof fn packed_head_is_unambiguous(tag: u32, index: u32, tag2: u32, index2: u32)
    requires
        packed(tag, index) == packed(tag2, index2),
    ensures
        tag == tag2,
        index == index2,
{
}

/// Where the frame of one slot lies inside the slab.
#[derive(Debug, Clone, Copy, PartialEq, Eq, Structural)]
pub struct SlotRegion {
    pub offset: usize,
    pub len: usize,
}

/// State of a pool: how many slots there are and which are free, the one to be
/// leased next first.
pub struct PoolState {
    pub slots: int,
    pub free: Seq<FixedBufferIndex>,
    pub tag: u32,
}

impl PoolState {
    /// The free slots exist and none is listed twice.
    pub open spec fn valid(self) -> bool {
        &&& 0 < self.slots <= 65536
        &&& self.slots * PAGE_SIZE <= isize::MAX
        &&& forall|i: int| 0 <= i < self.free.len() ==> (#[trigger] self.free[i]) < self.slots
        &&& self.free.no_duplicates()
    }

    /// Whether the slot is out on lease.
    pub open spec fn leased(self, index: FixedBufferIndex) -> bool {
        index < self.slots && !self.free.contains(index)
    }
}

/// Bookkeeping of a pool of fixed frames.
pub struct BlobBufPool {
    slots: usize,
    head: u64,
    next: Vec<u32>,
    free: Ghost<Seq<FixedBufferIndex>>,
}

/// What `next` holds behind place `i` of the free list.
spec fn link(free: Seq<FixedBufferIndex>, i: int) -> u32 {
    if 0 <= i < free.len() {
        free[i] as u32
    } else {
        EMPTY_FIXED_SLOT
    }
}

impl View for BlobBufPool {
    type V = PoolState;

    closed spec fn view(&self) -> PoolState {
        PoolState {
            slots: self.slots as int,
            free: self.free@,
            tag: (self.head / 0x1_0000_0000) as u32,
        }
    }
}

/// The next tag; the counter wraps.
pub open spec fn next_tag(tag: u32) -> u32 {
    if tag == u32::MAX {
        0
    } else {
        (tag + 1) as u32
    }
}

/// A pool with every slot free, the first to be leased first.
pub open spec fn unleased(slots: int) -> PoolState {
    PoolState { slots, free: Seq::new(slots as nat, |i: int| i as FixedBufferIndex), tag: 0 }
}

/// What a lease gives on a pool in state `s`, and the state `t`.
pub open spec fn lease_gives(s: PoolState, t: PoolState, slot: Option<FixedBufferIndex>) -> bool {
    match slot {
        None => s.free.len() == 0 && t == s,
        Some(i) => {
            &&& s.free.len() > 0
            &&& i == s.free[0]
            &&& i < s.slots
            &&& t == (PoolState { free: s.free.skip(1), tag: next_tag(s.tag), ..s })
        },
    }
}

/// The state `s` once the slot is returned.
pub open spec fn returned(s: PoolState, index: FixedBufferIndex) -> PoolState {
    PoolState { free: seq![index] + s.free, tag: next_tag(s.tag), ..s }
}

/// Where the frame of slot `i` lies.
pub open spec fn region_of(i: int) -> SlotRegion {
    SlotRegion { offset: (i * PAGE_SIZE) as usize, len: PAGE_SIZE as usize }
}

impl BlobBufPool {
    /// Whether the linked list spells out the free slots.
    pub closed spec fn wf(&self) -> bool {
        &&& self@.valid()
        &&& self.next@.len() == self.slots
        &&& self.head % 0x1_0000_0000 == link(self.free@, 0)
        &&& forall|i: int|
            0 <= i < self.free@.len() ==> self.next@[(#[trigger] self.free@[i]) as int] == link(
                self.free@,
                i + 1,
            )
    }

    /// What holds of every well-formed pool.
    pub proof fn lemma_wf(&self)
        requires
            self.wf(),
        ensures
            self@.valid(),
    {
    }

    /// A pool of `slots` frames, or `None` for no slots, for more slots than a
    /// buffer index can name, and for a slab that is too large to address.
    pub fn new(slots: usize) -> (pool: Option<Self>)
        ensures
            pool is None <==> slots == 0 || slots > 65536 || slots * PAGE_SIZE > isize::MAX,
            pool matches Some(p) ==> {
                &&& p.wf()
                &&& p@ == unleased(slots as int)
            },
    {
        if slots == 0 || slots > 65536 {
            return None;
        }
        assert(slots * PAGE_SIZE <= 65536 * 524288) by (nonlinear_arith)
            requires
                slots <= 65536,
                PAGE_SIZE == 524288,
        ;
        if slots as u64 * PAGE_SIZE as u64 > isize::MAX as u64 {
            return None;
        }
        let mut next: Vec<u32> = Vec::with_capacity(slots);
        let mut idx: usize = 0;
        while idx < slots
            invariant
                idx <= slots <= 65536,
                next@.len() == idx,
                forall|i: int|
                    0 <= i < idx ==> #[trigger] next@[i] == (if i + 1 < slots {
                        (i + 1) as u32
                    } else {
                        EMPTY_FIXED_SLOT
                    }),
            decreases slots - idx,
        {
            let after: usize = idx + 1;
            next.push(
                if after < slots {
                    after as u32
                } else {
                    EMPTY_FIXED_SLOT
                },
            );
            idx += 1;
        }
        let ghost free = Seq::new(slots as nat, |i: int| i as FixedBufferIndex);
        let head: u64 = pack_free_head(0, 0);
        let pool = BlobBufPool { slots, head, next, free: Ghost(free) };
        assert(pool.wf()) by {
            assert forall|i: int| 0 <= i < free.len() implies next@[(#[trigger] free[i]) as int]
                == link(free, i + 1) by {
                assert(free[i] == i);
                if i + 1 < slots {
                    assert(free[i + 1] == i + 1);
                }
            }
            assert(free[0] == 0);
        }
        Some(pool)
    }

    /// Number of slots.
    pub fn slots(&self) -> (n: usize)
        ensures
            n == self@.slots,
    {
        self.slots
    }

    /// Bytes of the slab that holds every frame.
    pub fn slab_len(&self) -> (n: usize)
        requires
            self.wf(),
        ensures
            n == self@.slots * PAGE_SIZE,
    {
        self.slots * PAGE_SIZE as usize
    }

    /// Lease the slot at the head of the free list.
    pub fn alloc_slot(&mut self) -> (slot: Option<FixedBufferIndex>)
        requires
            old(self).wf(),
        ensures
            final(self).wf(),
            lease_gives(old(self)@, final(self)@, slot),
    {
        let (tag, index) = unpack_free_head(self.head);
        if index == EMPTY_FIXED_SLOT {
            assert(self.free@.len() == 0);
            return None;
        }
        let ghost before = self.free@;
        assert(before.len() > 0);
        assert(before[0] as u32 == index);
        let next: u32 = self.next[index as usize];
        let bumped: u32 = if tag == u32::MAX {
            0
        } else {
            tag + 1
        };
        self.head = pack_free_head(bumped, next);
        self.free = Ghost(before.skip(1));
        proof {
            let after = before.skip(1);
            assert forall|i: int| 0 <= i < after.len() implies (#[trigger] after[i])
                < self.slots && self.next@[after[i] as int] == link(after, i + 1) by {
                assert(after[i] == before[i + 1]);
            }
            assert forall|i: int, j: int| 0 <= i < after.len() && 0 <= j < after.len() && i
                != j implies after[i] != after[j] by {
                assert(before[i + 1] != before[j + 1]);
            }
        }
        Some(index as FixedBufferIndex)
    }

    /// Return a leased slot. It becomes the head of the free list.
    pub fn free_slot(&mut self, index: FixedBufferIndex)
        requires
            old(self).wf(),
            old(self)@.leased(index),
        ensures
            final(self).wf(),
            final(self)@ == returned(old(self)@, index),
    {
        let (tag, old_head) = unpack_free_head(self.head);
        let ghost before = self.free@;
        self.next[index as usize] = old_head;
        let bumped: u32 = if tag == u32::MAX {
            0
        } else {
            tag + 1
        };
        self.head = pack_free_head(bumped, index as u32);
        self.free = Ghost(seq![index] + before);
        proof {
            let after = seq![index] + before;
            assert forall|i: int| 0 <= i < after.len() implies (#[trigger] after[i])
                < self.slots && self.next@[after[i] as int] == link(after, i + 1) by {
                if i > 0 {
                    assert(after[i] == before[i - 1]);
                    assert(before.contains(before[i - 1]));
                    assert(link(after, i + 1) == link(before, i));
                } else {
                    assert(link(after, 1) == link(before, 0));
                }
            }
            assert forall|i: int, j: int| 0 <= i < after.len() && 0 <= j < after.len() && i
                != j implies after[i] != after[j] by {
                if i > 0 {
                    assert(after[i] == before[i - 1]);
                    assert(before.contains(before[i - 1]));
                }
                if j > 0 {
                    assert(after[j] == before[j - 1]);
                    assert(before.contains(before[j - 1]));
                }
            }
        }
    }

    /// Byte offset of a slot's frame inside the slab.
    pub fn offset_for_index(&self, index: FixedBufferIndex) -> (offset: usize)
        requires
            self.wf(),
            index < self@.slots,
        ensures
            offset == region_of(index as int).offset,
            offset == index * PAGE_SIZE,
            offset + PAGE_SIZE <= self@.slots * PAGE_SIZE,
    {
        assert(index * PAGE_SIZE + PAGE_SIZE <= self@.slots * PAGE_SIZE) by (nonlinear_arith)
            requires
                index + 1 <= self@.slots,
        ;
        index as usize * PAGE_SIZE as usize
    }

    /// The frame of every slot, in slot order: what a ring registers.
    pub fn regions(&self) -> (regions: Vec<SlotRegion>)
        requires
            self.wf(),
        ensures
            regions@.len() == self@.slots,
            forall|i: int|
                0 <= i < regions@.len() ==> #[trigger] regions@[i] == region_of(i),
    {
        let mut regions: Vec<SlotRegion> = Vec::with_capacity(self.slots);
        let mut idx: usize = 0;
        while idx < self.slots
            invariant
                self.wf(),
                idx <= self.slots,
                regions@.len() == idx,
                forall|i: int|
                    0 <= i < regions@.len() ==> #[trigger] regions@[i] == region_of(i),
            decreases self.slots - idx,
        {
            regions.push(
                SlotRegion {
                    offset: self.offset_for_index(idx as FixedBufferIndex),
                    len: PAGE_SIZE as usize,
                },
            );
            idx += 1;
        }
        regions
    }
}

/// The frames of two slots share no byte of the slab, and every frame of 512 KiB
/// lies inside it.
pub proof fn regions_do_not_overlap(s: PoolState, a: FixedBufferIndex, b: FixedBufferIndex)
    requires
        s.valid(),
        a < s.slots,
        b < s.slots,
    ensures
        region_of(a as int).len == 524288,
        region_of(a as int).offset + 524288 <= s.slots * 524288,
        region_of(a as int).offset % 4096 == 0,
        a < b ==> region_of(a as int).offset + 524288 <= region_of(b as int).offset,
{
    lemma_region(s, a);
    lemma_region(s, b);
    assert((a as int * 524288) % 4096 == 0) by {
        assert(a as int * 524288 == 4096 * (a as int * 128));
    }
}

proof fn lemma_region(s: PoolState, i: FixedBufferIndex)
    requires
        s.valid(),
        i < s.slots,
    ensures
        region_of(i as int).len == 524288,
        region_of(i as int).offset == i as int * 524288,
        i as int * 524288 + 524288 <= s.slots * 524288,
{
    assert(i as int * 524288 + 524288 <= s.slots * 524288);
    assert(s.slots * PAGE_SIZE == s.slots * 524288);
    assert(i as int * PAGE_SIZE == i as int * 524288);
}

/// A lease hands out a slot that nobody has, and puts only that one on lease. It
/// fails exactly where every slot is out.
pub proof fn a_lease_is_exclusive(
    s: PoolState,
    t: PoolState,
    slot: Option<FixedBufferIndex>,
    other: FixedBufferIndex,
)
    requires
        s.valid(),
        lease_gives(s, t, slot),
        other < s.slots,
    ensures
        t.valid(),
        t.slots == s.slots,
        slot matches Some(i) ==> !s.leased(i) && t.leased(i) && t.tag != s.tag,
        slot is None ==> s.leased(other) && t.leased(other),
        slot != Some(other) ==> t.leased(other) == s.leased(other),
{
    if let Some(i) = slot {
        let rest = s.free.skip(1);
        assert(s.free.contains(i));
        if rest.contains(i) {
            let k = choose|k: int| 0 <= k < rest.len() && rest[k] == i;
            assert(s.free[k + 1] == s.free[0]);
        }
        if rest.contains(other) {
            let k = choose|k: int| 0 <= k < rest.len() && rest[k] == other;
            assert(s.free[k + 1] == other);
        }
        if s.free.contains(other) && other != i {
            let k = choose|k: int| 0 <= k < s.free.len() && s.free[k] == other;
            assert(rest[k - 1] == other);
        }
        assert forall|j: int| 0 <= j < rest.len() implies (#[trigger] rest[j]) < s.slots by {
            assert(rest[j] == s.free[j + 1]);
        }
        assert forall|j: int, k: int| 0 <= j < rest.len() && 0 <= k < rest.len() && j
            != k implies rest[j] != rest[k] by {
            assert(s.free[j + 1] != s.free[k + 1]);
        }
    }
}

/// A return takes only that slot off lease, and the next lease hands it out.
pub proof fn a_returned_slot_is_leased_next(
    s: PoolState,
    index: FixedBufferIndex,
    t: PoolState,
    slot: Option<FixedBufferIndex>,
    other: FixedBufferIndex,
)
    requires
        s.valid(),
        s.leased(index),
        other < s.slots,
        lease_gives(returned(s, index), t, slot),
    ensures
        slot == Some(index),
        !returned(s, index).leased(index),
        returned(s, index).tag != s.tag,
        other != index ==> returned(s, index).leased(other) == s.leased(other),
        t.free == s.free,
        t.slots == s.slots,
{
    let u = returned(s, index);
    assert(u.free[0] == index);
    assert(u.free.skip(1) =~= s.free);
    if s.free.contains(other) {
        let k = choose|k: int| 0 <= k < s.free.len() && s.free[k] == other;
        assert(u.free[k + 1] == other);
    }
    if u.free.contains(other) && other != index {
        let k = choose|k: int| 0 <= k < u.free.len() && u.free[k] == other;
        assert(s.free[k - 1] == other);
    }
}

/// A new pool has every slot free and leases the first one first.
pub proof fn a_new_pool_has_no_leases(
    slots: int,
    t: PoolState,
    first: Option<FixedBufferIndex>,
    index: FixedBufferIndex,
)
    requires
        0 < slots <= 65536,
        lease_gives(unleased(slots), t, first),
        index < slots,
    ensures
        unleased(slots).slots == slots,
        !unleased(slots).leased(index),
        first == Some(0u16),
{
    assert(unleased(slots).free[index as int] == index);
    assert(unleased(slots).free[0] == 0);
}

/// No two slots share a byte of the slab.
pub proof fn slots_do_not_overlap(a: FixedBufferIndex, b: FixedBufferIndex)
    requires
        a != b,
    ensures
        a * PAGE_SIZE + PAGE_SIZE <= b * PAGE_SIZE || b * PAGE_SIZE + PAGE_SIZE <= a * PAGE_SIZE,
{
}

/// Returning the slot that was just leased restores the free list, and a slot
/// on lease is never handed out again before it is returned.
pub proof fn return_undoes_lease(before: PoolState)
    requires
        before.valid(),
        before.free.len() > 0,
    ensures
        ({
            let index = before.free[0];
            let during = PoolState { free: before.free.skip(1), ..before };
            &&& during.leased(index)
            &&& seq![index] + during.free == before.free
        }),
{
    let index = before.free[0];
    let rest = before.free.skip(1);
    if rest.contains(index) {
        let i = choose|i: int| 0 <= i < rest.len() && rest[i] == index;
        assert(before.free[i + 1] == before.free[0]);
    }
    assert(seq![index] + rest =~= before.free);
}

} // verus!
