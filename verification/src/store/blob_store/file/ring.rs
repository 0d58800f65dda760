//! Ring I/O: which writes go out in which order, and what their completions
//! add up to.
//!
//! Everything here is plain computation. The caller owns the ring: it pushes
//! the entries this module asks for, hands back the completions it popped, and
//! does what the next action says.
//!
//! `RING_DEPTH` entries keep a local NVMe queue fed. A batch that fits in one
//! ring is pushed once and drained once; a larger one runs through
//! [`WriteStream`], which keeps the ring filled until every write completed.
//! Batched writes are ordered by data-file offset first.
use vstd::prelude::*;

verus! {

/// Number of entries the ring is sized for.
pub const RING_DEPTH: usize = 256;

/// Words of the completion bitmap of one ring-sized batch.
pub const CQ_BITMAP_WORDS: usize = 4;

/// What can go wrong between submission and completion.
#[derive(Debug, Clone, Copy, PartialEq, Eq, Structural)]
pub enum RingError {
    /// The submission queue took no entry.
    SubmissionQueueFull,
    /// Fewer completions arrived than entries were submitted.
    CompletionMissing,
    /// A completion's tag does not fit an index.
    UserDataOverflow,
    /// A completion's tag is not an index of the batch.
    UserDataOutOfBatch,
    /// A completion's tag is not an index of the stream.
    UserDataOutOfStream,
    /// A completion's tag is not covered by the bitmap.
    UserDataOutOfBitmap,
    /// Two completions carried the same tag.
    DuplicateUserData,
    /// The operation failed with this error number.
    Os(i32),
    /// Fewer or more bytes were written than asked for.
    ShortWrite { wrote: i32, expected: usize },
    /// Fewer or more bytes were read than asked for.
    ShortRead { read: i32, expected: usize },
    /// A data sync returned a positive result.
    UnexpectedSyncResult(i32),
    /// The submission queue is full although no write is in flight.
    QueueStalled,
    /// A completion arrived although no write was in flight.
    StrayCompletion,
    /// The stream ended before every write completed.
    MissingCompletions { completed: usize, total: usize },
}

// ---------- ordering ----------

/// One write to submit. `order` is its position in the caller's list, by which
/// the caller finds the buffer again; `len` is the buffer's length.
#[derive(Debug, Clone, Copy, PartialEq, Eq, Structural)]
pub struct OrderedWrite {
    pub offset: u64,
    pub len: usize,
    pub order: usize,
}

/// Whether `w` is the write that survives for its offset: it stands in the list
/// and no later write goes to the same offset.
pub open spec fn last_for_offset(writes: Seq<(u64, usize)>, w: OrderedWrite) -> bool {
    &&& w.order < writes.len()
    &&& writes[w.order as int] == (w.offset, w.len)
    &&& forall|k: int| w.order < k < writes.len() ==> (#[trigger] writes[k]).0 != w.offset
}

/// Whether some entry of `ordered` goes to `offset`.
pub open spec fn covers(ordered: Seq<OrderedWrite>, offset: u64) -> bool {
    exists|i: int| 0 <= i < ordered.len() && (#[trigger] ordered[i]).offset == offset
}

/// Whether `ordered` is the submission order of `writes`: offsets strictly
/// ascending, one entry per offset, and of several writes to one offset the
/// last.
pub open spec fn is_submission_order(writes: Seq<(u64, usize)>, ordered: Seq<OrderedWrite>) -> bool {
    &&& forall|i: int, j: int|
        0 <= i < j < ordered.len() ==> (#[trigger] ordered[i]).offset < (
        #[trigger] ordered[j]).offset
    &&& forall|i: int| 0 <= i < ordered.len() ==> last_for_offset(writes, #[trigger] ordered[i])
    &&& forall|k: int| 0 <= k < writes.len() ==> covers(ordered, (#[trigger] writes[k]).0)
}

/// First position of `ordered` whose offset is at least `offset`.
fn lower_bound(ordered: &Vec<OrderedWrite>, offset: u64) -> (pos: usize)
    requires
        forall|i: int, j: int|
            0 <= i < j < ordered@.len() ==> (#[trigger] ordered@[i]).offset < (
            #[trigger] ordered@[j]).offset,
    ensures
        pos <= ordered@.len(),
        forall|i: int| 0 <= i < pos ==> (#[trigger] ordered@[i]).offset < offset,
        forall|i: int| pos <= i < ordered@.len() ==> (#[trigger] ordered@[i]).offset >= offset,
{
    let mut lo: usize = 0;
    let mut hi: usize = ordered.len();
    while lo < hi
        invariant
            lo <= hi <= ordered@.len(),
            forall|i: int, j: int|
                0 <= i < j < ordered@.len() ==> (#[trigger] ordered@[i]).offset < (
                #[trigger] ordered@[j]).offset,
            forall|i: int| 0 <= i < lo ==> (#[trigger] ordered@[i]).offset < offset,
            forall|i: int| hi <= i < ordered@.len() ==> (#[trigger] ordered@[i]).offset >= offset,
        decreases hi - lo,
    {
        let mid: usize = lo + (hi - lo) / 2;
        if ordered[mid].offset < offset {
            lo = mid + 1;
        } else {
            hi = mid;
        }
    }
    lo
}

/// A write to an offset that is already covered replaces the entry there.
proof fn lemma_order_replace(
    done: Seq<(u64, usize)>,
    w: (u64, usize),
    before: Seq<OrderedWrite>,
    pos: int,
    entry: OrderedWrite,
)
    requires
        is_submission_order(done, before),
        0 <= pos < before.len(),
        before[pos].offset == w.0,
        entry.order == done.len(),
        entry.offset == w.0,
        entry.len == w.1,
    ensures
        is_submission_order(done.push(w), before.update(pos, entry)),
{
    let now = done.push(w);
    let after = before.update(pos, entry);
    assert forall|i: int| 0 <= i < after.len() implies last_for_offset(now, #[trigger] after[i]) by {
        if i != pos {
            lemma_still_last(done, w, before[i]);
        }
    }
    assert forall|j: int| 0 <= j < now.len() implies covers(after, (#[trigger] now[j]).0) by {
        if j < done.len() {
            assert(covers(before, done[j].0));
            let i = choose|i: int|
                0 <= i < before.len() && (#[trigger] before[i]).offset == done[j].0;
            assert(after[i].offset == done[j].0);
        } else {
            assert(after[pos].offset == w.0);
        }
    }
}

/// An entry stays the last for its offset when a write to another offset follows.
proof fn lemma_still_last(done: Seq<(u64, usize)>, w: (u64, usize), e: OrderedWrite)
    requires
        last_for_offset(done, e),
        e.offset != w.0,
    ensures
        last_for_offset(done.push(w), e),
{
    let now = done.push(w);
    assert forall|j: int| e.order < j < now.len() implies (#[trigger] now[j]).0 != e.offset by {
        if j < done.len() {
            assert(now[j] == done[j]);
        }
    }
}

/// A write to an offset that is not covered goes in front of the larger offsets.
proof fn lemma_order_insert(
    done: Seq<(u64, usize)>,
    w: (u64, usize),
    before: Seq<OrderedWrite>,
    pos: int,
    entry: OrderedWrite,
)
    requires
        is_submission_order(done, before),
        0 <= pos <= before.len(),
        forall|i: int| 0 <= i < pos ==> (#[trigger] before[i]).offset < w.0,
        forall|i: int| pos <= i < before.len() ==> (#[trigger] before[i]).offset > w.0,
        entry.order == done.len(),
        entry.offset == w.0,
        entry.len == w.1,
    ensures
        is_submission_order(done.push(w), before.insert(pos, entry)),
{
    let now = done.push(w);
    let after = before.insert(pos, entry);
    assert forall|i: int| 0 <= i < after.len() implies last_for_offset(now, #[trigger] after[i]) by {
        if i != pos {
            let o = if i < pos {
                i
            } else {
                i - 1
            };
            assert(after[i] == before[o]);
            lemma_still_last(done, w, before[o]);
        }
    }
    assert forall|j: int| 0 <= j < now.len() implies covers(after, (#[trigger] now[j]).0) by {
        if j < done.len() {
            assert(covers(before, done[j].0));
            let i = choose|i: int|
                0 <= i < before.len() && (#[trigger] before[i]).offset == done[j].0;
            if i < pos {
                assert(after[i] == before[i]);
            } else {
                assert(after[i + 1] == before[i]);
            }
        } else {
            assert(after[pos].offset == w.0);
        }
    }
    assert forall|i: int, j: int| 0 <= i < j < after.len() implies (#[trigger] after[i]).offset < (
    #[trigger] after[j]).offset by {
        if i < pos {
            assert(after[i] == before[i]);
        } else if i > pos {
            assert(after[i] == before[i - 1]);
        }
        if j < pos {
            assert(after[j] == before[j]);
        } else if j > pos {
            assert(after[j] == before[j - 1]);
        }
    }
}

/// The submission order of `writes`, given as (offset, buffer length) pairs.
pub fn ordered_writes(writes: &[(u64, usize)]) -> (ordered: Vec<OrderedWrite>)
    ensures
        is_submission_order(writes@, ordered@),
{
    let mut ordered: Vec<OrderedWrite> = Vec::with_capacity(writes.len());
    let mut k: usize = 0;
    assert(writes@.take(0) =~= Seq::<(u64, usize)>::empty());
    while k < writes.len()
        invariant
            k <= writes@.len(),
            is_submission_order(writes@.take(k as int), ordered@),
        decreases writes@.len() - k,
    {
        let offset: u64 = writes[k].0;
        let entry = OrderedWrite { offset, len: writes[k].1, order: k };
        let pos: usize = lower_bound(&ordered, offset);
        let ghost before = ordered@;
        let ghost done = writes@.take(k as int);
        assert(writes@.take(k + 1) =~= done.push(writes@[k as int]));
        if pos < ordered.len() && ordered[pos].offset == offset {
            ordered[pos] = entry;
            proof {
                lemma_order_replace(done, writes@[k as int], before, pos as int, entry);
            }
        } else {
            ordered.insert(pos, entry);
            proof {
                assert forall|i: int| pos <= i < before.len() implies (#[trigger] before[i]).offset
                    > offset by {
                    if i > pos {
                        assert(before[pos as int].offset < before[i].offset);
                    }
                }
                lemma_order_insert(done, writes@[k as int], before, pos as int, entry);
            }
        }
        k += 1;
    }
    assert(writes@.take(k as int) =~= writes@);
    ordered
}

/// A list of writes has only one submission order.
pub proof fn submission_order_is_unique(
    writes: Seq<(u64, usize)>,
    a: Seq<OrderedWrite>,
    b: Seq<OrderedWrite>,
)
    requires
        is_submission_order(writes, a),
        is_submission_order(writes, b),
    ensures
        a == b,
{
    lemma_order_no_longer(writes, a, b);
    lemma_order_no_longer(writes, b, a);
    assert(a =~= b);
}

/// `a` agrees with `b` wherever `a` has an entry.
proof fn lemma_order_no_longer(writes: Seq<(u64, usize)>, a: Seq<OrderedWrite>, b: Seq<OrderedWrite>)
    requires
        is_submission_order(writes, a),
        is_submission_order(writes, b),
    ensures
        a.len() <= b.len(),
        forall|i: int| 0 <= i < a.len() ==> a[i] == b[i],
{
    assert forall|i: int| 0 <= i < a.len() implies i < b.len() && a[i] == b[i] by {
        lemma_order_agrees(writes, a, b, i);
    }
    if a.len() > 0 {
        lemma_order_agrees(writes, a, b, a.len() - 1);
    }
}

proof fn lemma_order_agrees(
    writes: Seq<(u64, usize)>,
    a: Seq<OrderedWrite>,
    b: Seq<OrderedWrite>,
    i: int,
)
    requires
        is_submission_order(writes, a),
        is_submission_order(writes, b),
        0 <= i < a.len(),
    ensures
        i < b.len(),
        a[i] == b[i],
    decreases i,
{
    if i > 0 {
        lemma_order_agrees(writes, a, b, i - 1);
    }
    assert(last_for_offset(writes, a[i]));
    assert(covers(b, writes[a[i].order as int].0));
    let bi = choose|j: int| 0 <= j < b.len() && (#[trigger] b[j]).offset == a[i].offset;
    if bi < i {
        lemma_order_agrees(writes, a, b, bi);
        assert(a[bi].offset < a[i].offset);
        assert(false);
    }
    assert(last_for_offset(writes, b[i]));
    assert(covers(a, writes[b[i].order as int].0));
    let aj = choose|j: int| 0 <= j < a.len() && (#[trigger] a[j]).offset == b[i].offset;
    if aj < i {
        lemma_order_agrees(writes, a, b, aj);
        assert(b[aj].offset < b[i].offset);
        assert(false);
    }
    if bi > i {
        assert(b[i].offset < b[bi].offset);
        if aj > i {
            assert(a[i].offset < a[aj].offset);
        }
        assert(false);
    }
    assert(last_for_offset(writes, b[bi]));
    if a[i].order < b[i].order {
        assert(writes[b[i].order as int].0 == a[i].offset);
    }
    if b[i].order < a[i].order {
        assert(writes[a[i].order as int].0 == b[i].offset);
    }
}

// ---------- plans ----------

/// How a list of ordered writes goes out.
#[derive(Debug, Clone, Copy, PartialEq, Eq, Structural)]
pub enum WritePlan {
    /// Nothing to write.
    Nothing,
    /// One ring-sized batch.
    Batch,
    /// A stream that refills the ring.
    Stream,
}

/// How `count` ordered writes go out.
pub open spec fn plan_of(count: int) -> WritePlan {
    if count == 0 {
        WritePlan::Nothing
    } else if count <= RING_DEPTH {
        WritePlan::Batch
    } else {
        WritePlan::Stream
    }
}

/// How `count` ordered writes go out.
pub fn write_plan(count: usize) -> (plan: WritePlan)
    ensures
        plan == plan_of(count as int),
{
    if count == 0 {
        WritePlan::Nothing
    } else if count <= RING_DEPTH {
        WritePlan::Batch
    } else {
        WritePlan::Stream
    }
}

/// Whether an entry names a registered buffer or a plain address.
#[derive(Debug, Clone, Copy, PartialEq, Eq, Structural)]
pub enum EntryKind {
    Fixed(u16),
    Plain,
}

/// The kind of entry for a buffer.
pub open spec fn kind_of(fixed_buffers: bool, buffer_index: Option<u16>) -> EntryKind {
    match buffer_index {
        Some(i) if fixed_buffers => EntryKind::Fixed(i),
        _ => EntryKind::Plain,
    }
}

/// The kind of entry for a buffer: fixed when the ring has registered buffers
/// and this buffer is one of them.
pub fn entry_kind(fixed_buffers: bool, buffer_index: Option<u16>) -> (kind: EntryKind)
    ensures
        kind == kind_of(fixed_buffers, buffer_index),
{
    if fixed_buffers {
        if let Some(i) = buffer_index {
            return EntryKind::Fixed(i);
        }
    }
    EntryKind::Plain
}

// ---------- single results ----------

/// The error number behind a negative result.
pub open spec fn os_code(n: i32) -> i32 {
    if n == i32::MIN {
        n
    } else {
        (-n) as i32
    }
}

fn errno(n: i32) -> (code: i32)
    requires
        n < 0,
    ensures
        code == os_code(n),
{
    if n == i32::MIN {
        n
    } else {
        -n
    }
}

/// What the result of a data sync means.
pub open spec fn sync_gives(n: i32) -> core::result::Result<(), RingError> {
    if n < 0 {
        Err(RingError::Os(os_code(n)))
    } else if n != 0 {
        Err(RingError::UnexpectedSyncResult(n))
    } else {
        Ok(())
    }
}

/// What the result of a read of `expected` bytes means.
pub open spec fn read_gives(n: i32, expected: usize) -> core::result::Result<(), RingError> {
    if n < 0 {
        Err(RingError::Os(os_code(n)))
    } else if n != expected {
        Err(RingError::ShortRead { read: n, expected })
    } else {
        Ok(())
    }
}

/// `first` with `err` remembered.
pub open spec fn recorded(first: Option<RingError>, err: RingError) -> Option<RingError> {
    match first {
        Some(e) => Some(e),
        None => Some(err),
    }
}

/// What the result of a data sync means.
pub fn check_fsync_result(n: i32) -> (r: core::result::Result<(), RingError>)
    ensures
        r == sync_gives(n),
{
    if n < 0 {
        return Err(RingError::Os(errno(n)));
    }
    if n != 0 {
        return Err(RingError::UnexpectedSyncResult(n));
    }
    Ok(())
}

/// What the result of a read of `expected` bytes means.
pub fn check_read_result(n: i32, expected: usize) -> (r: core::result::Result<(), RingError>)
    ensures
        r == read_gives(n, expected),
{
    if n < 0 {
        return Err(RingError::Os(errno(n)));
    }
    if n as u64 != expected as u64 {
        return Err(RingError::ShortRead { read: n, expected });
    }
    Ok(())
}

/// Remember `err` unless an earlier error is already remembered.
pub fn record_err(slot: &mut Option<RingError>, err: RingError)
    ensures
        *final(slot) == recorded(*old(slot), err),
{
    if slot.is_none() {
        *slot = Some(err);
    }
}

// ---------- completion bitmaps ----------

/// Bit `idx` of a bitmap of 64-bit words.
pub open spec fn seen_bit(words: Seq<u64>, idx: int) -> bool {
    (words[idx / 64] >> ((idx % 64) as u64)) & 1 == 1
}

proof fn lemma_set_bit(w: u64, b: u64, c: u64)
    by (bit_vector)
    requires
        b < 64,
        c < 64,
    ensures
        ((w | (1u64 << b)) >> c) & 1 == (if b == c {
            1u64
        } else {
            (w >> c) & 1
        }),
{
}

proof fn lemma_test_bit(w: u64, b: u64)
    by (bit_vector)
    requires
        b < 64,
    ensures
        (w & (1u64 << b) != 0) == ((w >> b) & 1 == 1),
{
}

proof fn lemma_zero_bit(c: u64)
    by (bit_vector)
    requires
        c < 64,
    ensures
        (0u64 >> c) & 1 == 0,
{
}

proof fn lemma_bit_set_in_words(before: Seq<u64>, after: Seq<u64>, idx: int)
    requires
        0 <= idx < 64 * before.len(),
        after == before.update(idx / 64, before[idx / 64] | (1u64 << ((idx % 64) as u64))),
    ensures
        forall|j: int|
            0 <= j < 64 * before.len() ==> #[trigger] seen_bit(after, j) == (j == idx || seen_bit(
                before,
                j,
            )),
{
    assert forall|j: int| 0 <= j < 64 * before.len() implies #[trigger] seen_bit(after, j) == (j
        == idx || seen_bit(before, j)) by {
        lemma_set_bit(before[idx / 64], (idx % 64) as u64, (j % 64) as u64);
    }
}

/// Mark completion `idx` of a ring-sized batch as seen.
pub fn mark_seen(seen: &mut [u64; CQ_BITMAP_WORDS], idx: usize) -> (r: core::result::Result<
    (),
    RingError,
>)
    requires
        idx < 64 * CQ_BITMAP_WORDS,
    ensures
        r == (if seen_bit(old(seen)@, idx as int) {
            Err::<(), RingError>(RingError::DuplicateUserData)
        } else {
            Ok(())
        }),
        forall|j: int|
            0 <= j < 64 * CQ_BITMAP_WORDS ==> #[trigger] seen_bit(final(seen)@, j) == (j == idx
                || seen_bit(old(seen)@, j)),
{
    let word: usize = idx / 64;
    let shift: u64 = (idx % 64) as u64;
    let bit: u64 = 1u64 << shift;
    proof {
        lemma_test_bit(seen@[word as int], shift);
    }
    if seen[word] & bit != 0 {
        return Err(RingError::DuplicateUserData);
    }
    seen[word] = seen[word] | bit;
    proof {
        lemma_bit_set_in_words(old(seen)@, seen@, idx as int);
    }
    Ok(())
}

/// Mark completion `idx` of a stream as seen.
pub fn mark_seen_dynamic(seen: &mut Vec<u64>, idx: usize) -> (r: core::result::Result<
    (),
    RingError,
>)
    ensures
        final(seen)@.len() == old(seen)@.len(),
        r == (if idx >= 64 * old(seen)@.len() {
            Err::<(), RingError>(RingError::UserDataOutOfBitmap)
        } else if seen_bit(old(seen)@, idx as int) {
            Err(RingError::DuplicateUserData)
        } else {
            Ok(())
        }),
        forall|j: int|
            0 <= j < 64 * old(seen)@.len() ==> #[trigger] seen_bit(final(seen)@, j) == (j == idx
                || seen_bit(old(seen)@, j)),
{
    let word: usize = idx / 64;
    let shift: u64 = (idx % 64) as u64;
    let bit: u64 = 1u64 << shift;
    if word >= seen.len() {
        return Err(RingError::UserDataOutOfBitmap);
    }
    proof {
        lemma_test_bit(seen@[word as int], shift);
    }
    if seen[word] & bit != 0 {
        return Err(RingError::DuplicateUserData);
    }
    let w: u64 = seen[word];
    seen[word] = w | bit;
    proof {
        lemma_bit_set_in_words(old(seen)@, seen@, idx as int);
    }
    Ok(())
}

// ---------- completions ----------

/// One completion as the ring reports it: the tag its entry carried and the
/// result.
#[derive(Debug, Clone, Copy, PartialEq, Eq, Structural)]
pub struct Completion {
    pub user_data: u64,
    pub result: i32,
}

/// Whether an earlier completion of `log` carried the tag of completion `i`.
pub open spec fn seen_before(log: Seq<Completion>, i: int) -> bool {
    exists|j: int| 0 <= j < i && (#[trigger] log[j]).user_data == log[i].user_data
}

/// What is wrong with completion `i` of `log`, if anything. `outside` is the
/// error for a tag that is no index of `writes`.
pub open spec fn fault_at(
    writes: Seq<OrderedWrite>,
    log: Seq<Completion>,
    i: int,
    outside: RingError,
) -> Option<RingError> {
    let c = log[i];
    if c.user_data > usize::MAX {
        Some(RingError::UserDataOverflow)
    } else if c.user_data >= writes.len() {
        Some(outside)
    } else if seen_before(log, i) {
        Some(RingError::DuplicateUserData)
    } else if c.result < 0 {
        Some(RingError::Os(os_code(c.result)))
    } else if c.result != writes[c.user_data as int].len {
        Some(
            RingError::ShortWrite {
                wrote: c.result,
                expected: writes[c.user_data as int].len,
            },
        )
    } else {
        None
    }
}

/// The first fault of a log of completions.
pub open spec fn first_fault(
    writes: Seq<OrderedWrite>,
    log: Seq<Completion>,
    outside: RingError,
) -> Option<RingError>
    decreases log.len(),
{
    if log.len() == 0 {
        None
    } else {
        match first_fault(writes, log.drop_last(), outside) {
            Some(e) => Some(e),
            None => fault_at(writes, log, log.len() - 1, outside),
        }
    }
}

/// Whether write `k` completed exactly once in `log`, with all its bytes.
pub open spec fn completed_once(writes: Seq<OrderedWrite>, log: Seq<Completion>, k: int) -> bool {
    exists|i: int|
        {
            &&& 0 <= i < log.len()
            &&& (#[trigger] log[i]).user_data == k
            &&& log[i].result == writes[k].len
            &&& forall|j: int| 0 <= j < log.len() && j != i ==> (#[trigger] log[j]).user_data != k
        }
}

/// A log without a fault has no fault at any place.
proof fn lemma_no_fault(writes: Seq<OrderedWrite>, log: Seq<Completion>, outside: RingError, i: int)
    requires
        first_fault(writes, log, outside) is None,
        0 <= i < log.len(),
    ensures
        fault_at(writes, log, i, outside) is None,
    decreases log.len(),
{
    if i < log.len() - 1 {
        let front = log.drop_last();
        lemma_no_fault(writes, front, outside, i);
        assert(front[i] == log[i]);
        if seen_before(log, i) {
            let j = choose|j: int| 0 <= j < i && (#[trigger] log[j]).user_data == log[i].user_data;
            assert(front[j].user_data == front[i].user_data);
            assert(false);
        }
    }
}

/// As many completions as writes and no fault: every write completed exactly
/// once, with all its bytes.
pub proof fn faultless_log_completes_every_write(
    writes: Seq<OrderedWrite>,
    log: Seq<Completion>,
    outside: RingError,
)
    requires
        log.len() == writes.len(),
        first_fault(writes, log, outside) is None,
    ensures
        forall|k: int| 0 <= k < writes.len() ==> #[trigger] completed_once(writes, log, k),
{
    let n = writes.len() as int;
    let tags = log.map_values(|c: Completion| c.user_data as int);
    assert forall|i: int| 0 <= i < n implies 0 <= #[trigger] tags[i] < n && log[i].result
        == writes[tags[i]].len by {
        lemma_no_fault(writes, log, outside, i);
    }
    assert(tags.no_duplicates()) by {
        assert forall|i: int, j: int| 0 <= i < j < n implies tags[i] != tags[j] by {
            lemma_no_fault(writes, log, outside, j);
            if tags[i] == tags[j] {
                assert(log[i].user_data == log[j].user_data);
                assert(seen_before(log, j));
            }
        }
    }
    let range = vstd::set_lib::set_int_range(0, n);
    vstd::set_lib::lemma_int_range(0, n);
    tags.unique_seq_to_set();
    assert(tags.to_set().subset_of(range)) by {
        assert forall|t: int| tags.to_set().contains(t) implies range.contains(t) by {
            let i = choose|i: int| 0 <= i < tags.len() && tags[i] == t;
        }
    }
    vstd::set_lib::lemma_subset_equality(tags.to_set(), range);
    assert forall|k: int| 0 <= k < writes.len() implies #[trigger] completed_once(writes, log, k) by {
        assert(range.contains(k));
        assert(tags.contains(k));
        let i = choose|i: int| 0 <= i < tags.len() && tags[i] == k;
        assert(log[i].user_data == k);
        assert forall|j: int| 0 <= j < log.len() && j != i implies (#[trigger] log[j]).user_data
            != k by {
            assert(tags[j] != tags[i]);
        }
    }
}

/// Whether the first `n` bits of `words` are the tags that occur in `log`.
spec fn tracks(words: Seq<u64>, n: int, log: Seq<Completion>) -> bool {
    &&& n <= 64 * words.len()
    &&& forall|k: int|
        0 <= k < n ==> #[trigger] seen_bit(words, k) == exists|j: int|
            0 <= j < log.len() && (#[trigger] log[j]).user_data == k
}

proof fn lemma_tracks_empty(words: Seq<u64>, n: int)
    requires
        0 <= n <= 64 * words.len(),
        forall|i: int| 0 <= i < words.len() ==> words[i] == 0,
    ensures
        tracks(words, n, Seq::empty()),
{
    assert forall|k: int| 0 <= k < n implies !(#[trigger] seen_bit(words, k)) by {
        lemma_zero_bit((k % 64) as u64);
    }
}

/// Marking the tag of a new completion keeps the bitmap in step with the log.
proof fn lemma_tracks_push(before: Seq<u64>, after: Seq<u64>, n: int, log: Seq<Completion>, c: Completion)
    requires
        tracks(before, n, log),
        after.len() == before.len(),
        c.user_data < n ==> forall|j: int|
            0 <= j < 64 * before.len() ==> #[trigger] seen_bit(after, j) == (j == c.user_data
                || seen_bit(before, j)),
        c.user_data >= n ==> after == before,
    ensures
        tracks(after, n, log.push(c)),
        c.user_data < n ==> seen_bit(before, c.user_data as int) == seen_before(
            log.push(c),
            log.len() as int,
        ),
{
    let longer = log.push(c);
    assert forall|k: int| 0 <= k < n implies #[trigger] seen_bit(after, k) == exists|j: int|
        0 <= j < longer.len() && (#[trigger] longer[j]).user_data == k by {
        if seen_bit(before, k) {
            let j = choose|j: int| 0 <= j < log.len() && (#[trigger] log[j]).user_data == k;
            assert(longer[j].user_data == k);
        }
        if k == c.user_data {
            assert(longer[log.len() as int].user_data == k);
        }
        if exists|j: int| 0 <= j < longer.len() && (#[trigger] longer[j]).user_data == k {
            let j = choose|j: int| 0 <= j < longer.len() && (#[trigger] longer[j]).user_data == k;
            if j < log.len() {
                assert(log[j].user_data == k);
            }
        }
    }
    if c.user_data < n {
        let k = c.user_data as int;
        if seen_bit(before, k) {
            let j = choose|j: int| 0 <= j < log.len() && (#[trigger] log[j]).user_data == k;
            assert(longer[j].user_data == longer[log.len() as int].user_data);
        }
        if seen_before(longer, log.len() as int) {
            let j = choose|j: int|
                0 <= j < log.len() && (#[trigger] longer[j]).user_data
                    == longer[log.len() as int].user_data;
            assert(log[j].user_data == k);
        }
    }
}

/// What the completions `cqes` of the writes `chunk` add up to.
pub open spec fn batch_gives(
    chunk: Seq<OrderedWrite>,
    cqes: Seq<Completion>,
) -> core::result::Result<(), RingError> {
    if cqes.len() < chunk.len() {
        Err(RingError::CompletionMissing)
    } else {
        match first_fault(chunk, cqes.take(chunk.len() as int), RingError::UserDataOutOfBatch) {
            Some(e) => Err(e),
            None => Ok(()),
        }
    }
}

/// What the completions of one ring-sized batch add up to. `cqes` are the
/// completions that were there to pop, in order; one per write is expected.
pub fn drain_write_batch(chunk: &[OrderedWrite], cqes: &[Completion]) -> (r: core::result::Result<
    (),
    RingError,
>)
    requires
        chunk@.len() <= RING_DEPTH,
    ensures
        r == batch_gives(chunk@, cqes@),
{
    let mut seen: [u64; CQ_BITMAP_WORDS] = [0; CQ_BITMAP_WORDS];
    let mut first_err: Option<RingError> = None;
    let mut i: usize = 0;
    proof {
        lemma_tracks_empty(seen@, chunk@.len() as int);
        assert(cqes@.take(0) =~= Seq::<Completion>::empty());
    }
    while i < chunk.len()
        invariant
            i <= chunk@.len() <= RING_DEPTH,
            i <= cqes@.len(),
            tracks(seen@, chunk@.len() as int, cqes@.take(i as int)),
            first_err == first_fault(
                chunk@,
                cqes@.take(i as int),
                RingError::UserDataOutOfBatch,
            ),
        decreases chunk@.len() - i,
    {
        if i >= cqes.len() {
            return Err(RingError::CompletionMissing);
        }
        let c = cqes[i];
        let ghost log = cqes@.take(i as int);
        let ghost longer = cqes@.take(i + 1);
        let ghost before = seen@;
        assert(longer =~= log.push(c));
        assert(longer.drop_last() =~= log);
        i += 1;
        if c.user_data > usize::MAX as u64 {
            record_err(&mut first_err, RingError::UserDataOverflow);
            proof {
                lemma_tracks_push(before, seen@, chunk@.len() as int, log, c);
            }
            continue ;
        }
        let idx: usize = c.user_data as usize;
        if idx >= chunk.len() {
            record_err(&mut first_err, RingError::UserDataOutOfBatch);
            proof {
                lemma_tracks_push(before, seen@, chunk@.len() as int, log, c);
            }
            continue ;
        }
        let marked = mark_seen(&mut seen, idx);
        proof {
            lemma_tracks_push(before, seen@, chunk@.len() as int, log, c);
        }
        if let Err(e) = marked {
            record_err(&mut first_err, e);
            continue ;
        }
        if c.result < 0 {
            record_err(&mut first_err, RingError::Os(errno(c.result)));
            continue ;
        }
        let expected: usize = chunk[idx].len;
        if c.result as u64 != expected as u64 {
            record_err(&mut first_err, RingError::ShortWrite { wrote: c.result, expected });
        }
    }
    match first_err {
        Some(e) => Err(e),
        None => Ok(()),
    }
}

// ---------- streams longer than the ring ----------

/// What the owner of the ring does next for a [`WriteStream`].
#[derive(Debug, Clone, Copy, PartialEq, Eq, Structural)]
pub enum StreamAction {
    /// Push the entry of this write, tagged with its index, and report with
    /// [`WriteStream::pushed`] whether the queue took it.
    Push(usize),
    /// Submit the pushed entries without waiting, then call
    /// [`WriteStream::submitted`].
    Submit,
    /// Pop the completions that are there and hand them to
    /// [`WriteStream::drained`].
    Drain,
    /// Wait for one completion, then pop what is there and hand it to
    /// [`WriteStream::drained`].
    Wait,
    /// Every write completed.
    Finish,
    /// The stream failed.
    Fail(RingError),
}

/// Progress of a stream of writes through the ring.
pub struct StreamState {
    /// The writes of the stream.
    pub writes: Seq<OrderedWrite>,
    /// Writes below this index have been pushed.
    pub next: int,
    /// Pushed writes whose completion has not arrived.
    pub in_flight: int,
    /// Writes pushed since the ring was last drained.
    pub pushed: int,
    /// Whether the round already waited for a completion.
    pub waited: bool,
    /// Every completion so far, in order of arrival.
    pub log: Seq<Completion>,
}

impl StreamState {
    /// The first fault so far.
    pub open spec fn fault(self) -> Option<RingError> {
        first_fault(self.writes, self.log, RingError::UserDataOutOfStream)
    }

    /// Whether the ring takes another write of the stream now.
    pub open spec fn can_push(self) -> bool {
        self.fault() is None && self.next < self.writes.len() && self.in_flight < RING_DEPTH
    }

    /// What to do once nothing more is pushed this round.
    pub open spec fn after_submit(self) -> StreamAction {
        if self.in_flight == 0 {
            match self.fault() {
                Some(e) => StreamAction::Fail(e),
                None => StreamAction::Fail(RingError::QueueStalled),
            }
        } else {
            StreamAction::Drain
        }
    }

    /// What to do while the ring is being filled.
    pub open spec fn fill(self, queue_full: bool) -> StreamAction {
        if !queue_full && self.can_push() {
            StreamAction::Push(self.next as usize)
        } else if self.pushed > 0 {
            StreamAction::Submit
        } else {
            self.after_submit()
        }
    }

    /// How the stream ends.
    pub open spec fn end(self) -> StreamAction {
        match self.fault() {
            Some(e) => StreamAction::Fail(e),
            None => if self.log.len() != self.writes.len() {
                StreamAction::Fail(
                    RingError::MissingCompletions {
                        completed: self.log.len() as usize,
                        total: self.writes.len() as usize,
                    },
                )
            } else {
                StreamAction::Finish
            },
        }
    }

    /// What to do at the start of a round.
    pub open spec fn round(self) -> StreamAction {
        if self.log.len() >= self.writes.len() {
            self.end()
        } else {
            self.fill(false)
        }
    }

    /// The state at the start of the next round.
    pub open spec fn rewound(self) -> StreamState {
        StreamState { pushed: 0, waited: false, ..self }
    }

    /// The state after the next write was pushed.
    pub open spec fn with_push(self) -> StreamState {
        StreamState {
            next: self.next + 1,
            in_flight: self.in_flight + 1,
            pushed: self.pushed + 1,
            ..self
        }
    }

    /// The state after `cqes` arrived.
    pub open spec fn with_completions(self, cqes: Seq<Completion>) -> StreamState {
        StreamState {
            in_flight: self.in_flight - cqes.len(),
            log: self.log + cqes,
            ..self
        }
    }

    /// Every pushed write is in flight or completed, and no more are in flight
    /// than the ring holds.
    pub open spec fn valid(self) -> bool {
        &&& 0 <= self.pushed
        &&& 0 <= self.in_flight <= RING_DEPTH
        &&& self.next == self.in_flight + self.log.len()
        &&& self.next <= self.writes.len()
    }
}

/// What a stream in state `s` does with the completions `cqes`, and the state `t`.
pub open spec fn drain_gives(
    s: StreamState,
    t: StreamState,
    cqes: Seq<Completion>,
    action: StreamAction,
) -> bool {
    &&& cqes.len() > s.in_flight ==> action == StreamAction::Fail(RingError::StrayCompletion) && t
        == s
    &&& cqes.len() <= s.in_flight ==> {
        let now = s.with_completions(cqes);
        if cqes.len() == 0 && !s.waited {
            &&& action == StreamAction::Wait
            &&& t == (StreamState { waited: true, ..now })
        } else {
            &&& t == now.rewound()
            &&& action == (if now.fault() is Some && now.in_flight == 0 {
                now.end()
            } else {
                now.rewound().round()
            })
        }
    }
}

/// Drives more writes through the ring than it holds at once: refills it as
/// completions arrive, stops pushing at the first fault, and still drains what
/// is in flight.
pub struct WriteStream {
    writes: Vec<OrderedWrite>,
    next: usize,
    in_flight: usize,
    completed: usize,
    pushed: usize,
    waited: bool,
    seen: Vec<u64>,
    first_err: Option<RingError>,
    log: Ghost<Seq<Completion>>,
}

impl View for WriteStream {
    type V = StreamState;

    closed spec fn view(&self) -> StreamState {
        StreamState {
            writes: self.writes@,
            next: self.next as int,
            in_flight: self.in_flight as int,
            pushed: self.pushed as int,
            waited: self.waited,
            log: self.log@,
        }
    }
}

impl WriteStream {
    /// Whether the counters and the bitmap agree with the log.
    pub closed spec fn wf(&self) -> bool {
        &&& self@.valid()
        &&& self.pushed <= self.next
        &&& self.completed == self.log@.len()
        &&& self.first_err == self@.fault()
        &&& tracks(self.seen@, self.writes@.len() as int, self.log@)
    }

    /// What holds of every well-formed stream.
    pub proof fn lemma_wf(&self)
        requires
            self.wf(),
        ensures
            self@.valid(),
    {
    }

    /// A stream of `writes`, none of them pushed yet.
    pub fn new(writes: Vec<OrderedWrite>) -> (stream: Self)
        ensures
            stream.wf(),
            stream@ == (StreamState {
                writes: writes@,
                next: 0,
                in_flight: 0,
                pushed: 0,
                waited: false,
                log: Seq::empty(),
            }),
    {
        let words: usize = writes.len() / 64 + 1;
        let seen: Vec<u64> = vec![0u64; words];
        proof {
            lemma_tracks_empty(seen@, writes@.len() as int);
        }
        WriteStream {
            writes,
            next: 0,
            in_flight: 0,
            completed: 0,
            pushed: 0,
            waited: false,
            seen,
            first_err: None,
            log: Ghost(Seq::empty()),
        }
    }

    /// The first action.
    pub fn start(&mut self) -> (action: StreamAction)
        requires
            old(self).wf(),
        ensures
            final(self).wf(),
            final(self)@ == old(self)@.rewound(),
            action == final(self)@.round(),
            action is Finish ==> final(self).all_completed(),
    {
        self.pushed = 0;
        self.waited = false;
        self.round()
    }

    /// Every write of the stream completed exactly once, with all its bytes.
    pub open spec fn all_completed(&self) -> bool {
        forall|k: int|
            0 <= k < self@.writes.len() ==> #[trigger] completed_once(self@.writes, self@.log, k)
    }

    fn end(&self) -> (action: StreamAction)
        requires
            self.wf(),
        ensures
            action == self@.end(),
            action is Finish ==> self.all_completed(),
    {
        match self.first_err {
            Some(e) => StreamAction::Fail(e),
            None => if self.completed != self.writes.len() {
                StreamAction::Fail(
                    RingError::MissingCompletions {
                        completed: self.completed,
                        total: self.writes.len(),
                    },
                )
            } else {
                proof {
                    faultless_log_completes_every_write(
                        self.writes@,
                        self.log@,
                        RingError::UserDataOutOfStream,
                    );
                }
                StreamAction::Finish
            },
        }
    }

    fn after_submit(&self) -> (action: StreamAction)
        requires
            self.wf(),
        ensures
            action == self@.after_submit(),
    {
        if self.in_flight == 0 {
            match self.first_err {
                Some(e) => StreamAction::Fail(e),
                None => StreamAction::Fail(RingError::QueueStalled),
            }
        } else {
            StreamAction::Drain
        }
    }

    fn fill(&self, queue_full: bool) -> (action: StreamAction)
        requires
            self.wf(),
        ensures
            action == self@.fill(queue_full),
    {
        if !queue_full && self.first_err.is_none() && self.next < self.writes.len()
            && self.in_flight < RING_DEPTH {
            StreamAction::Push(self.next)
        } else if self.pushed > 0 {
            StreamAction::Submit
        } else {
            self.after_submit()
        }
    }

    fn round(&self) -> (action: StreamAction)
        requires
            self.wf(),
        ensures
            action == self@.round(),
            action is Finish ==> self.all_completed(),
    {
        if self.completed >= self.writes.len() {
            self.end()
        } else {
            self.fill(false)
        }
    }

    /// The queue took the entry of the write that was to be pushed, or did not.
    pub fn pushed(&mut self, taken: bool) -> (action: StreamAction)
        requires
            old(self).wf(),
            old(self)@.can_push(),
        ensures
            final(self).wf(),
            final(self)@ == (if taken {
                old(self)@.with_push()
            } else {
                old(self)@
            }),
            action == final(self)@.fill(!taken),
    {
        if taken {
            assert(self.next < self.writes.len());
            self.next = self.next + 1;
            self.in_flight = self.in_flight + 1;
            self.pushed = self.pushed + 1;
        }
        self.fill(!taken)
    }

    /// The pushed entries were submitted.
    pub fn submitted(&mut self) -> (action: StreamAction)
        requires
            old(self).wf(),
        ensures
            *final(self) == *old(self),
            action == old(self)@.after_submit(),
    {
        self.after_submit()
    }

    /// These completions were there to pop, in this order. An empty answer to a
    /// plain drain asks for a wait; any other answer ends the round.
    pub fn drained(&mut self, cqes: &[Completion]) -> (action: StreamAction)
        requires
            old(self).wf(),
        ensures
            final(self).wf(),
            drain_gives(old(self)@, final(self)@, cqes@, action),
            action is Finish ==> final(self).all_completed(),
    {
        if cqes.len() > self.in_flight {
            return StreamAction::Fail(RingError::StrayCompletion);
        }
        if cqes.len() == 0 && !self.waited {
            self.waited = true;
            assert(self@.log + cqes@ =~= self@.log);
            return StreamAction::Wait;
        }
        self.absorb(cqes);
        self.pushed = 0;
        self.waited = false;
        if self.first_err.is_some() && self.in_flight == 0 {
            self.end()
        } else {
            self.round()
        }
    }

    /// Account for completions in order of arrival.
    fn absorb(&mut self, cqes: &[Completion])
        requires
            old(self).wf(),
            cqes@.len() <= old(self)@.in_flight,
        ensures
            final(self).wf(),
            final(self)@ == old(self)@.with_completions(cqes@),
    {
        let ghost start = self@;
        let mut i: usize = 0;
        assert(start.log + cqes@.take(0) =~= start.log);
        while i < cqes.len()
            invariant
                i <= cqes@.len() <= start.in_flight,
                self.wf(),
                self@ == start.with_completions(cqes@.take(i as int)),
            decreases cqes@.len() - i,
        {
            let c = cqes[i];
            let ghost log = self.log@;
            let ghost longer = log.push(c);
            let ghost before = self.seen@;
            let ghost n = self.writes@.len() as int;
            proof {
                assert(longer.drop_last() =~= log);
                assert(longer =~= start.log + cqes@.take(i + 1));
                assert(cqes@.take(i + 1).len() == i + 1);
            }
            i += 1;
            self.completed = self.completed + 1;
            self.in_flight = self.in_flight - 1;
            self.log = Ghost(longer);
            let fault: Option<RingError> = self.judge(c, Ghost(log));
            if let Some(e) = fault {
                record_err(&mut self.first_err, e);
            }
        }
        assert(cqes@.take(i as int) =~= cqes@);
    }

    /// Mark the tag of `c` as seen and say what is wrong with `c`.
    fn judge(&mut self, c: Completion, Ghost(log): Ghost<Seq<Completion>>) -> (fault: Option<RingError>)
        requires
            tracks(old(self).seen@, old(self).writes@.len() as int, log),
        ensures
            *final(self) == (WriteStream { seen: final(self).seen, ..*old(self) }),
            tracks(final(self).seen@, old(self).writes@.len() as int, log.push(c)),
            fault == fault_at(
                old(self).writes@,
                log.push(c),
                log.len() as int,
                RingError::UserDataOutOfStream,
            ),
    {
        let ghost before = self.seen@;
        let ghost n = self.writes.len() as int;
        if c.user_data > usize::MAX as u64 {
            proof {
                lemma_tracks_push(before, self.seen@, n, log, c);
            }
            return Some(RingError::UserDataOverflow);
        }
        let idx: usize = c.user_data as usize;
        if idx >= self.writes.len() {
            proof {
                lemma_tracks_push(before, self.seen@, n, log, c);
            }
            return Some(RingError::UserDataOutOfStream);
        }
        let marked = mark_seen_dynamic(&mut self.seen, idx);
        proof {
            lemma_tracks_push(before, self.seen@, n, log, c);
        }
        if let Err(e) = marked {
            return Some(e);
        }
        if c.result < 0 {
            return Some(RingError::Os(errno(c.result)));
        }
        let expected: usize = self.writes[idx].len;
        if c.result as u64 != expected as u64 {
            return Some(RingError::ShortWrite { wrote: c.result, expected });
        }
        None
    }
}

// ---------- laws ----------

/// Of several writes to one offset the last one is submitted and no other: every
/// write of the list is covered by an entry that comes no earlier in the list and
/// carries its own offset and length, and the offsets ascend.
pub proof fn the_last_write_to_an_offset_goes_out(
    writes: Seq<(u64, usize)>,
    ordered: Seq<OrderedWrite>,
    k: int,
)
    requires
        is_submission_order(writes, ordered),
        0 <= k < writes.len(),
    ensures
        exists|i: int|
            0 <= i < ordered.len() && (#[trigger] ordered[i]).offset == writes[k].0
                && ordered[i].order >= k,
        forall|i: int|
            0 <= i < ordered.len() ==> (#[trigger] ordered[i]).order < writes.len()
                && ordered[i].offset == writes[ordered[i].order as int].0 && ordered[i].len
                == writes[ordered[i].order as int].1,
        forall|i: int, j: int|
            0 <= i < j < ordered.len() ==> (#[trigger] ordered[i]).offset < (
            #[trigger] ordered[j]).offset,
{
    assert(covers(ordered, writes[k].0));
    let i = choose|i: int| 0 <= i < ordered.len() && (#[trigger] ordered[i]).offset == writes[k].0;
    assert(last_for_offset(writes, ordered[i]));
    if ordered[i].order < k {
        assert(writes[k].0 != ordered[i].offset);
    }
    assert forall|j: int| 0 <= j < ordered.len() implies (#[trigger] ordered[j]).order
        < writes.len() && ordered[j].offset == writes[ordered[j].order as int].0 && ordered[j].len
        == writes[ordered[j].order as int].1 by {
        assert(last_for_offset(writes, ordered[j]));
    }
}

/// The error number of a negative result is its absolute value.
pub proof fn an_error_number_is_the_negated_result(n: i32)
    requires
        i32::MIN < n < 0,
    ensures
        os_code(n) > 0,
        os_code(n) + n == 0,
{
}

/// A completion is faultless exactly where its tag is the index of a write that no
/// earlier completion named, and its result is the length of that write. Otherwise
/// the fault says which of these does not hold.
pub proof fn a_fault_names_what_is_wrong(
    writes: Seq<OrderedWrite>,
    log: Seq<Completion>,
    i: int,
    outside: RingError,
)
    requires
        0 <= i < log.len(),
        writes.len() <= usize::MAX,
        outside == RingError::UserDataOutOfBatch || outside == RingError::UserDataOutOfStream,
    ensures
        fault_at(writes, log, i, outside) is None <==> {
            &&& log[i].user_data < writes.len()
            &&& forall|j: int| 0 <= j < i ==> (#[trigger] log[j]).user_data != log[i].user_data
            &&& log[i].result == writes[log[i].user_data as int].len
        },
        match fault_at(writes, log, i, outside) {
            Some(RingError::Os(e)) => log[i].result < 0 && (log[i].result > i32::MIN ==> e
                + log[i].result == 0),
            Some(RingError::ShortWrite { wrote, expected }) => wrote == log[i].result && wrote >= 0
                && expected == writes[log[i].user_data as int].len && wrote != expected,
            Some(RingError::DuplicateUserData) => exists|j: int|
                0 <= j < i && (#[trigger] log[j]).user_data == log[i].user_data,
            Some(e) => log[i].user_data >= writes.len() && (e == outside || e
                == RingError::UserDataOverflow),
            None => true,
        },
{
}

/// The first fault is that of the first completion that has one.
pub proof fn the_first_fault_counts(
    writes: Seq<OrderedWrite>,
    log: Seq<Completion>,
    outside: RingError,
)
    ensures
        match first_fault(writes, log, outside) {
            Some(e) => exists|i: int|
                0 <= i < log.len() && #[trigger] fault_at(writes, log, i, outside) == Some(e)
                    && forall|j: int|
                    0 <= j < i ==> #[trigger] fault_at(writes, log, j, outside) is None,
            None => forall|j: int|
                0 <= j < log.len() ==> #[trigger] fault_at(writes, log, j, outside) is None,
        },
    decreases log.len(),
{
    if log.len() > 0 {
        let front = log.drop_last();
        the_first_fault_counts(writes, front, outside);
        assert forall|j: int| 0 <= j < front.len() implies #[trigger] fault_at(
            writes,
            log,
            j,
            outside,
        ) == fault_at(writes, front, j, outside) by {
            lemma_fault_of_front(writes, log, j, outside);
        }
        if first_fault(writes, front, outside) is Some {
            let i = choose|i: int|
                0 <= i < front.len() && #[trigger] fault_at(writes, front, i, outside)
                    == first_fault(writes, front, outside) && forall|j: int|
                    0 <= j < i ==> #[trigger] fault_at(writes, front, j, outside) is None;
            assert(fault_at(writes, log, i, outside) == fault_at(writes, front, i, outside));
            assert forall|j: int| 0 <= j < i implies #[trigger] fault_at(
                writes,
                log,
                j,
                outside,
            ) is None by {
                assert(fault_at(writes, front, j, outside) is None);
            }
        } else {
            let n = log.len() - 1;
            assert forall|j: int| 0 <= j < n implies #[trigger] fault_at(
                writes,
                log,
                j,
                outside,
            ) is None by {
                assert(fault_at(writes, front, j, outside) is None);
            }
            assert(fault_at(writes, log, n, outside) == first_fault(writes, log, outside));
        }
    }
}

proof fn lemma_fault_of_front(
    writes: Seq<OrderedWrite>,
    log: Seq<Completion>,
    j: int,
    outside: RingError,
)
    requires
        0 <= j < log.len() - 1,
    ensures
        fault_at(writes, log, j, outside) == fault_at(writes, log.drop_last(), j, outside),
{
    let front = log.drop_last();
    if seen_before(log, j) {
        let k = choose|k: int| 0 <= k < j && (#[trigger] log[k]).user_data == log[j].user_data;
        assert(front[k].user_data == front[j].user_data);
    }
    if seen_before(front, j) {
        let k = choose|k: int|
            0 <= k < j && (#[trigger] front[k]).user_data == front[j].user_data;
        assert(log[k].user_data == log[j].user_data);
    }
}

/// A batch succeeds exactly where there are as many completions as writes and each
/// of the first ones names a write that no earlier one named, with all its bytes;
/// then every write completed exactly once.
pub proof fn a_batch_succeeds_with_all_its_bytes(
    chunk: Seq<OrderedWrite>,
    cqes: Seq<Completion>,
)
    requires
        chunk.len() <= usize::MAX,
    ensures
        batch_gives(chunk, cqes) is Ok <==> cqes.len() >= chunk.len() && forall|i: int|
            0 <= i < chunk.len() ==> (#[trigger] cqes[i]).user_data < chunk.len() && cqes[i].result
                == chunk[cqes[i].user_data as int].len && forall|j: int|
                0 <= j < i ==> (#[trigger] cqes[j]).user_data != cqes[i].user_data,
        batch_gives(chunk, cqes) == Err::<(), RingError>(RingError::CompletionMissing)
            <==> cqes.len() < chunk.len(),
        batch_gives(chunk, cqes) is Ok ==> forall|k: int|
            0 <= k < chunk.len() ==> #[trigger] completed_once(
                chunk,
                cqes.take(chunk.len() as int),
                k,
            ),
{
    let outside = RingError::UserDataOutOfBatch;
    let n = chunk.len() as int;
    if cqes.len() >= n {
        let log = cqes.take(n);
        the_first_fault_counts(chunk, log, outside);
        assert forall|i: int| 0 <= i < n implies (#[trigger] fault_at(chunk, log, i, outside)
            is None <==> (cqes[i].user_data < chunk.len() && cqes[i].result
            == chunk[cqes[i].user_data as int].len && forall|j: int|
            0 <= j < i ==> (#[trigger] cqes[j]).user_data != cqes[i].user_data)) && fault_at(
            chunk,
            log,
            i,
            outside,
        ) != Some(RingError::CompletionMissing) by {
            a_fault_names_what_is_wrong(chunk, log, i, outside);
            if fault_at(chunk, log, i, outside) is None {
                assert forall|j: int| 0 <= j < i implies (#[trigger] cqes[j]).user_data
                    != cqes[i].user_data by {
                    assert(log[j].user_data != log[i].user_data);
                }
            }
            if forall|j: int| 0 <= j < i ==> (#[trigger] cqes[j]).user_data != cqes[i].user_data {
                assert forall|j: int| 0 <= j < i implies (#[trigger] log[j]).user_data
                    != log[i].user_data by {
                    assert(cqes[j].user_data != cqes[i].user_data);
                }
            }
        }
        if first_fault(chunk, log, outside) is None {
            faultless_log_completes_every_write(chunk, log, outside);
            assert forall|i: int| 0 <= i < chunk.len() implies (#[trigger] cqes[i]).user_data
                < chunk.len() && cqes[i].result == chunk[cqes[i].user_data as int].len && forall|
                j: int,
            |
                0 <= j < i ==> (#[trigger] cqes[j]).user_data != cqes[i].user_data by {
                assert(fault_at(chunk, log, i, outside) is None);
            }
        } else {
            let i = choose|i: int|
                0 <= i < log.len() && #[trigger] fault_at(chunk, log, i, outside) == first_fault(
                    chunk,
                    log,
                    outside,
                );
            assert(fault_at(chunk, log, i, outside) is Some);
        }
    }
}

/// The ring is kept full: while there is no fault, a write left and room for it in
/// the ring of 256 entries, the next write in order is pushed; and a write is
/// pushed only then.
pub proof fn the_ring_is_kept_full(s: StreamState)
    requires
        s.valid(),
        s.writes.len() <= usize::MAX,
    ensures
        s.log.len() < s.writes.len() && s.fault() is None && s.next < s.writes.len() && s.in_flight
            < 256 ==> s.round() == StreamAction::Push(s.next as usize) && s.fill(false)
            == StreamAction::Push(s.next as usize),
        forall|full: bool|
            #![trigger s.fill(full)]
            s.fill(full) matches StreamAction::Push(i) ==> {
                &&& i == s.next
                &&& !full
                &&& s.in_flight < 256
                &&& s.fault() is None
                &&& s.with_push().valid()
                &&& s.with_push().next == s.next + 1
                &&& s.with_push().in_flight == s.in_flight + 1
                &&& s.with_push().log == s.log
            },
        s.fill(true) is Submit <==> s.pushed > 0,
{
}

/// A stream finishes exactly where every write completed without a fault, and it
/// fails only once nothing is in flight. It never drains where nothing is.
pub proof fn a_stream_ends_only_when_drained(s: StreamState, full: bool)
    requires
        s.valid(),
    ensures
        s.round() is Finish <==> s.fault() is None && s.log.len() == s.writes.len(),
        s.round() is Fail ==> s.in_flight == 0,
        s.fill(full) is Fail ==> s.in_flight == 0,
        s.after_submit() is Fail ==> s.in_flight == 0,
        s.after_submit() is Drain <==> s.in_flight > 0,
        s.fill(full) is Drain ==> s.in_flight > 0,
        s.round() matches StreamAction::Fail(e) ==> (s.fault() is Some ==> s.fault() == Some(e)),
        s.round() is Finish ==> forall|k: int|
            0 <= k < s.writes.len() ==> #[trigger] completed_once(s.writes, s.log, k),
{
    if s.round() is Finish {
        faultless_log_completes_every_write(s.writes, s.log, RingError::UserDataOutOfStream);
    }
}

/// Every completion that was popped is taken into account once, in order, and
/// takes one write out of flight. More completions than writes in flight are
/// refused. Only an empty drain asks for a wait, and it does so once a round.
pub proof fn a_drain_takes_every_completion(
    s: StreamState,
    t: StreamState,
    cqes: Seq<Completion>,
    action: StreamAction,
)
    requires
        s.valid(),
        drain_gives(s, t, cqes, action),
    ensures
        t.valid(),
        t.writes == s.writes,
        t.next == s.next,
        cqes.len() <= s.in_flight ==> t.log == s.log + cqes && t.in_flight == s.in_flight
            - cqes.len(),
        cqes.len() > s.in_flight ==> t == s && action is Fail,
        action is Wait <==> cqes.len() == 0 && !s.waited,
        action is Wait ==> t.waited,
        action is Finish ==> t.fault() is None && t.log.len() == t.writes.len(),
        action is Fail && cqes.len() <= s.in_flight ==> t.in_flight == 0,
{
}

/// No write needs no plan, up to 256 go out in one batch, and more in a stream.
pub proof fn a_batch_fits_the_ring(count: int)
    requires
        count >= 0,
    ensures
        plan_of(count) is Nothing <==> count == 0,
        plan_of(count) is Batch <==> 1 <= count <= 256,
        plan_of(count) is Stream <==> count > 256,
{
}

/// An entry names a buffer by its index exactly where buffers are registered and the
/// buffer has one.
pub proof fn only_registered_buffers_are_named(fixed_buffers: bool, index: Option<u16>)
    ensures
        index matches Some(i) ==> (kind_of(fixed_buffers, index) == EntryKind::Fixed(i)
            <==> fixed_buffers),
        kind_of(fixed_buffers, index) is Plain <==> !fixed_buffers || index is None,
{
}

/// A read succeeds exactly where it read the bytes it was asked for, and a sync where
/// its result is zero. A negative result is the operating system's error number.
pub proof fn only_whole_results_succeed(n: i32, expected: usize)
    ensures
        read_gives(n, expected) is Ok <==> n == expected,
        sync_gives(n) is Ok <==> n == 0,
        i32::MIN < n < 0 ==> read_gives(n, expected) == Err::<(), RingError>(
            RingError::Os((0 - n) as i32),
        ) && sync_gives(n) == Err::<(), RingError>(RingError::Os((0 - n) as i32)),
        n >= 0 && n != expected ==> read_gives(n, expected) == Err::<(), RingError>(
            RingError::ShortRead { read: n, expected },
        ),
        n > 0 ==> sync_gives(n) == Err::<(), RingError>(RingError::UnexpectedSyncResult(n)),
{
}

/// Of several errors the first one is remembered.
pub proof fn the_first_error_is_remembered(a: RingError, b: RingError)
    ensures
        recorded(recorded(None, a), b) == Some(a),
{
}

} // verus!
