//! Ordering of ring writes and judging of their completions.
use holt::store::blob_store::file::ring::{
    check_fsync_result, check_read_result, drain_write_batch, entry_kind, mark_seen,
    mark_seen_dynamic, ordered_writes, record_err, write_plan, Completion, EntryKind,
    OrderedWrite, RingError, StreamAction, WritePlan, WriteStream, RING_DEPTH,
};

fn done(user_data: u64, result: i32) -> Completion {
    Completion { user_data, result }
}

fn writes(n: usize) -> Vec<OrderedWrite> {
    (0..n).map(|i| OrderedWrite { offset: 8 * i as u64, len: 8, order: i }).collect()
}

#[test]
fn writes_go_out_by_offset_and_the_last_of_an_offset_wins() {
    let ordered = ordered_writes(&[(30, 1), (10, 2), (30, 3), (20, 4), (10, 5)]);
    assert_eq!(
        ordered,
        [
            OrderedWrite { offset: 10, len: 5, order: 4 },
            OrderedWrite { offset: 20, len: 4, order: 3 },
            OrderedWrite { offset: 30, len: 3, order: 2 },
        ]
    );
    assert!(ordered_writes(&[]).is_empty());
}

#[test]
fn plans_follow_the_ring_depth() {
    assert_eq!(write_plan(0), WritePlan::Nothing);
    assert_eq!(write_plan(1), WritePlan::Batch);
    assert_eq!(write_plan(RING_DEPTH), WritePlan::Batch);
    assert_eq!(write_plan(RING_DEPTH + 1), WritePlan::Stream);
}

#[test]
fn entries_are_fixed_only_for_registered_buffers() {
    assert_eq!(entry_kind(true, Some(3)), EntryKind::Fixed(3));
    assert_eq!(entry_kind(true, None), EntryKind::Plain);
    assert_eq!(entry_kind(false, Some(3)), EntryKind::Plain);
}

#[test]
fn single_results() {
    assert_eq!(check_fsync_result(0), Ok(()));
    assert_eq!(check_fsync_result(-5), Err(RingError::Os(5)));
    assert_eq!(check_fsync_result(4), Err(RingError::UnexpectedSyncResult(4)));
    assert_eq!(check_read_result(8, 8), Ok(()));
    assert_eq!(check_read_result(-5, 8), Err(RingError::Os(5)));
    assert_eq!(
        check_read_result(7, 8),
        Err(RingError::ShortRead { read: 7, expected: 8 })
    );
}

#[test]
fn only_the_first_error_is_kept() {
    let mut slot = None;
    record_err(&mut slot, RingError::QueueStalled);
    record_err(&mut slot, RingError::StrayCompletion);
    assert_eq!(slot, Some(RingError::QueueStalled));
}

#[test]
fn bitmaps_notice_a_second_completion() {
    let mut seen = [0u64; 4];
    assert_eq!(mark_seen(&mut seen, 70), Ok(()));
    assert_eq!(seen, [0, 64, 0, 0]);
    assert_eq!(mark_seen(&mut seen, 70), Err(RingError::DuplicateUserData));
    let mut dynamic = vec![0u64; 1];
    assert_eq!(mark_seen_dynamic(&mut dynamic, 63), Ok(()));
    assert_eq!(mark_seen_dynamic(&mut dynamic, 63), Err(RingError::DuplicateUserData));
    assert_eq!(mark_seen_dynamic(&mut dynamic, 64), Err(RingError::UserDataOutOfBitmap));
}

#[test]
fn a_batch_is_done_when_every_write_completed_in_full() {
    let chunk = writes(2);
    assert_eq!(drain_write_batch(&chunk, &[done(1, 8), done(0, 8)]), Ok(()));
    assert_eq!(
        drain_write_batch(&chunk, &[done(1, 8)]),
        Err(RingError::CompletionMissing)
    );
    assert_eq!(
        drain_write_batch(&chunk, &[done(1, 8), done(1, 8)]),
        Err(RingError::DuplicateUserData)
    );
    assert_eq!(
        drain_write_batch(&chunk, &[done(2, 8), done(0, -5)]),
        Err(RingError::UserDataOutOfBatch)
    );
    assert_eq!(
        drain_write_batch(&chunk, &[done(1, -5), done(0, 8)]),
        Err(RingError::Os(5))
    );
    assert_eq!(
        drain_write_batch(&chunk, &[done(1, 7), done(0, 8)]),
        Err(RingError::ShortWrite { wrote: 7, expected: 8 })
    );
}

/// Runs a stream against a ring that completes everything it was given.
fn run(stream: &mut WriteStream, capacity: usize, result: i32) -> (StreamAction, usize) {
    let mut queue: Vec<u64> = Vec::new();
    let mut most = 0;
    let mut action = stream.start();
    loop {
        action = match action {
            StreamAction::Push(i) => {
                let taken = queue.len() < capacity;
                if taken {
                    queue.push(i as u64);
                    most = most.max(queue.len());
                }
                stream.pushed(taken)
            }
            StreamAction::Submit => stream.submitted(),
            StreamAction::Drain => stream.drained(&[]),
            StreamAction::Wait => {
                let n = queue.len().min(100);
                let cqes: Vec<Completion> = queue.drain(..n).map(|t| done(t, result)).collect();
                stream.drained(&cqes)
            }
            end => return (end, most),
        }
    }
}

#[test]
fn a_stream_refills_the_ring_until_all_is_written() {
    let mut stream = WriteStream::new(writes(1000));
    assert_eq!(run(&mut stream, RING_DEPTH, 8), (StreamAction::Finish, RING_DEPTH));
    let mut stream = WriteStream::new(writes(1000));
    assert_eq!(run(&mut stream, 10, 8), (StreamAction::Finish, 10));
}

#[test]
fn a_stream_reports_its_first_fault_once_the_ring_is_empty() {
    let mut stream = WriteStream::new(writes(1000));
    assert_eq!(
        run(&mut stream, RING_DEPTH, -28),
        (StreamAction::Fail(RingError::Os(28)), RING_DEPTH)
    );
    let mut stream = WriteStream::new(writes(1000));
    assert_eq!(
        run(&mut stream, 0, 8),
        (StreamAction::Fail(RingError::QueueStalled), 0)
    );
}

#[test]
fn stray_completions_fail_a_stream() {
    let mut stream = WriteStream::new(writes(300));
    assert_eq!(stream.start(), StreamAction::Push(0));
    assert_eq!(
        stream.drained(&[done(0, 8)]),
        StreamAction::Fail(RingError::StrayCompletion)
    );
}
