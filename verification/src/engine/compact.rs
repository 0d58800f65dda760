//! Compaction vocabulary.
use vstd::prelude::*;

verus! {

/// Reason a compaction or split fired.
#[derive(Debug, Clone, Copy, PartialEq, Eq, Structural)]
pub enum CompactReason {
    /// Too many tombstone leaves; rebuild dropping them.
    SplitTombstone,
    /// Bump-allocator wasted space exceeds threshold; rebuild compactly.
    SplitGapSpace,
    /// Alloc failed in current blob; spill a subtree.
    OutOfBlobFrame,
}

} // verus!
