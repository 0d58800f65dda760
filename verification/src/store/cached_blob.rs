//! One cached blob and the three ways to look at it.
//!
//! - Optimistic: remember the version, read, and ask afterwards whether a writer
//!   came in between.
//! - Shared: a borrow that keeps writers out.
//! - Exclusive: a borrow for writing, which moves the version on.
use vstd::prelude::*;

use crate::store::backend::AlignedBlobBuf;

verus! {

/// What a cached blob remembers.
pub struct BlobState {
    pub bytes: Seq<u8>,
    /// Moved on by every exclusive access.
    pub version: u64,
    /// Tick of the last lookup.
    pub last_touched: u64,
}

/// A single cached blob.
pub struct CachedBlob {
    buf: AlignedBlobBuf,
    version: u64,
    last_touched: u64,
}

impl View for CachedBlob {
    type V = BlobState;

    closed spec fn view(&self) -> BlobState {
        BlobState {
            bytes: self.buf@,
            version: self.version,
            last_touched: self.last_touched,
        }
    }
}

/// The version after one more exclusive access.
pub open spec fn next_version(v: u64) -> u64 {
    if v == u64::MAX {
        0
    } else {
        (v + 1) as u64
    }
}

/// The state once an exclusive access left `bytes`.
pub open spec fn written(s: BlobState, bytes: Seq<u8>) -> BlobState {
    BlobState { bytes, version: next_version(s.version), last_touched: s.last_touched }
}

/// The state once it was looked up at `tick`.
pub open spec fn touched(s: BlobState, tick: u64) -> BlobState {
    BlobState { last_touched: tick, ..s }
}

/// Whether a guard of version `guard` covers what the blob holds.
pub open spec fn validates(guard: u64, s: BlobState) -> bool {
    guard == s.version
}

/// The version after `n` more exclusive accesses.
pub open spec fn version_after(v: u64, n: nat) -> u64
    decreases n,
{
    if n == 0 {
        v
    } else {
        next_version(version_after(v, (n - 1) as nat))
    }
}

/// A version to validate a read against.
pub struct OptimisticGuard {
    version: u64,
}

impl View for OptimisticGuard {
    type V = u64;

    closed spec fn view(&self) -> u64 {
        self.version
    }
}

/// Shared access to a cached blob.
pub struct BlobReadGuard<'a> {
    buf: &'a AlignedBlobBuf,
}

impl<'a> View for BlobReadGuard<'a> {
    type V = Seq<u8>;

    closed spec fn view(&self) -> Seq<u8> {
        self.buf@
    }
}

/// Exclusive access to a cached blob.
pub struct BlobWriteGuard<'a> {
    pub buf: &'a mut AlignedBlobBuf,
}

impl CachedBlob {
    /// A cached blob that was never looked up.
    pub fn new(buf: AlignedBlobBuf) -> (blob: Self)
        ensures
            blob@ == (BlobState { bytes: buf@, version: 0, last_touched: 0 }),
    {
        CachedBlob { buf, version: 0, last_touched: 0 }
    }

    /// Tick of the last lookup.
    pub fn last_touched(&self) -> (tick: u64)
        ensures
            tick == self@.last_touched,
    {
        self.last_touched
    }

    /// Note a lookup at `tick`.
    pub fn touch(&mut self, tick: u64)
        ensures
            final(self)@ == touched(old(self)@, tick),
    {
        self.last_touched = tick;
    }

    /// Remember the version, to validate a read afterwards.
    pub fn read_optimistic(&self) -> (guard: OptimisticGuard)
        ensures
            guard@ == self@.version,
    {
        OptimisticGuard { version: self.version }
    }

    /// Shared access.
    pub fn read(&self) -> (guard: BlobReadGuard<'_>)
        ensures
            guard@ == self@.bytes,
    {
        BlobReadGuard { buf: &self.buf }
    }

    /// Exclusive access. The version moves on, so that optimistic readers notice.
    pub fn write(&mut self) -> (guard: BlobWriteGuard<'_>)
        ensures
            guard.buf@ == old(self)@.bytes,
            final(self)@ == written(old(self)@, final(guard.buf)@),
    {
        self.version = self.version.wrapping_add(1);
        BlobWriteGuard { buf: &mut self.buf }
    }
}

impl OptimisticGuard {
    /// The bytes that the guard covers. They count only once [`Self::validate`]
    /// says so.
    pub fn as_slice<'a>(&self, blob: &'a CachedBlob) -> (bytes: &'a [u8])
        ensures
            bytes@ == blob@.bytes,
    {
        blob.buf.as_slice()
    }

    /// Whether no exclusive access came since the guard was taken.
    pub fn validate(&self, blob: &CachedBlob) -> (valid: bool)
        ensures
            valid == validates(self@, blob@),
    {
        self.version == blob.version
    }
}

impl<'a> BlobReadGuard<'a> {
    /// The bytes.
    pub fn as_slice(&self) -> (bytes: &'a [u8])
        ensures
            bytes@ == self@,
    {
        self.buf.as_slice()
    }
}

impl<'a> BlobWriteGuard<'a> {
    /// The bytes, for writing.
    pub fn as_mut_slice(self) -> (bytes: &'a mut [u8])
        ensures
            bytes@ == old(self.buf)@,
            final(self.buf)@ == final(bytes)@,
    {
        self.buf.as_mut_slice()
    }
}

/// A guard validates until the next exclusive access: lookups do not disturb it,
/// and bytes that were read under a guard that validates are those that it was
/// taken over.
pub proof fn lookups_do_not_disturb_readers(s: BlobState, tick: u64)
    ensures
        validates(s.version, s),
        validates(s.version, touched(s, tick)),
        touched(s, tick).bytes == s.bytes,
        touched(s, tick).last_touched == tick,
{
}

/// An exclusive access leaves the bytes that were written, and no guard that was
/// taken before it validates after it.
pub proof fn a_write_is_seen(s: BlobState, bytes: Seq<u8>)
    ensures
        written(s, bytes).bytes == bytes,
        !validates(s.version, written(s, bytes)),
        written(s, bytes).last_touched == s.last_touched,
{
}

/// A version does not come back before the counter has gone all the way round.
pub proof fn versions_do_not_come_back(v: u64, n: nat)
    requires
        0 < n < 0x1_0000_0000_0000_0000,
    ensures
        version_after(v, n) != v,
{
    lemma_version_after(v, n);
}

proof fn lemma_version_after(v: u64, n: nat)
    requires
        n < 0x1_0000_0000_0000_0000,
    ensures
        version_after(v, n) == (if v + n < 0x1_0000_0000_0000_0000 {
            v + n
        } else {
            v + n - 0x1_0000_0000_0000_0000
        }),
    decreases n,
{
    if n > 0 {
        lemma_version_after(v, (n - 1) as nat);
    }
}

/// A guard that was taken before an exclusive access does not validate after it.
pub proof fn write_invalidates_optimistic_readers(before: BlobState, after: BlobState)
    requires
        after.version == next_version(before.version),
    ensures
        before.version != after.version,
{
}

} // verus!
