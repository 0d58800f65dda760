//! Knobs the user tunes when opening a tree.
use vstd::prelude::*;

verus! {

/// Configuration of a tree.
#[derive(Debug, Clone)]
pub struct TreeConfig {
    /// Directory where blobs and the log live.
    pub data_dir: String,
    /// How many blob frames to keep pinned in the buffer pool.
    pub buffer_pool_size: usize,
    /// Sync the log on every commit, rather than in batches.
    pub wal_sync_on_commit: bool,
    /// Checkpoint after this many bytes have been appended to the log.
    pub checkpoint_byte_interval: u64,
}

impl TreeConfig {
    /// Reasonable defaults: 64 frames, a batched log, a checkpoint every 16 MiB.
    #[must_use]
    pub fn new(data_dir: &str) -> (cfg: Self)
        ensures
            cfg.data_dir@ == data_dir@,
            cfg.buffer_pool_size == 64,
            !cfg.wal_sync_on_commit,
            cfg.checkpoint_byte_interval == 16 * 1024 * 1024,
    {
        TreeConfig {
            data_dir: data_dir.to_owned(),
            buffer_pool_size: 64,
            wal_sync_on_commit: false,
            checkpoint_byte_interval: 16 * 1024 * 1024,
        }
    }
}

} // verus!
