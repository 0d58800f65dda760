//! Fluent constructor for trees.
use vstd::prelude::*;

use super::config::TreeConfig;
use super::errors::Result;
use super::tree::Tree;
use crate::store::backend::{Backend, MemoryBackend};

verus! {

/// Fluent constructor for [`Tree`].
#[derive(Debug, Clone)]
pub struct TreeBuilder {
    cfg: TreeConfig,
}

impl View for TreeBuilder {
    type V = TreeConfig;

    closed spec fn view(&self) -> TreeConfig {
        self.cfg
    }
}

impl TreeBuilder {
    /// Start a builder for a tree in `data_dir`, with the default configuration.
    #[must_use]
    pub fn new(data_dir: &str) -> (b: Self)
        ensures
            b@.data_dir@ == data_dir@,
            b@.buffer_pool_size == 64,
            !b@.wal_sync_on_commit,
            b@.checkpoint_byte_interval == 16 * 1024 * 1024,
    {
        TreeBuilder { cfg: TreeConfig::new(data_dir) }
    }

    /// Set the buffer pool size, in blob frames.
    #[must_use]
    pub fn buffer_pool_size(self, n: usize) -> (b: Self)
        ensures
            b@ == (TreeConfig { buffer_pool_size: n, ..self@ }),
    {
        let mut b = self;
        b.cfg.buffer_pool_size = n;
        b
    }

    /// Sync the log on every commit, or in batches.
    #[must_use]
    pub fn wal_sync_on_commit(self, on: bool) -> (b: Self)
        ensures
            b@ == (TreeConfig { wal_sync_on_commit: on, ..self@ }),
    {
        let mut b = self;
        b.cfg.wal_sync_on_commit = on;
        b
    }

    /// Bytes appended to the log before a checkpoint.
    #[must_use]
    pub fn checkpoint_byte_interval(self, bytes: u64) -> (b: Self)
        ensures
            b@ == (TreeConfig { checkpoint_byte_interval: bytes, ..self@ }),
    {
        let mut b = self;
        b.cfg.checkpoint_byte_interval = bytes;
        b
    }

    /// The configuration built so far.
    #[must_use]
    pub fn into_config(self) -> (cfg: TreeConfig)
        ensures
            cfg == self@,
    {
        self.cfg
    }

    /// Open with the in-memory backend: an empty tree, gone with its handle.
    pub fn open_in_memory(self) -> (r: Result<Tree<MemoryBackend>>)
        ensures
            r matches Ok(t) && t.sound() && t.steady() && t@ == Map::<Seq<u8>, Seq<u8>>::empty()
                && t.cfg() == self@,
    {
        Tree::open_with_backend(self.cfg, MemoryBackend::new())
    }

    /// Open with a backend of the caller's.
    pub fn open_with_backend<B: Backend>(self, backend: B) -> (r: Result<Tree<B>>)
        requires
            backend.wf(),
        ensures
            crate::api::tree::opened(self@, backend, r),
    {
        Tree::open_with_backend(self.cfg, backend)
    }
}

} // verus!
