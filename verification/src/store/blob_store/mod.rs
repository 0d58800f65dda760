//! Blob-addressed storage.

pub mod buffer_pool;
pub mod file;
