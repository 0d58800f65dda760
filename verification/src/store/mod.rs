//! Storage layer.

pub mod backend;
pub mod blob_frame;
pub mod blob_store;
pub mod buffer_manager;
pub mod cache_laws;
pub mod cached_blob;
pub mod cold;
pub mod dirty;
pub mod routing_cache;
