//! Cold-read accelerators.
//!
//! These structures are advisory only. The blob file remains the source of
//! truth; missing cold state makes the caller fall back to the full-blob path.
pub mod aged;
pub mod page_cache;
