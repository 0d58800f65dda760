//! The tree engine: search keys, route cache, compaction reasons and the walker.
pub mod compact;
pub mod route_cache;
pub mod search_key;
pub mod walker;
