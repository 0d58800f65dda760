//! Public API surface.

pub mod builder;
pub mod checkpoint;
pub mod config;
pub mod errors;
pub mod tree;
pub mod value;
