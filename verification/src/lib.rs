//! An embedded metadata store over fixed-size blob frames.

pub mod api;
pub mod bytes;
pub mod engine;
pub mod layout;
pub mod read_model;
pub mod store;
