//! The walker over one blob frame: what its nodes mean, and how they are read
//! and written.
pub mod cow;
pub mod equivalence;
pub mod insert;
pub mod laws;
pub mod lookup;
pub mod merge;
pub mod migrate;
pub mod model;
pub mod put;
pub mod readers;
pub mod reclaim;
pub mod rewire;
pub mod settled;
pub mod visits;
pub mod writers;
