//! Planning and bookkeeping of the file-backed store's ring I/O.

pub mod ring;
