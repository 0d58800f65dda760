//! The error type shared by every fallible operation.
use vstd::prelude::*;

use crate::layout::BlobGuid;

verus! {

/// What a blob store reported when it refused an operation.
#[derive(Debug, Clone, Copy, PartialEq, Eq, Structural)]
pub enum StoreFault {
    /// The blob does not exist.
    NotFound,
    /// The device has no room left.
    StorageFull,
    /// Any other failure, with the operating system's error number if there is one.
    Other(Option<i32>),
}

/// Everything that can go wrong.
#[derive(Debug, Clone, Copy, PartialEq, Eq)]
pub enum Error {
    /// The underlying blob store failed.
    BlobStoreIo(StoreFault),
    /// A blob frame has no room for the node that was to be allocated.
    OutOfSpace,
    /// The key does not fit the 16-bit length field of a leaf.
    KeyTooLong,
    /// The value does not fit the 16-bit length field of a leaf.
    ValueTooLong,
    /// The engine does not handle this shape.
    NotYetImplemented(&'static str),
    /// Bytes that should hold a node or an image do not decode.
    NodeCorrupt { context: &'static str, blob_guid: Option<BlobGuid>, slot: Option<u16> },
    /// A stored value does not decode as a tagged value.
    InvalidValueEncoding { context: &'static str },
}

/// Result of a fallible operation.
pub type Result<T> = core::result::Result<T, Error>;

impl Error {
    /// The value that [`Error::node_corrupt`] builds.
    pub open spec fn corrupt(context: &'static str) -> Error {
        Error::NodeCorrupt { context, blob_guid: None, slot: None }
    }

    /// A corruption error that carries only its context.
    pub fn node_corrupt(context: &'static str) -> (e: Error)
        ensures
            e == Error::corrupt(context),
    {
        Error::NodeCorrupt { context, blob_guid: None, slot: None }
    }
}

/// Whether `e` says that a blob is missing from its store.
pub open spec fn not_found(e: Error) -> bool {
    e == Error::BlobStoreIo(StoreFault::NotFound)
}

/// Whether `e` says that a blob is missing from its store.
pub fn is_blob_store_not_found(e: &Error) -> (yes: bool)
    ensures
        yes == not_found(*e),
{
    match e {
        Error::BlobStoreIo(StoreFault::NotFound) => true,
        _ => false,
    }
}

} // verus!
