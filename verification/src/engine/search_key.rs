//! The key a walker descends by: the caller's bytes, followed by a terminator
//! that is never stored in them.
use vstd::prelude::*;
use vstd::slice::slice_subrange;

use crate::bytes::starts_with;

verus! {

/// A user key under search.
#[derive(Clone, Copy)]
pub struct SearchKey<'a> {
    bytes: &'a [u8],
}

impl<'a> View for SearchKey<'a> {
    type V = Seq<u8>;

    closed spec fn view(&self) -> Seq<u8> {
        self.bytes@
    }
}

impl<'a> SearchKey<'a> {
    /// The search key of a user key.
    pub fn user(bytes: &'a [u8]) -> (key: Self)
        ensures
            key@ == bytes@,
    {
        SearchKey { bytes }
    }

    /// Whether the user key starts with `prefix`.
    pub fn starts_with_user_prefix(&self, prefix: &[u8]) -> (yes: bool)
        ensures
            yes == prefix@.is_prefix_of(self@),
    {
        starts_with(self.bytes, prefix)
    }

    /// The first `depth` bytes, or `None` where they would take in the
    /// terminator.
    pub fn user_prefix(&self, depth: usize) -> (prefix: Option<&'a [u8]>)
        ensures
            match prefix {
                Some(p) => depth <= self@.len() && p@ == self@.take(depth as int),
                None => depth > self@.len(),
            },
    {
        if depth <= self.bytes.len() {
            Some(slice_subrange(self.bytes, 0, depth))
        } else {
            None
        }
    }
}

} // verus!
