//! `Leaf` header (16 bytes) and the variable-size body that follows it.
//!
//! A leaf is one contiguous region of a blob's data area:
//!
//! ```text
//!   [16B header][key bytes][value bytes]
//! ```
//!
//! Header fields and their byte offsets, all little-endian:
//!
//! - `seq:       u64 @ +0`
//! - `value_len: u16 @ +8`
//! - `key_len:   u16 @ +10`
//! - `tombstone: u8  @ +12`
//! - `key_fp:    u8  @ +13`
//! - `_pad:      u16 @ +14`
//!
//! The key lives at `body[16 .. 16 + key_len]`, the value directly behind it.
//! The whole leaf occupies `align8(16 + key_len + value_len)` bytes, so it
//! describes its own size.
use vstd::prelude::*;

verus! {

/// Size in bytes of the fixed leaf header.
pub const LEAF_HEADER_SIZE: usize = 16;

/// The 16-byte leaf header.
#[derive(Debug, Clone, Copy, PartialEq, Eq, Structural)]
pub struct Leaf {
    /// Monotonic record sequence of the write that produced this leaf.
    pub seq: u64,
    /// Size in bytes of the value portion of the body.
    pub value_len: u16,
    /// Size in bytes of the key portion of the body.
    pub key_len: u16,
    /// 0 = live leaf, 1 = tombstone.
    pub tombstone: u8,
    /// One-byte fingerprint of the key; `0` means "no fingerprint".
    pub key_fp: u8,
    /// Padding that keeps the header at 16 bytes.
    pub _pad: u16,
}

impl Leaf {
    /// A live (non-tombstone) leaf header for a body of the given lengths.
    pub fn live(key_len: u16, value_len: u16, seq: u64, key_fp: u8) -> (leaf: Self)
        ensures
            leaf == (Leaf { seq, value_len, key_len, tombstone: 0, key_fp, _pad: 0 }),
    {
        Leaf { seq, value_len, key_len, tombstone: 0, key_fp, _pad: 0 }
    }
}

/// `n` rounded up to the next multiple of eight.
pub open spec fn align8(n: int) -> int {
    (n + 7) / 8 * 8
}

/// Bytes a leaf with a `key_len`-byte key and a `value_len`-byte value takes.
pub open spec fn leaf_size(key_len: int, value_len: int) -> int {
    align8(16 + key_len + value_len)
}

/// The 8-byte-aligned size of a leaf body: `align8(16 + key_len + value_len)`.
pub fn leaf_body_size(key_len: u32, value_len: u32) -> (size: u32)
    requires
        16 + key_len + value_len + 7 <= u32::MAX,
    ensures
        size == leaf_size(key_len as int, value_len as int),
{
    let raw: u32 = 16 + key_len + value_len;
    (raw + 7) / 8 * 8
}

/// A leaf size is a multiple of eight, holds header, key and value, and wastes
/// fewer than eight bytes.
pub proof fn leaf_size_is_tight(key_len: int, value_len: int)
    requires
        0 <= key_len,
        0 <= value_len,
    ensures
        leaf_size(key_len, value_len) % 8 == 0,
        16 + key_len + value_len <= leaf_size(key_len, value_len) < 16 + key_len + value_len + 8,
{
}

} // verus!
