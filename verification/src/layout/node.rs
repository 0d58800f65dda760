//! Node types and the fixed-size node bodies.
//!
//! All numbers are little-endian. A child reference is a slot number; 0 stands
//! for "no child".
use vstd::prelude::*;

use crate::layout::BlobGuid;

verus! {

/// What a slot holds.
#[derive(Debug, Clone, Copy, PartialEq, Eq, Structural)]
pub enum NodeType {
    /// A slot that was never filled.
    Invalid,
    /// One key with its value.
    Leaf,
    /// A run of key bytes that every key below shares.
    Prefix,
    /// A crossing into another blob.
    Blob,
    /// Up to 4 children.
    Node4,
    /// Up to 16 children.
    Node16,
    /// Up to 48 children.
    Node48,
    /// Up to 256 children.
    Node256,
    /// The root of an empty tree.
    EmptyRoot,
}

/// Key bytes that fit a prefix node.
pub const PREFIX_MAX_INLINE: usize = 120;

/// Key bytes that fit a crossing.
pub const BLOB_MAX_INLINE: usize = 104;

/// Bytes of a node body; of a leaf only the header, which tells the rest.
pub open spec fn node_size(t: NodeType) -> int {
    match t {
        NodeType::Invalid => 0,
        NodeType::Leaf => 16,
        NodeType::Prefix => 128,
        NodeType::Blob => 128,
        NodeType::Node4 => 16,
        NodeType::Node16 => 56,
        NodeType::Node48 => 360,
        NodeType::Node256 => 520,
        NodeType::EmptyRoot => 8,
    }
}

/// Bytes of a node body; of a leaf only the header, which tells the rest.
pub fn size_of_node(t: NodeType) -> (n: u32)
    ensures
        n == node_size(t),
{
    match t {
        NodeType::Invalid => 0,
        NodeType::Leaf => 16,
        NodeType::Prefix => 128,
        NodeType::Blob => 128,
        NodeType::Node4 => 16,
        NodeType::Node16 => 56,
        NodeType::Node48 => 360,
        NodeType::Node256 => 520,
        NodeType::EmptyRoot => 8,
    }
}

/// The number that stands for a node type in the slot table.
pub open spec fn type_code(t: NodeType) -> int {
    match t {
        NodeType::Invalid => 0,
        NodeType::Leaf => 1,
        NodeType::Prefix => 2,
        NodeType::Blob => 3,
        NodeType::Node4 => 4,
        NodeType::Node16 => 5,
        NodeType::Node48 => 6,
        NodeType::Node256 => 7,
        NodeType::EmptyRoot => 8,
    }
}

/// The node type that a number in the slot table stands for.
pub open spec fn type_of_code(c: int) -> Option<NodeType> {
    if c == 0 {
        Some(NodeType::Invalid)
    } else if c == 1 {
        Some(NodeType::Leaf)
    } else if c == 2 {
        Some(NodeType::Prefix)
    } else if c == 3 {
        Some(NodeType::Blob)
    } else if c == 4 {
        Some(NodeType::Node4)
    } else if c == 5 {
        Some(NodeType::Node16)
    } else if c == 6 {
        Some(NodeType::Node48)
    } else if c == 7 {
        Some(NodeType::Node256)
    } else if c == 8 {
        Some(NodeType::EmptyRoot)
    } else {
        None
    }
}

impl NodeType {
    /// The number that stands for this type in the slot table.
    pub fn code(self) -> (c: u32)
        ensures
            c == type_code(self),
            c <= 8,
    {
        match self {
            NodeType::Invalid => 0,
            NodeType::Leaf => 1,
            NodeType::Prefix => 2,
            NodeType::Blob => 3,
            NodeType::Node4 => 4,
            NodeType::Node16 => 5,
            NodeType::Node48 => 6,
            NodeType::Node256 => 7,
            NodeType::EmptyRoot => 8,
        }
    }

    /// The type that `c` stands for, if any does.
    pub fn from_code(c: u32) -> (t: Option<NodeType>)
        ensures
            t == type_of_code(c as int),
    {
        match c {
            0 => Some(NodeType::Invalid),
            1 => Some(NodeType::Leaf),
            2 => Some(NodeType::Prefix),
            3 => Some(NodeType::Blob),
            4 => Some(NodeType::Node4),
            5 => Some(NodeType::Node16),
            6 => Some(NodeType::Node48),
            7 => Some(NodeType::Node256),
            8 => Some(NodeType::EmptyRoot),
            _ => None,
        }
    }
}

/// Every type is read back from the number that stands for it.
pub proof fn type_codes_are_unambiguous(t: NodeType)
    ensures
        type_of_code(type_code(t)) == Some(t),
{
}

/// `child @ 0` (4 bytes), `len @ 4` (4 bytes), `bytes @ 8`.
#[derive(Debug, Clone, Copy)]
pub struct Prefix {
    pub child: u32,
    pub len: u32,
    pub bytes: [u8; 120],
}

/// `child_blob_guid @ 0`, `prefix_len @ 16` (4 bytes), `bytes @ 24`.
#[derive(Debug, Clone, Copy)]
pub struct BlobNode {
    pub child_blob_guid: BlobGuid,
    pub prefix_len: u32,
    pub bytes: [u8; 104],
}

/// `count @ 0` (1 byte), `keys @ 4`, `children @ 8` (2 bytes each).
#[derive(Debug, Clone, Copy)]
pub struct Node4 {
    pub count: u8,
    pub keys: [u8; 4],
    pub children: [u16; 4],
}

/// `count @ 0` (1 byte), `keys @ 8`, `children @ 24` (2 bytes each).
#[derive(Debug, Clone, Copy)]
pub struct Node16 {
    pub count: u8,
    pub keys: [u8; 16],
    pub children: [u16; 16],
}

/// `index @ 8` (1 byte each), `children @ 264` (2 bytes each). `index[b]` is one
/// more than the place of the child of byte `b`, or 0.
#[derive(Debug, Clone, Copy)]
pub struct Node48 {
    pub index: [u8; 256],
    pub children: [u16; 48],
}

/// `children @ 8` (2 bytes each).
#[derive(Debug, Clone, Copy)]
pub struct Node256 {
    pub children: [u16; 256],
}

} // verus!
