//! Point lookup inside one frame.
use vstd::prelude::*;

use crate::api::errors::{Error, Result};
use crate::bytes::{read_u16, read_u32, same_bytes};
use crate::engine::walker::readers::{read_leaf, resolve_typed, split_leaf_body};
use crate::layout::{NodeType, PAGE_SIZE};
use crate::store::blob_frame::BlobFrame;

verus! {

/// What a lookup found.
pub enum LookupResult<'a> {
    Found(&'a [u8]),
    NotFound,
}

/// Whether `key` continues with `bytes` after `depth` bytes.
pub fn key_continues(key: &[u8], depth: usize, bytes: &[u8]) -> (yes: bool)
    requires
        depth <= key@.len(),
    ensures
        yes == crate::engine::walker::model::continues(key@, depth as int, bytes@),
{
    if bytes.len() > key.len() - depth {
        return false;
    }
    same_bytes(vstd::slice::slice_subrange(key, depth, depth + bytes.len()), bytes)
}

/// The child of `byte` in the inner node `body`.
pub fn child_of_byte(ntype: NodeType, body: &[u8], byte: u8) -> (child: Option<u16>)
    requires
        crate::store::blob_frame::body_fits_type(ntype, body@),
        crate::engine::walker::model::parse(ntype, body@) is Inner,
    ensures
        child == crate::engine::walker::model::child_of(
            crate::engine::walker::model::parse(ntype, body@)->pairs,
            byte,
        ),
{
    let ghost pairs = crate::engine::walker::model::parse(ntype, body@)->pairs;
    proof {
        crate::engine::walker::model::lemma_child_of(pairs, byte);
    }
    match ntype {
        NodeType::Node48 => {
            proof {
                crate::engine::walker::model::lemma_pairs48(body@, 256);
            }
            let idx: u8 = body[8 + byte as usize];
            if idx == 0 {
                return None;
            }
            proof {
                assert(body@[8 + byte] != 0);
                let i = choose|i: int| 0 <= i < pairs.len() && (#[trigger] pairs[i]).0 == byte;
                assert(crate::engine::walker::model::is_child(pairs, byte, i));
            }
            if idx > 48 {
                return Some(0);
            }
            Some(read_u16(body, 264 + 2 * (idx as usize - 1)))
        },
        NodeType::Node256 => {
            proof {
                crate::engine::walker::model::lemma_pairs256(body@, 256);
            }
            let c: u16 = read_u16(body, 8 + 2 * byte as usize);
            if c == 0 {
                return None;
            }
            proof {
                assert(crate::engine::walker::model::child256(body@, byte as int) != 0);
                let i = choose|i: int| 0 <= i < pairs.len() && (#[trigger] pairs[i]).0 == byte;
                assert(crate::engine::walker::model::is_child(pairs, byte, i));
            }
            Some(c)
        },
        _ => {
            let wide: bool = ntype == NodeType::Node16;
            let cap: usize = if wide {
                16
            } else {
                4
            };
            let keys_at: usize = if wide {
                8
            } else {
                4
            };
            let children_at: usize = if wide {
                24
            } else {
                8
            };
            let count: usize = if (body[0] as usize) < cap {
                body[0] as usize
            } else {
                cap
            };
            let mut i: usize = 0;
            while i < count
                invariant
                    pairs == crate::engine::walker::model::parse(ntype, body@)->pairs,
                    i <= count <= cap <= 16,
                    count == pairs.len(),
                    keys_at + cap <= body@.len(),
                    children_at + 2 * cap <= body@.len(),
                    keys_at <= 8,
                    children_at <= 24,
                    forall|j: int| 0 <= j < i ==> (#[trigger] pairs[j]).0 != byte,
                    forall|j: int|
                        0 <= j < count ==> #[trigger] pairs[j] == (
                            body@[keys_at + j],
                            crate::bytes::le16(body@, children_at + 2 * j) as u16,
                        ),
                decreases count - i,
            {
                if body[keys_at + i] == byte {
                    proof {
                        assert(pairs[i as int].0 == byte);
                        assert(crate::engine::walker::model::is_child(pairs, byte, i as int));
                        crate::engine::walker::model::lemma_child_of(pairs, byte);
                    }
                    return Some(read_u16(body, children_at + 2 * i));
                }
                assert(pairs[i as int].0 != byte);
                i += 1;
            }
            None
        },
    }
}

/// Look `key` up in the tree under `root`.
pub fn lookup<'a>(frame: &'a BlobFrame, root: u16, key: &[u8]) -> (r: Result<LookupResult<'a>>)
    requires
        frame@.len() == PAGE_SIZE,
    ensures
        match crate::engine::walker::model::find(frame@, root as int, key@, 0) {
            crate::engine::walker::model::Outcome::Found(v) => r matches Ok(LookupResult::Found(b))
                && b@ == v.bytes,
            crate::engine::walker::model::Outcome::Missing => r matches Ok(LookupResult::NotFound),
            crate::engine::walker::model::Outcome::Cross { guid, depth } => r matches Err(e) && e
                == Error::NotYetImplemented("lookup: crossing into another blob"),
            crate::engine::walker::model::Outcome::Corrupt => r matches Err(
                Error::NodeCorrupt { .. },
            ),
        },
{
    let mut slot: u16 = root;
    let mut depth: usize = 0;
    loop
        invariant
            frame@.len() == PAGE_SIZE,
            depth <= key@.len(),
            crate::engine::walker::model::find(frame@, root as int, key@, 0)
                == crate::engine::walker::model::find(frame@, slot as int, key@, depth as int),
        decreases key@.len() - depth,
    {
        let (ntype, body) = match resolve_typed(frame, slot) {
            Ok(r) => r,
            Err(e) => {
                return Err(e);
            },
        };
        proof {
            crate::store::blob_frame::lemma_len_at(frame@, slot as int);
        }
        match ntype {
            NodeType::Invalid => {
                return Err(Error::node_corrupt("lookup: invalid node"));
            },
            NodeType::EmptyRoot => {
                return Ok(LookupResult::NotFound);
            },
            NodeType::Leaf => {
                let leaf = read_leaf(body);
                let (k, v) = match split_leaf_body(body, &leaf) {
                    Ok(r) => r,
                    Err(e) => {
                        proof {
                            crate::bytes::lemma_le16(body@, 8);
                            crate::bytes::lemma_le16(body@, 10);
                            crate::layout::leaf::leaf_size_is_tight(
                                crate::bytes::le16(body@, 10),
                                crate::bytes::le16(body@, 8),
                            );
                        }
                        return Err(e);
                    },
                };
                proof {
                    crate::bytes::lemma_le16(body@, 8);
                    crate::bytes::lemma_le16(body@, 10);
                }
                if leaf.tombstone == 0 && same_bytes(k, key) {
                    return Ok(LookupResult::Found(v));
                }
                return Ok(LookupResult::NotFound);
            },
            NodeType::Prefix => {
                let len: u32 = read_u32(body, 4);
                if len == 0 || len > 120 {
                    return Err(Error::node_corrupt("lookup: prefix length out of range"));
                }
                let bytes: &[u8] = vstd::slice::slice_subrange(body, 8, 8 + len as usize);
                if !key_continues(key, depth, bytes) {
                    return Ok(LookupResult::NotFound);
                }
                assert(depth + len <= key.len());
                slot = read_u16(body, 0);
                depth = depth + len as usize;
            },
            NodeType::Blob => {
                let len: u32 = read_u32(body, 16);
                if len > 104 {
                    return Err(Error::node_corrupt("lookup: crossing prefix out of range"));
                }
                let bytes: &[u8] = vstd::slice::slice_subrange(body, 24, 24 + len as usize);
                if !key_continues(key, depth, bytes) {
                    return Ok(LookupResult::NotFound);
                }
                return Err(Error::NotYetImplemented("lookup: crossing into another blob"));
            },
            _ => {
                if depth >= key.len() {
                    return Ok(LookupResult::NotFound);
                }
                match child_of_byte(ntype, body, key[depth]) {
                    Some(c) => {
                        slot = c;
                        depth = depth + 1;
                    },
                    None => {
                        return Ok(LookupResult::NotFound);
                    },
                }
            },
        }
    }
}

} // verus!
