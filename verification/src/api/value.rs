//! Tagged value model: **inline bytes** or **external reference**.
//!
//! Small payloads are stored directly; large ones live in a separate object
//! store and are referenced by URL. The encoding is `[tag | body]`: one tag byte
//! tells the reader how to interpret the body.
use vstd::prelude::*;
use vstd::slice::{slice_subrange, slice_to_vec};

use super::errors::{Error, Result};
use crate::bytes::push_slice;

verus! {

/// Tag byte preceding an inline payload.
pub const TAG_INLINE: u8 = 0x00;

/// Tag byte preceding an external-reference payload (UTF-8 string).
pub const TAG_EXTERNAL: u8 = 0x01;

/// The error of [`core::str::from_utf8`].
#[verifier::external_type_specification]
#[verifier::external_body]
pub struct ExUtf8Error(core::str::Utf8Error);

/// [`core::str::from_utf8`] succeeds on exactly the byte strings that are valid
/// UTF-8, and then gives the string with these bytes.
pub assume_specification[ core::str::from_utf8 ](v: &[u8]) -> (r: core::result::Result<
    &str,
    core::str::Utf8Error,
>)
    ensures
        r is Ok <==> vstd::utf8::valid_utf8(v@),
        r matches Ok(s) ==> vstd::utf8::encode_utf8(s@) == v@,
;

/// A metadata value: either inlined bytes or an external reference.
#[derive(Debug, Clone, PartialEq, Eq)]
pub enum Value {
    /// Raw bytes stored directly in the metadata blob. A leaf holds at most
    /// 65 534 of them, since the tag takes one byte of its 16-bit value length.
    Inline(Vec<u8>),
    /// Opaque UTF-8 reference to data living elsewhere. Callers resolve it.
    External(String),
}

/// What a [`Value`] stands for.
pub enum ValueModel {
    Inline(Seq<u8>),
    External(Seq<char>),
}

impl View for Value {
    type V = ValueModel;

    open spec fn view(&self) -> ValueModel {
        match self {
            Value::Inline(b) => ValueModel::Inline(b@),
            Value::External(s) => ValueModel::External(s@),
        }
    }
}

/// The stored form of a value.
pub open spec fn encoded(v: ValueModel) -> Seq<u8> {
    match v {
        ValueModel::Inline(b) => seq![TAG_INLINE] + b,
        ValueModel::External(s) => seq![TAG_EXTERNAL] + vstd::utf8::encode_utf8(s),
    }
}

/// The value that stored bytes hold, or what is wrong with them.
pub open spec fn decoded(bytes: Seq<u8>) -> core::result::Result<ValueModel, &'static str> {
    if bytes.len() == 0 {
        Err("value blob is empty")
    } else {
        let body = bytes.skip(1);
        if bytes[0] == TAG_INLINE {
            Ok(ValueModel::Inline(body))
        } else if bytes[0] == TAG_EXTERNAL {
            if vstd::utf8::valid_utf8(body) {
                Ok(ValueModel::External(vstd::utf8::decode_utf8(body)))
            } else {
                Err("External tag with non-UTF-8 body")
            }
        } else {
            Err("unknown tag byte")
        }
    }
}

impl Value {
    /// Inline payload.
    pub fn inline(bytes: Vec<u8>) -> (v: Self)
        ensures
            v == Value::Inline(bytes),
    {
        Value::Inline(bytes)
    }

    /// External reference.
    pub fn external(url: &str) -> (v: Self)
        ensures
            v@ == ValueModel::External(url@),
    {
        Value::External(url.to_owned())
    }

    /// Borrow the payload if this is an inline value.
    pub fn as_inline(&self) -> (r: Option<&[u8]>)
        ensures
            match self@ {
                ValueModel::Inline(b) => r is Some && r->Some_0@ == b,
                ValueModel::External(_) => r is None,
            },
    {
        match self {
            Value::Inline(b) => Some(b.as_slice()),
            Value::External(_) => None,
        }
    }

    /// Borrow the URL if this is an external reference.
    pub fn as_external(&self) -> (r: Option<&str>)
        ensures
            match self@ {
                ValueModel::External(s) => r is Some && r->Some_0@ == s,
                ValueModel::Inline(_) => r is None,
            },
    {
        match self {
            Value::External(s) => Some(s.as_str()),
            Value::Inline(_) => None,
        }
    }

    /// Whether this is [`Value::Inline`].
    pub fn is_inline(&self) -> (yes: bool)
        ensures
            yes == self is Inline,
    {
        match self {
            Value::Inline(_) => true,
            Value::External(_) => false,
        }
    }

    /// Whether this is [`Value::External`].
    pub fn is_external(&self) -> (yes: bool)
        ensures
            yes == self is External,
    {
        match self {
            Value::External(_) => true,
            Value::Inline(_) => false,
        }
    }

    /// Number of bytes of the encoded form: one tag byte and the body.
    pub fn encoded_len(&self) -> (n: usize)
        requires
            encoded(self@).len() <= usize::MAX,
        ensures
            n == encoded(self@).len(),
    {
        match self {
            Value::Inline(b) => 1 + b.len(),
            Value::External(s) => 1 + s.as_str().len(),
        }
    }

    /// Encode to the stored byte form `[tag | body]`.
    pub fn encode(&self) -> (out: Vec<u8>)
        ensures
            out@ == encoded(self@),
    {
        let mut out: Vec<u8> = Vec::new();
        match self {
            Value::Inline(b) => {
                out.push(TAG_INLINE);
                push_slice(&mut out, b.as_slice());
            },
            Value::External(s) => {
                out.push(TAG_EXTERNAL);
                push_slice(&mut out, s.as_str().as_bytes());
            },
        }
        assert(out@ =~= encoded(self@));
        out
    }

    /// Decode from the stored byte form.
    ///
    /// Errors when `bytes` is empty, when the leading tag is unrecognised, or
    /// when an `External` body is not valid UTF-8.
    pub fn decode(bytes: &[u8]) -> (r: Result<Self>)
        ensures
            match decoded(bytes@) {
                Ok(v) => r is Ok && r->Ok_0@ == v,
                Err(context) => r == Err::<Self, Error>(Error::InvalidValueEncoding { context }),
            },
    {
        if bytes.len() == 0 {
            return Err(Error::InvalidValueEncoding { context: "value blob is empty" });
        }
        let tag: u8 = bytes[0];
        let body = slice_subrange(bytes, 1, bytes.len());
        assert(body@ =~= bytes@.skip(1));
        if tag == TAG_INLINE {
            Ok(Value::Inline(slice_to_vec(body)))
        } else if tag == TAG_EXTERNAL {
            match core::str::from_utf8(body) {
                Ok(s) => {
                    proof {
                        vstd::utf8::encode_utf8_decode_utf8(s@);
                    }
                    Ok(Value::External(s.to_owned()))
                },
                Err(_) => Err(
                    Error::InvalidValueEncoding { context: "External tag with non-UTF-8 body" },
                ),
            }
        } else {
            Err(Error::InvalidValueEncoding { context: "unknown tag byte" })
        }
    }
}

/// The stored form of inline bytes is a zero byte and the bytes; that of a
/// reference is a one byte and its UTF-8. Every form is one byte longer than its
/// body, and bytes with another first byte decode to nothing.
pub proof fn the_first_byte_tells_the_kind(v: ValueModel, bytes: Seq<u8>)
    ensures
        encoded(v).len() > 0,
        match v {
            ValueModel::Inline(b) => encoded(v)[0] == 0 && encoded(v).subrange(
                1,
                encoded(v).len() as int,
            ) == b,
            ValueModel::External(s) => encoded(v)[0] == 1 && encoded(v).subrange(
                1,
                encoded(v).len() as int,
            ) == vstd::utf8::encode_utf8(s),
        },
        decoded(bytes) is Ok <==> bytes.len() > 0 && (bytes[0] == 0 || (bytes[0] == 1
            && vstd::utf8::valid_utf8(bytes.subrange(1, bytes.len() as int)))),
{
    match v {
        ValueModel::Inline(b) => {
            assert(encoded(v).subrange(1, encoded(v).len() as int) =~= b);
        },
        ValueModel::External(s) => {
            assert(encoded(v).subrange(1, encoded(v).len() as int) =~= vstd::utf8::encode_utf8(s));
        },
    }
    if bytes.len() > 0 {
        assert(bytes.skip(1) =~= bytes.subrange(1, bytes.len() as int));
    }
}

/// Decoding gives back every value that was encoded.
pub proof fn decode_inverts_encode(v: ValueModel)
    ensures
        decoded(encoded(v)) == Ok::<ValueModel, &'static str>(v),
{
    match v {
        ValueModel::Inline(b) => {
            assert(encoded(v).skip(1) =~= b);
        },
        ValueModel::External(s) => {
            assert(encoded(v).skip(1) =~= vstd::utf8::encode_utf8(s));
            vstd::utf8::encode_utf8_valid_utf8(s);
            vstd::utf8::encode_utf8_decode_utf8(s);
        },
    }
}

/// Every byte string that decodes is the encoding of what it decodes to.
pub proof fn encode_inverts_decode(bytes: Seq<u8>)
    requires
        decoded(bytes) is Ok,
    ensures
        encoded(decoded(bytes)->Ok_0) == bytes,
{
    let body = bytes.skip(1);
    if bytes[0] == TAG_EXTERNAL {
        vstd::utf8::decode_utf8_encode_utf8(body);
    }
    assert(seq![bytes[0]] + body =~= bytes);
}

} // verus!
