//! A compact tag-length-value wire codec: one-byte field tags followed by
//! either a base-128 variable-length integer or a length-prefixed byte
//! payload. Every function is a pure function of its input bytes or values.

use vstd::prelude::*;

pub mod hex;
pub mod length_delimited;
pub mod message;
pub mod serialize;
pub mod tag;
pub mod text;
pub mod varint;

verus! {

/// Why a buffer could not be decoded.
#[derive(Debug, Clone, Copy, PartialEq, Eq, Structural)]
pub enum DecodeError {
    /// A variable-length integer ran past ten groups, or (when one is decoded
    /// on its own) the input ended before its last group.
    MalformedVarint,
    /// The low three bits of a tag name a wire type other than 0 or 2.
    UnsupportedWireType,
    /// The buffer ended before a tag or the payload that a tag announced was
    /// complete.
    TruncatedInput,
    /// A byte payload was asked for as text and is not valid UTF-8.
    InvalidText,
}

/// The payload of one field.
#[derive(Debug, Clone, Hash, PartialEq, Eq)]
pub enum WireType {
    /// An unsigned 64-bit integer, written as a variable-length integer.
    Varint(u64),
    /// Raw bytes, written behind their length. The codec never reads them
    /// as text.
    Len(Vec<u8>),
}

/// What a `WireType` stands for in contracts.
pub enum WireValue {
    Varint(u64),
    Bytes(Seq<u8>),
}

impl View for WireType {
    type V = WireValue;

    open spec fn view(&self) -> WireValue {
        match self {
            WireType::Varint(v) => WireValue::Varint(*v),
            WireType::Len(bytes) => WireValue::Bytes(bytes@),
        }
    }
}

} // verus!
