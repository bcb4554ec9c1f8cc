//! The one-byte field tag: the wire type in the low three bits, the field
//! number in the four bits above them. Bit 7 is not part of the layout.

use vstd::prelude::*;
use crate::DecodeError;

verus! {

/// The largest field number that the four-bit field of a tag can hold.
pub const MAX_FIELD_NUMBER: u8 = 15;

/// How the payload that follows a tag is laid out.
#[derive(Debug, Clone, Copy, PartialEq, Eq, Structural)]
pub enum WireKind {
    /// A variable-length integer: wire type 0.
    Varint,
    /// A length prefix and that many bytes: wire type 2.
    LengthDelimited,
}

impl WireKind {
    /// The number that stands for this kind in a tag.
    pub open spec fn code(self) -> u8 {
        match self {
            WireKind::Varint => 0,
            WireKind::LengthDelimited => 2,
        }
    }

    /// The number that stands for this kind in a tag.
    pub fn wire_code(self) -> (c: u8)
        ensures
            c == self.code(),
    {
        match self {
            WireKind::Varint => 0,
            WireKind::LengthDelimited => 2,
        }
    }
}

/// A decoded tag.
#[derive(Debug, Clone, Copy, PartialEq, Eq, Structural)]
pub struct FieldTag {
    pub field_number: u8,
    pub wire_kind: WireKind,
}

impl FieldTag {
    /// A tag is well formed when its field number fits the four bits that
    /// the layout gives it.
    pub open spec fn wf(self) -> bool {
        self.field_number <= MAX_FIELD_NUMBER
    }
}

/// The tag byte of a field: eight times the field number plus the code of
/// the wire type.
pub open spec fn tag_byte(field_number: u8, kind: WireKind) -> int {
    8 * field_number + kind.code()
}

/// What a tag byte says: the wire type is the byte modulo 8, the field number
/// the next four bits. A wire type other than 0 and 2 is refused.
pub open spec fn tag_of(byte: u8) -> Result<FieldTag, DecodeError> {
    let field_number = ((byte / 8) % 16) as u8;
    if byte % 8 == 0 {
        Ok(FieldTag { field_number, wire_kind: WireKind::Varint })
    } else if byte % 8 == 2 {
        Ok(FieldTag { field_number, wire_kind: WireKind::LengthDelimited })
    } else {
        Err(DecodeError::UnsupportedWireType)
    }
}

/// Packs a field number and a wire type into a tag byte, from which both
/// can be read back.
pub fn encode_tag(field_number: u8, kind: WireKind) -> (byte: u8)
    requires
        field_number <= MAX_FIELD_NUMBER,
    ensures
        byte == tag_byte(field_number, kind),
        tag_of(byte) == Ok::<FieldTag, DecodeError>(FieldTag { field_number, wire_kind: kind }),
{
    let code: u8 = kind.wire_code();
    let byte: u8 = (field_number << 3) | code;
    assert(byte == 8 * field_number + code) by (bit_vector)
        requires
            field_number <= 15,
            code == 0 || code == 2,
            byte == (field_number << 3) | code,
    ;
    byte
}

/// Takes a tag byte apart.
pub fn decode_tag(byte: u8) -> (r: Result<FieldTag, DecodeError>)
    ensures
        r == tag_of(byte),
        r is Ok ==> r->Ok_0.wf(),
{
    let code: u8 = byte & 0b111;
    let field_number: u8 = (byte >> 3) & 0b1111;
    assert(code == byte % 8 && field_number == (byte / 8) % 16 && field_number <= 15)
        by (bit_vector)
        requires
            code == byte & 0b111,
            field_number == (byte >> 3) & 0b1111,
    ;
    if code == 0 {
        Ok(FieldTag { field_number, wire_kind: WireKind::Varint })
    } else if code == 2 {
        Ok(FieldTag { field_number, wire_kind: WireKind::LengthDelimited })
    } else {
        Err(DecodeError::UnsupportedWireType)
    }
}

/// Taking a tag apart inverts packing it: for every field number up to 15
/// and either wire type, the byte packed from them decodes to the same pair.
pub proof fn lemma_tag_round_trip(field_number: u8, kind: WireKind)
    requires
        field_number <= MAX_FIELD_NUMBER,
    ensures
        0 <= tag_byte(field_number, kind) < 128,
        tag_of(tag_byte(field_number, kind) as u8) == Ok::<FieldTag, DecodeError>(
            FieldTag { field_number, wire_kind: kind },
        ),
{
}

} // verus!
