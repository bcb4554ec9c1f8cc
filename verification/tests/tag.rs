use proto_wire::tag::{decode_tag, encode_tag, FieldTag, WireKind};
use proto_wire::DecodeError;

#[test]
fn tag_packs_number_above_wire_type() {
    assert_eq!(encode_tag(1, WireKind::Varint), 0x08);
    assert_eq!(encode_tag(1, WireKind::LengthDelimited), 0x0a);
    assert_eq!(encode_tag(2, WireKind::LengthDelimited), 0x12);
    assert_eq!(encode_tag(3, WireKind::Varint), 0x18);
    assert_eq!(encode_tag(0, WireKind::Varint), 0x00);
    assert_eq!(encode_tag(15, WireKind::LengthDelimited), 0x7a);
}

#[test]
fn wire_codes() {
    assert_eq!(WireKind::Varint.wire_code(), 0);
    assert_eq!(WireKind::LengthDelimited.wire_code(), 2);
}

#[test]
fn decode_tag_inverts_encode_tag() {
    for field_number in 0..=15u8 {
        for wire_kind in [WireKind::Varint, WireKind::LengthDelimited] {
            let byte = encode_tag(field_number, wire_kind);
            assert_eq!(decode_tag(byte), Ok(FieldTag { field_number, wire_kind }));
        }
    }
}

#[test]
fn other_wire_types_are_refused() {
    assert_eq!(decode_tag(0x0d), Err(DecodeError::UnsupportedWireType));
    for code in [1u8, 3, 4, 5, 6, 7] {
        for field_number in 0..=15u8 {
            assert_eq!(
                decode_tag((field_number << 3) | code),
                Err(DecodeError::UnsupportedWireType)
            );
        }
    }
}

#[test]
fn top_bit_of_a_tag_is_ignored() {
    assert_eq!(
        decode_tag(0x88),
        Ok(FieldTag { field_number: 1, wire_kind: WireKind::Varint })
    );
    assert_eq!(
        decode_tag(0xfa),
        Ok(FieldTag { field_number: 15, wire_kind: WireKind::LengthDelimited })
    );
}
