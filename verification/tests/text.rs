use proto_wire::hex::{decode_hex, hex_digit};
use proto_wire::message::decode_message;
use proto_wire::text::payload_text;
use proto_wire::{DecodeError, WireType};

#[test]
fn valid_payload_reads_as_text() {
    assert_eq!(payload_text(&[0x46, 0x6f, 0x6f]), Ok("Foo".to_string()));
    assert_eq!(payload_text(&[]), Ok(String::new()));
    assert_eq!(
        payload_text(&[195, 132, 195, 182, 195, 156]),
        Ok("ÄöÜ".to_string())
    );
}

#[test]
fn invalid_payload_is_no_text() {
    assert_eq!(payload_text(&[0xff]), Err(DecodeError::InvalidText));
    assert_eq!(payload_text(&[0x46, 0xc3]), Err(DecodeError::InvalidText));
    assert_eq!(payload_text(&[0xed, 0xa0, 0x80]), Err(DecodeError::InvalidText));
    assert_eq!(payload_text(&[0xc0, 0x80]), Err(DecodeError::InvalidText));
}

#[test]
fn decoding_succeeds_where_text_fails() {
    let msg = decode_message(&[0x0a, 0x01, 0xff]).unwrap();
    match msg.get(1) {
        Some(WireType::Len(bytes)) => {
            assert_eq!(payload_text(bytes), Err(DecodeError::InvalidText))
        }
        other => panic!("unexpected field: {:?}", other),
    }
    let msg = decode_message(&[0x0a, 0x03, 0x46, 0x6f, 0x6f]).unwrap();
    match msg.get(1) {
        Some(WireType::Len(bytes)) => assert_eq!(payload_text(bytes), Ok("Foo".to_string())),
        other => panic!("unexpected field: {:?}", other),
    }
}

#[test]
fn hex_digits() {
    assert_eq!(hex_digit(b'0'), Some(0));
    assert_eq!(hex_digit(b'9'), Some(9));
    assert_eq!(hex_digit(b'a'), Some(10));
    assert_eq!(hex_digit(b'f'), Some(15));
    assert_eq!(hex_digit(b'A'), Some(10));
    assert_eq!(hex_digit(b'F'), Some(15));
    assert_eq!(hex_digit(b'g'), None);
    assert_eq!(hex_digit(b'G'), None);
    assert_eq!(hex_digit(b'/'), None);
    assert_eq!(hex_digit(b':'), None);
    assert_eq!(hex_digit(b'@'), None);
    assert_eq!(hex_digit(b'`'), None);
    assert_eq!(hex_digit(b' '), None);
}

#[test]
fn hex_text_to_bytes() {
    assert_eq!(decode_hex(""), Some(vec![]));
    assert_eq!(decode_hex("089601"), Some(vec![0x08, 0x96, 0x01]));
    assert_eq!(decode_hex("00FFfe7A"), Some(vec![0x00, 0xff, 0xfe, 0x7a]));
}

#[test]
fn hex_keeps_leading_zero_bytes() {
    assert_eq!(decode_hex("0000082a"), Some(vec![0x00, 0x00, 0x08, 0x2a]));
}

#[test]
fn bad_hex_text_is_refused() {
    assert_eq!(decode_hex("0"), None);
    assert_eq!(decode_hex("089"), None);
    assert_eq!(decode_hex("0g"), None);
    assert_eq!(decode_hex("g0"), None);
    assert_eq!(decode_hex("08 96"), None);
    assert_eq!(decode_hex("0x08"), None);
    assert_eq!(decode_hex("ää"), None);
}
