use proto_wire::varint::{decode_varint, encode_varint, encode_varint_into, scan_varint, VarintScan};
use proto_wire::DecodeError;

#[test]
fn zero_is_one_zero_byte() {
    assert_eq!(encode_varint(0), vec![0x00]);
}

#[test]
fn max_is_nine_full_bytes_and_one() {
    let bytes = encode_varint(u64::MAX);
    assert_eq!(bytes.len(), 10);
    assert_eq!(
        bytes,
        vec![0xff, 0xff, 0xff, 0xff, 0xff, 0xff, 0xff, 0xff, 0xff, 0x01]
    );
}

#[test]
fn group_boundaries() {
    assert_eq!(encode_varint(1), vec![0x01]);
    assert_eq!(encode_varint(127), vec![0x7f]);
    assert_eq!(encode_varint(128), vec![0x80, 0x01]);
    assert_eq!(encode_varint(150), vec![0x96, 0x01]);
    assert_eq!(encode_varint(16383), vec![0xff, 0x7f]);
    assert_eq!(encode_varint(16384), vec![0x80, 0x80, 0x01]);
    assert_eq!(
        encode_varint(1 << 63),
        vec![0x80, 0x80, 0x80, 0x80, 0x80, 0x80, 0x80, 0x80, 0x80, 0x01]
    );
    assert_eq!(
        encode_varint((1 << 63) - 1),
        vec![0xff, 0xff, 0xff, 0xff, 0xff, 0xff, 0xff, 0xff, 0x7f]
    );
}

#[test]
fn encode_into_appends() {
    let mut out = vec![0xaa];
    encode_varint_into(300, &mut out);
    assert_eq!(out, vec![0xaa, 0xac, 0x02]);
}

#[test]
fn decode_inverts_encode() {
    let samples = [
        0u64,
        1,
        42,
        127,
        128,
        150,
        255,
        300,
        16383,
        16384,
        u32::MAX as u64,
        (1 << 56) - 1,
        1 << 56,
        (1 << 63) - 1,
        1 << 63,
        u64::MAX / 8,
        u64::MAX - 1,
        u64::MAX,
    ];
    for n in samples {
        let bytes = encode_varint(n);
        assert_eq!(decode_varint(&bytes, 0), Ok((n, bytes.len())));
    }
}

#[test]
fn decode_starts_at_the_cursor_and_stops_after_the_last_group() {
    let bytes = [0xff, 0x96, 0x01, 0x2a];
    assert_eq!(decode_varint(&bytes, 1), Ok((150, 2)));
    assert_eq!(decode_varint(&bytes, 2), Ok((1, 1)));
    assert_eq!(decode_varint(&bytes, 3), Ok((42, 1)));
}

#[test]
fn decode_fails_when_input_ends_early() {
    assert_eq!(decode_varint(&[], 0), Err(DecodeError::MalformedVarint));
    assert_eq!(decode_varint(&[0x80], 0), Err(DecodeError::MalformedVarint));
    assert_eq!(
        decode_varint(&[0x96, 0x81, 0xff], 0),
        Err(DecodeError::MalformedVarint)
    );
    assert_eq!(decode_varint(&[0x01], 1), Err(DecodeError::MalformedVarint));
    assert_eq!(decode_varint(&[0x01], 7), Err(DecodeError::MalformedVarint));
}

#[test]
fn decode_fails_after_ten_continuation_bytes() {
    let bytes = [0x80, 0x80, 0x80, 0x80, 0x80, 0x80, 0x80, 0x80, 0x80, 0x80, 0x01];
    assert_eq!(decode_varint(&bytes, 0), Err(DecodeError::MalformedVarint));
    assert_eq!(scan_varint(&bytes, 0), VarintScan::Overlong);
    assert_eq!(scan_varint(&bytes[..10], 0), VarintScan::Overlong);
    assert_eq!(scan_varint(&bytes[..9], 0), VarintScan::Exhausted);
    assert_eq!(scan_varint(&bytes, 1), VarintScan::Complete { value: 1 << 63, len: 10 });
}

#[test]
fn padded_encodings_are_read() {
    assert_eq!(decode_varint(&[0x80, 0x00], 0), Ok((0, 2)));
    assert_eq!(decode_varint(&[0xaa, 0x80, 0x00], 0), Ok((42, 3)));
}

#[test]
fn tenth_group_keeps_only_its_lowest_bit() {
    let mut bytes = vec![0xff; 9];
    bytes.push(0x7f);
    assert_eq!(decode_varint(&bytes, 0), Ok((u64::MAX, 10)));
    let mut bytes = vec![0x80; 9];
    bytes.push(0x02);
    assert_eq!(decode_varint(&bytes, 0), Ok((0, 10)));
    let mut bytes = vec![0x81];
    bytes.extend_from_slice(&[0x80; 8]);
    bytes.push(0x03);
    assert_eq!(decode_varint(&bytes, 0), Ok(((1 << 63) + 1, 10)));
}
