use proto_wire::serialize::{NumMessage, Proto, SimpleMessage, WireFormat};
use proto_wire::WireType;

#[test]
fn basic_num_to_bin() {
    let ser = 42.serialize(1);
    // 082a
    assert_eq!(vec![8, 42], ser);
}

#[test]
fn large_num_to_bin() {
    let ser = (u64::MAX / 8).serialize(1);
    // 1: 08ffffffffffffffff1f
    assert_eq!(vec![8, 255, 255, 255, 255, 255, 255, 255, 255, 31], ser);
}

#[test]
fn basic_len_to_bin() {
    let ser = "Foo".to_string().serialize(1);
    // 0a03466f6f
    assert_eq!(vec![10, 3, 70, 111, 111], ser);
}

#[test]
fn num_message_max_num_to_bin() {
    // 1: 2305843009213693951 == 1: 1fffffffffffffff
    let num_msg = NumMessage { a: u64::MAX / 8 };

    // 1: 08ffffffffffffffff1f
    let msg_bin = num_msg.proto_msg();

    let hex = vec![8, 255, 255, 255, 255, 255, 255, 255, 255, 31];
    assert_eq!(hex, msg_bin);
}

#[test]
fn simple_message_to_bin() {
    let msg = SimpleMessage {
        a: 1,
        b: "Foo".to_string(),
    };
    assert_eq!(vec![8, 1, 18, 3, 70, 111, 111], msg.proto_msg());
}

#[test]
fn large_num_three_field_message_to_bin() {
    let msg = SimpleMessage {
        a: u64::MAX / 8,
        b: "I am a slightly larger and more complex string with umlauts ÄöÜ".to_string(),
    };

    assert_eq!(
        vec![
            8, 255, 255, 255, 255, 255, 255, 255, 255, 31, 18, 66, 73, 32, 97, 109, 32, 97, 32,
            115, 108, 105, 103, 104, 116, 108, 121, 32, 108, 97, 114, 103, 101, 114, 32, 97,
            110, 100, 32, 109, 111, 114, 101, 32, 99, 111, 109, 112, 108, 101, 120, 32, 115,
            116, 114, 105, 110, 103, 32, 119, 105, 116, 104, 32, 117, 109, 108, 97, 117, 116,
            115, 32, 195, 132, 195, 182, 195, 156
        ],
        msg.proto_msg()
    );
}

#[test]
fn zero_keeps_its_single_byte() {
    assert_eq!(0u64.serialize(1), vec![0x08, 0x00]);
}

#[test]
fn field_zero_keeps_its_tag_byte() {
    assert_eq!(5u64.serialize(0), vec![0x00, 0x05]);
    assert_eq!(String::new().serialize(0), vec![0x02, 0x00]);
}

#[test]
fn highest_field_number_fills_four_bits() {
    assert_eq!(1u64.serialize(15), vec![0x78, 0x01]);
    assert_eq!("a".to_string().serialize(15), vec![0x7a, 0x01, 0x61]);
}

#[test]
fn multi_group_value_is_least_significant_first() {
    assert_eq!(150u64.serialize(1), vec![0x08, 0x96, 0x01]);
    assert_eq!(300u64.serialize(2), vec![0x10, 0xac, 0x02]);
}

#[test]
fn wire_type_serializes_like_its_payload() {
    assert_eq!(WireType::Varint(42).serialize(1), 42u64.serialize(1));
    assert_eq!(
        WireType::Len(vec![70, 111, 111]).serialize(1),
        "Foo".to_string().serialize(1)
    );
}

#[test]
fn bytes_need_not_be_text() {
    assert_eq!(
        WireType::Len(vec![0xff, 0x00, 0xfe]).serialize(3),
        vec![0x1a, 0x03, 0xff, 0x00, 0xfe]
    );
}

#[test]
fn long_string_gets_a_two_byte_length() {
    let text = "x".repeat(300);
    let ser = text.serialize(2);
    assert_eq!(ser.len(), 1 + 2 + 300);
    assert_eq!(&ser[..3], &[0x12, 0xac, 0x02]);
    assert!(ser[3..].iter().all(|b| *b == b'x'));
}
