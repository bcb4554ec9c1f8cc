//! Writing values and whole messages as fields: what a type needs to be
//! written under a field number, and two small messages.

use vstd::prelude::*;
use vstd::utf8::encode_utf8;
use crate::{WireType, WireValue};
use crate::length_delimited::{append_bytes, encode_length_delimited_into};
use crate::message::{encode_field, field_bytes, message_bytes};
use crate::tag::{encode_tag, WireKind, MAX_FIELD_NUMBER};

verus! {

/// A value that can be written as one field.
pub trait WireFormat {
    /// The payload that stands for the value on the wire.
    spec fn wire_value(&self) -> WireValue;

    /// The encoding of the value as the field `field`: a tag byte, then the
    /// payload.
    fn serialize(&self, field: u8) -> (out: Vec<u8>)
        requires
            field <= MAX_FIELD_NUMBER,
        ensures
            out@ == field_bytes(field, self.wire_value()),
    ;
}

impl WireFormat for WireType {
    open spec fn wire_value(&self) -> WireValue {
        self@
    }

    fn serialize(&self, field: u8) -> (out: Vec<u8>) {
        encode_field(field, self)
    }
}

/// An integer is written as a variable-length integer.
impl WireFormat for u64 {
    open spec fn wire_value(&self) -> WireValue {
        WireValue::Varint(*self)
    }

    fn serialize(&self, field: u8) -> (out: Vec<u8>) {
        let wire_type = WireType::Varint(*self);
        wire_type.serialize(field)
    }
}

/// A string is written as its UTF-8 bytes behind their length.
impl WireFormat for String {
    open spec fn wire_value(&self) -> WireValue {
        WireValue::Bytes(encode_utf8(self@))
    }

    fn serialize(&self, field: u8) -> (out: Vec<u8>) {
        let mut out: Vec<u8> = Vec::new();
        out.push(encode_tag(field, WireKind::LengthDelimited));
        encode_length_delimited_into(self.as_str().as_bytes(), &mut out);
        proof {
            assert(out@ =~= field_bytes(field, self.wire_value()));
        }
        out
    }
}

/// A message that can be written as a run of fields.
pub trait Proto {
    /// The fields of the message, in the order in which they are written.
    spec fn fields(&self) -> Seq<(u8, WireValue)>;

    /// The encoding of the message: the encodings of its fields in order.
    fn proto_msg(&self) -> (out: Vec<u8>)
        ensures
            out@ == message_bytes(self.fields()),
    ;
}

/// A message of one integer, field 1.
pub struct NumMessage {
    pub a: u64,
}

impl Proto for NumMessage {
    open spec fn fields(&self) -> Seq<(u8, WireValue)> {
        seq![(1u8, self.a.wire_value())]
    }

    fn proto_msg(&self) -> (out: Vec<u8>) {
        let out = self.a.serialize(1);
        proof {
            let fields = self.fields();
            assert(message_bytes(fields.drop_first()) =~= Seq::<u8>::empty());
            assert(message_bytes(fields) =~= field_bytes(fields[0].0, fields[0].1));
        }
        out
    }
}

/// A message of an integer, field 1, and a string, field 2.
pub struct SimpleMessage {
    pub a: u64,
    pub b: String,
}

impl Proto for SimpleMessage {
    open spec fn fields(&self) -> Seq<(u8, WireValue)> {
        seq![(1u8, self.a.wire_value()), (2u8, self.b.wire_value())]
    }

    fn proto_msg(&self) -> (out: Vec<u8>) {
        let mut out = self.a.serialize(1);
        let b = self.b.serialize(2);
        append_bytes(&mut out, b.as_slice());
        proof {
            let fields = self.fields();
            let tail = fields.drop_first();
            assert(tail[0] == fields[1]);
            assert(message_bytes(tail.drop_first()) =~= Seq::<u8>::empty());
            assert(message_bytes(tail) =~= field_bytes(fields[1].0, fields[1].1));
            assert(message_bytes(fields) =~= field_bytes(fields[0].0, fields[0].1) + field_bytes(
                fields[1].0,
                fields[1].1,
            ));
        }
        out
    }
}

} // verus!
