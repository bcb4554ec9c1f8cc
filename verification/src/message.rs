//! Flat messages: a run of fields, each a tag byte followed by the payload
//! that the tag announces.

use vstd::prelude::*;
use std::collections::HashMap;
use crate::{DecodeError, WireType, WireValue};
use crate::length_delimited::{
    decode_length_delimited, encode_length_delimited_into, length_delimited_bytes,
    length_delimited_of, lemma_length_delimited_round_trip,
};
use crate::tag::{decode_tag, encode_tag, tag_byte, tag_of, lemma_tag_round_trip, WireKind, MAX_FIELD_NUMBER};
use crate::varint::{
    encode_varint_into, lemma_varint_round_trip, remaining, scan_varint, varint_bytes,
    varint_scan, VarintScan,
};

verus! {

impl WireValue {
    /// The wire type under which this value is written.
    pub open spec fn kind(self) -> WireKind {
        match self {
            WireValue::Varint(_) => WireKind::Varint,
            WireValue::Bytes(_) => WireKind::LengthDelimited,
        }
    }

    /// The encoding of the value alone, without a tag.
    pub open spec fn payload_bytes(self) -> Seq<u8> {
        match self {
            WireValue::Varint(v) => varint_bytes(v as nat),
            WireValue::Bytes(bytes) => length_delimited_bytes(bytes),
        }
    }
}

/// The encoding of one field: its tag byte, then its payload.
pub open spec fn field_bytes(field_number: u8, value: WireValue) -> Seq<u8> {
    seq![tag_byte(field_number, value.kind()) as u8] + value.payload_bytes()
}

/// The encoding of a run of fields: their encodings, one after the other.
pub open spec fn message_bytes(fields: Seq<(u8, WireValue)>) -> Seq<u8>
    decreases fields.len(),
{
    if fields.len() == 0 {
        Seq::empty()
    } else {
        field_bytes(fields[0].0, fields[0].1) + message_bytes(fields.drop_first())
    }
}

/// An entry that can be written and read back: the field number fits a tag,
/// and the length of a byte payload fits its 64-bit prefix.
pub open spec fn valid_entry(field_number: u8, value: WireValue) -> bool {
    &&& field_number <= MAX_FIELD_NUMBER
    &&& value matches WireValue::Bytes(bytes) ==> bytes.len() <= u64::MAX
}

/// The map that results from inserting the entries into `acc` in order, a
/// later entry replacing an earlier one with the same field number.
pub open spec fn insert_all(acc: Map<u8, WireValue>, fields: Seq<(u8, WireValue)>) -> Map<
    u8,
    WireValue,
>
    decreases fields.len(),
{
    if fields.len() == 0 {
        acc
    } else {
        insert_all(acc.insert(fields[0].0, fields[0].1), fields.drop_first())
    }
}

/// The entries as a map from field number to value; of two entries with one
/// field number the later one stays.
pub open spec fn fields_as_map(fields: Seq<(u8, WireValue)>) -> Map<u8, WireValue> {
    insert_all(Map::empty(), fields)
}

/// What reading one field from the head of `s` gives: its number, its value
/// and the number of bytes read. An empty `s` is truncated input, and so is
/// one that ends before the announced payload does; the tag is judged before
/// the payload is looked at.
pub open spec fn field_of(s: Seq<u8>) -> Result<(u8, WireValue, nat), DecodeError> {
    if s.len() == 0 {
        Err(DecodeError::TruncatedInput)
    } else {
        match tag_of(s[0]) {
            Err(e) => Err(e),
            Ok(tag) => match tag.wire_kind {
                WireKind::Varint => match varint_scan(s.skip(1)) {
                    VarintScan::Complete { value, len } => Ok(
                        (tag.field_number, WireValue::Varint(value), (1 + len) as nat),
                    ),
                    VarintScan::Exhausted => Err(DecodeError::TruncatedInput),
                    VarintScan::Overlong => Err(DecodeError::MalformedVarint),
                },
                WireKind::LengthDelimited => match length_delimited_of(s.skip(1)) {
                    Ok((payload, used)) => Ok(
                        (tag.field_number, WireValue::Bytes(payload), 1 + used),
                    ),
                    Err(e) => Err(e),
                },
            },
        }
    }
}

/// What reading fields from `s` until it is used up gives, starting from the
/// entries in `acc`. At least one field is read; the first failure is the
/// result.
pub open spec fn fields_of(s: Seq<u8>, acc: Map<u8, WireValue>) -> Result<
    Map<u8, WireValue>,
    DecodeError,
>
    decreases s.len(),
{
    match field_of(s) {
        Err(e) => Err(e),
        Ok((field_number, value, used)) => {
            let next = acc.insert(field_number, value);
            if 0 < used < s.len() {
                fields_of(s.skip(used as int), next)
            } else {
                Ok(next)
            }
        },
    }
}

/// The message that a buffer holds.
pub open spec fn message_of(s: Seq<u8>) -> Result<Map<u8, WireValue>, DecodeError> {
    fields_of(s, Map::empty())
}

/// The entries of a slice as contracts see them.
pub open spec fn entries_view(fields: Seq<(u8, WireType)>) -> Seq<(u8, WireValue)> {
    fields.map_values(|f: (u8, WireType)| (f.0, f.1@))
}

impl WireType {
    /// The wire type under which this value is written.
    pub fn wire_kind(&self) -> (kind: WireKind)
        ensures
            kind == self@.kind(),
    {
        match self {
            WireType::Varint(_) => WireKind::Varint,
            WireType::Len(_) => WireKind::LengthDelimited,
        }
    }
}

/// Appends the encoding of one field to `out`.
pub fn encode_field_into(field_number: u8, value: &WireType, out: &mut Vec<u8>)
    requires
        field_number <= MAX_FIELD_NUMBER,
    ensures
        final(out)@ == old(out)@ + field_bytes(field_number, value@),
{
    out.push(encode_tag(field_number, value.wire_kind()));
    match value {
        WireType::Varint(v) => encode_varint_into(*v, out),
        WireType::Len(bytes) => encode_length_delimited_into(bytes.as_slice(), out),
    }
    proof {
        assert(out@ =~= old(out)@ + field_bytes(field_number, value@));
    }
}

/// Encodes one field: its tag byte, then its payload.
pub fn encode_field(field_number: u8, value: &WireType) -> (out: Vec<u8>)
    requires
        field_number <= MAX_FIELD_NUMBER,
    ensures
        out@ == field_bytes(field_number, value@),
{
    let mut out: Vec<u8> = Vec::new();
    encode_field_into(field_number, value, &mut out);
    proof {
        assert(out@ =~= field_bytes(field_number, value@));
    }
    out
}

/// The encoding of a run of fields grows at its end by one field's encoding.
pub proof fn lemma_message_bytes_push(fields: Seq<(u8, WireValue)>, last: (u8, WireValue))
    ensures
        message_bytes(fields.push(last)) == message_bytes(fields) + field_bytes(last.0, last.1),
    decreases fields.len(),
{
    if fields.len() == 0 {
        assert(fields.push(last).drop_first() =~= Seq::<(u8, WireValue)>::empty());
        assert(fields.push(last)[0] == last);
        assert(message_bytes(fields.push(last).drop_first()) =~= Seq::<u8>::empty());
        assert(message_bytes(fields.push(last)) =~= field_bytes(last.0, last.1));
        assert(message_bytes(fields) + field_bytes(last.0, last.1) =~= field_bytes(
            last.0,
            last.1,
        ));
    } else {
        lemma_message_bytes_push(fields.drop_first(), last);
        assert(fields.push(last).drop_first() =~= fields.drop_first().push(last));
        assert(fields.push(last)[0] == fields[0]);
        assert(message_bytes(fields.push(last)) =~= message_bytes(fields) + field_bytes(
            last.0,
            last.1,
        ));
    }
}

/// Encodes the fields in the order given. Unless there is no field, the
/// result decodes to the fields as a map.
pub fn encode_message(fields: &[(u8, WireType)]) -> (out: Vec<u8>)
    requires
        forall|i: int| 0 <= i < fields@.len() ==> (#[trigger] fields@[i]).0 <= MAX_FIELD_NUMBER,
    ensures
        out@ == message_bytes(entries_view(fields@)),
        fields@.len() > 0 ==> message_of(out@) == Ok::<Map<u8, WireValue>, DecodeError>(
            fields_as_map(entries_view(fields@)),
        ),
{
    let mut out: Vec<u8> = Vec::new();
    let mut i: usize = 0;
    let ghost entries = entries_view(fields@);
    while i < fields.len()
        invariant
            i <= fields.len(),
            entries == entries_view(fields@),
            forall|j: int| 0 <= j < fields@.len() ==> (#[trigger] fields@[j]).0 <= MAX_FIELD_NUMBER,
            out@ == message_bytes(entries.take(i as int)),
        decreases fields.len() - i,
    {
        proof {
            lemma_message_bytes_push(entries.take(i as int), entries[i as int]);
            assert(entries.take(i as int + 1) =~= entries.take(i as int).push(entries[i as int]));
            assert(fields@[i as int].0 <= MAX_FIELD_NUMBER);
        }
        encode_field_into(fields[i].0, &fields[i].1, &mut out);
        i = i + 1;
    }
    proof {
        assert(entries.take(i as int) =~= entries);
        if fields@.len() > 0 {
            assert forall|j: int| 0 <= j < entries.len() implies valid_entry(
                entries[j].0,
                entries[j].1,
            ) by {
                let entry = fields@[j];
                assert(entries[j] == (entry.0, entry.1@));
                assert(entry.0 <= MAX_FIELD_NUMBER);
                match entry.1 {
                    WireType::Varint(_) => {},
                    WireType::Len(bytes) => {
                        assert(bytes.len() == bytes@.len());
                    },
                }
            }
            lemma_message_round_trip(entries);
        }
    }
    out
}

/// Decodes the field that starts at `cursor`: its number, its value and the
/// number of bytes read, tag included.
pub fn decode_field(bytes: &[u8], cursor: usize) -> (r: Result<(u8, WireType, usize), DecodeError>)
    ensures
        match field_of(remaining(bytes@, cursor as int)) {
            Ok((field_number, value, used)) => r is Ok && r->Ok_0.0 == field_number && r->Ok_0.1@
                == value && r->Ok_0.2 == used,
            Err(e) => r is Err && r->Err_0 == e,
        },
{
    let ghost s = remaining(bytes@, cursor as int);
    if cursor >= bytes.len() {
        return Err(DecodeError::TruncatedInput);
    }
    proof {
        assert(s[0] == bytes@[cursor as int]);
        assert(s.skip(1) =~= remaining(bytes@, cursor as int + 1));
    }
    let tag = match decode_tag(bytes[cursor]) {
        Ok(tag) => tag,
        Err(e) => {
            return Err(e);
        },
    };
    match tag.wire_kind {
        WireKind::Varint => match scan_varint(bytes, cursor + 1) {
            VarintScan::Complete { value, len } => Ok(
                (tag.field_number, WireType::Varint(value), 1 + len),
            ),
            VarintScan::Exhausted => Err(DecodeError::TruncatedInput),
            VarintScan::Overlong => Err(DecodeError::MalformedVarint),
        },
        WireKind::LengthDelimited => match decode_length_delimited(bytes, cursor + 1) {
            Ok((payload, used)) => Ok((tag.field_number, WireType::Len(payload), 1 + used)),
            Err(e) => Err(e),
        },
    }
}

/// A decoded message: at most one value for each field number.
#[derive(Debug, Clone, PartialEq, Eq)]
pub struct Message {
    entries: HashMap<u8, WireType>,
}

impl View for Message {
    type V = Map<u8, WireValue>;

    closed spec fn view(&self) -> Map<u8, WireValue> {
        self.entries@.map_values(|v: WireType| v@)
    }
}

impl Message {
    /// A message without fields.
    pub fn new() -> (m: Message)
        ensures
            m@ == Map::<u8, WireValue>::empty(),
    {
        let m = Message { entries: HashMap::new() };
        proof {
            assert(m@ =~= Map::<u8, WireValue>::empty());
        }
        m
    }

    /// Sets the value of a field, replacing the one it had.
    pub fn insert(&mut self, field_number: u8, value: WireType)
        ensures
            final(self)@ == old(self)@.insert(field_number, value@),
    {
        self.entries.insert(field_number, value);
        proof {
            assert(self@ =~= old(self)@.insert(field_number, value@));
        }
    }

    /// The value of a field, if the message has that field.
    pub fn get(&self, field_number: u8) -> (r: Option<&WireType>)
        ensures
            match r {
                Some(value) => self@.contains_key(field_number) && self@[field_number] == value@,
                None => !self@.contains_key(field_number),
            },
    {
        self.entries.get(&field_number)
    }

    /// Whether the message has a field of this number.
    pub fn contains(&self, field_number: u8) -> (r: bool)
        ensures
            r == self@.contains_key(field_number),
    {
        self.entries.contains_key(&field_number)
    }

    /// The number of fields.
    pub fn len(&self) -> (n: usize)
        ensures
            n == self@.len(),
            self@.dom().finite(),
    {
        proof {
            assert(self@.dom() =~= self.entries@.dom());
        }
        self.entries.len()
    }
}

/// Decodes a whole buffer: reads field after field until the buffer is used
/// up exactly, a later field replacing an earlier one of the same number.
/// Either the whole buffer decodes or no message is returned.
pub fn decode_message(bytes: &[u8]) -> (r: Result<Message, DecodeError>)
    ensures
        match message_of(bytes@) {
            Ok(fields) => r is Ok && r->Ok_0@ == fields,
            Err(e) => r is Err && r->Err_0 == e,
        },
{
    let mut message = Message::new();
    let mut cursor: usize = 0;
    proof {
        assert(remaining(bytes@, 0) =~= bytes@);
    }
    loop
        invariant
            cursor <= bytes.len(),
            message_of(bytes@) == fields_of(remaining(bytes@, cursor as int), message@),
        decreases bytes.len() - cursor,
    {
        match decode_field(bytes, cursor) {
            Err(e) => {
                return Err(e);
            },
            Ok((field_number, value, used)) => {
                proof {
                    assert(remaining(bytes@, cursor as int).skip(used as int) =~= remaining(
                        bytes@,
                        cursor + used,
                    ));
                }
                message.insert(field_number, value);
                cursor = cursor + used;
                if cursor >= bytes.len() {
                    return Ok(message);
                }
            },
        }
    }
}

/// An encoded field has a tag byte and at least one payload byte.
pub proof fn lemma_field_bytes_len(field_number: u8, value: WireValue)
    ensures
        field_bytes(field_number, value).len() >= 2,
{
    match value {
        WireValue::Varint(v) => crate::varint::lemma_varint_bytes_shape(v as nat, 1),
        WireValue::Bytes(bytes) => crate::varint::lemma_varint_bytes_shape(bytes.len(), 1),
    }
}

/// Reading a field inverts writing it: a valid entry is read back from its
/// encoding, whatever bytes follow, and the read stops right after it.
pub proof fn lemma_field_round_trip(field_number: u8, value: WireValue, rest: Seq<u8>)
    requires
        valid_entry(field_number, value),
    ensures
        field_of(field_bytes(field_number, value) + rest) == Ok::<
            (u8, WireValue, nat),
            DecodeError,
        >((field_number, value, field_bytes(field_number, value).len())),
{
    let payload = value.payload_bytes();
    let s = field_bytes(field_number, value) + rest;
    lemma_tag_round_trip(field_number, value.kind());
    assert(s[0] == tag_byte(field_number, value.kind()) as u8);
    assert(s.skip(1) =~= payload + rest);
    match value {
        WireValue::Varint(v) => {
            lemma_varint_round_trip(v, rest);
        },
        WireValue::Bytes(bytes) => {
            lemma_length_delimited_round_trip(bytes, rest);
        },
    }
}

/// Reading the encoding of a non-empty run of valid entries, starting from
/// the entries in `acc`, inserts them into `acc` in order.
pub proof fn lemma_fields_round_trip(fields: Seq<(u8, WireValue)>, acc: Map<u8, WireValue>)
    requires
        fields.len() > 0,
        forall|i: int| 0 <= i < fields.len() ==> valid_entry(fields[i].0, fields[i].1),
    ensures
        fields_of(message_bytes(fields), acc) == Ok::<Map<u8, WireValue>, DecodeError>(
            insert_all(acc, fields),
        ),
    decreases fields.len(),
{
    let first = fields[0];
    let tail = fields.drop_first();
    let head_bytes = field_bytes(first.0, first.1);
    let s = message_bytes(fields);
    assert(valid_entry(first.0, first.1));
    lemma_field_round_trip(first.0, first.1, message_bytes(tail));
    lemma_field_bytes_len(first.0, first.1);
    let next = acc.insert(first.0, first.1);
    if tail.len() == 0 {
        assert(message_bytes(tail) =~= Seq::<u8>::empty());
        assert(insert_all(next, tail) == next);
    } else {
        assert forall|i: int| 0 <= i < tail.len() implies valid_entry(tail[i].0, tail[i].1) by {
            assert(tail[i] == fields[i + 1]);
        }
        lemma_field_bytes_len(tail[0].0, tail[0].1);
        assert(s.skip(head_bytes.len() as int) =~= message_bytes(tail));
        lemma_fields_round_trip(tail, next);
    }
}

/// Round trip: decoding the encoding of a non-empty run of valid entries
/// gives the entries as a map. (The encoding of no entries is the empty
/// buffer, which holds no message.)
pub proof fn lemma_message_round_trip(fields: Seq<(u8, WireValue)>)
    requires
        fields.len() > 0,
        forall|i: int| 0 <= i < fields.len() ==> valid_entry(fields[i].0, fields[i].1),
    ensures
        message_of(message_bytes(fields)) == Ok::<Map<u8, WireValue>, DecodeError>(
            fields_as_map(fields),
        ),
{
    lemma_fields_round_trip(fields, Map::empty());
}

/// The empty buffer holds no message: decoding it reports truncated input.
pub proof fn lemma_empty_buffer_is_truncated()
    ensures
        message_of(Seq::<u8>::empty()) == Err::<Map<u8, WireValue>, DecodeError>(
            DecodeError::TruncatedInput,
        ),
{
}

/// A buffer whose first tag names a wire type other than 0 and 2 is refused
/// for that, whatever follows the tag.
pub proof fn lemma_unsupported_wire_type(s: Seq<u8>)
    requires
        s.len() > 0,
        s[0] % 8 != 0,
        s[0] % 8 != 2,
    ensures
        message_of(s) == Err::<Map<u8, WireValue>, DecodeError>(
            DecodeError::UnsupportedWireType,
        ),
{
}

} // verus!
