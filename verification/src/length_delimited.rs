//! Length-delimited payloads: the number of bytes as a variable-length
//! integer, then the bytes.

use vstd::prelude::*;
use crate::DecodeError;
use crate::varint::{encode_varint_into, remaining, scan_varint, varint_bytes, varint_scan, VarintScan};

verus! {

/// The encoding of a payload: its length, then the payload itself.
pub open spec fn length_delimited_bytes(payload: Seq<u8>) -> Seq<u8> {
    varint_bytes(payload.len()) + payload
}

/// What reading a length-delimited payload from the head of `s` gives: the
/// payload and the number of bytes read, length prefix included. The input
/// is truncated when it ends inside the prefix or holds fewer bytes after
/// the prefix than the prefix announces.
pub open spec fn length_delimited_of(s: Seq<u8>) -> Result<(Seq<u8>, nat), DecodeError> {
    match varint_scan(s) {
        VarintScan::Overlong => Err(DecodeError::MalformedVarint),
        VarintScan::Exhausted => Err(DecodeError::TruncatedInput),
        VarintScan::Complete { value, len } => if len + value <= s.len() {
            Ok((s.subrange(len as int, len + value), (len + value) as nat))
        } else {
            Err(DecodeError::TruncatedInput)
        },
    }
}

/// Appends the bytes of `src` to `out`.
pub fn append_bytes(out: &mut Vec<u8>, src: &[u8])
    ensures
        final(out)@ == old(out)@ + src@,
{
    let mut i: usize = 0;
    while i < src.len()
        invariant
            i <= src.len(),
            out@ == old(out)@ + src@.take(i as int),
        decreases src.len() - i,
    {
        proof {
            assert(src@.take(i as int + 1) =~= src@.take(i as int).push(src@[i as int]));
        }
        out.push(src[i]);
        i = i + 1;
    }
    proof {
        assert(src@.take(i as int) =~= src@);
    }
}

/// Appends the encoding of `payload` to `out`.
pub fn encode_length_delimited_into(payload: &[u8], out: &mut Vec<u8>)
    ensures
        final(out)@ == old(out)@ + length_delimited_bytes(payload@),
{
    encode_varint_into(payload.len() as u64, out);
    append_bytes(out, payload);
    proof {
        assert(out@ =~= old(out)@ + length_delimited_bytes(payload@));
    }
}

/// Encodes `payload` behind its length.
pub fn encode_length_delimited(payload: &[u8]) -> (out: Vec<u8>)
    ensures
        out@ == length_delimited_bytes(payload@),
{
    let mut out: Vec<u8> = Vec::new();
    encode_length_delimited_into(payload, &mut out);
    proof {
        assert(out@ =~= length_delimited_bytes(payload@));
    }
    out
}

/// Decodes the length-delimited payload that starts at `cursor`: the payload
/// and the number of bytes read, length prefix included.
pub fn decode_length_delimited(bytes: &[u8], cursor: usize) -> (r: Result<
    (Vec<u8>, usize),
    DecodeError,
>)
    ensures
        match length_delimited_of(remaining(bytes@, cursor as int)) {
            Ok((payload, used)) => r is Ok && r->Ok_0.0@ == payload && r->Ok_0.1 == used,
            Err(e) => r == Err::<(Vec<u8>, usize), DecodeError>(e),
        },
{
    let ghost s = remaining(bytes@, cursor as int);
    match scan_varint(bytes, cursor) {
        VarintScan::Overlong => Err(DecodeError::MalformedVarint),
        VarintScan::Exhausted => Err(DecodeError::TruncatedInput),
        VarintScan::Complete { value, len } => {
            let available: usize = bytes.len() - cursor - len;
            if value > available as u64 {
                return Err(DecodeError::TruncatedInput);
            }
            let start: usize = cursor + len;
            let end: usize = start + value as usize;
            let mut payload: Vec<u8> = Vec::new();
            let mut i: usize = start;
            while i < end
                invariant
                    start <= i <= end <= bytes.len(),
                    payload@ == bytes@.subrange(start as int, i as int),
                decreases end - i,
            {
                proof {
                    assert(bytes@.subrange(start as int, i as int + 1) =~= bytes@.subrange(
                        start as int,
                        i as int,
                    ).push(bytes@[i as int]));
                }
                payload.push(bytes[i]);
                i = i + 1;
            }
            proof {
                assert(bytes@.subrange(start as int, end as int) =~= s.subrange(
                    len as int,
                    len + value,
                ));
            }
            Ok((payload, len + value as usize))
        },
    }
}

/// Decoding inverts encoding: a payload whose length fits in 64 bits is read
/// back whole from its encoding, whatever bytes follow it.
pub proof fn lemma_length_delimited_round_trip(payload: Seq<u8>, rest: Seq<u8>)
    requires
        payload.len() <= u64::MAX,
    ensures
        length_delimited_of(length_delimited_bytes(payload) + rest) == Ok::<
            (Seq<u8>, nat),
            DecodeError,
        >((payload, length_delimited_bytes(payload).len())),
{
    let prefix = varint_bytes(payload.len());
    let s = length_delimited_bytes(payload) + rest;
    crate::varint::lemma_varint_round_trip(payload.len() as u64, payload + rest);
    assert(s =~= prefix + (payload + rest));
    assert(s.subrange(prefix.len() as int, prefix.len() as int + payload.len()) =~= payload);
}

} // verus!
