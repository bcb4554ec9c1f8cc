//! Reading a byte payload as text. The codec itself never does: a caller who
//! knows that a field holds text asks for it here.

use vstd::prelude::*;
use vstd::utf8::{decode_utf8, encode_utf8, valid_utf8};
use crate::DecodeError;
use crate::length_delimited::append_bytes;

verus! {

/// `String::from_utf8` of the standard library, its error dropped. Taken on
/// trust from its documentation: the conversion succeeds exactly when the
/// bytes are valid UTF-8, and the string then consists of those very bytes.
#[verifier::external_body]
fn string_from_utf8(bytes: Vec<u8>) -> (r: Option<String>)
    ensures
        r is Some <==> valid_utf8(bytes@),
        r matches Some(text) ==> encode_utf8(text@) == bytes@,
{
    String::from_utf8(bytes).ok()
}

/// The payload as text: the characters that its bytes spell in UTF-8. It
/// fails exactly when the bytes are not valid UTF-8.
pub fn payload_text(payload: &[u8]) -> (r: Result<String, DecodeError>)
    ensures
        match r {
            Ok(text) => valid_utf8(payload@) && text@ == decode_utf8(payload@),
            Err(e) => e == DecodeError::InvalidText && !valid_utf8(payload@),
        },
{
    let mut bytes: Vec<u8> = Vec::new();
    append_bytes(&mut bytes, payload);
    proof {
        assert(bytes@ =~= payload@);
    }
    match string_from_utf8(bytes) {
        Some(text) => {
            proof {
                vstd::utf8::encode_utf8_decode_utf8(text@);
            }
            Ok(text)
        },
        None => Err(DecodeError::InvalidText),
    }
}

} // verus!
