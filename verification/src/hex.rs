//! Buffers written as hexadecimal text: two digits per byte, the high
//! nibble first, nothing added and nothing stripped.

use vstd::prelude::*;
use vstd::string::StringSliceAdditionalSpecFns;

verus! {

/// The value of a hexadecimal digit given as an ASCII byte, in either case.
pub open spec fn hex_digit_value(c: u8) -> Option<u8> {
    if 0x30 <= c <= 0x39 {
        Some((c - 0x30) as u8)
    } else if 0x61 <= c <= 0x66 {
        Some((c - 0x61 + 10) as u8)
    } else if 0x41 <= c <= 0x46 {
        Some((c - 0x41 + 10) as u8)
    } else {
        None
    }
}

/// Whether `text` is an even number of hexadecimal digits.
pub open spec fn is_hex(text: Seq<u8>) -> bool {
    &&& text.len() % 2 == 0
    &&& forall|i: int| 0 <= i < text.len() ==> hex_digit_value(#[trigger] text[i]) is Some
}

/// The bytes that the digit pairs of `text` spell.
pub open spec fn hex_bytes(text: Seq<u8>) -> Seq<u8> {
    Seq::new(
        text.len() / 2,
        |i: int|
            (16 * hex_digit_value(text[2 * i]).unwrap() + hex_digit_value(
                text[2 * i + 1],
            ).unwrap()) as u8,
    )
}

/// The value of one hexadecimal digit.
pub fn hex_digit(c: u8) -> (r: Option<u8>)
    ensures
        r == hex_digit_value(c),
        r matches Some(v) ==> v < 16,
{
    if 0x30 <= c && c <= 0x39 {
        Some(c - 0x30)
    } else if 0x61 <= c && c <= 0x66 {
        Some(c - 0x61 + 10)
    } else if 0x41 <= c && c <= 0x46 {
        Some(c - 0x41 + 10)
    } else {
        None
    }
}

/// Turns hexadecimal text into the bytes it spells, or nothing when the
/// text has an odd length or holds anything but hexadecimal digits.
pub fn decode_hex(text: &str) -> (r: Option<Vec<u8>>)
    ensures
        match r {
            Some(bytes) => is_hex(text.spec_bytes()) && bytes@ == hex_bytes(text.spec_bytes()),
            None => !is_hex(text.spec_bytes()),
        },
{
    let digits = text.as_bytes();
    if digits.len() % 2 != 0 {
        return None;
    }
    let mut out: Vec<u8> = Vec::new();
    let mut i: usize = 0;
    while i < digits.len()
        invariant
            digits@ == text.spec_bytes(),
            digits@.len() % 2 == 0,
            i % 2 == 0,
            i <= digits@.len(),
            out@.len() == i / 2,
            forall|j: int| 0 <= j < i ==> hex_digit_value(#[trigger] digits@[j]) is Some,
            forall|k: int| 0 <= k < out@.len() ==> out@[k] == hex_bytes(digits@)[k],
        decreases digits@.len() - i,
    {
        let high: u8 = match hex_digit(digits[i]) {
            Some(v) => v,
            None => {
                return None;
            },
        };
        let low: u8 = match hex_digit(digits[i + 1]) {
            Some(v) => v,
            None => {
                return None;
            },
        };
        out.push(16 * high + low);
        i = i + 2;
    }
    proof {
        assert(out@ =~= hex_bytes(digits@));
    }
    Some(out)
}

} // verus!
