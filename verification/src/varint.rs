//! Base-128 variable-length integers: seven value bits per byte,
//! least-significant group first, bit 7 set on every byte but the last.

use vstd::prelude::*;
use vstd::arithmetic::power2::{pow2, lemma2_to64, lemma2_to64_rest, lemma_pow2_adds, lemma_pow2_pos};
use crate::DecodeError;

verus! {

/// The most groups a variable-length integer may have: ten groups of seven
/// bits are the fewest that hold 64 bits.
pub const MAX_VARINT_LEN: usize = 10;

/// The encoding of `n`: its base-128 digits, least significant first, with
/// 128 added to every digit but the last. No leading (most significant) zero
/// digit is written, except that zero itself is the single byte 0.
pub open spec fn varint_bytes(n: nat) -> Seq<u8>
    decreases n,
{
    if n < 128 {
        seq![n as u8]
    } else {
        seq![(n % 128 + 128) as u8] + varint_bytes(n / 128)
    }
}

/// The number whose base-128 digits, least significant first, are the low
/// seven bits of the bytes of `s`.
pub open spec fn groups_value(s: Seq<u8>) -> nat
    decreases s.len(),
{
    if s.len() == 0 {
        0
    } else {
        (s[0] % 128) as nat + 128 * groups_value(s.drop_first())
    }
}

/// How many bytes at the head of `s` carry the continuation bit before the
/// first byte that does not (or before `s` ends).
pub open spec fn leading_continuations(s: Seq<u8>) -> nat
    decreases s.len(),
{
    if s.len() == 0 || s[0] < 0x80 {
        0
    } else {
        1 + leading_continuations(s.drop_first())
    }
}

/// What reading one variable-length integer from the head of a buffer finds.
#[derive(Debug, Clone, Copy, PartialEq, Eq, Structural)]
pub enum VarintScan {
    /// The integer ended within ten bytes: its value, and how many bytes it
    /// took.
    Complete { value: u64, len: usize },
    /// The buffer ended while every byte read so far had its continuation
    /// bit set (this includes an empty buffer).
    Exhausted,
    /// Ten bytes were read and the tenth still had its continuation bit set.
    Overlong,
}

/// The bytes of `s` from `pos` on; nothing when `pos` lies past the end.
pub open spec fn remaining(s: Seq<u8>, pos: int) -> Seq<u8> {
    if 0 <= pos <= s.len() {
        s.skip(pos)
    } else {
        Seq::empty()
    }
}

/// The outcome of reading a variable-length integer from the head of `s`.
/// The value keeps the low 64 bits of what the groups spell: the tenth group
/// contributes only its lowest bit.
pub open spec fn varint_scan(s: Seq<u8>) -> VarintScan {
    let c = leading_continuations(s);
    if c >= MAX_VARINT_LEN {
        VarintScan::Overlong
    } else if c >= s.len() {
        VarintScan::Exhausted
    } else {
        VarintScan::Complete {
            value: (groups_value(s.take(c as int + 1)) % 0x1_0000_0000_0000_0000) as u64,
            len: (c + 1) as usize,
        }
    }
}

/// Appending a group adds its seven bits above those already there.
pub proof fn lemma_groups_value_push(s: Seq<u8>, b: u8)
    ensures
        groups_value(s.push(b)) == groups_value(s) + (b % 128) * pow2(7 * s.len()),
        groups_value(s) < pow2(7 * s.len()),
    decreases s.len(),
{
    lemma2_to64();
    let d = (b % 128) as nat;
    if s.len() == 0 {
        assert(s.push(b).drop_first() =~= Seq::<u8>::empty());
        assert(groups_value(s.push(b).drop_first()) == 0);
        assert(s.push(b)[0] == b);
        assert(groups_value(s.push(b)) == d);
        assert(d * pow2(0) == d) by (nonlinear_arith)
            requires
                pow2(0) == 1,
        ;
    } else {
        let t = s.drop_first();
        lemma_groups_value_push(t, b);
        assert(s.push(b).drop_first() =~= t.push(b));
        assert(s.push(b)[0] == s[0]);
        lemma_pow2_adds(7, 7 * t.len());
        assert(7 * s.len() == 7 + 7 * t.len());
        let p = pow2(7 * t.len());
        let g = groups_value(t);
        assert(pow2(7 * s.len()) == 128 * p);
        assert(128 * (g + d * p) == 128 * g + d * (128 * p)) by (nonlinear_arith);
        assert(g + 1 <= p);
        assert(128 * (g + 1) <= 128 * p) by (nonlinear_arith)
            requires
                g + 1 <= p,
        ;
    }
}

/// Where the first `i` bytes all carry the continuation bit, the count of
/// leading continuation bytes is `i` plus that of what follows them.
pub proof fn lemma_leading_continuations_skip(s: Seq<u8>, i: int)
    requires
        0 <= i <= s.len(),
        forall|j: int| 0 <= j < i ==> s[j] >= 0x80,
    ensures
        leading_continuations(s) == i + leading_continuations(s.skip(i)),
    decreases i,
{
    if i == 0 {
        assert(s.skip(0) =~= s);
    } else {
        let t = s.drop_first();
        assert(s[0] >= 0x80);
        assert forall|j: int| 0 <= j < i - 1 implies t[j] >= 0x80 by {
            assert(t[j] == s[j + 1]);
        }
        lemma_leading_continuations_skip(t, i - 1);
        assert(t.skip(i - 1) =~= s.skip(i));
    }
}

/// Reads one variable-length integer that starts at `pos`.
pub fn scan_varint(bytes: &[u8], pos: usize) -> (r: VarintScan)
    ensures
        r == varint_scan(remaining(bytes@, pos as int)),
{
    let ghost s = remaining(bytes@, pos as int);
    if pos >= bytes.len() {
        assert(s.len() == 0);
        return VarintScan::Exhausted;
    }
    let mut value: u64 = 0;
    let mut count: usize = 0;
    proof {
        assert(s.take(0) =~= Seq::<u8>::empty());
    }
    while count < MAX_VARINT_LEN
        invariant
            pos < bytes.len(),
            s == bytes@.skip(pos as int),
            count <= MAX_VARINT_LEN,
            count <= s.len(),
            forall|j: int| 0 <= j < count ==> s[j] >= 0x80,
            value == groups_value(s.take(count as int)) % 0x1_0000_0000_0000_0000,
        decreases MAX_VARINT_LEN - count,
    {
        if count >= bytes.len() - pos {
            proof {
                lemma_leading_continuations_skip(s, count as int);
                assert(s.skip(count as int).len() == 0);
            }
            return VarintScan::Exhausted;
        }
        let b: u8 = bytes[pos + count];
        let group: u64 = (b & 0x7f) as u64;
        let shift: u64 = 7 * (count as u64);
        let ghost before = groups_value(s.take(count as int));
        proof {
            assert(s[count as int] == b);
            assert(s.take(count as int + 1) =~= s.take(count as int).push(b));
            lemma_groups_value_push(s.take(count as int), b);
            lemma_pow2_is_shl(shift);
            assert(before < pow2(shift as nat));
            lemma_pow2_le(shift as nat, 63);
            lemma2_to64_rest();
            assert(value == before);
            lemma_shift_in_group(value, b, shift);
        }
        value = value | (group << shift);
        count = count + 1;
        if b & 0x80 == 0 {
            proof {
                assert(b < 0x80) by (bit_vector)
                    requires
                        b & 0x80 == 0,
                ;
                lemma_leading_continuations_skip(s, count as int - 1);
                assert(s.skip(count as int - 1)[0] == b);
            }
            return VarintScan::Complete { value, len: count };
        }
        proof {
            assert(b >= 0x80) by (bit_vector)
                requires
                    b & 0x80 != 0,
            ;
        }
    }
    proof {
        lemma_leading_continuations_skip(s, MAX_VARINT_LEN as int);
    }
    VarintScan::Overlong
}

/// `pow2` does not decrease.
proof fn lemma_pow2_le(a: nat, b: nat)
    requires
        a <= b,
    ensures
        pow2(a) <= pow2(b),
{
    lemma_pow2_adds(a, (b - a) as nat);
    lemma_pow2_pos((b - a) as nat);
    assert(pow2(a) * 1 <= pow2(a) * pow2((b - a) as nat)) by (nonlinear_arith)
        requires
            1 <= pow2((b - a) as nat),
    ;
}

/// For a shift below 64, `1 << shift` is the matching power of two.
proof fn lemma_pow2_is_shl(shift: u64)
    requires
        shift < 64,
    ensures
        (1u64 << shift) == pow2(shift as nat),
{
    vstd::bits::lemma_u64_pow2_no_overflow(shift as nat);
    vstd::bits::lemma_u64_shl_is_mul(1, shift);
}

/// Or-ing a group in above the bits already set adds the group times its
/// place value, and a 64-bit integer keeps the low 64 bits of that sum.
proof fn lemma_shift_in_group(acc: u64, b: u8, shift: u64)
    requires
        shift <= 56 || shift == 63,
        acc < (1u64 << shift),
    ensures
        (acc | (((b & 0x7f) as u64) << shift)) as int == (acc + (b % 128) * pow2(shift as nat))
            % 0x1_0000_0000_0000_0000,
{
    let group: u64 = (b & 0x7f) as u64;
    assert(group == b % 128 && group < 128) by (bit_vector)
        requires
            group == (b & 0x7f) as u64,
    ;
    lemma2_to64_rest();
    if shift == 63 {
        assert((acc | (group << 63)) == (acc + group * 0x8000_0000_0000_0000)
            % 0x1_0000_0000_0000_0000) by (bit_vector)
            requires
                acc < (1u64 << 63),
                group < 128,
        ;
    } else {
        lemma_pow2_le(shift as nat, 56);
        assert(group * pow2(shift as nat) <= 128 * 0x100_0000_0000_0000) by (nonlinear_arith)
            requires
                group < 128,
                pow2(shift as nat) <= 0x100_0000_0000_0000,
        ;
        vstd::bits::lemma_u64_shl_is_mul(group, shift);
        assert(acc | (group << shift) == acc + (group << shift) && acc + (group << shift)
            < 0x1_0000_0000_0000_0000) by (bit_vector)
            requires
                shift <= 56,
                acc < (1u64 << shift),
                group < 128,
        ;
    }
}

/// Appends the encoding of `value` to `out`.
pub fn encode_varint_into(value: u64, out: &mut Vec<u8>)
    ensures
        final(out)@ == old(out)@ + varint_bytes(value as nat),
{
    let mut rest: u64 = value;
    while rest >= 0x80
        invariant
            out@ + varint_bytes(rest as nat) == old(out)@ + varint_bytes(value as nat),
        decreases rest,
    {
        let group: u8 = ((rest & 0x7f) as u8) | 0x80;
        proof {
            assert(group == rest % 128 + 128 && (rest >> 7) == rest / 128) by (bit_vector)
                requires
                    group == ((rest & 0x7f) as u8) | 0x80,
            ;
            assert(out@.push(group) + varint_bytes((rest / 128) as nat) =~= out@ + varint_bytes(
                rest as nat,
            ));
        }
        out.push(group);
        rest = rest >> 7;
    }
    proof {
        assert(out@.push(rest as u8) =~= out@ + varint_bytes(rest as nat));
    }
    out.push(rest as u8);
}

/// Encodes `value` in as few groups as hold it. The result is at most ten
/// bytes long and decodes to `value`.
pub fn encode_varint(value: u64) -> (out: Vec<u8>)
    ensures
        out@ == varint_bytes(value as nat),
        1 <= out@.len() <= MAX_VARINT_LEN,
        varint_scan(out@) == (VarintScan::Complete { value, len: out@.len() as usize }),
{
    let mut out: Vec<u8> = Vec::new();
    encode_varint_into(value, &mut out);
    proof {
        assert(Seq::<u8>::empty() + varint_bytes(value as nat) =~= varint_bytes(value as nat));
        lemma_varint_round_trip(value, Seq::empty());
        assert(varint_bytes(value as nat) + Seq::<u8>::empty() =~= varint_bytes(value as nat));
    }
    out
}

/// Decodes the variable-length integer that starts at `cursor`: its value
/// and the number of bytes it took. It fails when the tenth byte still has
/// its continuation bit set and when the buffer ends before a byte without
/// one.
pub fn decode_varint(bytes: &[u8], cursor: usize) -> (r: Result<(u64, usize), DecodeError>)
    ensures
        r == match varint_scan(remaining(bytes@, cursor as int)) {
            VarintScan::Complete { value, len } => Ok::<(u64, usize), DecodeError>((value, len)),
            _ => Err(DecodeError::MalformedVarint),
        },
{
    match scan_varint(bytes, cursor) {
        VarintScan::Complete { value, len } => Ok((value, len)),
        _ => Err(DecodeError::MalformedVarint),
    }
}

/// The shape of an encoding: at least one byte; every byte but the last has
/// the continuation bit and the last has not; the groups spell `n`; no
/// group is spent on leading zeros; and `k` groups suffice for a number
/// below `2^(7k)`.
pub proof fn lemma_varint_bytes_shape(n: nat, k: nat)
    ensures
        varint_bytes(n).len() >= 1,
        forall|j: int| 0 <= j < varint_bytes(n).len() - 1 ==> varint_bytes(n)[j] >= 0x80,
        varint_bytes(n).last() < 0x80,
        n > 0 ==> varint_bytes(n).last() != 0,
        groups_value(varint_bytes(n)) == n,
        k >= 1 && n < pow2(7 * k) ==> varint_bytes(n).len() <= k,
    decreases n,
{
    lemma2_to64();
    let e = varint_bytes(n);
    if n < 128 {
        assert(e.drop_first() =~= Seq::<u8>::empty());
        assert(groups_value(e.drop_first()) == 0);
    } else {
        let tail = varint_bytes(n / 128);
        let head = (n % 128 + 128) as u8;
        lemma_varint_bytes_shape(n / 128, (k - 1) as nat);
        assert(e.drop_first() =~= tail);
        assert(e[0] == head);
        assert(e.last() == tail.last());
        assert forall|j: int| 0 <= j < e.len() - 1 implies e[j] >= 0x80 by {
            if j > 0 {
                assert(e[j] == tail[j - 1]);
            }
        }
        if k >= 1 && n < pow2(7 * k) {
            if k == 1 {
                assert(pow2(7) == 128);
            } else {
                lemma_pow2_adds(7, (7 * (k - 1)) as nat);
                assert(7 * k == 7 + 7 * (k - 1));
                assert(n / 128 < pow2((7 * (k - 1)) as nat)) by (nonlinear_arith)
                    requires
                        n < 128 * pow2((7 * (k - 1)) as nat),
                ;
            }
        }
    }
}

/// Decoding inverts encoding: for every 64-bit `n`, reading the encoding of
/// `n`, whatever bytes follow it, gives back `n` and stops right after it.
pub proof fn lemma_varint_round_trip(n: u64, rest: Seq<u8>)
    ensures
        1 <= varint_bytes(n as nat).len() <= MAX_VARINT_LEN,
        varint_scan(varint_bytes(n as nat) + rest) == (VarintScan::Complete {
            value: n,
            len: varint_bytes(n as nat).len() as usize,
        }),
{
    let e = varint_bytes(n as nat);
    let s = e + rest;
    lemma2_to64_rest();
    lemma_pow2_le(64, 70);
    lemma_varint_bytes_shape(n as nat, 10);
    let last = e.len() - 1;
    assert forall|j: int| 0 <= j < last implies s[j] >= 0x80 by {
        assert(s[j] == e[j]);
    }
    lemma_leading_continuations_skip(s, last);
    assert(s.skip(last)[0] == e.last());
    assert(leading_continuations(s) == last);
    assert(s.take(last + 1) =~= e);
}

} // verus!
