//! Integers as bytes, least significant byte first unless said otherwise.

use vstd::prelude::*;

verus! {

/// The last `width` base-256 digits of a value, least significant first.
pub open spec fn le_bytes(value: nat, width: nat) -> Seq<u8>
    decreases width,
{
    if width == 0 {
        Seq::empty()
    } else {
        seq![(value % 256) as u8] + le_bytes(value / 256, (width - 1) as nat)
    }
}

/// The value that bytes denote, least significant first.
pub open spec fn le_value(bytes: Seq<u8>) -> nat
    decreases bytes.len(),
{
    if bytes.len() == 0 {
        0
    } else {
        bytes[0] as nat + 256 * le_value(bytes.skip(1))
    }
}

/// The value that bytes denote, most significant first.
pub open spec fn be_value(bytes: Seq<u8>) -> nat
    decreases bytes.len(),
{
    if bytes.len() == 0 {
        0
    } else {
        be_value(bytes.drop_last()) * 256 + bytes.last() as nat
    }
}

/// 256 to the given power.
pub open spec fn pow256(exponent: nat) -> nat
    decreases exponent,
{
    if exponent == 0 {
        1
    } else {
        256 * pow256((exponent - 1) as nat)
    }
}

/// The unsigned value with the same 32 bits.
pub open spec fn wrap32(value: int) -> nat {
    (value % 0x1_0000_0000) as nat
}

/// The signed value with the same 32 bits.
pub open spec fn signed32(value: nat) -> int {
    if value < 0x8000_0000 {
        value as int
    } else {
        value - 0x1_0000_0000
    }
}

pub proof fn lemma_le_bytes_len(value: nat, width: nat)
    ensures
        le_bytes(value, width).len() == width,
    decreases width,
{
    if width > 0 {
        lemma_le_bytes_len(value / 256, (width - 1) as nat);
    }
}

/// Each byte of an encoded value is one of its digits.
pub proof fn lemma_le_value_bound(bytes: Seq<u8>)
    ensures
        le_value(bytes) < pow256(bytes.len()),
    decreases bytes.len(),
{
    if bytes.len() > 0 {
        lemma_le_value_bound(bytes.skip(1));
    }
}

pub proof fn lemma_be_value_bound(bytes: Seq<u8>)
    ensures
        be_value(bytes) < pow256(bytes.len()),
    decreases bytes.len(),
{
    if bytes.len() > 0 {
        lemma_be_value_bound(bytes.drop_last());
    }
}

pub proof fn lemma_pow256()
    ensures
        pow256(0) == 1,
        pow256(1) == 0x100,
        pow256(2) == 0x1_0000,
        pow256(4) == 0x1_0000_0000,
        pow256(8) == 0x1_0000_0000_0000_0000,
{
    reveal_with_fuel(pow256, 9);
}

/// Reading bytes gives back the value that was written as them.
pub proof fn written_value_reads_back(value: nat, width: nat)
    requires
        value < pow256(width),
    ensures
        le_value(le_bytes(value, width)) == value,
        le_bytes(value, width).len() == width,
    decreases width,
{
    lemma_le_bytes_len(value, width);
    if width > 0 {
        let rest = (width - 1) as nat;
        assert(value / 256 < pow256(rest));
        written_value_reads_back(value / 256, rest);
        assert(le_bytes(value, width).skip(1) =~= le_bytes(value / 256, rest));
        assert(value == 256 * (value / 256) + value % 256);
    }
}

/// Writing a value that was read gives back the bytes it was read from.
pub proof fn read_value_writes_back(bytes: Seq<u8>)
    ensures
        le_bytes(le_value(bytes), bytes.len()) == bytes,
    decreases bytes.len(),
{
    if bytes.len() > 0 {
        let rest = le_value(bytes.skip(1));
        read_value_writes_back(bytes.skip(1));
        let value = bytes[0] as nat + 256 * rest;
        assert(value % 256 == bytes[0] && value / 256 == rest);
        assert(seq![bytes[0]] + bytes.skip(1) =~= bytes);
    }
}

/// A number is spelled by bytes, least significant first: each byte is the digit of its
/// place, and no digit is left over.
pub open spec fn spelled_le(bytes: Seq<u8>, value: nat) -> bool {
    &&& value < pow256(bytes.len())
    &&& forall|i: int|
        0 <= i < bytes.len() ==> #[trigger] bytes[i] == value / pow256(i as nat) % 256
}

/// A number is spelled by bytes, most significant first.
pub open spec fn spelled_be(bytes: Seq<u8>, value: nat) -> bool {
    &&& value < pow256(bytes.len())
    &&& forall|i: int|
        0 <= i < bytes.len() ==> #[trigger] bytes[i] == value / pow256(
            (bytes.len() - 1 - i) as nat,
        ) % 256
}

proof fn lemma_pow256_positive(n: nat)
    ensures
        pow256(n) > 0,
    decreases n,
{
    if n > 0 {
        lemma_pow256_positive((n - 1) as nat);
    }
}

/// The value of bytes is the number that they spell, least significant byte first.
pub proof fn le_values_are_spelled(bytes: Seq<u8>)
    ensures
        spelled_le(bytes, le_value(bytes)),
    decreases bytes.len(),
{
    lemma_le_value_bound(bytes);
    if bytes.len() > 0 {
        let rest = bytes.skip(1);
        le_values_are_spelled(rest);
        let value = le_value(bytes);
        let less = le_value(rest);
        assert(value == bytes[0] as nat + 256 * less);
        assert forall|i: int| 0 <= i < bytes.len() implies #[trigger] bytes[i] == value / pow256(
            i as nat,
        ) % 256 by {
            if i > 0 {
                let scale = pow256((i - 1) as nat);
                lemma_pow256_positive((i - 1) as nat);
                assert(pow256(i as nat) == 256 * scale);
                vstd::arithmetic::div_mod::lemma_div_denominator(value as int, 256, scale as int);
                assert(value / 256 == less);
                assert(value / pow256(i as nat) == less / scale);
                assert(rest[i - 1] == bytes[i]);
            } else {
                assert(pow256(0) == 1);
                assert(value / 1 == value);
            }
        }
    }
}

/// The value of bytes is the number that they spell, most significant byte first.
pub proof fn be_values_are_spelled(bytes: Seq<u8>)
    ensures
        spelled_be(bytes, be_value(bytes)),
    decreases bytes.len(),
{
    lemma_be_value_bound(bytes);
    if bytes.len() > 0 {
        let rest = bytes.drop_last();
        be_values_are_spelled(rest);
        let value = be_value(bytes);
        let more = be_value(rest);
        assert(value == more * 256 + bytes.last() as nat);
        assert forall|i: int| 0 <= i < bytes.len() implies #[trigger] bytes[i] == value / pow256(
            (bytes.len() - 1 - i) as nat,
        ) % 256 by {
            if i < bytes.len() - 1 {
                let k = (bytes.len() - 2 - i) as nat;
                let scale = pow256(k);
                lemma_pow256_positive(k);
                assert(pow256((k + 1) as nat) == 256 * scale);
                vstd::arithmetic::div_mod::lemma_div_denominator(value as int, 256, scale as int);
                assert(value / 256 == more);
                assert(value / pow256((k + 1) as nat) == more / scale);
                assert(rest[i] == bytes[i]);
            } else {
                assert(pow256(0) == 1);
                assert(value / 1 == value);
            }
        }
    }
}

proof fn lemma_be_reverses(bytes: Seq<u8>)
    ensures
        be_value(bytes.reverse()) == le_value(bytes),
    decreases bytes.len(),
{
    if bytes.len() > 0 {
        lemma_be_reverses(bytes.skip(1));
        assert(bytes.reverse().drop_last() =~= bytes.skip(1).reverse());
    }
}

/// Bytes that spell a number hold it, and reversed they hold it in the other order.
pub proof fn spelled_numbers_are_values(bytes: Seq<u8>, value: nat)
    requires
        spelled_le(bytes, value),
    ensures
        le_value(bytes) == value,
        be_value(bytes.reverse()) == value,
    decreases bytes.len(),
{
    lemma_be_reverses(bytes);
    if bytes.len() > 0 {
        let rest = bytes.skip(1);
        assert forall|i: int| 0 <= i < rest.len() implies #[trigger] rest[i] == (value / 256)
            / pow256(i as nat) % 256 by {
            let scale = pow256(i as nat);
            lemma_pow256_positive(i as nat);
            assert(pow256((i + 1) as nat) == 256 * scale);
            vstd::arithmetic::div_mod::lemma_div_denominator(value as int, 256, scale as int);
            assert(bytes[i + 1] == value / pow256((i + 1) as nat) % 256);
        }
        spelled_numbers_are_values(rest, value / 256);
        assert(pow256(0) == 1);
        assert(value / 1 == value);
        assert(bytes[0] == value / pow256(0) % 256);
        assert(value == 256 * (value / 256) + value % 256);
    }
}

/// Four bytes, least significant first, count one, 256, 65536 and 16777216.
pub proof fn four_bytes_count(bytes: Seq<u8>)
    requires
        bytes.len() == 4,
    ensures
        le_value(bytes) == bytes[0] + 0x100 * bytes[1] + 0x1_0000 * bytes[2] + 0x100_0000
            * bytes[3],
        be_value(bytes) == bytes[3] + 0x100 * bytes[2] + 0x1_0000 * bytes[1] + 0x100_0000
            * bytes[0],
{
    reveal_with_fuel(le_value, 5);
    reveal_with_fuel(be_value, 5);
    assert(bytes.skip(1).skip(1).skip(1).skip(1).len() == 0);
    assert(bytes.drop_last().drop_last().drop_last().drop_last().len() == 0);
}

/// Eight bytes, least significant first, are four that count as they do and four that
/// count 4294967296 times as much; most significant first, the other way round.
pub proof fn eight_bytes_count(bytes: Seq<u8>)
    requires
        bytes.len() == 8,
    ensures
        le_value(bytes) == bytes[0] + 0x100 * bytes[1] + 0x1_0000 * bytes[2] + 0x100_0000
            * bytes[3] + 0x1_0000_0000 * (bytes[4] + 0x100 * bytes[5] + 0x1_0000 * bytes[6]
            + 0x100_0000 * bytes[7]),
        be_value(bytes) == bytes[7] + 0x100 * bytes[6] + 0x1_0000 * bytes[5] + 0x100_0000
            * bytes[4] + 0x1_0000_0000 * (bytes[3] + 0x100 * bytes[2] + 0x1_0000 * bytes[1]
            + 0x100_0000 * bytes[0]),
{
    reveal_with_fuel(le_value, 9);
    reveal_with_fuel(be_value, 9);
    assert(bytes.skip(1).skip(1).skip(1).skip(1).skip(1).skip(1).skip(1).skip(1).len() == 0);
    assert(bytes.drop_last().drop_last().drop_last().drop_last().drop_last().drop_last().drop_last().drop_last().len()
        == 0);
}

/// Appends the low `width` bytes of a value.
pub fn push_le(out: &mut Vec<u8>, value: u64, width: usize)
    ensures
        final(out)@ == old(out)@ + le_bytes(value as nat, width as nat),
{
    let mut rest: u64 = value;
    let mut left: usize = width;
    proof {
        assert(out@ + le_bytes(rest as nat, left as nat) =~= old(out)@ + le_bytes(
            value as nat,
            width as nat,
        ));
    }
    while left > 0
        invariant
            out@ + le_bytes(rest as nat, left as nat) == old(out)@ + le_bytes(
                value as nat,
                width as nat,
            ),
        decreases left,
    {
        let ghost before = out@;
        let low: u8 = (rest % 256) as u8;
        out.push(low);
        proof {
            assert(before + le_bytes(rest as nat, left as nat) =~= out@ + le_bytes(
                (rest / 256) as nat,
                (left - 1) as nat,
            ));
        }
        rest = rest / 256;
        left -= 1;
    }
    proof {
        assert(out@ + le_bytes(rest as nat, 0) =~= out@);
    }
}

/// Appends a 64-bit value.
pub fn push_u64(out: &mut Vec<u8>, value: u64)
    ensures
        final(out)@ == old(out)@ + le_bytes(value as nat, 8),
{
    push_le(out, value, 8);
}

/// The unsigned value with the same bits as a signed one.
pub fn bits_of(value: i32) -> (bits: u32)
    ensures
        bits == wrap32(value as int),
{
    if value < 0 {
        (value as i64 + 0x1_0000_0000) as u32
    } else {
        value as u32
    }
}

/// The signed value with the same bits as an unsigned one.
pub fn from_bits(bits: u32) -> (value: i32)
    ensures
        value == signed32(bits as nat),
{
    if bits < 0x8000_0000 {
        bits as i32
    } else {
        (bits as i64 - 0x1_0000_0000) as i32
    }
}

/// Appends a signed 32-bit value.
pub fn push_i32(out: &mut Vec<u8>, value: i32)
    ensures
        final(out)@ == old(out)@ + le_bytes(wrap32(value as int), 4),
{
    push_le(out, bits_of(value) as u64, 4);
}

/// Appends a run of bytes.
pub fn push_all(out: &mut Vec<u8>, bytes: &[u8])
    ensures
        final(out)@ == old(out)@ + bytes@,
{
    out.extend_from_slice(bytes);
    proof {
        assert(out@ =~= old(out)@ + bytes@);
    }
}

/// Reads `width` bytes at an offset, least significant first.
pub fn read_le(bytes: &[u8], offset: usize, width: usize) -> (value: u64)
    requires
        offset + width <= bytes@.len(),
        width <= 8,
    ensures
        value == le_value(bytes@.subrange(offset as int, offset + width)),
        value < pow256(width as nat),
{
    let ghost whole = bytes@.subrange(offset as int, offset + width);
    let mut value: u64 = 0;
    let mut i: usize = width;
    while i > 0
        invariant
            i <= width <= 8,
            offset + width <= bytes.len(),
            whole == bytes@.subrange(offset as int, offset + width),
            value == le_value(whole.skip(i as int)),
            value < pow256((width - i) as nat),
        decreases i,
    {
        i -= 1;
        proof {
            let part = whole.skip(i as int);
            assert(part.skip(1) =~= whole.skip(i + 1));
            assert(part[0] == bytes@[offset + i]);
            lemma_le_value_bound(part);
            reveal_with_fuel(pow256, 9);
        }
        value = bytes[offset + i] as u64 + 256 * value;
    }
    proof {
        assert(whole.skip(0) =~= whole);
    }
    value
}

/// Reads `width` bytes at an offset, most significant first.
pub fn read_be(bytes: &[u8], offset: usize, width: usize) -> (value: u64)
    requires
        offset + width <= bytes@.len(),
        width <= 8,
    ensures
        value == be_value(bytes@.subrange(offset as int, offset + width)),
        value < pow256(width as nat),
{
    let ghost whole = bytes@.subrange(offset as int, offset + width);
    let mut value: u64 = 0;
    let mut i: usize = 0;
    while i < width
        invariant
            i <= width <= 8,
            offset + width <= bytes.len(),
            whole == bytes@.subrange(offset as int, offset + width),
            value == be_value(whole.take(i as int)),
            value < pow256(i as nat),
        decreases width - i,
    {
        proof {
            let part = whole.take(i + 1);
            assert(part.drop_last() =~= whole.take(i as int));
            assert(part.last() == bytes@[offset + i]);
            lemma_be_value_bound(part);
            reveal_with_fuel(pow256, 9);
        }
        value = value * 256 + bytes[offset + i] as u64;
        i += 1;
    }
    proof {
        assert(whole.take(i as int) =~= whole);
    }
    value
}

/// Copies out a slice.
pub fn copy_bytes(bytes: &[u8]) -> (out: Vec<u8>)
    ensures
        out@ == bytes@,
{
    vstd::slice::slice_to_vec(bytes)
}

/// Compares two runs of bytes.
pub fn same_bytes(a: &[u8], b: &[u8]) -> (same: bool)
    ensures
        same == (a@ == b@),
{
    if a.len() != b.len() {
        return false;
    }
    let mut i: usize = 0;
    while i < a.len()
        invariant
            i <= a.len(),
            a@.len() == b@.len(),
            forall|j: int| 0 <= j < i ==> a@[j] == b@[j],
        decreases a.len() - i,
    {
        if a[i] != b[i] {
            return false;
        }
        i += 1;
    }
    proof {
        assert(a@ =~= b@);
    }
    true
}

/// A run of zero bytes.
pub fn zeros(len: usize) -> (out: Vec<u8>)
    ensures
        out@ == Seq::new(len as nat, |i: int| 0u8),
{
    filled(0, len)
}

/// A run of one repeated byte.
pub fn filled(byte: u8, len: usize) -> (out: Vec<u8>)
    ensures
        out@ == Seq::new(len as nat, |i: int| byte),
{
    let mut out: Vec<u8> = Vec::new();
    let mut i: usize = 0;
    while i < len
        invariant
            i <= len,
            out@ == Seq::new(i as nat, |j: int| byte),
        decreases len - i,
    {
        out.push(byte);
        i += 1;
        proof {
            assert(out@ =~= Seq::new(i as nat, |j: int| byte));
        }
    }
    out
}

}
