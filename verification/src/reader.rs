//! Fixed-width big-endian reads at an explicit offset.

use crate::error::{fail, yields, DecodeError, ErrorKind, Outcome};
use vstd::prelude::*;

verus! {

/// The number that `bytes` spell when read as one big-endian numeral in base 256.
pub open spec fn be_value(bytes: Seq<u8>) -> nat
    decreases bytes.len(),
{
    if bytes.len() == 0 {
        0
    } else {
        be_value(bytes.drop_last()) * 256 + bytes.last() as nat
    }
}

/// Whether `width` bytes can be read from `b` at `at`.
pub open spec fn in_bounds(b: Seq<u8>, at: int, width: int) -> bool {
    0 <= at && at + width <= b.len()
}

/// The big-endian number held in the `width` bytes of `b` that start at `at`.
pub open spec fn be_at(b: Seq<u8>, at: int, width: int) -> nat {
    be_value(b.subrange(at, at + width))
}

/// A read of one byte: the byte at `at`, or `OutOfBounds` at `at`.
pub open spec fn spec_u8(b: Seq<u8>, at: int) -> Outcome<u8> {
    if in_bounds(b, at, 1) {
        Ok((b[at], at + 1))
    } else {
        fail(ErrorKind::OutOfBounds, at)
    }
}

/// A read of two bytes: their big-endian value, or `OutOfBounds` at `at`.
pub open spec fn spec_u16(b: Seq<u8>, at: int) -> Outcome<u16> {
    if in_bounds(b, at, 2) {
        Ok((be_at(b, at, 2) as u16, at + 2))
    } else {
        fail(ErrorKind::OutOfBounds, at)
    }
}

/// A read of four bytes: their big-endian value, or `OutOfBounds` at `at`.
pub open spec fn spec_u32(b: Seq<u8>, at: int) -> Outcome<u32> {
    if in_bounds(b, at, 4) {
        Ok((be_at(b, at, 4) as u32, at + 4))
    } else {
        fail(ErrorKind::OutOfBounds, at)
    }
}

/// A read of eight bytes: their big-endian value, or `OutOfBounds` at `at`.
pub open spec fn spec_u64(b: Seq<u8>, at: int) -> Outcome<u64> {
    if in_bounds(b, at, 8) {
        Ok((be_at(b, at, 8) as u64, at + 8))
    } else {
        fail(ErrorKind::OutOfBounds, at)
    }
}

/// 256 to the power `n`.
pub open spec fn radix_pow(n: nat) -> nat
    decreases n,
{
    if n == 0 {
        1
    } else {
        256 * radix_pow((n - 1) as nat)
    }
}

/// A numeral of `n` digits is below 256 to the `n`.
pub proof fn lemma_be_value_bound(bytes: Seq<u8>)
    ensures
        be_value(bytes) < radix_pow(bytes.len()),
    decreases bytes.len(),
{
    if bytes.len() > 0 {
        lemma_be_value_bound(bytes.drop_last());
    }
}

/// The value of a numeral split in two: the high part shifted by the length
/// of the low part, plus the low part.
pub proof fn lemma_be_value_concat(high: Seq<u8>, low: Seq<u8>)
    ensures
        be_value(high + low) == be_value(high) * radix_pow(low.len()) + be_value(low),
    decreases low.len(),
{
    let h = be_value(high);
    if low.len() == 0 {
        assert(high + low =~= high);
        assert(h * 1 == h) by (nonlinear_arith);
    } else {
        let whole = high + low;
        assert(whole.drop_last() =~= high + low.drop_last());
        assert(whole.last() == low.last());
        lemma_be_value_concat(high, low.drop_last());
        let p = radix_pow(low.drop_last().len());
        let l = be_value(low.drop_last());
        assert(radix_pow(low.len()) == 256 * p);
        assert(be_value(whole) == (h * p + l) * 256 + low.last() as nat);
        assert((h * p + l) * 256 == h * (256 * p) + l * 256) by (nonlinear_arith);
    }
}

/// The bytes of `b` from `at`, `2 * half` long, read as the two halves.
pub proof fn lemma_be_at_halves(b: Seq<u8>, at: int, half: int)
    requires
        half >= 0,
        in_bounds(b, at, 2 * half),
    ensures
        be_at(b, at, 2 * half) == be_at(b, at, half) * radix_pow(half as nat) + be_at(
            b,
            at + half,
            half,
        ),
{
    let high = b.subrange(at, at + half);
    let low = b.subrange(at + half, at + 2 * half);
    assert(b.subrange(at, at + 2 * half) =~= high + low);
    lemma_be_value_concat(high, low);
}

/// One byte read as a numeral is the byte itself.
pub proof fn lemma_be_at_byte(b: Seq<u8>, at: int)
    requires
        in_bounds(b, at, 1),
    ensures
        be_at(b, at, 1) == b[at],
{
    let one = b.subrange(at, at + 1);
    assert(one.drop_last().len() == 0);
    assert(be_value(one.drop_last()) == 0);
    assert(one.last() == b[at]);
}

/// Two bytes read as a numeral: the first counts 256 times.
pub proof fn lemma_be_at_two(b: Seq<u8>, at: int)
    requires
        in_bounds(b, at, 2),
    ensures
        be_at(b, at, 2) == b[at] * 0x100 + b[at + 1],
{
    lemma_be_at_halves(b, at, 1);
    lemma_be_at_byte(b, at);
    lemma_be_at_byte(b, at + 1);
    reveal_with_fuel(radix_pow, 2);
}

/// Four bytes read as a numeral, digit by digit.
pub proof fn lemma_be_at_four(b: Seq<u8>, at: int)
    requires
        in_bounds(b, at, 4),
    ensures
        be_at(b, at, 4) == b[at] * 0x100_0000 + b[at + 1] * 0x1_0000 + b[at + 2] * 0x100 + b[at
            + 3],
{
    lemma_be_at_halves(b, at, 2);
    lemma_be_at_two(b, at);
    lemma_be_at_two(b, at + 2);
    reveal_with_fuel(radix_pow, 3);
}

/// Every read that succeeds ends inside the buffer, behind the offset at
/// which it began by exactly its width; every read that fails reports the
/// offset at which it began.
pub proof fn lemma_reads_advance(b: Seq<u8>, at: int)
    ensures
        spec_u8(b, at) matches Ok((_, next)) ==> 0 <= at && next == at + 1 && next <= b.len(),
        spec_u16(b, at) matches Ok((_, next)) ==> 0 <= at && next == at + 2 && next <= b.len(),
        spec_u32(b, at) matches Ok((_, next)) ==> 0 <= at && next == at + 4 && next <= b.len(),
        spec_u64(b, at) matches Ok((_, next)) ==> 0 <= at && next == at + 8 && next <= b.len(),
        spec_u8(b, at) matches Err(f) ==> f.offset == at && f.kind == ErrorKind::OutOfBounds,
        spec_u16(b, at) matches Err(f) ==> f.offset == at && f.kind == ErrorKind::OutOfBounds,
        spec_u32(b, at) matches Err(f) ==> f.offset == at && f.kind == ErrorKind::OutOfBounds,
        spec_u64(b, at) matches Err(f) ==> f.offset == at && f.kind == ErrorKind::OutOfBounds,
{
}

/// Reads the byte at `cursor`.
pub fn consume_u8(b: &Vec<u8>, cursor: usize) -> (r: Result<(u8, usize), DecodeError>)
    ensures
        yields(r, spec_u8(b@, cursor as int)),
{
    if cursor < b.len() {
        Ok((b[cursor], cursor + 1))
    } else {
        Err(DecodeError { kind: ErrorKind::OutOfBounds, offset: cursor })
    }
}

/// Reads the two bytes at `cursor` as a big-endian number, high byte first.
pub fn consume_u16(b: &Vec<u8>, cursor: usize) -> (r: Result<(u16, usize), DecodeError>)
    ensures
        yields(r, spec_u16(b@, cursor as int)),
{
    if cursor > b.len() || b.len() - cursor < 2 {
        return Err(DecodeError { kind: ErrorKind::OutOfBounds, offset: cursor });
    }
    let high: u8 = b[cursor];
    let low: u8 = b[cursor + 1];
    let value: u16 = ((high as u16) << 8) | (low as u16);
    proof {
        let at = cursor as int;
        lemma_be_at_halves(b@, at, 1);
        lemma_be_at_byte(b@, at);
        lemma_be_at_byte(b@, at + 1);
        reveal_with_fuel(radix_pow, 2);
        assert(value == (high as u16) * 256 + (low as u16)) by (bit_vector)
            requires
                value == ((high as u16) << 8) | (low as u16),
        ;
    }
    Ok((value, cursor + 2))
}

/// Reads the four bytes at `cursor` as a big-endian number: two reads of two
/// bytes, the first the high half.
pub fn consume_u32(b: &Vec<u8>, cursor: usize) -> (r: Result<(u32, usize), DecodeError>)
    ensures
        yields(r, spec_u32(b@, cursor as int)),
{
    if cursor > b.len() || b.len() - cursor < 4 {
        return Err(DecodeError { kind: ErrorKind::OutOfBounds, offset: cursor });
    }
    let (high, middle) = match consume_u16(b, cursor) {
        Ok(read) => read,
        Err(e) => {
            return Err(e);
        },
    };
    let (low, next) = match consume_u16(b, middle) {
        Ok(read) => read,
        Err(e) => {
            return Err(e);
        },
    };
    let value: u32 = ((high as u32) << 16) | (low as u32);
    proof {
        let at = cursor as int;
        lemma_be_at_halves(b@, at, 2);
        lemma_be_value_bound(b@.subrange(at, at + 2));
        lemma_be_value_bound(b@.subrange(at + 2, at + 4));
        reveal_with_fuel(radix_pow, 3);
        assert(value == (high as u32) * 65536 + (low as u32)) by (bit_vector)
            requires
                value == ((high as u32) << 16) | (low as u32),
        ;
    }
    Ok((value, next))
}

/// Reads the eight bytes at `cursor` as a big-endian number: two reads of
/// four bytes, the first the high half.
pub fn consume_u64(b: &Vec<u8>, cursor: usize) -> (r: Result<(u64, usize), DecodeError>)
    ensures
        yields(r, spec_u64(b@, cursor as int)),
{
    if cursor > b.len() || b.len() - cursor < 8 {
        return Err(DecodeError { kind: ErrorKind::OutOfBounds, offset: cursor });
    }
    let (high, middle) = match consume_u32(b, cursor) {
        Ok(read) => read,
        Err(e) => {
            return Err(e);
        },
    };
    let (low, next) = match consume_u32(b, middle) {
        Ok(read) => read,
        Err(e) => {
            return Err(e);
        },
    };
    let value: u64 = ((high as u64) << 32) | (low as u64);
    proof {
        let at = cursor as int;
        lemma_be_at_halves(b@, at, 4);
        lemma_be_value_bound(b@.subrange(at, at + 4));
        lemma_be_value_bound(b@.subrange(at + 4, at + 8));
        reveal_with_fuel(radix_pow, 5);
        assert(value == (high as u64) * 0x1_0000_0000 + (low as u64)) by (bit_vector)
            requires
                value == ((high as u64) << 32) | (low as u64),
        ;
    }
    Ok((value, next))
}

} // verus!
