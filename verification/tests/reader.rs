use classfile::{consume_u16, consume_u32, consume_u64, consume_u8, DecodeError, ErrorKind};

fn out_of_bounds(offset: usize) -> DecodeError {
    DecodeError { kind: ErrorKind::OutOfBounds, offset }
}

#[test]
fn u8_reads_the_byte_and_advances_by_one() {
    let b = vec![0x12, 0x34, 0x56];
    assert_eq!(consume_u8(&b, 0), Ok((0x12, 1)));
    assert_eq!(consume_u8(&b, 1), Ok((0x34, 2)));
    assert_eq!(consume_u8(&b, 2), Ok((0x56, 3)));
}

#[test]
fn u8_at_the_end_is_out_of_bounds() {
    let b = vec![0x12, 0x34, 0x56];
    assert_eq!(consume_u8(&b, 3), Err(out_of_bounds(3)));
    assert_eq!(consume_u8(&b, 100), Err(out_of_bounds(100)));
    assert_eq!(consume_u8(&Vec::new(), 0), Err(out_of_bounds(0)));
}

#[test]
fn u16_is_big_endian() {
    let b = vec![0x12, 0x34, 0xFF, 0xFE];
    assert_eq!(consume_u16(&b, 0), Ok((0x1234, 2)));
    assert_eq!(consume_u16(&b, 1), Ok((0x34FF, 3)));
    assert_eq!(consume_u16(&b, 2), Ok((0xFFFE, 4)));
}

#[test]
fn u16_needs_two_bytes() {
    let b = vec![0x12, 0x34, 0xFF];
    assert_eq!(consume_u16(&b, 2), Err(out_of_bounds(2)));
    assert_eq!(consume_u16(&b, 3), Err(out_of_bounds(3)));
    assert_eq!(consume_u16(&b, 4), Err(out_of_bounds(4)));
}

#[test]
fn u32_is_big_endian() {
    let b = vec![0xCA, 0xFE, 0xBA, 0xBE, 0x01];
    assert_eq!(consume_u32(&b, 0), Ok((0xCAFEBABE, 4)));
    assert_eq!(consume_u32(&b, 1), Ok((0xFEBABE01, 5)));
}

#[test]
fn u32_needs_four_bytes() {
    let b = vec![0xCA, 0xFE, 0xBA, 0xBE, 0x01];
    assert_eq!(consume_u32(&b, 2), Err(out_of_bounds(2)));
    assert_eq!(consume_u32(&b, 5), Err(out_of_bounds(5)));
}

#[test]
fn u64_is_big_endian() {
    let b = vec![0x01, 0x23, 0x45, 0x67, 0x89, 0xAB, 0xCD, 0xEF, 0x10];
    assert_eq!(consume_u64(&b, 0), Ok((0x0123_4567_89AB_CDEF, 8)));
    assert_eq!(consume_u64(&b, 1), Ok((0x2345_6789_ABCD_EF10, 9)));
}

#[test]
fn u64_needs_eight_bytes() {
    let b = vec![0x01, 0x23, 0x45, 0x67, 0x89, 0xAB, 0xCD, 0xEF, 0x10];
    assert_eq!(consume_u64(&b, 2), Err(out_of_bounds(2)));
    assert_eq!(consume_u64(&b, 9), Err(out_of_bounds(9)));
}

#[test]
fn extreme_values_are_read_whole() {
    let ones = vec![0xFF; 8];
    assert_eq!(consume_u8(&ones, 0), Ok((u8::MAX, 1)));
    assert_eq!(consume_u16(&ones, 0), Ok((u16::MAX, 2)));
    assert_eq!(consume_u32(&ones, 0), Ok((u32::MAX, 4)));
    assert_eq!(consume_u64(&ones, 0), Ok((u64::MAX, 8)));
    let zeros = vec![0x00; 8];
    assert_eq!(consume_u64(&zeros, 0), Ok((0, 8)));
}

#[test]
fn a_cursor_at_the_largest_offset_does_not_wrap() {
    let b = vec![1, 2, 3, 4, 5, 6, 7, 8];
    assert_eq!(consume_u8(&b, usize::MAX), Err(out_of_bounds(usize::MAX)));
    assert_eq!(consume_u16(&b, usize::MAX), Err(out_of_bounds(usize::MAX)));
    assert_eq!(consume_u32(&b, usize::MAX - 1), Err(out_of_bounds(usize::MAX - 1)));
    assert_eq!(consume_u64(&b, usize::MAX - 3), Err(out_of_bounds(usize::MAX - 3)));
}

#[test]
fn wide_reads_are_two_half_reads() {
    let b = vec![0xDE, 0xAD, 0xBE, 0xEF, 0x00, 0x11, 0x22, 0x33];
    let (high, middle) = consume_u16(&b, 0).unwrap();
    let (low, end) = consume_u16(&b, middle).unwrap();
    assert_eq!(consume_u32(&b, 0), Ok((((high as u32) << 16) | low as u32, end)));
    let (high, middle) = consume_u32(&b, 0).unwrap();
    let (low, end) = consume_u32(&b, middle).unwrap();
    assert_eq!(consume_u64(&b, 0), Ok((((high as u64) << 32) | low as u64, end)));
}
