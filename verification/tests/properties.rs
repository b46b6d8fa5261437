use bitbuf::{bit_clean, bit_read, bit_write, bits_to_max_hold, is_in_range, membitcpy};

#[test]
fn max_hold_every_width() {
    for n in 0..32u32 {
        assert_eq!(bits_to_max_hold(n), ((1u64 << n) - 1) as u32);
    }
}

#[test]
fn round_trip_write_then_read() {
    // The value 0b101_10110101 fits in 11 bits.
    let value = vec![0b00000101u8, 0b10110101u8];
    let mut target = vec![0u8; 4];
    bit_write(&mut target, 3, 11, &value, value.len());
    let mut out = vec![0u8; 2];
    bit_read(&target, 3, 11, &mut out, 2);
    assert_eq!(out, value);
}

#[test]
fn round_trip_byte_aligned() {
    let value = vec![0xABu8, 0xCDu8];
    let mut target = vec![0u8; 3];
    bit_write(&mut target, 8, 16, &value, value.len());
    assert_eq!(target, [0x00, 0xAB, 0xCD]);
    let mut out = vec![0u8; 2];
    bit_read(&target, 8, 16, &mut out, 2);
    assert_eq!(out, value);
}

#[test]
fn clean_twice_is_clean_once() {
    let mut once = vec![0xABu8, 0xCDu8, 0xEFu8];
    bit_clean(&mut once, 6, 7);
    let mut twice = vec![0xABu8, 0xCDu8, 0xEFu8];
    bit_clean(&mut twice, 6, 7);
    bit_clean(&mut twice, 6, 7);
    assert_eq!(once, twice);
}

#[test]
fn clean_leaves_outside_bits() {
    let mut target = vec![0b10101011u8, 0b11001101u8, 0b11101111u8];
    bit_clean(&mut target, 6, 7);
    assert_eq!(target, [0b10101000, 0b00000101, 0b11101111]);
}

#[test]
fn write_leaves_outside_bits() {
    let mut target = vec![0b10000000u8, 0b00000001u8];
    let value = vec![0b00000111u8];
    bit_write(&mut target, 6, 3, &value, 1);
    assert_eq!(target, [0b10000011, 0b10000001]);
}

#[test]
fn copier_matches_anchored_writer() {
    let source = vec![0b01011010u8, 0b11110000u8, 0b00001111u8];
    for bit_size in [1usize, 5, 8, 11, 16, 21] {
        for offset in [0usize, 3, 7, 8, 13] {
            let mut written = vec![0u8; 5];
            bit_write(&mut written, offset, bit_size, &source, source.len());
            let mut copied = vec![0u8; 5];
            membitcpy(&mut copied, offset, bit_size, &source, source.len() * 8 - bit_size);
            assert_eq!(written, copied);
        }
    }
}

#[test]
fn in_range_is_value_below_power() {
    let buf = vec![0b00011111u8];
    assert!(!is_in_range(4, &buf, 1));
    assert!(is_in_range(5, &buf, 1));

    // 0x01FF == 511 fits in 9 bits but not in 8.
    let buf = vec![0x01u8, 0xFFu8];
    assert!(is_in_range(9, &buf, 2));
    assert!(!is_in_range(8, &buf, 2));

    // A width that is a whole number of bytes.
    let buf = vec![0xFFu8];
    assert!(is_in_range(8, &buf, 1));
    let buf = vec![0xABu8, 0xCDu8];
    assert!(is_in_range(16, &buf, 2));
    assert!(!is_in_range(7, &vec![0xFFu8], 1));

    // Zero only fits in zero bits.
    let buf = vec![0x00u8, 0x00u8];
    assert!(is_in_range(1, &buf, 2));
}

#[test]
fn zero_bit_size_is_a_no_op() {
    let mut target = vec![0xAAu8, 0x55u8];
    let source = vec![0xFFu8];
    bit_write(&mut target, 3, 0, &source, 1);
    assert_eq!(target, [0xAA, 0x55]);
    membitcpy(&mut target, 3, 0, &source, 2);
    assert_eq!(target, [0xAA, 0x55]);
    bit_clean(&mut target, 3, 0);
    assert_eq!(target, [0xAA, 0x55]);
    bit_read(&source, 2, 0, &mut target, 2);
    assert_eq!(target, [0xAA, 0x55]);
    assert!(is_in_range(0, &source, 1));
}

#[test]
fn zero_length_buffers() {
    let mut target: Vec<u8> = vec![];
    let source: Vec<u8> = vec![];
    bit_write(&mut target, 0, 0, &source, 0);
    bit_clean(&mut target, 0, 0);
    assert!(is_in_range(0, &source, 0));
    assert_eq!(target, Vec::<u8>::new());
}

#[test]
fn whole_buffer_spans() {
    let mut target = vec![0u8; 2];
    let source = vec![0xA5u8, 0x5Au8];
    bit_write(&mut target, 0, 16, &source, 2);
    assert_eq!(target, [0xA5, 0x5A]);
    bit_clean(&mut target, 0, 16);
    assert_eq!(target, [0x00, 0x00]);
}

#[test]
fn writer_discards_leading_source_bits() {
    // Only the low 3 bits of the source matter; the high bits are
    // silently discarded.
    let mut target = vec![0u8; 1];
    let source = vec![0xFFu8, 0b11111101u8];
    bit_write(&mut target, 0, 3, &source, 2);
    assert_eq!(target, [0b10100000]);
}

#[test]
fn saturating_shifts_vanish() {
    assert_eq!(bitbuf::ops::shl_saturating(0xFF, 8), 0);
    assert_eq!(bitbuf::ops::shr_saturating(0xFF, 8), 0);
    assert_eq!(bitbuf::ops::shl_saturating(0b00000001, 3), 0b00001000);
    assert_eq!(bitbuf::ops::shr_saturating(0b10000000, 3), 0b00010000);
}
