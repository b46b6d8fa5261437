use bitbuf::{bit_clean, bit_read, bit_write, bits_to_max_hold, is_in_range, membitcpy};

#[test]
fn check_bits_to_max_hold() {
    assert_eq!(63, bits_to_max_hold(6));
}

#[test]
fn check_pf() {
    let source = vec![0b00000000u8, 0b00011111u8];
    assert!(!is_in_range(4, &source, source.len()));
    assert!(is_in_range(5, &source, source.len()));
}

#[test]
fn check_eb() {
    let source = vec![0b00001000u8, 0b00011111u8];
    assert!(!is_in_range(5, &source, source.len()));
}

#[test]
fn bitwrite_check_intersection() {
    let mut target = vec![0u8; 2];
    let source = vec![
        0b00000000, 0b00000000, 0b00000000, 0b00000000, 0b00000000, 0b00000000, 0b00000111,
        0b11111111,
    ];

    bit_write(&mut target, 4, 11, &source, source.len());
    assert_eq!(target, [0b00001111, 0b11111110]);
}

#[test]
fn bitwrite_check_small() {
    let mut target = vec![0u8; 2];
    let source = vec![
        0b00000000, 0b00000000, 0b00000000, 0b00000000, 0b00000000, 0b00000000, 0b00000000,
        0b00000111,
    ];

    bit_write(&mut target, 3, 3, &source, source.len());
    assert_eq!(target, [0b00011100, 0b00000000]);
}

#[test]
fn check_intersection() {
    let mut target = vec![0b00000111, 0b11111111, 0b11100000, 0b00000000];

    bit_clean(&mut target, 5, 3 + 8 + 3);
    let expected = vec![0b00000000, 0b00000000, 0b00000000, 0b00000000];
    assert_eq!(expected, target);
}

#[test]
fn check_without_last() {
    let mut target = vec![0b00000111, 0b11111111, 0b11100000, 0b00000000];

    bit_clean(&mut target, 5, 3 + 8);
    let expected = vec![0b00000000, 0b00000000, 0b11100000, 0b00000000];
    assert_eq!(expected, target);
}

#[test]
fn check_one_byte_small() {
    let mut target = vec![0b00000111, 0b11111111, 0b11100000, 0b00000000];

    bit_clean(&mut target, 11, 3);
    let expected = vec![0b00000111, 0b11100011, 0b11100000, 0b00000000];

    assert_eq!(expected, target)
}

#[test]
fn check_last_start() {
    let mut target = vec![0b00000111, 0b11111111, 0b11100000, 0b00000000];

    bit_clean(&mut target, 16, 3);
    let expected = vec![0b00000111, 0b11111111, 0b00000000, 0b00000000];

    assert_eq!(expected, target)
}

#[test]
fn check_last_end() {
    let mut target = vec![0b00000111, 0b11111111, 0b00000111, 0b00000000];

    bit_clean(&mut target, 21, 3);
    let expected = vec![0b00000111, 0b11111111, 0b00000000, 0b00000000];

    assert_eq!(expected, target)
}

#[test]
fn check_first_filled() {
    let mut target = vec![0b11111111, 0b11111111, 0b11111111, 0b00000000];

    bit_clean(&mut target, 0, 16);
    let expected = vec![0b00000000, 0b00000000, 0b11111111, 0b00000000];

    assert_eq!(expected, target)
}

#[test]
fn lib_check_intersection() {
    let mut target = vec![0u8; 2];
    let source = vec![
        0b00000000, 0b00000000, 0b00000000, 0b00000000, 0b00000000, 0b00000000, 0b00000100,
        0b11111011,
    ];

    let recordable_bit_size = 11;
    let source_bit_offset = source.len() * 8 - recordable_bit_size;
    membitcpy(&mut target, 4, recordable_bit_size, &source, source_bit_offset);
    assert_eq!(target, [0b00001001, 0b11110110]);
}

#[test]
fn heck_small() {
    let mut target = vec![0u8; 2];
    let source = vec![
        0b00000000, 0b00000000, 0b00000000, 0b00000000, 0b00000000, 0b00000000, 0b00000000,
        0b00000111,
    ];

    let recordable_bit_size = 3;
    let source_bit_offset = source.len() * 8 - recordable_bit_size;
    membitcpy(&mut target, 3, recordable_bit_size, &source, source_bit_offset);
    assert_eq!(target, [0b00011100, 0b00000000]);
}

#[test]
fn heck_custom_offset_small() {
    let mut target = vec![0u8; 2];
    let source = vec![
        0b00000000, 0b00000000, 0b00000000, 0b00000000, 0b00000000, 0b00000000, 0b00111000,
        0b00000000,
    ];

    let source_bit_offset = 6 * 8 + 2;
    membitcpy(&mut target, 3, 3, &source, source_bit_offset);
    assert_eq!(target, [0b00011100, 0b00000000]);
}

#[test]
fn check_custom_offset_intersection() {
    let mut target = vec![0u8; 2];
    let source = vec![
        0b00000000, 0b00000000, 0b10011111, 0b11100000, 0b00000000, 0b00000000, 0b00000000,
        0b00000000,
    ];

    let source_bit_offset = 16;
    membitcpy(&mut target, 4, 11, &source, source_bit_offset);

    assert_eq!(target, [0b00001001, 0b11111110]);
}

#[test]
fn check() {
    let source = vec![
        0b00000000, 0b00000111, 0b11111111, 0b00000000, 0b00000000, 0b00000000, 0b00000000,
        0b00000000,
    ];
    let mut target = vec![0u8; 2];
    let target_len = target.len();

    bit_read(&source, 8 + 5, 11, &mut target, target_len);
    assert_eq!(target, [0b00000111, 0b11111111]);
}
