use bits::bitfield::{BitField, BitFieldError};

// Packing scenarios with exact byte layouts (big-endian byte order, MSB-first
// bit numbering).

#[test]
fn insert_aligned_fills_all_bytes() {
    let mut bf = BitField::with_capacity(4);
    assert!(bf.insert_u64(0xa5a5a5a5, 0, 31).is_ok());
    assert_eq!(bf.as_slice(), &[0xa5, 0xa5, 0xa5, 0xa5][..]);
}

#[test]
fn insert_unaligned_packs_between_byte_boundaries() {
    let mut bf = BitField::with_capacity(4);
    assert!(bf.insert_u64(0xa5a5a5a5, 5, 27).is_ok());
    assert_eq!(bf.as_slice(), &[0x02, 0x5a, 0x5a, 0x50][..]);
}

#[test]
fn retrieve_unaligned_reads_across_bytes() {
    let bf = BitField::from_slice(&[0xa5, 0xa5, 0xa5, 0xa5]);
    assert_eq!(bf.retrieve_u64(5, 27).unwrap(), 0x005a5a5a);
}

#[test]
fn insert_beyond_buffer_is_invalid_index() {
    let mut bf = BitField::with_capacity(4);
    assert!(matches!(
        bf.insert_u64(0xa5a5a5a5, 16, 47),
        Err(BitFieldError::InvalidIndex)
    ));
    // A failed insert leaves the buffer untouched.
    assert_eq!(bf.as_slice(), &[0, 0, 0, 0][..]);
}

#[test]
fn single_bit_and_single_byte_ranges() {
    let mut bf = BitField::with_capacity(2);
    assert!(bf.insert_u64(1, 3, 3).is_ok());
    assert_eq!(bf.as_slice(), &[0x10, 0x00][..]);
    assert_eq!(bf.retrieve_u64(3, 3).unwrap(), 1);
    assert_eq!(bf.retrieve_u64(0, 7).unwrap(), 0x10);

    // A range that stops at the last bit of a byte needs no final shift.
    let mut bf2 = BitField::with_capacity(2);
    assert!(bf2.insert_u64(0x3f, 2, 7).is_ok());
    assert_eq!(bf2.as_slice(), &[0x3f, 0x00][..]);
}

#[test]
fn insert_masks_high_bits_of_value() {
    let mut bf = BitField::with_capacity(1);
    // Only the low 2 bits of 6 (binary 0110) fit bits 5..=6: 10 binary.
    assert!(bf.insert_u64(6, 5, 6).is_ok());
    assert_eq!(bf.as_slice(), &[0x04][..]);
    assert_eq!(bf.retrieve_u64(5, 6).unwrap(), 2);
}

#[test]
fn round_trip_returns_masked_value() {
    let mut bf = BitField::with_capacity(10);
    assert!(bf.insert_u64(0xfff, 10, 13).is_ok());
    assert_eq!(bf.retrieve_u64(10, 13).unwrap(), 0xf);
    assert!(bf.insert_u64(0x3ff, 21, 30).is_ok());
    assert_eq!(bf.retrieve_u64(21, 30).unwrap(), 0x3ff);
}

#[test]
fn insert_preserves_bits_outside_the_range() {
    let mut bf = BitField::from_slice(&[0xff, 0xff]);
    assert!(bf.insert_u64(0, 4, 11).is_ok());
    assert_eq!(bf.as_slice(), &[0xf0, 0x0f][..]);
}

// Error taxonomy.

#[test]
fn negative_range_is_rejected() {
    let mut bf = BitField::with_capacity(4);
    assert!(matches!(
        bf.insert_u64(1, 5, 3),
        Err(BitFieldError::NegativeRange)
    ));
    assert!(matches!(
        bf.retrieve_u64(5, 3),
        Err(BitFieldError::NegativeRange)
    ));
}

#[test]
fn retrieve_beyond_buffer_is_invalid_index() {
    let bf = BitField::with_capacity(4);
    assert!(matches!(
        bf.retrieve_u64(16, 47),
        Err(BitFieldError::InvalidIndex)
    ));
}

#[test]
fn ranges_wider_than_the_type_are_rejected() {
    let mut bf = BitField::with_capacity(16);
    assert!(matches!(
        bf.insert_u64(0, 0, 64),
        Err(BitFieldError::ExceededDataRange)
    ));
    assert!(matches!(
        bf.retrieve_u64(0, 64),
        Err(BitFieldError::ExceededDataRange)
    ));
    assert!(matches!(
        bf.insert_u32(0, 0, 32),
        Err(BitFieldError::ExceededDataRange)
    ));
    assert!(matches!(
        bf.retrieve_u32(0, 32),
        Err(BitFieldError::ExceededDataRange)
    ));
    assert!(matches!(
        bf.insert_u16(0, 0, 16),
        Err(BitFieldError::ExceededDataRange)
    ));
    assert!(matches!(
        bf.retrieve_u16(0, 16),
        Err(BitFieldError::ExceededDataRange)
    ));
    assert!(matches!(
        bf.insert_u8(0, 0, 8),
        Err(BitFieldError::ExceededDataRange)
    ));
    assert!(matches!(
        bf.retrieve_u8(0, 8),
        Err(BitFieldError::ExceededDataRange)
    ));
}

#[test]
fn width_checked_accessors_round_trip_at_full_width() {
    let mut bf = BitField::with_capacity(16);
    assert!(bf.insert_u8(0xa5, 0, 7).is_ok());
    assert_eq!(bf.retrieve_u8(0, 7).unwrap(), 0xa5);
    assert!(bf.insert_u16(0xbeef, 8, 23).is_ok());
    assert_eq!(bf.retrieve_u16(8, 23).unwrap(), 0xbeef);
    assert!(bf.insert_u32(0xdeadbeef, 24, 55).is_ok());
    assert_eq!(bf.retrieve_u32(24, 55).unwrap(), 0xdeadbeef);
    assert!(bf.insert_uint(0x15, 56, 60).is_ok());
    assert_eq!(bf.retrieve_uint(56, 60).unwrap(), 0x15);
}

// Bitwise combinators.

#[test]
fn and_of_unequal_buffers_zero_fills_the_front() {
    let a = BitField::from_slice(&[0xa5, 0xa5]);
    let b = BitField::from_slice(&[0xcc, 0xcc, 0xcc, 0xcc]);
    assert_eq!(a.bitand(&b).as_slice(), &[0x00, 0x00, 0x84, 0x84][..]);
    assert_eq!(b.bitand(&a).as_slice(), &[0x00, 0x00, 0x84, 0x84][..]);
}

#[test]
fn or_and_xor_of_unequal_buffers_copy_the_front() {
    let a = BitField::from_slice(&[0xa5, 0xa5]);
    let b = BitField::from_slice(&[0xcc, 0xcc, 0xcc, 0xcc]);
    assert_eq!(a.bitor(&b).as_slice(), &[0xcc, 0xcc, 0xed, 0xed][..]);
    assert_eq!(a.bitxor(&b).as_slice(), &[0xcc, 0xcc, 0x69, 0x69][..]);
}

#[test]
fn combinators_with_an_empty_operand() {
    let a = BitField::new();
    let b = BitField::from_slice(&[0xa5, 0x5a]);
    assert_eq!(a.bitand(&b).as_slice(), &[0x00, 0x00][..]);
    assert_eq!(b.bitand(&a).as_slice(), &[0x00, 0x00][..]);
    assert_eq!(a.bitor(&b).as_slice(), &[0xa5, 0x5a][..]);
    assert_eq!(a.bitxor(&b).as_slice(), &[0xa5, 0x5a][..]);
    assert!(a.bitand(&a).is_empty());
}

#[test]
fn not_complements_every_byte() {
    let a = BitField::from_slice(&[0xa5, 0x00, 0xff]);
    assert_eq!(a.not().as_slice(), &[0x5a, 0xff, 0x00][..]);
}

#[test]
fn double_negation_restores_the_buffer() {
    let a = BitField::from_slice(&[0xa5, 0x00, 0xff, 0x13]);
    assert!(a.not().not() == a);
}

// Shifts.

#[test]
fn shift_by_zero_is_identity() {
    let a = BitField::from_slice(&[0xa5, 0xa5, 0xa5, 0xa5]);
    assert!(a.shr(0) == a);
    assert!(a.shl(0) == a);
}

#[test]
fn shift_discards_bits_and_keeps_length() {
    let a = BitField::from_slice(&[0xa5, 0xa5, 0xa5, 0xa5]);
    assert_eq!(a.shr(7).as_slice(), &[0x01, 0x4b, 0x4b, 0x4b][..]);
    assert_eq!(a.shl(7).as_slice(), &[0xd2, 0xd2, 0xd2, 0x80][..]);

    let b = BitField::from_slice(&[0xff, 0x00]);
    assert_eq!(b.shr(3).as_slice(), &[0x1f, 0xe0][..]);
    assert_eq!(b.shl(3).as_slice(), &[0xf8, 0x00][..]);
}

#[test]
fn shift_past_the_end_clears_the_buffer() {
    let a = BitField::from_slice(&[0xa5, 0xa5]);
    assert_eq!(a.shr(16).as_slice(), &[0x00, 0x00][..]);
    assert_eq!(a.shl(16).as_slice(), &[0x00, 0x00][..]);
    assert_eq!(a.shr(usize::MAX).as_slice(), &[0x00, 0x00][..]);
}

// Storage.

#[test]
fn storage_lifecycle() {
    let mut bf = BitField::new();
    assert!(bf.is_empty());
    assert_eq!(bf.len(), 0);
    bf.grow(3);
    assert_eq!(bf.len(), 3);
    assert_eq!(bf.as_slice(), &[0, 0, 0][..]);
    bf.set_byte(1, 0x7e);
    assert_eq!(bf.index(1), 0x7e);
    assert_eq!(bf.as_slice(), &[0, 0x7e, 0][..]);
    bf.clear();
    assert!(bf.is_empty());

    let cap = BitField::with_capacity(2);
    assert_eq!(cap.len(), 2);
    assert!(!cap.is_empty());
}

// Display collaborators.

#[test]
fn debug_string_renders_four_byte_rows() {
    let bf = BitField::from_slice(&[0xa5, 0x00, 0x00, 0x00]);
    let expected = "Offset  Binary                                Hex      \n\
                    =======================================================\n\
                    000000: 10100101 00000000 00000000 00000000   a500 0000\n";
    assert_eq!(bf.debug_string(), expected);
}

#[test]
fn debug_string_renders_a_partial_row() {
    let bf = BitField::from_slice(&[0xa5, 0x01]);
    let expected = "Offset  Binary                                Hex      \n\
                    =======================================================\n\
                    000000: 10100101 00000001                     a501     \n";
    assert_eq!(bf.debug_string(), expected);
}

#[test]
fn hex_string_groups_byte_pairs() {
    let bf = BitField::from_slice(&[0xa5, 0xa5, 0xa5, 0xa5]);
    assert_eq!(bf.hex_string(), "a5a5 a5a5");
    let odd = BitField::from_slice(&[0xa5, 0xa5, 0x5a]);
    assert_eq!(odd.hex_string(), "a5a5 5a");
    let empty = BitField::new();
    assert_eq!(empty.hex_string(), "");
}
