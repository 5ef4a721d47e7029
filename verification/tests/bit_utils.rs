//! Bit-array scans, bit-range updates and alignment helpers.

use sunrise_kernel::utils::{
    align_down,
    align_up,
    align_up_checked,
    bit_array_first_count_one,
    bit_array_first_one,
    bit_array_first_zero,
    div_ceil,
    print_hexdump,
    print_hexdump_as_if_at_addr,
    BitArrayExt,
    BitBound,
    BitFieldExt,
};

#[test]
fn test_set_bits_area_array_unbounded() {
    let mut arr: Vec<u32> = vec![0u32; 4];

    arr.set_bits_area(BitBound::Unbounded, BitBound::Unbounded, true);
    assert_eq!(arr, vec![0xFFFFFFFFu32; 4]);

    arr.set_bits_area(BitBound::Unbounded, BitBound::Unbounded, false);
    assert_eq!(arr, vec![0u32; 4]);
}

#[test]
fn test_set_bits_area_array_bounded() {
    let mut arr: Vec<u32> = vec![0u32; 4];

    arr.set_bits_area(BitBound::Included(0), BitBound::Excluded(4), true);
    assert_eq!(arr, vec![0xF, 0, 0, 0]);

    arr.set_bits_area(BitBound::Included(32), BitBound::Excluded(33), true);
    assert_eq!(arr, vec![0xF, 1, 0, 0]);

    let bit_len = arr.len() * core::mem::size_of::<u32>() * 8;
    arr.set_bits_area(BitBound::Included(bit_len - 1), BitBound::Excluded(bit_len), true);
}

#[test]
#[should_panic]
fn test_set_bits_area_array_bounded_panics_oob() {
    let mut arr: Vec<u32> = vec![0u32; 4];
    let bit_len = arr.len() * core::mem::size_of::<u32>() * 8;
    arr.set_bits_area(BitBound::Included(bit_len), BitBound::Excluded(bit_len + 1), true);
}

#[test]
fn test_set_bits_area_array_left_right_bounds() {
    let mut arr: Vec<u32> = vec![0u32; 4];

    // check right-bounded
    // check setting last bit
    let len = arr.len();
    arr.set_bits_area(
        BitBound::Unbounded,
        BitBound::Excluded(len * core::mem::size_of::<u32>() * 8),
        true,
    );
    assert_eq!(arr, vec![0xFFFFFFFFu32; 4]);

    // check left-bounded
    arr.set_bits_area(
        BitBound::Included(len * core::mem::size_of::<u32>() * 8 - 1),
        BitBound::Unbounded,
        false,
    );
    assert_eq!(arr, vec![0xFFFFFFFF, 0xFFFFFFFF, 0xFFFFFFFF, 0x7FFFFFFF]);
}

#[test]
fn test_set_bits_area_array_inclusive() {
    let mut arr: Vec<u32> = vec![0u32; 4];

    arr.set_bits_area(BitBound::Included(0), BitBound::Included(0), true);
    assert_eq!(arr, vec![1, 0, 0, 0]);

    let bit_len = arr.len() * core::mem::size_of::<u32>() * 8;
    arr.set_bits_area(BitBound::Included(bit_len - 1), BitBound::Included(bit_len - 1), true);
    assert_eq!(arr, vec![1, 0, 0, 0x80000000]);
}

#[test]
fn test_set_bits_area_excluded_zero_end_is_empty() {
    let mut arr: Vec<u32> = vec![0u32; 2];
    arr.set_bits_area(BitBound::Unbounded, BitBound::Excluded(0), true);
    assert_eq!(arr, vec![0, 0]);
}

#[test]
fn test_set_bits_area_single_word() {
    let mut w: u32 = 0;
    w.set_bits_area(BitBound::Included(4), BitBound::Included(7), true);
    assert_eq!(w, 0xF0);
    w.set_bits_area(BitBound::Included(5), BitBound::Excluded(7), false);
    assert_eq!(w, 0x90);
    w.set_bits_area(BitBound::Unbounded, BitBound::Unbounded, true);
    assert_eq!(w, 0xFFFFFFFF);
}

#[test]
fn test_bit_array_first_zero() {
    assert_eq!(bit_array_first_zero(&[0xFF, 0xFB]), Some(10));
    assert_eq!(bit_array_first_zero(&[0x00]), Some(0));
    assert_eq!(bit_array_first_zero(&[0xFF, 0xFF]), None);
    assert_eq!(bit_array_first_zero(&[]), None);
}

#[test]
fn test_bit_array_first_one() {
    assert_eq!(bit_array_first_one(&[0x00, 0x10]), Some(12));
    assert_eq!(bit_array_first_one(&[0x01]), Some(0));
    assert_eq!(bit_array_first_one(&[0x00, 0x00]), None);
    assert_eq!(bit_array_first_one(&[]), None);
}

#[test]
fn test_bit_array_first_count_one() {
    assert_eq!(bit_array_first_count_one(&[0b0011_1100], 3), Some(2));
    assert_eq!(bit_array_first_count_one(&[0b0011_1100], 4), Some(2));
    assert_eq!(bit_array_first_count_one(&[0b0011_1100], 5), None);
    // A run crossing a byte boundary.
    assert_eq!(bit_array_first_count_one(&[0x80, 0x03], 3), Some(7));
    // Interrupted early runs are skipped.
    assert_eq!(bit_array_first_count_one(&[0b0110_1101], 2), Some(2));
    assert_eq!(bit_array_first_count_one(&[0xFF], 0), None);
    assert_eq!(bit_array_first_count_one(&[], 1), None);
}

#[test]
fn test_align_helpers() {
    assert_eq!(align_down(0x1234, 0x1000), 0x1000);
    assert_eq!(align_down(0x1000, 0x1000), 0x1000);
    assert_eq!(align_up(0x1234, 0x1000), 0x2000);
    assert_eq!(align_up(0x1000, 0x1000), 0x1000);
    assert_eq!(align_up_checked(0x1234, 0x1000), Some(0x2000));
    assert_eq!(align_up_checked(0x2000, 0x1000), Some(0x2000));
    assert_eq!(align_up_checked(usize::MAX - 1, 0x1000), None);
}

#[test]
fn test_div_ceil() {
    // Counts the number of pages needed to store 0x3002 bytes.
    assert_eq!(div_ceil(0x3002, 0x1000), 4);
    assert_eq!(div_ceil(0x3000, 0x1000), 3);
    assert_eq!(div_ceil(0, 0x1000), 0);
    assert_eq!(div_ceil(1, 1), 1);
}

#[test]
fn test_hexdump_single_line() {
    let mut out: Vec<u8> = Vec::new();
    print_hexdump(&mut out, b"Hello");
    let expected = "0x0: 4865 6c6c 6f                             Hello\n";
    assert_eq!(String::from_utf8(out).unwrap(), expected);
}

#[test]
fn test_hexdump_two_lines_and_addresses() {
    let mut out: Vec<u8> = Vec::new();
    print_hexdump_as_if_at_addr(&mut out, b"Hello, world!\x00\x01\x02\x7f", 0x1000);
    let expected = "0x1000: 4865 6c6c 6f2c 2077 6f72 6c64 2100 0102  Hello,.world!...\n0x1010: 7f                                       .\n";
    assert_eq!(String::from_utf8(out).unwrap(), expected);
}

#[test]
fn test_hexdump_empty() {
    let mut out: Vec<u8> = Vec::new();
    print_hexdump(&mut out, b"");
    assert!(out.is_empty());
}
