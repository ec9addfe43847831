use bitmap::file_header::FileHeader;
use bitmap::info_header::InfoHeader;
use bitmap::util::{
    bits_from_i32, byte_slice_from_u16, byte_slice_from_u32, byte_slice_to_u16,
    byte_slice_to_u32, i32_from_bits, BmpError,
};

#[test]
fn little_endian_reads_advance_cursor() {
    let b = [0x34u8, 0x12, 0x78, 0x56, 0x34, 0x12];
    let mut i: usize = 0;
    assert_eq!(byte_slice_to_u16(&b, &mut i), Ok(0x1234));
    assert_eq!(i, 2);
    assert_eq!(byte_slice_to_u32(&b, &mut i), Ok(0x12345678));
    assert_eq!(i, 6);
    assert_eq!(byte_slice_to_u16(&b, &mut i), Err(BmpError::Truncated));
    assert_eq!(i, 6);
    let mut j: usize = 3;
    assert_eq!(byte_slice_to_u32(&b, &mut j), Err(BmpError::Truncated));
    assert_eq!(j, 3);
}

#[test]
fn little_endian_writes() {
    assert_eq!(byte_slice_from_u16(0xabcd), [0xcd, 0xab]);
    assert_eq!(byte_slice_from_u32(0x0102_0304), [4, 3, 2, 1]);
    assert_eq!(i32_from_bits(0xffff_fffe), -2);
    assert_eq!(bits_from_i32(-2), 0xffff_fffe);
    assert_eq!(bits_from_i32(i32::MIN), 0x8000_0000);
    assert_eq!(i32_from_bits(7), 7);
}

#[test]
fn file_header_round_trip() {
    let h = FileHeader::new(70, 62);
    let bytes = h.as_bytes();
    assert_eq!(bytes, vec![b'B', b'M', 70, 0, 0, 0, 0, 0, 0, 0, 62, 0, 0, 0]);
    let g = FileHeader::stream(&bytes).unwrap();
    assert_eq!(g.get_off_bits(), 62);
    assert_eq!(g.get_size(), 70);
    assert!(g.has_valid_magic());
    assert_eq!(g.get_file_header_byte_size(), 14);
    assert_eq!(g.as_bytes(), bytes);
}

#[test]
fn file_header_short_stream() {
    assert!(matches!(FileHeader::stream(&[b'B', b'M', 0, 0]), Err(BmpError::Truncated)));
    let g = FileHeader::stream(b"XX000000000000").unwrap();
    assert!(!g.has_valid_magic());
}

#[test]
fn info_header_round_trip_and_colors_used() {
    let h = InfoHeader::new(3, -2, 8, 24, 0);
    let bytes = h.as_bytes();
    assert_eq!(bytes.len(), 40);
    assert_eq!(&bytes[0..4], &[40, 0, 0, 0]);
    assert_eq!(&bytes[8..12], &[0xfe, 0xff, 0xff, 0xff]);
    let g = InfoHeader::stream(&bytes, 0).unwrap();
    assert_eq!(g.get_width(), 3);
    assert_eq!(g.get_height(), -2);
    assert_eq!(g.get_bit_count(), 8);
    assert_eq!(g.get_colors_used(), 256);
    assert_eq!(g.as_bytes(), bytes);
    assert_eq!(InfoHeader::new(1, 1, 1, 0, 0).get_colors_used(), 2);
    assert_eq!(InfoHeader::new(1, 1, 4, 0, 0).get_colors_used(), 16);
    assert_eq!(InfoHeader::new(1, 1, 4, 0, 5).get_colors_used(), 5);
    assert_eq!(InfoHeader::new(1, 1, 24, 0, 0).get_colors_used(), 0);
}

#[test]
fn info_header_longer_variant_keeps_trailing_bytes() {
    let mut bytes = InfoHeader::new(1, 1, 24, 4, 0).as_bytes();
    bytes[0] = 52;
    bytes.extend_from_slice(&[1, 2, 3, 4, 5, 6, 7, 8, 9, 10, 11, 12]);
    let g = InfoHeader::stream(&bytes, 0).unwrap();
    assert_eq!(g.get_info_size(), 52);
    assert_eq!(g.extra, vec![1, 2, 3, 4, 5, 6, 7, 8, 9, 10, 11, 12]);
    assert_eq!(g.as_bytes(), bytes);
    bytes.pop();
    assert!(matches!(InfoHeader::stream(&bytes, 0), Err(BmpError::Truncated)));
}

#[test]
fn info_header_too_short_variant() {
    let mut bytes = InfoHeader::new(1, 1, 24, 4, 0).as_bytes();
    bytes[0] = 12;
    assert!(matches!(InfoHeader::stream(&bytes, 0), Err(BmpError::UnsupportedHeader)));
    assert!(matches!(InfoHeader::stream(&bytes[..39], 0), Err(BmpError::Truncated)));
}
