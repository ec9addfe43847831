use bitmap::bit_depth::BitDepth;
use bitmap::codec::encode;
use bitmap::decode::decode;
use bitmap::image::BitMap;
use bitmap::pixel_data::row_stride;
use bitmap::rgba::Rgba;
use bitmap::util::BmpError;

fn black() -> Rgba {
    Rgba::rgba(0, 0, 0, 0)
}

fn white() -> Rgba {
    Rgba::rgba(255, 255, 255, 0)
}

fn le32(b: &[u8], i: usize) -> u32 {
    u32::from_le_bytes([b[i], b[i + 1], b[i + 2], b[i + 3]])
}

#[test]
fn monochrome_two_by_two() {
    let bm = BitMap::new(2, 2, vec![black(), white(), white(), black()]).unwrap();
    let bytes = encode(&bm, BitDepth::BW).unwrap();
    let padded = 2 * row_stride(2, BitDepth::BW) as u32;
    assert_eq!(padded, 8);
    assert_eq!(le32(&bytes, 2), 14 + 40 + 8 + padded);
    assert_eq!(bytes.len(), 70);
    assert_eq!(le32(&bytes, 10), 62);
    assert_eq!(&bytes[54..62], &[0, 0, 0, 0, 255, 255, 255, 0]);
    assert_eq!(&bytes[62..70], &[0x40, 0, 0, 0, 0x80, 0, 0, 0]);
    let img = decode(&bytes).unwrap();
    assert_eq!(img.bit_depth, BitDepth::BW);
    assert_eq!(img.bitmap.get_width(), 2);
    assert_eq!(img.bitmap.get_height(), 2);
    assert_eq!(img.bitmap.pixels, vec![black(), white(), white(), black()]);
}

#[test]
fn bad_magic_is_rejected() {
    let mut bytes = encode(&BitMap::new(1, 1, vec![white()]).unwrap(), BitDepth::TrueColor).unwrap();
    bytes[0] = b'X';
    bytes[1] = b'X';
    assert!(matches!(decode(&bytes), Err(BmpError::InvalidMagic)));
    assert!(matches!(decode(b"XX"), Err(BmpError::InvalidMagic)));
    assert!(matches!(decode(b"B"), Err(BmpError::Truncated)));
}

#[test]
fn round_trip_every_depth() {
    let px: Vec<Rgba> = (0..15u8)
        .map(|i| Rgba::rgba(i * 16, 255 - i * 8, i * 3, if i % 2 == 0 { 0 } else { 0 }))
        .collect();
    for d in [
        BitDepth::BW,
        BitDepth::Color16Bit,
        BitDepth::Color256Bit,
        BitDepth::HighColor,
        BitDepth::TrueColor,
        BitDepth::TrueColorAlpha,
    ] {
        let src: Vec<Rgba> = if d == BitDepth::BW {
            (0..15).map(|i| if i % 3 == 0 { black() } else { white() }).collect()
        } else {
            px.clone()
        };
        let bm = BitMap::new(5, 3, src).unwrap();
        let bytes = encode(&bm, d).unwrap();
        let img = decode(&bytes).unwrap();
        assert_eq!(img.bit_depth, d);
        let again = encode(&img.bitmap, img.bit_depth).unwrap();
        assert_eq!(again, bytes);
    }
}

#[test]
fn true_color_pixels_survive() {
    let px = vec![
        Rgba::rgba(1, 2, 3, 255),
        Rgba::rgba(4, 5, 6, 255),
        Rgba::rgba(7, 8, 9, 255),
    ];
    let bm = BitMap::new(3, 1, px.clone()).unwrap();
    let bytes = encode(&bm, BitDepth::TrueColor).unwrap();
    assert_eq!(bytes.len(), 54 + 12);
    assert_eq!(&bytes[54..66], &[3, 2, 1, 6, 5, 4, 9, 8, 7, 0, 0, 0]);
    assert_eq!(decode(&bytes).unwrap().bitmap.pixels, px);
}

#[test]
fn high_color_packs_five_bits() {
    let bm = BitMap::new(1, 1, vec![Rgba::rgba(255, 8, 16, 9)]).unwrap();
    let bytes = encode(&bm, BitDepth::HighColor).unwrap();
    let v: u16 = 31 * 1024 + 1 * 32 + 2;
    assert_eq!(&bytes[54..58], &[(v % 256) as u8, (v / 256) as u8, 0, 0]);
    let img = decode(&bytes).unwrap();
    assert_eq!(img.bitmap.pixels, vec![Rgba::rgba(248, 8, 16, 255)]);
}

#[test]
fn four_bit_packs_two_per_byte() {
    let px = vec![Rgba::rgba(1, 0, 0, 0), Rgba::rgba(2, 0, 0, 0), Rgba::rgba(3, 0, 0, 0)];
    let bm = BitMap::new(3, 1, px).unwrap();
    let bytes = encode(&bm, BitDepth::Color16Bit).unwrap();
    assert_eq!(le32(&bytes, 46), 3);
    assert_eq!(&bytes[66..70], &[0x01, 0x20, 0, 0]);
}

#[test]
fn palette_overflow_at_eight_bits() {
    let px: Vec<Rgba> = (0..257u32).map(|i| Rgba::rgba((i % 256) as u8, (i / 256) as u8, 0, 0)).collect();
    let bm = BitMap::new(257, 1, px).unwrap();
    assert!(matches!(encode(&bm, BitDepth::Color256Bit), Err(BmpError::PaletteOverflow)));
    assert!(encode(&bm, BitDepth::TrueColor).is_ok());
    let px: Vec<Rgba> = (0..256u32).map(|i| Rgba::rgba(i as u8, 0, 0, 0)).collect();
    let bm = BitMap::new(256, 1, px).unwrap();
    assert!(encode(&bm, BitDepth::Color256Bit).is_ok());
    let bm = BitMap::new(3, 1, vec![black(), white(), Rgba::rgba(1, 1, 1, 0)]).unwrap();
    assert!(matches!(encode(&bm, BitDepth::BW), Err(BmpError::PaletteOverflow)));
}

#[test]
fn rows_padded_to_four_bytes() {
    assert_eq!(row_stride(1, BitDepth::TrueColor), 4);
    assert_eq!(row_stride(5, BitDepth::TrueColor), 16);
    assert_eq!(row_stride(3, BitDepth::HighColor), 8);
    assert_eq!(row_stride(33, BitDepth::BW), 8);
    assert_eq!(row_stride(9, BitDepth::Color16Bit), 8);
    assert_eq!(row_stride(4, BitDepth::TrueColorAlpha), 16);
    assert_eq!(row_stride(0, BitDepth::TrueColor), 0);
    let bm = BitMap::new(5, 2, vec![white(); 10]).unwrap();
    let bytes = encode(&bm, BitDepth::TrueColor).unwrap();
    assert_eq!(bytes.len(), 54 + 2 * 16);
    assert_eq!(&bytes[54 + 15..54 + 16], &[0]);
}

#[test]
fn top_down_rows_are_flipped() {
    let bm = BitMap::new(1, 2, vec![black(), white()]).unwrap();
    let mut bytes = encode(&bm, BitDepth::TrueColor).unwrap();
    let h = (-2i32).to_le_bytes();
    bytes[22..26].copy_from_slice(&h);
    let img = decode(&bytes).unwrap();
    assert_eq!(img.bitmap.get_height(), 2);
    assert_eq!(img.bitmap.pixels, vec![Rgba::rgba(255, 255, 255, 255), Rgba::rgba(0, 0, 0, 255)]);
}

#[test]
fn decode_errors() {
    let bm = BitMap::new(2, 1, vec![black(), white()]).unwrap();
    let good = encode(&bm, BitDepth::BW).unwrap();
    assert!(matches!(decode(&good[..20]), Err(BmpError::Truncated)));
    assert!(matches!(decode(&good[..good.len() - 1]), Err(BmpError::Truncated)));
    let mut b = good.clone();
    b[30] = 1;
    assert!(matches!(decode(&b), Err(BmpError::UnsupportedCompression)));
    let mut b = good.clone();
    b[28] = 2;
    assert!(matches!(decode(&b), Err(BmpError::UnsupportedBitDepth)));
    let mut b = good.clone();
    b[18..22].copy_from_slice(&(-1i32).to_le_bytes());
    assert!(matches!(decode(&b), Err(BmpError::InvalidDimensions)));
    let mut b = good.clone();
    b[14] = 12;
    assert!(matches!(decode(&b), Err(BmpError::UnsupportedHeader)));
    let mut b = good.clone();
    b[46] = 1;
    b[62] = 0xc0;
    assert!(matches!(decode(&b), Err(BmpError::InvalidPaletteIndex)));
    let mut b = good.clone();
    b[46] = 200;
    assert!(matches!(decode(&b), Err(BmpError::Truncated)));
}

#[test]
fn bitmap_new_checks_size() {
    assert!(BitMap::new(2, 2, vec![black(); 3]).is_none());
    let bm = BitMap::new(2, 1, vec![black(), white()]).unwrap();
    assert_eq!(bm.get_pixel(1, 0), white());
    assert_eq!(bm.get_all_unique_colors(), vec![black(), white()]);
}
