use bitmap::bit_depth::BitDepth;
use bitmap::file_header::FileHeader;
use bitmap::image::BitMap;
use bitmap::info_header::InfoHeader;
use bitmap::rgb_quad::RgbQuad;
use bitmap::rgba::Rgba;

#[test]
fn rgb_quad_byte_size() {
    let q = RgbQuad::empty();
    assert_eq!(q.get_bytes_size(), 0);
}

#[test]
fn rgb_quad_clone_colors() {
    let q = RgbQuad::empty();
    assert_eq!(q.clone_colors().len(), 0);
}

#[test]
fn rgb_quad_colors_length() {
    let q = RgbQuad::empty();
    assert_eq!(q.len(), 0);
}

fn c(r: u8, g: u8, b: u8) -> Rgba {
    Rgba::rgba(r, g, b, 0)
}

#[test]
fn palette_keeps_first_seen_order() {
    let px = vec![c(9, 9, 9), c(1, 1, 1), c(9, 9, 9), c(2, 2, 2), c(1, 1, 1), c(3, 3, 3)];
    let bm = BitMap::new(3, 2, px).unwrap();
    let q = RgbQuad::from(&bm, BitDepth::Color16Bit);
    assert_eq!(q.clone_colors(), vec![c(9, 9, 9), c(1, 1, 1), c(2, 2, 2), c(3, 3, 3)]);
    assert_eq!(q.get_bytes_size(), 16);
}

#[test]
fn palette_build_twice_is_identical() {
    let px = vec![c(5, 6, 7), c(1, 2, 3), c(5, 6, 7), c(4, 4, 4)];
    let bm = BitMap::new(2, 2, px).unwrap();
    let a = RgbQuad::from(&bm, BitDepth::Color256Bit);
    let b = RgbQuad::from(&bm, BitDepth::Color256Bit);
    assert_eq!(a.clone_colors(), b.clone_colors());
    assert_eq!(a.len(), 3);
}

#[test]
fn palette_empty_for_direct_color() {
    let px = vec![c(5, 6, 7), c(1, 2, 3), c(8, 8, 8), c(4, 4, 4)];
    let bm = BitMap::new(2, 2, px).unwrap();
    for d in [BitDepth::HighColor, BitDepth::TrueColor, BitDepth::TrueColorAlpha] {
        let q = RgbQuad::from(&bm, d);
        assert_eq!(q.len(), 0);
        assert_eq!(q.as_bytes(), Vec::<u8>::new());
    }
}

#[test]
fn palette_bytes_are_bgra() {
    let bm = BitMap::new(1, 1, vec![Rgba::rgba(1, 2, 3, 4)]).unwrap();
    let q = RgbQuad::from(&bm, BitDepth::BW);
    assert_eq!(q.as_bytes(), vec![3, 2, 1, 4]);
    assert_eq!(q.index_of(Rgba::rgba(1, 2, 3, 4)), Some(0));
    assert_eq!(q.index_of(Rgba::rgba(0, 2, 3, 4)), None);
}

#[test]
fn palette_read_from_stream() {
    let mut bytes = vec![0u8; 14];
    bytes[0] = b'B';
    bytes[1] = b'M';
    let info = InfoHeader::new(1, 1, 1, 4, 2);
    bytes.extend_from_slice(&info.as_bytes());
    bytes.extend_from_slice(&[10, 20, 30, 0, 40, 50, 60, 7]);
    let file = FileHeader::stream(&bytes).unwrap();
    let info = InfoHeader::stream(&bytes, 14).unwrap();
    let q = RgbQuad::stream(&bytes, &file, &info).unwrap();
    assert_eq!(q.clone_colors(), vec![Rgba::rgba(30, 20, 10, 0), Rgba::rgba(60, 50, 40, 7)]);
    bytes.truncate(bytes.len() - 1);
    assert!(RgbQuad::stream(&bytes, &file, &info).is_err());
}
