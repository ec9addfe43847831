use vstd::prelude::*;
use crate::bit_depth::BitDepth;
use crate::file_header::FileHeader;
use crate::image::BitMap;
use crate::info_header::InfoHeader;
use crate::pixel_data::{stride, pixel_array, row_stride, encode_pixels, lemma_pixel_rows_len};
use crate::rgb_quad::{
    RgbQuad,
    palette_for,
    palette_bytes,
    lemma_palette_colors,
    lemma_palette_bytes_len,
};
use crate::rgba::Rgba;
use crate::util::{BmpError, u16_bytes, u32_bytes};

verus! {

/// A decoded picture: its pixels and the depth they were stored at.
pub struct Image {
    pub bitmap: BitMap,
    pub bit_depth: BitDepth,
}

/// The size of the two headers that `encode` writes.
pub const HEADERS_SIZE: u32 = 54;

/// Whether encoding `b` at depth `d` would need more palette entries than
/// the depth can index.
pub open spec fn palette_overflows(b: BitMap, d: BitDepth) -> bool {
    d.spec_is_indexed() && palette_for(b, d).len() > d.spec_max_colors()
}

/// The file header that `encode` writes for a file of `size` bytes whose
/// pixels start at `off`.
pub open spec fn file_header_of(size: nat, off: nat) -> Seq<u8> {
    seq![66u8, 77u8] + u32_bytes(size as u32) + u16_bytes(0) + u16_bytes(0) + u32_bytes(
        off as u32,
    )
}

/// The 40-byte info header that `encode` writes.
pub open spec fn info_header_of(
    width: u32,
    height: u32,
    bits: nat,
    image_size: nat,
    colors: nat,
) -> Seq<u8> {
    u32_bytes(40) + u32_bytes(width) + u32_bytes(height) + u16_bytes(1) + u16_bytes(bits as u16)
        + u32_bytes(0) + u32_bytes(image_size as u32) + u32_bytes(2835) + u32_bytes(2835)
        + u32_bytes(colors as u32) + u32_bytes(0)
}

/// The byte-exact file that encoding `b` at depth `d` produces: file header,
/// a 40-byte info header, the palette, then the padded pixel rows.
pub open spec fn encoded_file(b: BitMap, d: BitDepth) -> Seq<u8> {
    let p = palette_for(b, d);
    let px = pixel_array(b, p, d);
    let off = 54 + 4 * p.len();
    file_header_of(off + px.len(), off) + info_header_of(
        b.width,
        b.height,
        d.spec_bits(),
        px.len(),
        p.len(),
    ) + palette_bytes(p) + px
}

/// The sizes of a grid that `encode` can represent: dimensions that fit the
/// header's signed fields, and a file whose length fits its 32-bit size field.
pub open spec fn encodable(b: BitMap, d: BitDepth) -> bool {
    &&& b.well_formed()
    &&& b.width <= i32::MAX
    &&& b.height <= i32::MAX
    &&& 54 + 1024 + b.height * stride(b.width as nat, d.spec_bits()) <= u32::MAX
}

/// The headers that `encode` writes take 54 bytes.
pub proof fn lemma_headers_len(
    size: nat,
    off: nat,
    width: u32,
    height: u32,
    bits: nat,
    image_size: nat,
    colors: nat,
)
    ensures
        file_header_of(size, off).len() == 14,
        info_header_of(width, height, bits, image_size, colors).len() == 40,
{
    crate::util::lemma_u32_bytes_len(size as u32);
    crate::util::lemma_u32_bytes_len(off as u32);
    crate::util::lemma_u16_bytes_len(0);
    crate::util::lemma_u32_bytes_len(40);
    crate::util::lemma_u32_bytes_len(width);
    crate::util::lemma_u32_bytes_len(height);
    crate::util::lemma_u16_bytes_len(1);
    crate::util::lemma_u16_bytes_len(bits as u16);
    crate::util::lemma_u32_bytes_len(0);
    crate::util::lemma_u32_bytes_len(image_size as u32);
    crate::util::lemma_u32_bytes_len(2835);
    crate::util::lemma_u32_bytes_len(colors as u32);
}

/// Encodes a grid as a bitmap file of the given depth.
pub fn encode(image: &BitMap, bit_depth: BitDepth) -> (r: Result<Vec<u8>, BmpError>)
    requires
        encodable(*image, bit_depth),
    ensures
        palette_overflows(*image, bit_depth) <==> r is Err,
        r is Err ==> r == Err::<Vec<u8>, BmpError>(BmpError::PaletteOverflow),
        r is Ok ==> r->Ok_0@ == encoded_file(*image, bit_depth),
{
    let palette = RgbQuad::from(image, bit_depth);
    if bit_depth.is_indexed() && palette.len() > bit_depth.max_colors() as usize {
        return Err(BmpError::PaletteOverflow);
    }
    proof {
        if bit_depth.spec_is_indexed() {
            lemma_palette_colors(*image, bit_depth);
        }
        assert(palette@.len() <= 256);
        lemma_palette_bytes_len(palette@);
        lemma_pixel_rows_len(*image, palette@, bit_depth, image.height as nat);
    }
    let st: u64 = row_stride(image.width, bit_depth);
    assert(image.height * st <= u32::MAX);
    let pixel_size: u32 = (image.height as u64 * st) as u32;
    let off: u32 = HEADERS_SIZE + palette.get_bytes_size();
    let file = FileHeader::new(off + pixel_size, off);
    let info = InfoHeader::new(
        image.width as i32,
        image.height as i32,
        bit_depth.bits(),
        pixel_size,
        palette.len() as u32,
    );
    let ghost p = palette@;
    let ghost px = pixel_array(*image, p, bit_depth);
    assert(px.len() == pixel_size);
    let mut bytes = file.as_bytes();
    assert(file.bf_type@ == seq![66u8, 77u8]);
    assert(bytes@ == file_header_of((off + px.len()) as nat, off as nat));
    let mut info_bytes = info.as_bytes();
    let mut palette_out = palette.as_bytes();
    assert(info.extra@ =~= Seq::<u8>::empty());
    proof {
        crate::util::lemma_i32_bits(0, image.width as i32);
        crate::util::lemma_i32_bits(0, image.height as i32);
    }
    assert(info_bytes@ =~= info_header_of(
        image.width,
        image.height,
        bit_depth.spec_bits(),
        px.len(),
        p.len(),
    ));
    proof {
        lemma_headers_len((off + px.len()) as nat, off as nat, image.width, image.height, bit_depth.spec_bits(), px.len(), p.len());
    }
    bytes.append(&mut info_bytes);
    bytes.append(&mut palette_out);
    encode_pixels(image, &palette, bit_depth, &mut bytes);
    Ok(bytes)
}

/// A grid with 257 or more distinct colors cannot be encoded at eight bits
/// per pixel: encoding it fails with a palette overflow.
pub proof fn lemma_overflow_at_eight_bits(b: BitMap, colors: Set<Rgba>)
    requires
        b.well_formed(),
        colors.finite(),
        colors.len() >= 257,
        forall|c: Rgba| #[trigger] colors.contains(c) ==> b.spec_scan().contains(c),
    ensures
        palette_overflows(b, BitDepth::Color256Bit),
{
    let u = palette_for(b, BitDepth::Color256Bit);
    lemma_palette_colors(b, BitDepth::Color256Bit);
    u.unique_seq_to_set();
    assert(colors.subset_of(u.to_set()));
    vstd::set_lib::lemma_len_subset(colors, u.to_set());
}

} // verus!
