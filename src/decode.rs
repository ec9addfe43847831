use vstd::prelude::*;
use crate::bit_depth::BitDepth;
use crate::pixel_data::{stride, per_byte, mpow, lemma_stride_padding, lemma_mpow_mono, lemma_byte_span};
use crate::codec::Image;
use crate::file_header::FileHeader;
use crate::image::BitMap;
use crate::info_header::{InfoHeader, spec_colors_used};
use crate::rgb_quad::{RgbQuad, palette_from_bytes};
use crate::rgba::Rgba;
use crate::util::{BmpError, le_u16, le_u32, i32_of_bits, byte_slice_to_u16};
use vstd::arithmetic::div_mod::lemma_fundamental_div_mod_converse;

verus! {

/// What decoding `b` gives: the width, height and pixels of the grid, bottom
/// row first, and its depth; or the first error met, checking in this order
/// the magic, the two headers, the compression, the depth, the width, the
/// palette's extent, the pixel array's extent and the palette indices.
pub open spec fn decode_spec(b: Seq<u8>) -> Result<(u32, u32, Seq<Rgba>, BitDepth), BmpError> {
    if b.len() < 2 {
        Err(BmpError::Truncated)
    } else if b[0] != 66u8 || b[1] != 77u8 {
        Err(BmpError::InvalidMagic)
    } else if b.len() < 54 {
        Err(BmpError::Truncated)
    } else if le_u32(b, 14) < 40 {
        Err(BmpError::UnsupportedHeader)
    } else if b.len() < 14 + le_u32(b, 14) {
        Err(BmpError::Truncated)
    } else if le_u32(b, 30) != 0 {
        Err(BmpError::UnsupportedCompression)
    } else if BitDepth::spec_from_bits(le_u16(b, 28) as u16) is None {
        Err(BmpError::UnsupportedBitDepth)
    } else if i32_of_bits(le_u32(b, 18) as u32) < 0 {
        Err(BmpError::InvalidDimensions)
    } else {
        let d = BitDepth::spec_from_bits(le_u16(b, 28) as u16)->Some_0;
        let w = i32_of_bits(le_u32(b, 18) as u32) as nat;
        let hraw = i32_of_bits(le_u32(b, 22) as u32) as int;
        let h: nat = if hraw < 0 { -hraw as nat } else { hraw as nat };
        let top_down = hraw < 0;
        let off = le_u32(b, 10);
        let info_size = le_u32(b, 14);
        let ncol = spec_colors_used(le_u16(b, 28) as u16, le_u32(b, 46) as u32);
        let pal = if d.spec_is_indexed() {
            palette_from_bytes(b, 14 + info_size as int, ncol)
        } else {
            Seq::empty()
        };
        if d.spec_is_indexed() && 14 + info_size + 4 * ncol > b.len() {
            Err(BmpError::Truncated)
        } else if off + h * stride(w, d.spec_bits()) > b.len() {
            Err(BmpError::Truncated)
        } else if !indices_valid(b, pal.len(), d, off, w, h, top_down) {
            Err(BmpError::InvalidPaletteIndex)
        } else {
            Ok((w as u32, h as u32, decoded_pixels(b, pal, d, off, w, h, top_down), d))
        }
    }
}

/// The palette index stored for pixel `x` of the row that starts at `start`.
pub open spec fn stored_index(b: Seq<u8>, d: BitDepth, start: int, x: int) -> int {
    let ppb = per_byte(d);
    let m = d.spec_max_colors();
    let byte: int = b[start + x / ppb as int] as int;
    let dv: int = mpow(m, (ppb - 1 - x % ppb as int) as nat) as int;
    (byte / dv) % (m as int)
}

/// The color of a 16-bit pixel value: five bits each of red, green and blue.
pub open spec fn color_of_555(v: int) -> Rgba {
    Rgba {
        red: ((v / 1024) % 32 * 8) as u8,
        green: ((v / 32) % 32 * 8) as u8,
        blue: (v % 32 * 8) as u8,
        alpha: 255,
    }
}

/// The color of pixel `x` of the row that starts at `start`.
pub open spec fn stored_color(b: Seq<u8>, pal: Seq<Rgba>, d: BitDepth, start: int, x: int) -> Rgba {
    match d {
        BitDepth::HighColor => color_of_555(le_u16(b, start + 2 * x) as int),
        BitDepth::TrueColor => Rgba {
            red: b[start + 3 * x + 2],
            green: b[start + 3 * x + 1],
            blue: b[start + 3 * x],
            alpha: 255,
        },
        BitDepth::TrueColorAlpha => crate::rgb_quad::color_at(b, start + 4 * x),
        _ => pal[stored_index(b, d, start, x)],
    }
}

/// The stored row that holds grid row `y` (counted from the bottom): the
/// same row, unless rows are stored top-down.
pub open spec fn file_row(h: nat, top_down: bool, y: int) -> int {
    if top_down {
        h - 1 - y
    } else {
        y
    }
}

/// Where the stored bytes of grid row `y` begin.
pub open spec fn row_start(off: nat, st: nat, h: nat, top_down: bool, y: int) -> int {
    off + file_row(h, top_down, y) * st
}

/// Whether every pixel of an indexed grid refers to a palette entry.
pub open spec fn indices_valid(
    b: Seq<u8>,
    pal_len: nat,
    d: BitDepth,
    off: nat,
    w: nat,
    h: nat,
    top_down: bool,
) -> bool {
    d.spec_is_indexed() ==> forall|x: int, y: int|
        0 <= x < w && 0 <= y < h ==> #[trigger] stored_index(
            b,
            d,
            row_start(off, stride(w, d.spec_bits()), h, top_down, y),
            x,
        ) < pal_len
}

/// The decoded grid: pixel `i` is column `i % w` of row `i / w`.
pub open spec fn decoded_pixels(
    b: Seq<u8>,
    pal: Seq<Rgba>,
    d: BitDepth,
    off: nat,
    w: nat,
    h: nat,
    top_down: bool,
) -> Seq<Rgba> {
    Seq::new(
        w * h,
        |i: int| stored_color(b, pal, d, row_start(off, stride(w, d.spec_bits()), h, top_down, i / w as int), i % w as int),
    )
}

/// A stored row of a grid that fits the buffer lies inside it.
pub proof fn lemma_row_in_buffer(off: nat, st: nat, h: nat, top_down: bool, y: int)
    requires
        0 <= y < h,
    ensures
        0 <= file_row(h, top_down, y) < h,
        off <= row_start(off, st, h, top_down, y),
        row_start(off, st, h, top_down, y) + st <= off + h * st,
{
    let r = file_row(h, top_down, y);
    assert(r * st + st <= h * st && 0 <= r * st) by (nonlinear_arith)
        requires
            0 <= r < h,
    ;
}

/// A number below `k * n` divided by `k` is below `n`.
pub proof fn lemma_div_below(x: int, k: int, n: int)
    requires
        0 <= x,
        0 < k,
        x < k * n,
    ensures
        x / k < n,
{
    assert(x / k < n) by (nonlinear_arith)
        requires
            0 <= x,
            0 < k,
            x < k * n,
    ;
}

/// The palette index of pixel `x` of a row at an indexed depth.
pub fn read_index(b: &[u8], d: BitDepth, start: usize, x: u32, st: u64) -> (r: u32)
    requires
        d.spec_is_indexed(),
        start + st <= b@.len(),
        x * d.spec_bits() < 8 * st,
    ensures
        r == stored_index(b@, d, start as int, x as int),
        r < d.spec_max_colors(),
{
    let ppb: u32 = match d {
        BitDepth::BW => 8,
        BitDepth::Color16Bit => 2,
        _ => 1,
    };
    assert(ppb == per_byte(d));
    let m: u32 = d.max_colors();
    proof {
        lemma_byte_span(d);
        match d {
            BitDepth::BW => {
                assert(d.spec_bits() == 1);
                assert(x * 1 == x);
                assert(x < 8 * st);
                lemma_div_below(x as int, 8, st as int);
            },
            BitDepth::Color16Bit => {
                assert(x * 4 < 8 * st);
                lemma_div_below(x as int, 2, st as int);
            },
            _ => {
                assert(x * 8 < 8 * st);
                lemma_div_below(x as int, 1, st as int);
            },
        }
    }
    let blen: usize = b.len();
    assert(start + st <= blen);
    assert(start + x / ppb < blen);
    let byte = b[start + (x / ppb) as usize] as u32;
    let j: u32 = x % ppb;
    let t: u32 = ppb - 1 - j;
    let mut dv: u32 = 1;
    let mut k: u32 = 0;
    while k < t
        invariant
            k <= t,
            t < ppb,
            ppb == per_byte(d),
            m == d.spec_max_colors(),
            m >= 2,
            mpow(m as nat, ppb as nat) == 256,
            dv == mpow(m as nat, k as nat),
            dv >= 1,
        decreases t - k,
    {
        proof {
            lemma_mpow_mono(m as nat, (k + 1) as nat, ppb as nat);
        }
        assert(dv * m >= 1) by (nonlinear_arith)
            requires
                dv >= 1,
                m >= 2,
        ;
        dv = dv * m;
        k = k + 1;
    }
    (byte / dv) % m
}

/// The color of pixel `x` of the row that starts at `start`, or the error
/// for an index past the palette's end.
pub fn read_color(b: &[u8], pal: &RgbQuad, d: BitDepth, start: usize, x: u32, st: u64) -> (r:
    Result<Rgba, BmpError>)
    requires
        start + st <= b@.len(),
        (x + 1) * d.spec_bits() <= 8 * st,
    ensures
        d.spec_is_indexed() ==> (r is Ok <==> stored_index(b@, d, start as int, x as int)
            < pal@.len()),
        r is Ok ==> r->Ok_0 == stored_color(b@, pal@, d, start as int, x as int),
        !d.spec_is_indexed() ==> r is Ok,
        r is Err ==> r == Err::<Rgba, BmpError>(BmpError::InvalidPaletteIndex),
{
    let blen: usize = b.len();
    assert(x * d.spec_bits() + d.spec_bits() <= 8 * st) by (nonlinear_arith)
        requires
            (x + 1) * d.spec_bits() <= 8 * st,
    ;
    match d {
        BitDepth::HighColor => {
            assert(d.spec_bits() == 16);
            assert(x * 16 + 16 <= 8 * st);
            assert(2 * x + 2 <= st);
            let mut i: usize = start + 2 * x as usize;
            let v = byte_slice_to_u16(b, &mut i);
            match v {
                Ok(v) => Ok(
                    Rgba::rgba(
                        ((v / 1024) % 32 * 8) as u8,
                        ((v / 32) % 32 * 8) as u8,
                        (v % 32 * 8) as u8,
                        255,
                    ),
                ),
                Err(_) => Err(BmpError::InvalidPaletteIndex),
            }
        },
        BitDepth::TrueColor => {
            assert(d.spec_bits() == 24);
            assert(x * 24 + 24 <= 8 * st);
            assert(3 * x + 3 <= st);
            let i: usize = start + 3 * x as usize;
            Ok(Rgba::rgba(b[i + 2], b[i + 1], b[i], 255))
        },
        BitDepth::TrueColorAlpha => {
            assert(d.spec_bits() == 32);
            assert(x * 32 + 32 <= 8 * st);
            assert(4 * x + 4 <= st);
            let i: usize = start + 4 * x as usize;
            Ok(Rgba::bgra(b[i], b[i + 1], b[i + 2], b[i + 3]))
        },
        _ => {
            let idx = read_index(b, d, start, x, st);
            if (idx as usize) < pal.len() {
                Ok(pal.data[idx as usize])
            } else {
                Err(BmpError::InvalidPaletteIndex)
            }
        },
    }
}

/// Decodes the stored pixel array that starts at `off` into a grid of `w`
/// by `h` pixels, bottom row first.
pub fn decode_pixels(
    b: &[u8],
    pal: &RgbQuad,
    d: BitDepth,
    off: usize,
    w: u32,
    h: u32,
    top_down: bool,
) -> (r: Result<Vec<Rgba>, BmpError>)
    requires
        off + h * stride(w as nat, d.spec_bits()) <= b@.len(),
    ensures
        r is Ok <==> indices_valid(b@, pal@.len(), d, off as nat, w as nat, h as nat, top_down),
        r is Ok ==> r->Ok_0@ == decoded_pixels(
            b@,
            pal@,
            d,
            off as nat,
            w as nat,
            h as nat,
            top_down,
        ),
        r is Err ==> r == Err::<Vec<Rgba>, BmpError>(BmpError::InvalidPaletteIndex),
{
    let st: u64 = crate::pixel_data::row_stride(w, d);
    let ghost stn = st as nat;
    let ghost target = decoded_pixels(b@, pal@, d, off as nat, w as nat, h as nat, top_down);
    proof {
        lemma_stride_padding(w as nat, d);
    }
    let blen: usize = b.len();
    let mut px: Vec<Rgba> = Vec::new();
    let mut y: u32 = 0;
    while y < h
        invariant
            st == stride(w as nat, d.spec_bits()),
            stn == st,
            st * 8 >= w * d.spec_bits(),
            blen == b@.len(),
            off + h * st <= b@.len(),
            y <= h,
            target == decoded_pixels(b@, pal@, d, off as nat, w as nat, h as nat, top_down),
            px@ == target.take(y * w),
            y * w <= w * h,
            d.spec_is_indexed() ==> forall|x2: int, y2: int|
                0 <= x2 < w && 0 <= y2 < y ==> #[trigger] stored_index(
                    b@,
                    d,
                    row_start(off as nat, stn, h as nat, top_down, y2),
                    x2,
                ) < pal@.len(),
        decreases h - y,
    {
        let r: u64 = if top_down {
            (h - 1 - y) as u64
        } else {
            y as u64
        };
        proof {
            lemma_row_in_buffer(off as nat, stn, h as nat, top_down, y as int);
        }
        let start: usize = off + (r * st) as usize;
        assert(start == row_start(off as nat, stn, h as nat, top_down, y as int));
        assert(y * w + w <= w * h) by (nonlinear_arith)
            requires
                y < h,
        ;
        let mut x: u32 = 0;
        while x < w
            invariant
                st == stride(w as nat, d.spec_bits()),
                stn == st,
                st * 8 >= w * d.spec_bits(),
                blen == b@.len(),
                start == row_start(off as nat, stn, h as nat, top_down, y as int),
                start + st <= b@.len(),
                y < h,
                x <= w,
                target == decoded_pixels(b@, pal@, d, off as nat, w as nat, h as nat, top_down),
                px@ == target.take(y * w + x),
                y * w + w <= w * h,
                d.spec_is_indexed() ==> forall|x2: int, y2: int|
                    (0 <= x2 < w && 0 <= y2 < y) || (0 <= x2 < x && y2 == y) ==> #[trigger] stored_index(
                        b@,
                        d,
                        row_start(off as nat, stn, h as nat, top_down, y2),
                        x2,
                    ) < pal@.len(),
            decreases w - x,
        {
            assert((x + 1) * d.spec_bits() <= 8 * st) by (nonlinear_arith)
                requires
                    x < w,
                    st * 8 >= w * d.spec_bits(),
            ;
            let c = read_color(b, pal, d, start, x, st);
            match c {
                Ok(c) => {
                    proof {
                        let i = y * w + x;
                        lemma_fundamental_div_mod_converse(i, w as int, y as int, x as int);
                        assert(target[i] == c);
                        assert(px@.push(c) =~= target.take(i + 1));
                    }
                    px.push(c);
                },
                Err(e) => {
                    assert(stored_index(
                        b@,
                        d,
                        row_start(off as nat, stride(w as nat, d.spec_bits()), h as nat, top_down, y as int),
                        x as int,
                    ) >= pal@.len());
                    return Err(e);
                },
            }
            x = x + 1;
        }
        assert(y * w + w == (y + 1) * w) by (nonlinear_arith);
        y = y + 1;
    }
    assert(target.take(h * w) =~= target) by {
        assert(h * w == w * h) by (nonlinear_arith);
    }
    Ok(px)
}

/// Decodes a bitmap file into its grid of colors and its depth.
pub fn decode(bytes: &[u8]) -> (r: Result<Image, BmpError>)
    ensures
        r is Ok ==> decode_spec(bytes@) == Ok::<(u32, u32, Seq<Rgba>, BitDepth), BmpError>(
            (r->Ok_0.bitmap.width, r->Ok_0.bitmap.height, r->Ok_0.bitmap.pixels@, r->Ok_0.bit_depth),
        ) && r->Ok_0.bitmap.well_formed(),
        r is Err ==> decode_spec(bytes@) == Err::<(u32, u32, Seq<Rgba>, BitDepth), BmpError>(
            r->Err_0,
        ),
{
    if bytes.len() < 2 {
        return Err(BmpError::Truncated);
    }
    if bytes[0] != 66u8 || bytes[1] != 77u8 {
        return Err(BmpError::InvalidMagic);
    }
    let file = FileHeader::stream(bytes)?;
    let info = InfoHeader::stream(bytes, 14)?;
    if info.get_compression() != 0 {
        return Err(BmpError::UnsupportedCompression);
    }
    let d = match BitDepth::from_bits(info.get_bit_count()) {
        Some(d) => d,
        None => {
            return Err(BmpError::UnsupportedBitDepth);
        },
    };
    let width = info.get_width();
    if width < 0 {
        return Err(BmpError::InvalidDimensions);
    }
    let w: u32 = width as u32;
    let hraw: i32 = info.get_height();
    let top_down: bool = hraw < 0;
    let h: u32 = if hraw < 0 {
        (-(hraw as i64)) as u32
    } else {
        hraw as u32
    };
    let pal = if d.is_indexed() {
        RgbQuad::stream(bytes, &file, &info)?
    } else {
        RgbQuad::empty()
    };
    let ghost ncol = spec_colors_used(info.bi_bit_count, info.bi_clr_used);
    assert(pal@ =~= (if d.spec_is_indexed() {
        palette_from_bytes(bytes@, 14 + info.bi_size as int, ncol)
    } else {
        Seq::empty()
    }));
    let off: u32 = file.get_off_bits();
    let st: u64 = crate::pixel_data::row_stride(w, d);
    assert(h as u128 * st as u128 <= 0x1_0000_0000 * 0x10_0000_0000) by (nonlinear_arith)
        requires
            h <= u32::MAX,
            st <= 0x10_0000_0000,
    ;
    if off as u128 + h as u128 * st as u128 > bytes.len() as u128 {
        return Err(BmpError::Truncated);
    }
    let pixels = decode_pixels(bytes, &pal, d, off as usize, w, h, top_down)?;
    proof {
        assert(pixels@.len() == w * h);
        assert(d == BitDepth::spec_from_bits(le_u16(bytes@, 28) as u16)->Some_0);
        assert(w == i32_of_bits(le_u32(bytes@, 18) as u32));
        assert(hraw == i32_of_bits(le_u32(bytes@, 22) as u32));
        assert(off == le_u32(bytes@, 10));
    }
    Ok(Image { bitmap: BitMap { width: w, height: h, pixels }, bit_depth: d })
}

/// A buffer whose first two bytes are not "BM" is rejected as such,
/// whatever the bytes after them hold.
pub proof fn lemma_bad_magic(b: Seq<u8>, rest: Seq<u8>)
    requires
        b.len() >= 2,
        b[0] != 66u8 || b[1] != 77u8,
    ensures
        decode_spec(b) == Err::<(u32, u32, Seq<Rgba>, BitDepth), BmpError>(BmpError::InvalidMagic),
        decode_spec(b.subrange(0, 2) + rest) == decode_spec(b),
{
    let c = b.subrange(0, 2) + rest;
    assert(c[0] == b[0] && c[1] == b[1]);
}

} // verus!
