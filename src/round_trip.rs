use vstd::prelude::*;
use crate::bit_depth::BitDepth;
use crate::codec::{encoded_file, encodable, palette_overflows, file_header_of, info_header_of, lemma_headers_len};
use crate::image::BitMap;
use crate::pixel_data::{
    stride,
    pixel_array,
    pixel_rows,
    row_bytes,
    packed,
    slot,
    per_byte,
    mpow,
    lemma_pixel_rows_len,
    lemma_row_bytes_len,
    lemma_byte_span,
    lemma_mpow_mono,
};
use crate::image::grid_row;
use vstd::arithmetic::div_mod::{
    lemma_fundamental_div_mod,
    lemma_fundamental_div_mod_converse,
    lemma_div_denominator,
};
use crate::pixel_data::{direct_row, direct_bytes, direct_width, rgb555, lemma_stride_padding, lemma_direct_row_len};
use crate::decode::{
    stored_index,
    stored_color,
    color_of_555,
    lemma_div_below,
    decode_spec,
    decoded_pixels,
    indices_valid,
    row_start,
    };
use crate::info_header::spec_colors_used;
use crate::util::i32_of_bits;
use crate::rgb_quad::{palette_for, palette_bytes, palette_from_bytes, lemma_palette_bytes_len};
use crate::rgba::{Rgba, color_bytes};
use crate::util::{BmpError, le_u16, le_u32, u16_bytes, u32_bytes, lemma_u16_round_trip, lemma_u32_round_trip, lemma_u32_bytes_len, lemma_u16_bytes_len};

verus! {

/// Four bytes that encode `x` read back as `x`, wherever they stand.
pub proof fn lemma_le_u32_at(s: Seq<u8>, i: int, x: u32)
    requires
        0 <= i,
        i + 4 <= s.len(),
        s.subrange(i, i + 4) == u32_bytes(x),
    ensures
        le_u32(s, i) == x,
{
    let t = s.subrange(i, i + 4);
    assert(t[0] == s[i] && t[1] == s[i + 1] && t[2] == s[i + 2] && t[3] == s[i + 3]);
    lemma_u32_round_trip(x);
}

/// Two bytes that encode `x` read back as `x`, wherever they stand.
pub proof fn lemma_le_u16_at(s: Seq<u8>, i: int, x: u16)
    requires
        0 <= i,
        i + 2 <= s.len(),
        s.subrange(i, i + 2) == u16_bytes(x),
    ensures
        le_u16(s, i) == x,
{
    let t = s.subrange(i, i + 2);
    assert(t[0] == s[i] && t[1] == s[i + 1]);
    lemma_u16_round_trip(x);
}

/// The fields of the headers that `encode` writes read back as written.
pub proof fn lemma_encoded_headers(b: BitMap, d: BitDepth)
    requires
        encodable(b, d),
        !palette_overflows(b, d),
    ensures
        ({
            let e = encoded_file(b, d);
            let p = palette_for(b, d);
            let n = p.len();
            let px = pixel_array(b, p, d);
            &&& e.len() == 54 + 4 * n + px.len()
            &&& px.len() == b.height * stride(b.width as nat, d.spec_bits())
            &&& e[0] == 66u8
            &&& e[1] == 77u8
            &&& le_u32(e, 10) == 54 + 4 * n
            &&& le_u32(e, 14) == 40
            &&& le_u32(e, 18) == b.width
            &&& le_u32(e, 22) == b.height
            &&& le_u16(e, 28) == d.spec_bits()
            &&& le_u32(e, 30) == 0
            &&& le_u32(e, 46) == n
            &&& e.subrange(54, 54 + 4 * n as int) == palette_bytes(p)
            &&& e.subrange(54 + 4 * n as int, e.len() as int) == px
        }),
{
    let e = encoded_file(b, d);
    let p = palette_for(b, d);
    let n = p.len();
    let px = pixel_array(b, p, d);
    if d.spec_is_indexed() {
        crate::rgb_quad::lemma_palette_colors(b, d);
    }
    assert(n <= 256);
    lemma_pixel_rows_len(b, p, d, b.height as nat);
    lemma_palette_bytes_len(p);
    let off = 54 + 4 * n;
    let f = file_header_of(off + px.len(), off);
    let i = info_header_of(b.width, b.height, d.spec_bits(), px.len(), n);
    lemma_headers_len(off + px.len(), off, b.width, b.height, d.spec_bits(), px.len(), n);
    lemma_u32_bytes_len((off + px.len()) as u32);
    lemma_u32_bytes_len(off as u32);
    lemma_u16_bytes_len(0);
    lemma_u32_bytes_len(40);
    lemma_u32_bytes_len(b.width);
    lemma_u32_bytes_len(b.height);
    lemma_u16_bytes_len(1);
    lemma_u16_bytes_len(d.spec_bits() as u16);
    lemma_u32_bytes_len(0);
    lemma_u32_bytes_len(px.len() as u32);
    lemma_u32_bytes_len(2835);
    lemma_u32_bytes_len(n as u32);
    assert(e == f + i + palette_bytes(p) + px);
    assert(e.subrange(0, 14) =~= f);
    assert(e.subrange(14, 54) =~= i);
    assert(e.subrange(10, 14) =~= u32_bytes(off as u32)) by {
        assert(f.subrange(10, 14) =~= u32_bytes(off as u32));
    }
    assert(e.subrange(14, 18) =~= u32_bytes(40)) by {
        assert(i.subrange(0, 4) =~= u32_bytes(40));
    }
    assert(e.subrange(18, 22) =~= u32_bytes(b.width)) by {
        assert(i.subrange(4, 8) =~= u32_bytes(b.width));
    }
    assert(e.subrange(22, 26) =~= u32_bytes(b.height)) by {
        assert(i.subrange(8, 12) =~= u32_bytes(b.height));
    }
    assert(e.subrange(28, 30) =~= u16_bytes(d.spec_bits() as u16)) by {
        assert(i.subrange(14, 16) =~= u16_bytes(d.spec_bits() as u16));
    }
    assert(e.subrange(30, 34) =~= u32_bytes(0)) by {
        assert(i.subrange(16, 20) =~= u32_bytes(0));
    }
    assert(e.subrange(46, 50) =~= u32_bytes(n as u32)) by {
        assert(i.subrange(32, 36) =~= u32_bytes(n as u32));
    }
    lemma_le_u32_at(e, 10, off as u32);
    lemma_le_u32_at(e, 14, 40);
    lemma_le_u32_at(e, 18, b.width);
    lemma_le_u32_at(e, 22, b.height);
    lemma_le_u16_at(e, 28, d.spec_bits() as u16);
    lemma_le_u32_at(e, 30, 0);
    lemma_le_u32_at(e, 46, n as u32);
    assert(f[0] == 66u8 && f[1] == 77u8);
    assert(e.subrange(54, 54 + 4 * n as int) =~= palette_bytes(p));
    assert(e.subrange(54 + 4 * n as int, e.len() as int) =~= px);
}

/// Byte `4k + j` of a palette's bytes is byte `j` of its `k`-th color.
pub proof fn lemma_palette_bytes_index(p: Seq<Rgba>, k: int, j: int)
    requires
        0 <= k < p.len(),
        0 <= j < 4,
    ensures
        palette_bytes(p).len() == 4 * p.len(),
        palette_bytes(p)[4 * k + j] == color_bytes(p[k])[j],
    decreases p.len(),
{
    lemma_palette_bytes_len(p);
    lemma_palette_bytes_len(p.drop_last());
    if k < p.len() - 1 {
        lemma_palette_bytes_index(p.drop_last(), k, j);
    }
}

/// A palette's bytes, wherever they stand, read back as the palette.
pub proof fn lemma_palette_read_back(s: Seq<u8>, o: int, p: Seq<Rgba>)
    requires
        0 <= o,
        o + 4 * p.len() <= s.len(),
        s.subrange(o, o + 4 * p.len()) == palette_bytes(p),
    ensures
        palette_from_bytes(s, o, p.len()) == p,
{
    assert forall|k: int| 0 <= k < p.len() implies palette_from_bytes(s, o, p.len())[k] == p[k] by {
        lemma_palette_bytes_index(p, k, 0);
        lemma_palette_bytes_index(p, k, 1);
        lemma_palette_bytes_index(p, k, 2);
        lemma_palette_bytes_index(p, k, 3);
        let t = s.subrange(o, o + 4 * p.len());
        assert(t[4 * k] == s[o + 4 * k]);
        assert(t[4 * k + 1] == s[o + 4 * k + 1]);
        assert(t[4 * k + 2] == s[o + 4 * k + 2]);
        assert(t[4 * k + 3] == s[o + 4 * k + 3]);
    }
    assert(palette_from_bytes(s, o, p.len()) =~= p);
}

/// Byte `r * st + t` of the stored rows is byte `t` of row `r`.
pub proof fn lemma_pixel_rows_index(b: BitMap, p: Seq<Rgba>, d: BitDepth, n: nat, r: int, t: int)
    requires
        b.well_formed(),
        n <= b.height,
        0 <= r < n,
        0 <= t < stride(b.width as nat, d.spec_bits()),
    ensures
        r * stride(b.width as nat, d.spec_bits()) + t < pixel_rows(b, p, d, n).len(),
        pixel_rows(b, p, d, n)[r * stride(b.width as nat, d.spec_bits()) + t] == row_bytes(
            grid_row(b.pixels@, b.width as nat, r as nat),
            p,
            d,
        )[t],
    decreases n,
{
    let st = stride(b.width as nat, d.spec_bits());
    lemma_pixel_rows_len(b, p, d, n);
    lemma_pixel_rows_len(b, p, d, (n - 1) as nat);
    assert(r * st + t < n * st) by (nonlinear_arith)
        requires
            0 <= r < n,
            0 <= t < st,
    ;
    if r < n - 1 {
        lemma_pixel_rows_index(b, p, d, (n - 1) as nat, r, t);
    } else {
        assert(r * st == (n - 1) * st);
    }
}

/// Every slot of a byte holds a value below the palette's capacity.
pub open spec fn slots_fit(row: Seq<Rgba>, p: Seq<Rgba>, d: BitDepth) -> bool {
    forall|i: int| 0 <= i ==> #[trigger] slot(row, p, i) < d.spec_max_colors() && slot(row, p, i) >= 0
}

/// The first `J` slots of a byte, divided by the weight of the last `J - j`,
/// leave the first `j`; and they stay below `m` to the power `J`.
pub proof fn lemma_packed_prefix(row: Seq<Rgba>, p: Seq<Rgba>, d: BitDepth, k: int, j: nat, jj: nat)
    requires
        d.spec_is_indexed(),
        slots_fit(row, p, d),
        0 <= k,
        j <= jj,
    ensures
        0 <= packed(row, p, d, k, jj) < mpow(d.spec_max_colors(), jj),
        mpow(d.spec_max_colors(), (jj - j) as nat) > 0,
        packed(row, p, d, k, jj) / (mpow(d.spec_max_colors(), (jj - j) as nat) as int) == packed(
            row,
            p,
            d,
            k,
            j,
        ),
    decreases jj,
{
    let m = d.spec_max_colors();
    lemma_byte_span(d);
    lemma_mpow_mono(m, 0, (jj - j) as nat);
    if jj == 0 {
    } else {
        assert(k * per_byte(d) >= 0) by (nonlinear_arith)
            requires
                k >= 0,
        ;
        let s = slot(row, p, k * per_byte(d) + jj - 1);
        assert(0 <= s < m);
        let a = packed(row, p, d, k, (jj - 1) as nat);
        if j == jj {
            lemma_packed_prefix(row, p, d, k, 0, (jj - 1) as nat);
            let q = mpow(m, (jj - 1) as nat);
            assert(a * m + s < q * m) by (nonlinear_arith)
                requires
                    0 <= a < q,
                    0 <= s < m,
            ;
        } else {
            lemma_packed_prefix(row, p, d, k, j, (jj - 1) as nat);
            let q = mpow(m, (jj - 1) as nat);
            let w = mpow(m, (jj - 1 - j) as nat);
            assert(a * m + s < q * m) by (nonlinear_arith)
                requires
                    0 <= a < q,
                    0 <= s < m,
            ;
            assert(mpow(m, (jj - j) as nat) == w * m);
            lemma_fundamental_div_mod_converse(a * m + s, m as int, a, s);
            lemma_div_denominator(a * m + s, m as int, w as int);
            assert(m * w == w * m) by (nonlinear_arith);
        }
    }
}

/// A stored row of an indexed depth gives back, at each pixel, the index
/// that was packed for it.
pub proof fn lemma_index_read_back(
    s: Seq<u8>,
    start: int,
    row: Seq<Rgba>,
    p: Seq<Rgba>,
    d: BitDepth,
    x: int,
)
    requires
        d.spec_is_indexed(),
        slots_fit(row, p, d),
        0 <= x < row.len(),
        0 <= start,
        start + stride(row.len(), d.spec_bits()) <= s.len(),
        s.subrange(start, start + stride(row.len(), d.spec_bits())) == row_bytes(row, p, d),
    ensures
        stored_index(s, d, start, x) == slot(row, p, x),
{
    let st = stride(row.len(), d.spec_bits());
    let ppb = per_byte(d);
    let m = d.spec_max_colors();
    lemma_byte_span(d);
    lemma_stride_padding(row.len(), d);
    let k = x / ppb as int;
    let jj = x % ppb as int;
    lemma_fundamental_div_mod(x, ppb as int);
    assert(0 <= jj < ppb);
    assert(x * d.spec_bits() < 8 * st) by (nonlinear_arith)
        requires
            0 <= x < row.len(),
            st * 8 >= row.len() * d.spec_bits(),
            d.spec_bits() > 0,
    ;
    match d {
        BitDepth::BW => {
            assert(d.spec_bits() == 1);
            assert(x * 1 == x);
            assert(x < 8 * st);
            lemma_div_below(x, 8, st as int);
            assert(ppb == 8);
        },
        BitDepth::Color16Bit => {
            assert(d.spec_bits() == 4);
            assert(x * 4 < 8 * st);
            assert(x < 2 * st);
            lemma_div_below(x, 2, st as int);
            assert(ppb == 2);
        },
        _ => {
            assert(d.spec_bits() == 8);
            assert(x * 8 < 8 * st);
            assert(x < 1 * st);
            lemma_div_below(x, 1, st as int);
            assert(ppb == 1);
        },
    }
    assert(0 <= k < st);
    lemma_packed_prefix(row, p, d, k, (jj + 1) as nat, ppb);
    let full = packed(row, p, d, k, ppb);
    assert(s[start + k] == s.subrange(start, start + st)[k]);
    assert(s[start + k] == full as u8);
    assert(full as u8 == full);
    let a = packed(row, p, d, k, jj as nat);
    let sl = slot(row, p, k * ppb + jj);
    assert(packed(row, p, d, k, (jj + 1) as nat) == a * m + sl);
    assert((ppb - (jj + 1)) as nat == (ppb - 1 - jj) as nat);
    lemma_packed_prefix(row, p, d, k, 0, jj as nat);
    assert(0 <= sl < m);
    lemma_fundamental_div_mod_converse(a * m + sl, m as int, a, sl);
    assert(k * ppb + jj == x) by (nonlinear_arith)
        requires
            x == ppb * k + jj,
    ;
}

/// Bytes `w * x` to `w * x + w` of a direct-color row are those of pixel `x`.
pub proof fn lemma_direct_row_index(row: Seq<Rgba>, d: BitDepth, x: int, t: int)
    requires
        !d.spec_is_indexed(),
        0 <= x < row.len(),
        0 <= t < direct_width(d),
    ensures
        direct_row(row, d)[direct_width(d) * x + t] == direct_bytes(row[x], d)[t],
        direct_width(d) * x + t < direct_row(row, d).len(),
    decreases row.len(),
{
    lemma_direct_row_len(row, d);
    lemma_direct_row_len(row.drop_last(), d);
    lemma_u16_bytes_len(rgb555(row.last()));
    assert(direct_width(d) * x + t < direct_width(d) * (x + 1)) by (nonlinear_arith)
        requires
            t < direct_width(d),
    ;
    assert(direct_width(d) * (x + 1) <= row.len() * direct_width(d)) by (nonlinear_arith)
        requires
            x < row.len(),
    ;
    if x < row.len() - 1 {
        lemma_direct_row_index(row.drop_last(), d, x, t);
    } else {
        assert(direct_width(d) * x == (row.len() - 1) * direct_width(d)) by (nonlinear_arith)
            requires
                x == row.len() - 1,
        ;
    }
}

/// What a pixel of color `c` reads back as at depth `d`: the color itself
/// at an indexed depth or at 32 bits, opaque at 24 bits, and with five bits
/// per channel at 16 bits.
pub open spec fn stored_view(c: Rgba, d: BitDepth) -> Rgba {
    match d {
        BitDepth::HighColor => color_of_555(rgb555(c) as int),
        BitDepth::TrueColor => Rgba { red: c.red, green: c.green, blue: c.blue, alpha: 255 },
        _ => c,
    }
}

/// A stored direct-color row gives back each pixel's stored view.
pub proof fn lemma_direct_read_back(s: Seq<u8>, start: int, row: Seq<Rgba>, p: Seq<Rgba>, d: BitDepth, x: int)
    requires
        !d.spec_is_indexed(),
        0 <= x < row.len(),
        0 <= start,
        start + stride(row.len(), d.spec_bits()) <= s.len(),
        s.subrange(start, start + stride(row.len(), d.spec_bits())) == row_bytes(row, p, d),
    ensures
        stored_color(s, p, d, start, x) == stored_view(row[x], d),
{
    let st = stride(row.len(), d.spec_bits());
    let bw = direct_width(d);
    lemma_direct_row_len(row, d);
    lemma_row_bytes_len(row, p, d);
    let t = s.subrange(start, start + st);
    assert(bw * x + bw <= row.len() * bw) by (nonlinear_arith)
        requires
            x < row.len(),
    ;
    assert(bw * x + bw <= st);
    assert forall|j: int| 0 <= j < bw implies s[start + bw * x + j] == direct_bytes(row[x], d)[j] by {
        lemma_direct_row_index(row, d, x, j);
        assert(t[bw * x + j] == s[start + bw * x + j]);
        assert(row_bytes(row, p, d)[bw * x + j] == direct_row(row, d)[bw * x + j]);
    }
    match d {
        BitDepth::HighColor => {
            let c = row[x];
            assert(bw == 2);
            lemma_u16_bytes_len(rgb555(c));
            assert(s[start + 2 * x] == direct_bytes(c, d)[0]);
            assert(s[start + 2 * x + 1] == direct_bytes(c, d)[1]);
            assert(s.subrange(start + 2 * x, start + 2 * x + 2) =~= u16_bytes(rgb555(c)));
            lemma_le_u16_at(s, start + 2 * x, rgb555(c));
        },
        BitDepth::TrueColor => {
            assert(bw == 3);
            assert(s[start + 3 * x] == direct_bytes(row[x], d)[0]);
            assert(s[start + 3 * x + 1] == direct_bytes(row[x], d)[1]);
            assert(s[start + 3 * x + 2] == direct_bytes(row[x], d)[2]);
        },
        _ => {
            assert(bw == 4);
            assert(s[start + 4 * x] == direct_bytes(row[x], d)[0]);
            assert(s[start + 4 * x + 1] == direct_bytes(row[x], d)[1]);
            assert(s[start + 4 * x + 2] == direct_bytes(row[x], d)[2]);
            assert(s[start + 4 * x + 3] == direct_bytes(row[x], d)[3]);
        },
    }
}

/// The rows of a grid encoded at an indexed depth only hold indices that
/// its palette can take.
pub proof fn lemma_row_slots_fit(b: BitMap, d: BitDepth, y: nat)
    requires
        b.well_formed(),
        d.spec_is_indexed(),
        !palette_overflows(b, d),
        y < b.height,
    ensures
        slots_fit(grid_row(b.pixels@, b.width as nat, y), palette_for(b, d), d),
{
    let row = grid_row(b.pixels@, b.width as nat, y);
    let p = palette_for(b, d);
    crate::image::lemma_index_in_grid(0, y, b.width as nat, b.height as nat);
    crate::rgb_quad::lemma_palette_colors(b, d);
    lemma_byte_span(d);
    assert forall|i: int| 0 <= i implies #[trigger] slot(row, p, i) < d.spec_max_colors() && slot(row, p, i) >= 0 by {
        if i < row.len() {
            crate::pixel_data::lemma_scan_contains(
                b.pixels@,
                b.width as nat,
                b.height as nat,
                b.height as nat,
                y,
                i as nat,
            );
            assert(b.spec_scan().contains(row[i]));
            assert(p.contains(row[i]));
            let k = choose|k: int| 0 <= k < p.len() && p[k] == row[i];
            assert(exists|k: int| 0 <= k < p.len() && p[k] == row[i]);
        }
    }
}

/// Each row of a grid stands in its encoded file at the offset that
/// decoding reads it from.
pub proof fn lemma_rows_in_file(b: BitMap, d: BitDepth, y: int)
    requires
        encodable(b, d),
        !palette_overflows(b, d),
        0 <= y < b.height,
    ensures
        ({
            let e = encoded_file(b, d);
            let p = palette_for(b, d);
            let st = stride(b.width as nat, d.spec_bits());
            let start = row_start(54 + 4 * p.len(), st, b.height as nat, false, y);
            &&& 0 <= start
            &&& start + st <= e.len()
            &&& e.subrange(start, start + st) == row_bytes(
                grid_row(b.pixels@, b.width as nat, y as nat),
                p,
                d,
            )
        }),
{
    let e = encoded_file(b, d);
    let p = palette_for(b, d);
    let n = p.len();
    let w = b.width as nat;
    let h = b.height as nat;
    let st = stride(w, d.spec_bits());
    let off = 54 + 4 * n;
    lemma_encoded_headers(b, d);
    let row = grid_row(b.pixels@, w, y as nat);
    crate::image::lemma_index_in_grid(0, y as nat, w, h);
    lemma_row_bytes_len(row, p, d);
    assert(y * st + st <= h * st && 0 <= y * st) by (nonlinear_arith)
        requires
            0 <= y < h,
    ;
    assert forall|t: int| 0 <= t < st implies e[off + y * st + t] == row_bytes(row, p, d)[t] by {
        lemma_pixel_rows_index(b, p, d, h, y, t);
        assert(e.subrange(off as int, e.len() as int)[y * st + t] == e[off + y * st + t]);
    }
    assert(e.subrange(off + y * st, off + y * st + st) =~= row_bytes(row, p, d));
}

/// Each pixel of an encoded grid reads back as its stored view, from a
/// palette index within the palette at an indexed depth.
pub proof fn lemma_pixel_in_file(b: BitMap, d: BitDepth, x: int, y: int)
    requires
        encodable(b, d),
        !palette_overflows(b, d),
        0 <= x < b.width,
        0 <= y < b.height,
    ensures
        ({
            let e = encoded_file(b, d);
            let p = palette_for(b, d);
            let st = stride(b.width as nat, d.spec_bits());
            let start = row_start(54 + 4 * p.len(), st, b.height as nat, false, y);
            &&& stored_color(e, p, d, start, x) == stored_view(
                grid_row(b.pixels@, b.width as nat, y as nat)[x],
                d,
            )
            &&& d.spec_is_indexed() ==> stored_index(e, d, start, x) < p.len()
        }),
{
    let e = encoded_file(b, d);
    let p = palette_for(b, d);
    let w = b.width as nat;
    let h = b.height as nat;
    let st = stride(w, d.spec_bits());
    let row = grid_row(b.pixels@, w, y as nat);
    let start = row_start(54 + 4 * p.len(), st, h, false, y);
    lemma_rows_in_file(b, d, y);
    crate::image::lemma_index_in_grid(0, y as nat, w, h);
    if d.spec_is_indexed() {
        crate::rgb_quad::lemma_palette_colors(b, d);
        lemma_row_slots_fit(b, d, y as nat);
        lemma_index_read_back(e, start, row, p, d, x);
        crate::pixel_data::lemma_scan_contains(b.pixels@, w, h, h, y as nat, x as nat);
        assert(b.spec_scan().contains(row[x]));
        assert(p.contains(row[x]));
        assert(exists|k: int| 0 <= k < p.len() && p[k] == row[x]);
    } else {
        lemma_direct_read_back(e, start, row, p, d, x);
    }
}

/// The pixels that decoding reads from an encoded grid are its stored views,
/// and every palette index in it is valid.
pub proof fn lemma_decoded_is_view(b: BitMap, d: BitDepth)
    requires
        encodable(b, d),
        !palette_overflows(b, d),
    ensures
        ({
            let e = encoded_file(b, d);
            let p = palette_for(b, d);
            let off = 54 + 4 * p.len();
            let w = b.width as nat;
            let h = b.height as nat;
            &&& indices_valid(e, p.len(), d, off, w, h, false)
            &&& decoded_pixels(e, p, d, off, w, h, false) == Seq::new(
                (b.width * b.height) as nat,
                |i: int| stored_view(b.pixels@[i], d),
            )
        }),
{
    let e = encoded_file(b, d);
    let p = palette_for(b, d);
    let n = p.len();
    let w = b.width as nat;
    let h = b.height as nat;
    let st = stride(w, d.spec_bits());
    let off = 54 + 4 * n;
    let view = Seq::new((b.width * b.height) as nat, |i: int| stored_view(b.pixels@[i], d));
    let dec = decoded_pixels(e, p, d, off, w, h, false);
    assert forall|x: int, y: int| 0 <= x < w && 0 <= y < h implies #[trigger] stored_index(
        e,
        d,
        row_start(off, st, h, false, y),
        x,
    ) < p.len() || !d.spec_is_indexed() by {
        lemma_pixel_in_file(b, d, x, y);
    }
    assert(indices_valid(e, p.len(), d, off, w, h, false));
    assert forall|i: int| 0 <= i < w * h implies dec[i] == view[i] by {
        let y = i / w as int;
        let x = i % w as int;
        lemma_fundamental_div_mod(i, w as int);
        assert(w > 0) by (nonlinear_arith)
            requires
                0 <= i < w * h,
        ;
        assert(0 <= y < h) by (nonlinear_arith)
            requires
                0 <= i < w * h,
                w > 0,
                y == i / w as int,
        ;
        assert(0 <= x < w);
        crate::image::lemma_index_in_grid(x as nat, y as nat, w, h);
        lemma_pixel_in_file(b, d, x, y);
        assert(grid_row(b.pixels@, w, y as nat)[x] == b.pixels@[i]) by {
            assert(y * w + x == i) by (nonlinear_arith)
                requires
                    i == w * y + x,
            ;
        }
    }
    assert(dec =~= view);
}

/// Encoding a grid and decoding the result gives the grid back, each pixel
/// as its depth stores it: unchanged at an indexed depth or at 32 bits,
/// opaque at 24 bits, with five bits per channel at 16 bits.
pub proof fn lemma_decode_of_encode(b: BitMap, d: BitDepth)
    requires
        encodable(b, d),
        !palette_overflows(b, d),
        d.spec_is_indexed() ==> b.width * b.height > 0,
    ensures
        decode_spec(encoded_file(b, d)) == Ok::<(u32, u32, Seq<Rgba>, BitDepth), BmpError>(
            (
                b.width,
                b.height,
                Seq::new((b.width * b.height) as nat, |i: int| stored_view(b.pixels@[i], d)),
                d,
            ),
        ),
{
    let e = encoded_file(b, d);
    let p = palette_for(b, d);
    let n = p.len();
    let w = b.width as nat;
    let h = b.height as nat;
    let st = stride(w, d.spec_bits());
    let off = 54 + 4 * n;
    lemma_encoded_headers(b, d);
    crate::bit_depth::lemma_from_bits_of_bits(d);
    crate::util::lemma_i32_bits(b.width, 0);
    crate::util::lemma_i32_bits(b.height, 0);
    assert(i32_of_bits(b.width) == b.width);
    assert(i32_of_bits(b.height) == b.height);
    if d.spec_is_indexed() {
        lemma_byte_span(d);
        crate::rgb_quad::lemma_palette_colors(b, d);
        assert(w > 0 && h > 0) by (nonlinear_arith)
            requires
                w * h > 0,
        ;
        crate::pixel_data::lemma_scan_contains(b.pixels@, w, h, h, 0, 0);
        crate::image::lemma_index_in_grid(0, 0, w, h);
        assert(b.spec_scan().contains(grid_row(b.pixels@, w, 0)[0]));
        assert(p.contains(grid_row(b.pixels@, w, 0)[0]));
        assert(n > 0);
        assert(spec_colors_used(d.spec_bits() as u16, n as u32) == n);
        lemma_palette_read_back(e, 54, p);
    } else {
        assert(n == 0);
    }
    let pal = if d.spec_is_indexed() {
        palette_from_bytes(e, 54int, spec_colors_used(d.spec_bits() as u16, n as u32))
    } else {
        Seq::<Rgba>::empty()
    };
    assert(pal == p) by {
        if !d.spec_is_indexed() {
            assert(p =~= Seq::<Rgba>::empty());
        }
    }
    lemma_decoded_is_view(b, d);
    assert(off + h * st <= e.len());
}

/// A pixel's stored view is stored with the same bytes as the pixel.
pub proof fn lemma_view_bytes(c: Rgba, d: BitDepth)
    requires
        !d.spec_is_indexed(),
    ensures
        direct_bytes(stored_view(c, d), d) == direct_bytes(c, d),
{
    if d == BitDepth::HighColor {
        let r5 = (c.red / 8) as int;
        let g5 = (c.green / 8) as int;
        let b5 = (c.blue / 8) as int;
        let v = rgb555(c) as int;
        assert(v == r5 * 1024 + g5 * 32 + b5);
        lemma_fundamental_div_mod_converse(v, 1024, r5, g5 * 32 + b5);
        lemma_fundamental_div_mod_converse(v, 32, r5 * 32 + g5, b5);
        lemma_fundamental_div_mod_converse(r5 * 32 + g5, 32, r5, g5);
        lemma_fundamental_div_mod_converse(r5, 32, 0, r5);
        let v2 = color_of_555(v);
        assert(v2.red == r5 * 8);
        assert(v2.green == g5 * 8);
        assert(v2.blue == b5 * 8);
        assert(rgb555(v2) == rgb555(c));
    }
}

/// Rows whose pixels are the stored views of another's are stored with the
/// same bytes.
pub proof fn lemma_direct_row_view(row: Seq<Rgba>, row2: Seq<Rgba>, d: BitDepth)
    requires
        !d.spec_is_indexed(),
        row2.len() == row.len(),
        forall|i: int| 0 <= i < row.len() ==> row2[i] == stored_view(row[i], d),
    ensures
        direct_row(row2, d) == direct_row(row, d),
    decreases row.len(),
{
    if row.len() > 0 {
        lemma_direct_row_view(row.drop_last(), row2.drop_last(), d);
        lemma_view_bytes(row.last(), d);
    }
}

/// Grids of the same size whose rows are stored alike are stored alike.
pub proof fn lemma_pixel_rows_same(b: BitMap, b2: BitMap, p: Seq<Rgba>, d: BitDepth, n: nat)
    requires
        b2.width == b.width,
        b2.height == b.height,
        n <= b.height,
        forall|y: nat| y < b.height ==> #[trigger] row_bytes(grid_row(b2.pixels@, b.width as nat, y), p, d)
            == row_bytes(grid_row(b.pixels@, b.width as nat, y), p, d),
    ensures
        pixel_rows(b2, p, d, n) == pixel_rows(b, p, d, n),
    decreases n,
{
    if n > 0 {
        lemma_pixel_rows_same(b, b2, p, d, (n - 1) as nat);
        assert(row_bytes(grid_row(b2.pixels@, b.width as nat, (n - 1) as nat), p, d) == row_bytes(
            grid_row(b.pixels@, b.width as nat, (n - 1) as nat),
            p,
            d,
        ));
    }
}

/// A grid of the same size whose pixels are the stored views of another's
/// encodes to the same bytes.
pub proof fn lemma_view_encodes_same(b: BitMap, b2: BitMap, d: BitDepth)
    requires
        b.well_formed(),
        b2.width == b.width,
        b2.height == b.height,
        b2.pixels@ == Seq::new(
            (b.width * b.height) as nat,
            |i: int| stored_view(b.pixels@[i], d),
        ),
    ensures
        encoded_file(b2, d) == encoded_file(b, d),
{
    let w = b.width as nat;
    let h = b.height as nat;
    if d.spec_is_indexed() || d == BitDepth::TrueColorAlpha {
        assert(b2.pixels@ =~= b.pixels@);
        assert(b2.spec_scan() == b.spec_scan());
    }
    let p = palette_for(b, d);
    assert(palette_for(b2, d) == p);
    assert forall|y: nat| y < b.height implies #[trigger] row_bytes(grid_row(b2.pixels@, w, y), p, d)
        == row_bytes(grid_row(b.pixels@, w, y), p, d) by {
        crate::image::lemma_index_in_grid(0, y, w, h);
        let row = grid_row(b.pixels@, w, y);
        let row2 = grid_row(b2.pixels@, w, y);
        if !d.spec_is_indexed() {
            assert forall|i: int| 0 <= i < row.len() implies row2[i] == stored_view(row[i], d) by {
                crate::image::lemma_index_in_grid(i as nat, y, w, h);
            }
            lemma_direct_row_view(row, row2, d);
        } else {
            assert(row2 =~= row);
        }
    }
    lemma_pixel_rows_same(b, b2, p, d, h);
}

/// Bytes that `encode` produced decode to a grid that encodes back to exactly
/// those bytes, at the depth that decoding reports.
pub proof fn lemma_round_trip(b: BitMap, d: BitDepth, b2: BitMap, d2: BitDepth)
    requires
        encodable(b, d),
        !palette_overflows(b, d),
        d.spec_is_indexed() ==> b.width * b.height > 0,
        decode_spec(encoded_file(b, d)) == Ok::<(u32, u32, Seq<Rgba>, BitDepth), BmpError>(
            (b2.width, b2.height, b2.pixels@, d2),
        ),
    ensures
        d2 == d,
        encoded_file(b2, d2) == encoded_file(b, d),
{
    lemma_decode_of_encode(b, d);
    lemma_view_encodes_same(b, b2, d);
}

} // verus!
