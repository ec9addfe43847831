use vstd::prelude::*;
use crate::bit_depth::BitDepth;
use crate::image::{BitMap, grid_row, lemma_index_in_grid};
use crate::rgb_quad::RgbQuad;
use crate::rgba::Rgba;
use crate::util::{u16_bytes, byte_slice_from_u16};

verus! {

/// Bytes in one stored row of `w` pixels of `bits` bits: the packed length
/// rounded up to a multiple of four.
pub open spec fn stride(w: nat, bits: nat) -> nat {
    ((w * bits + 31) / 32 * 4) as nat
}

/// How many pixels one byte holds at an indexed depth.
pub open spec fn per_byte(d: BitDepth) -> nat {
    match d {
        BitDepth::BW => 8,
        BitDepth::Color16Bit => 2,
        _ => 1,
    }
}

/// The position of `c` in a palette without repeats that holds it.
pub open spec fn palette_index(p: Seq<Rgba>, c: Rgba) -> int {
    choose|i: int| 0 <= i < p.len() && p[i] == c
}

/// The index stored for pixel slot `i` of a row: past the row's end, 0.
pub open spec fn slot(row: Seq<Rgba>, p: Seq<Rgba>, i: int) -> int {
    if i < row.len() {
        palette_index(p, row[i])
    } else {
        0
    }
}

/// The first `j` slots of byte `k` of a row, packed most significant first.
pub open spec fn packed(row: Seq<Rgba>, p: Seq<Rgba>, d: BitDepth, k: int, j: nat) -> int
    decreases j,
{
    if j == 0 {
        0
    } else {
        packed(row, p, d, k, (j - 1) as nat) * d.spec_max_colors() + slot(
            row,
            p,
            k * per_byte(d) + j - 1,
        )
    }
}

/// The 16-bit value of a color: five bits each of red, green and blue.
pub open spec fn rgb555(c: Rgba) -> u16 {
    ((c.red / 8) * 1024 + (c.green / 8) * 32 + c.blue / 8) as u16
}

/// The stored bytes of one pixel at a direct-color depth.
pub open spec fn direct_bytes(c: Rgba, d: BitDepth) -> Seq<u8> {
    match d {
        BitDepth::HighColor => u16_bytes(rgb555(c)),
        BitDepth::TrueColor => seq![c.blue, c.green, c.red],
        _ => seq![c.blue, c.green, c.red, c.alpha],
    }
}

/// The stored bytes of a row of pixels at a direct-color depth, unpadded.
pub open spec fn direct_row(row: Seq<Rgba>, d: BitDepth) -> Seq<u8>
    decreases row.len(),
{
    if row.len() == 0 {
        Seq::empty()
    } else {
        direct_row(row.drop_last(), d) + direct_bytes(row.last(), d)
    }
}

/// The stored bytes of one row, padding included.
pub open spec fn row_bytes(row: Seq<Rgba>, p: Seq<Rgba>, d: BitDepth) -> Seq<u8> {
    let n = stride(row.len(), d.spec_bits());
    if d.spec_is_indexed() {
        Seq::new(n, |k: int| packed(row, p, d, k, per_byte(d)) as u8)
    } else {
        direct_row(row, d) + Seq::new((n - direct_row(row, d).len()) as nat, |k: int| 0u8)
    }
}

/// The stored bytes of the first `n` rows, bottom row first.
pub open spec fn pixel_rows(b: BitMap, p: Seq<Rgba>, d: BitDepth, n: nat) -> Seq<u8>
    decreases n,
{
    if n == 0 || n > b.height {
        Seq::empty()
    } else {
        pixel_rows(b, p, d, (n - 1) as nat) + row_bytes(
            grid_row(b.pixels@, b.width as nat, (n - 1) as nat),
            p,
            d,
        )
    }
}

/// The whole stored pixel array of a grid.
pub open spec fn pixel_array(b: BitMap, p: Seq<Rgba>, d: BitDepth) -> Seq<u8> {
    pixel_rows(b, p, d, b.height as nat)
}

/// Bytes per pixel at a direct-color depth.
pub open spec fn direct_width(d: BitDepth) -> nat {
    d.spec_bits() / 8
}

/// The stored row length is the packed length rounded up to the next
/// multiple of four.
pub proof fn lemma_stride_padding(w: nat, d: BitDepth)
    ensures
        stride(w, d.spec_bits()) % 4 == 0,
        stride(w, d.spec_bits()) * 8 >= w * d.spec_bits(),
        (stride(w, d.spec_bits()) - 4) * 8 < w * d.spec_bits(),
{
    let bits = d.spec_bits();
    let t = w * bits + 31;
    assert(stride(w, bits) == t / 32 * 4);
    assert(t / 32 * 32 <= t && t < t / 32 * 32 + 32) by (nonlinear_arith)
        requires
            t >= 0,
    ;
}

/// The length of a row's unpadded direct-color bytes.
pub proof fn lemma_direct_row_len(row: Seq<Rgba>, d: BitDepth)
    requires
        !d.spec_is_indexed(),
    ensures
        direct_row(row, d).len() == row.len() * direct_width(d),
    decreases row.len(),
{
    if row.len() > 0 {
        lemma_direct_row_len(row.drop_last(), d);
        crate::util::lemma_u16_bytes_len(rgb555(row.last()));
        assert(row.len() * direct_width(d) == (row.len() - 1) * direct_width(d) + direct_width(d))
            by (nonlinear_arith);
    }
}

/// The 16-bit value of a color.
pub fn to_rgb555(c: Rgba) -> (r: u16)
    ensures
        r == rgb555(c),
{
    (c.red / 8) as u16 * 1024 + (c.green / 8) as u16 * 32 + (c.blue / 8) as u16
}

/// Appends the stored bytes of one pixel at a direct-color depth.
pub fn push_direct(bytes: &mut Vec<u8>, c: Rgba, d: BitDepth)
    requires
        !d.spec_is_indexed(),
    ensures
        final(bytes)@ == old(bytes)@ + direct_bytes(c, d),
{
    match d {
        BitDepth::HighColor => {
            let a = byte_slice_from_u16(to_rgb555(c));
            bytes.push(a[0]);
            bytes.push(a[1]);
            proof {
                crate::util::lemma_u16_bytes_len(rgb555(c));
            }
        },
        BitDepth::TrueColor => {
            bytes.push(c.blue);
            bytes.push(c.green);
            bytes.push(c.red);
        },
        _ => {
            bytes.push(c.blue);
            bytes.push(c.green);
            bytes.push(c.red);
            bytes.push(c.alpha);
        },
    }
    assert(bytes@ =~= old(bytes)@ + direct_bytes(c, d));
}

/// `m` to the power `j`.
pub open spec fn mpow(m: nat, j: nat) -> nat
    decreases j,
{
    if j == 0 {
        1
    } else {
        mpow(m, (j - 1) as nat) * m
    }
}

/// A full byte of slots at an indexed depth spans exactly eight bits.
pub proof fn lemma_byte_span(d: BitDepth)
    requires
        d.spec_is_indexed(),
    ensures
        mpow(d.spec_max_colors(), per_byte(d)) == 256,
        per_byte(d) >= 1,
        d.spec_max_colors() >= 2,
{
    reveal_with_fuel(mpow, 9);
}

/// Every color in a palette without repeats is found at its own position.
pub proof fn lemma_palette_index(p: Seq<Rgba>, k: int)
    requires
        p.no_duplicates(),
        0 <= k < p.len(),
    ensures
        palette_index(p, p[k]) == k,
{
    let c = p[k];
    assert(exists|i: int| 0 <= i < p.len() && p[i] == c);
    let i = palette_index(p, c);
    assert(p[i] == c);
}

/// Every row below `n` is among the first `n` rows in file order.
pub proof fn lemma_scan_contains(px: Seq<Rgba>, w: nat, h: nat, n: nat, y: nat, x: nat)
    requires
        px.len() == w * h,
        n <= h,
        y < n,
        x < w,
    ensures
        crate::image::scan_rows(px, w, h, n).contains(grid_row(px, w, y)[x as int]),
    decreases n,
{
    lemma_index_in_grid(x, y, w, h);
    if y == n - 1 {
        let prev = crate::image::scan_rows(px, w, h, (n - 1) as nat);
        assert(crate::image::scan_rows(px, w, h, n)[prev.len() + x as int] == grid_row(px, w, y)[x as int]);
    } else {
        lemma_scan_contains(px, w, h, (n - 1) as nat, y, x);
        let prev = crate::image::scan_rows(px, w, h, (n - 1) as nat);
        let k = choose|k: int| 0 <= k < prev.len() && prev[k] == grid_row(px, w, y)[x as int];
        assert(crate::image::scan_rows(px, w, h, n)[k] == prev[k]);
    }
}

/// The stored row length of a grid's rows as a machine integer.
pub fn row_stride(width: u32, d: BitDepth) -> (r: u64)
    ensures
        r == stride(width as nat, d.spec_bits()),
        r <= 0x10_0000_0000,
{
    let bits: u64 = d.bits() as u64;
    assert(width as u64 * bits <= 0x20_0000_0000) by (nonlinear_arith)
        requires
            width <= u32::MAX,
            bits <= 32,
    ;
    (width as u64 * bits + 31) / 32 * 4
}

/// Appends the stored bytes of row `y` of a grid, padding included.
pub fn encode_row(bm: &BitMap, y: u32, palette: &RgbQuad, d: BitDepth, bytes: &mut Vec<u8>)
    requires
        bm.well_formed(),
        y < bm.height,
        d.spec_is_indexed() ==> palette@.no_duplicates() && palette@.len()
            <= d.spec_max_colors() && forall|x: int|
            0 <= x < bm.width ==> #[trigger] palette@.contains(
                grid_row(bm.pixels@, bm.width as nat, y as nat)[x],
            ),
        old(bytes)@.len() + stride(bm.width as nat, d.spec_bits()) <= usize::MAX,
    ensures
        final(bytes)@ == old(bytes)@ + row_bytes(
            grid_row(bm.pixels@, bm.width as nat, y as nat),
            palette@,
            d,
        ),
{
    let ghost row = grid_row(bm.pixels@, bm.width as nat, y as nat);
    let w = bm.width;
    let n: u64 = row_stride(w, d);
    proof {
        lemma_index_in_grid(0, y as nat, w as nat, bm.height as nat);
        lemma_stride_padding(w as nat, d);
    }
    assert(row.len() == w);
    if d.is_indexed() {
        let m: u64 = d.max_colors() as u64;
        let ppb: u64 = match d {
            BitDepth::BW => 8,
            BitDepth::Color16Bit => 2,
            _ => 1,
        };
        proof {
            lemma_byte_span(d);
        }
        let mut k: u64 = 0;
        while k < n
            invariant
                bm.well_formed(),
                y < bm.height,
                w == bm.width,
                row == grid_row(bm.pixels@, bm.width as nat, y as nat),
                row.len() == w,
                d.spec_is_indexed(),
                palette@.no_duplicates(),
                palette@.len() <= d.spec_max_colors(),
                forall|x: int| 0 <= x < bm.width ==> #[trigger] palette@.contains(row[x]),
                m == d.spec_max_colors(),
                ppb == per_byte(d),
                mpow(m as nat, ppb as nat) == 256,
                n == stride(w as nat, d.spec_bits()),
                n <= 0x10_0000_0000,
                old(bytes)@.len() + n <= usize::MAX,
                k <= n,
                bytes@ == old(bytes)@ + Seq::new(
                    k as nat,
                    |i: int| packed(row, palette@, d, i, per_byte(d)) as u8,
                ),
            decreases n - k,
        {
            let mut acc: u64 = 0;
            let mut j: u64 = 0;
            while j < ppb
                invariant
                    bm.well_formed(),
                    y < bm.height,
                    w == bm.width,
                    row == grid_row(bm.pixels@, bm.width as nat, y as nat),
                    row.len() == w,
                    palette@.no_duplicates(),
                    palette@.len() <= d.spec_max_colors(),
                    forall|x: int| 0 <= x < bm.width ==> #[trigger] palette@.contains(row[x]),
                    m == d.spec_max_colors(),
                    ppb == per_byte(d),
                    ppb <= 8,
                    k < n,
                    n <= 0x10_0000_0000,
                    mpow(m as nat, ppb as nat) == 256,
                    j <= ppb,
                    acc == packed(row, palette@, d, k as int, j as nat),
                    acc < mpow(m as nat, j as nat),
                    mpow(m as nat, j as nat) <= 256,
                decreases ppb - j,
            {
                assert(k * ppb + j <= 0x100_0000_0000) by (nonlinear_arith)
                    requires
                        k < 0x10_0000_0000,
                        ppb <= 8,
                        j < ppb,
                ;
                let i: u64 = k * ppb + j;
                let s: u64 = if i < w as u64 {
                    let c = bm.get_pixel(i as u32, y);
                    proof {
                        lemma_index_in_grid(i as nat, y as nat, w as nat, bm.height as nat);
                        assert(row[i as int] == c);
                        assert(palette@.contains(row[i as int]));
                    }
                    match palette.index_of(c) {
                        Some(v) => {
                            proof {
                                lemma_palette_index(palette@, v as int);
                            }
                            v as u64
                        },
                        None => 0,
                    }
                } else {
                    0
                };
                assert(s == slot(row, palette@, k * per_byte(d) + j));
                assert(s < m);
                proof {
                    let a = acc as nat;
                    let p = mpow(m as nat, j as nat);
                    assert(a * m + s < p * m) by (nonlinear_arith)
                        requires
                            a < p,
                            s < m,
                    ;
                    lemma_mpow_mono(m as nat, (j + 1) as nat, ppb as nat);
                    assert(mpow(m as nat, (j + 1) as nat) == p * m);
                    assert(p * m <= 256);
                }
                acc = acc * m + s;
                j = j + 1;
            }
            bytes.push(acc as u8);
            k = k + 1;
            assert(bytes@ =~= old(bytes)@ + Seq::new(
                k as nat,
                |i: int| packed(row, palette@, d, i, per_byte(d)) as u8,
            ));
        }
        assert(bytes@ =~= old(bytes)@ + row_bytes(row, palette@, d));
    } else {
        let ghost start = bytes@;
        let mut x: u32 = 0;
        while x < w
            invariant
                bm.well_formed(),
                y < bm.height,
                w == bm.width,
                row == grid_row(bm.pixels@, bm.width as nat, y as nat),
                row.len() == w,
                !d.spec_is_indexed(),
                x <= w,
                start == old(bytes)@,
                old(bytes)@.len() + n <= usize::MAX,
                n == stride(w as nat, d.spec_bits()),
                n * 8 >= w * d.spec_bits(),
                bytes@ == start + direct_row(row.take(x as int), d),
            decreases w - x,
        {
            let c = bm.get_pixel(x, y);
            proof {
                lemma_index_in_grid(x as nat, y as nat, w as nat, bm.height as nat);
                assert(row.take(x + 1).drop_last() =~= row.take(x as int));
                lemma_direct_row_len(row.take(x + 1), d);
                assert((x + 1) * direct_width(d) * 8 <= w * d.spec_bits()) by (nonlinear_arith)
                    requires
                        x < w,
                        direct_width(d) * 8 == d.spec_bits(),
                ;
            }
            push_direct(bytes, c, d);
            x = x + 1;
        }
        assert(row.take(w as int) =~= row);
        proof {
            lemma_direct_row_len(row, d);
            assert(w * direct_width(d) * 8 == w * d.spec_bits()) by (nonlinear_arith)
                requires
                    direct_width(d) * 8 == d.spec_bits(),
            ;
        }
        let used: u64 = w as u64 * (d.bits() / 8) as u64;
        let ghost mid = bytes@;
        let mut k: u64 = used;
        while k < n
            invariant
                used <= k <= n,
                mid.len() + n - used <= usize::MAX,
                bytes@ == mid + Seq::new((k - used) as nat, |i: int| 0u8),
            decreases n - k,
        {
            bytes.push(0u8);
            k = k + 1;
            assert(bytes@ =~= mid + Seq::new((k - used) as nat, |i: int| 0u8));
        }
        assert(bytes@ =~= old(bytes)@ + row_bytes(row, palette@, d));
    }
}

/// Powers of `m` grow with the exponent.
pub proof fn lemma_mpow_mono(m: nat, a: nat, b: nat)
    requires
        m >= 1,
        a <= b,
    ensures
        mpow(m, a) <= mpow(m, b),
    decreases b,
{
    if a < b {
        lemma_mpow_mono(m, a, (b - 1) as nat);
        let p = mpow(m, (b - 1) as nat);
        assert(p <= p * m) by (nonlinear_arith)
            requires
                m >= 1,
        ;
    }
}

/// A stored row is exactly one stride long.
pub proof fn lemma_row_bytes_len(row: Seq<Rgba>, p: Seq<Rgba>, d: BitDepth)
    ensures
        row_bytes(row, p, d).len() == stride(row.len(), d.spec_bits()),
{
    if !d.spec_is_indexed() {
        lemma_direct_row_len(row, d);
        lemma_stride_padding(row.len(), d);
        assert(row.len() * direct_width(d) * 8 == row.len() * d.spec_bits()) by (nonlinear_arith)
            requires
                direct_width(d) * 8 == d.spec_bits(),
        ;
    }
}

/// The first `n` stored rows take `n` strides.
pub proof fn lemma_pixel_rows_len(b: BitMap, p: Seq<Rgba>, d: BitDepth, n: nat)
    requires
        b.well_formed(),
        n <= b.height,
    ensures
        pixel_rows(b, p, d, n).len() == n * stride(b.width as nat, d.spec_bits()),
    decreases n,
{
    if n > 0 {
        lemma_pixel_rows_len(b, p, d, (n - 1) as nat);
        lemma_index_in_grid(0, (n - 1) as nat, b.width as nat, b.height as nat);
        let row = grid_row(b.pixels@, b.width as nat, (n - 1) as nat);
        assert(row.len() == b.width);
        lemma_row_bytes_len(row, p, d);
        let st = stride(b.width as nat, d.spec_bits());
        assert(n * st == (n - 1) * st + st) by (nonlinear_arith);
        assert(pixel_rows(b, p, d, n) == pixel_rows(b, p, d, (n - 1) as nat) + row_bytes(row, p, d));
        assert(row_bytes(row, p, d).len() == st);
    } else {
        let st = stride(b.width as nat, d.spec_bits());
        assert(n * st == 0) by (nonlinear_arith)
            requires
                n == 0,
        ;
    }
}

/// Appends the stored pixel array of a grid: rows bottom to top, each padded.
pub fn encode_pixels(bm: &BitMap, palette: &RgbQuad, d: BitDepth, bytes: &mut Vec<u8>)
    requires
        bm.well_formed(),
        d.spec_is_indexed() ==> palette@.no_duplicates() && palette@.len()
            <= d.spec_max_colors() && forall|c: Rgba| #[trigger]
            bm.spec_scan().contains(c) ==> palette@.contains(c),
        old(bytes)@.len() + bm.height * stride(bm.width as nat, d.spec_bits()) <= usize::MAX,
    ensures
        final(bytes)@ == old(bytes)@ + pixel_array(*bm, palette@, d),
{
    let h = bm.height;
    let ghost st = stride(bm.width as nat, d.spec_bits());
    let mut n: u32 = 0;
    while n < h
        invariant
            bm.well_formed(),
            h == bm.height,
            n <= h,
            d.spec_is_indexed() ==> palette@.no_duplicates() && palette@.len()
                <= d.spec_max_colors() && forall|c: Rgba| #[trigger]
                bm.spec_scan().contains(c) ==> palette@.contains(c),
            st == stride(bm.width as nat, d.spec_bits()),
            old(bytes)@.len() + h * st <= usize::MAX,
            bytes@ == old(bytes)@ + pixel_rows(*bm, palette@, d, n as nat),
        decreases h - n,
    {
        let y: u32 = n;
        proof {
            lemma_pixel_rows_len(*bm, palette@, d, n as nat);
            assert(n * st + st <= h * st) by (nonlinear_arith)
                requires
                    n < h,
            ;
            if d.spec_is_indexed() {
                assert forall|x: int| 0 <= x < bm.width implies #[trigger] palette@.contains(
                    grid_row(bm.pixels@, bm.width as nat, y as nat)[x],
                ) by {
                    lemma_scan_contains(
                        bm.pixels@,
                        bm.width as nat,
                        h as nat,
                        h as nat,
                        y as nat,
                        x as nat,
                    );
                    assert(bm.spec_scan().contains(grid_row(bm.pixels@, bm.width as nat, y as nat)[x]));
                }
            }
        }
        encode_row(bm, y, palette, d, bytes);
        n = n + 1;
        assert(bytes@ =~= old(bytes)@ + pixel_rows(*bm, palette@, d, n as nat));
    }
}

} // verus!
