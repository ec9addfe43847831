use vstd::prelude::*;
use crate::bit_depth::BitDepth;
use crate::file_header::FileHeader;
use crate::image::{BitMap, unique_in_order, lemma_unique_in_order};
use crate::info_header::{InfoHeader, spec_colors_used};
use crate::rgba::{Rgba, color_bytes};
use crate::util::BmpError;

verus! {

/// An ordered table of colors that indexed pixels refer to.
pub struct RgbQuad {
    pub data: Vec<Rgba>,
}

/// The color whose on-disk bytes start at `i` of `b`.
pub open spec fn color_at(b: Seq<u8>, i: int) -> Rgba {
    Rgba { red: b[i + 2], green: b[i + 1], blue: b[i], alpha: b[i + 3] }
}

/// The `n` colors stored from offset `o` of `b`.
pub open spec fn palette_from_bytes(b: Seq<u8>, o: int, n: nat) -> Seq<Rgba> {
    Seq::new(n, |k: int| color_at(b, o + 4 * k))
}

/// The on-disk bytes of a table of colors.
pub open spec fn palette_bytes(p: Seq<Rgba>) -> Seq<u8>
    decreases p.len(),
{
    if p.len() == 0 {
        Seq::empty()
    } else {
        palette_bytes(p.drop_last()) + color_bytes(p.last())
    }
}

/// The palette built from a grid for a depth: its distinct colors for an
/// indexed depth, nothing for a direct-color one.
pub open spec fn palette_for(b: BitMap, d: BitDepth) -> Seq<Rgba> {
    if d.spec_is_indexed() {
        unique_in_order(b.spec_scan())
    } else {
        Seq::empty()
    }
}

impl RgbQuad {
    pub open spec fn view(&self) -> Seq<Rgba> {
        self.data@
    }

    /// Reads the palette that follows the two headers: as many entries as
    /// the info header declares.
    pub fn stream(bit_stream: &[u8], file: &FileHeader, info: &InfoHeader) -> (r: Result<
        RgbQuad,
        BmpError,
    >)
        ensures
            14 + info.bi_size + 4 * spec_colors_used(info.bi_bit_count, info.bi_clr_used)
                <= bit_stream@.len() <==> r is Ok,
            r is Ok ==> r->Ok_0@ == palette_from_bytes(
                bit_stream@,
                14 + info.bi_size,
                spec_colors_used(info.bi_bit_count, info.bi_clr_used),
            ),
            r is Err ==> r == Err::<RgbQuad, BmpError>(BmpError::Truncated),
    {
        let offset: u64 = file.get_file_header_byte_size() as u64 + info.get_info_size() as u64;
        let n: u32 = info.get_colors_used();
        if offset + 4 * (n as u64) > bit_stream.len() as u64 {
            return Err(BmpError::Truncated);
        }
        let blen: usize = bit_stream.len();
        let offset: usize = offset as usize;
        let mut data: Vec<Rgba> = Vec::new();
        let mut index: u32 = 0;
        while index < n
            invariant
                offset == 14 + info.bi_size,
                n == spec_colors_used(info.bi_bit_count, info.bi_clr_used),
                offset + 4 * n <= bit_stream@.len(),
                bit_stream@.len() == blen,
                index <= n,
                data@ == palette_from_bytes(bit_stream@, offset as int, index as nat),
            decreases n - index,
        {
            let i: usize = offset + 4 * index as usize;
            data.push(
                Rgba::bgra(bit_stream[i], bit_stream[i + 1], bit_stream[i + 2], bit_stream[i + 3]),
            );
            index = index + 1;
            assert(data@ =~= palette_from_bytes(bit_stream@, offset as int, index as nat));
        }
        Ok(RgbQuad { data })
    }

    /// The palette that encoding `bitmap` at `bit_depth` uses: its distinct
    /// colors in the order they are written, for an indexed depth; empty
    /// otherwise.
    pub fn from(bitmap: &BitMap, bit_depth: BitDepth) -> (r: RgbQuad)
        requires
            bitmap.well_formed(),
        ensures
            r@ == palette_for(*bitmap, bit_depth),
    {
        match bit_depth {
            BitDepth::BW | BitDepth::Color16Bit | BitDepth::Color256Bit => RgbQuad {
                data: bitmap.get_all_unique_colors(),
            },
            _ => RgbQuad::empty(),
        }
    }

    /// A palette with no colors.
    pub fn empty() -> (r: RgbQuad)
        ensures
            r@.len() == 0,
    {
        RgbQuad { data: Vec::new() }
    }

    /// Size of the palette on disk: four bytes per color.
    pub fn get_bytes_size(&self) -> (r: u32)
        requires
            4 * self@.len() <= u32::MAX,
        ensures
            r == 4 * self@.len(),
    {
        4 * self.data.len() as u32
    }

    /// The on-disk bytes of the palette: blue, green, red, alpha per color.
    pub fn as_bytes(&self) -> (r: Vec<u8>)
        ensures
            r@ == palette_bytes(self@),
    {
        let mut bytes: Vec<u8> = Vec::new();
        let mut k: usize = 0;
        while k < self.data.len()
            invariant
                k <= self@.len(),
                bytes@ == palette_bytes(self@.take(k as int)),
            decreases self@.len() - k,
        {
            let rgb = self.data[k];
            bytes.push(rgb.get_blue());
            bytes.push(rgb.get_green());
            bytes.push(rgb.get_red());
            bytes.push(rgb.get_alpha());
            proof {
                assert(self@.take(k + 1).drop_last() =~= self@.take(k as int));
            }
            k = k + 1;
            assert(bytes@ =~= palette_bytes(self@.take(k as int)));
        }
        assert(self@.take(k as int) =~= self@);
        bytes
    }

    /// A copy of the colors.
    pub fn clone_colors(&self) -> (r: Vec<Rgba>)
        ensures
            r@ == self@,
    {
        let mut out: Vec<Rgba> = Vec::new();
        let mut k: usize = 0;
        while k < self.data.len()
            invariant
                k <= self@.len(),
                out@ == self@.take(k as int),
            decreases self@.len() - k,
        {
            out.push(self.data[k]);
            k = k + 1;
            assert(out@ =~= self@.take(k as int));
        }
        assert(self@.take(k as int) =~= self@);
        out
    }

    /// The number of colors.
    pub fn len(&self) -> (r: usize)
        ensures
            r == self@.len(),
    {
        self.data.len()
    }

    /// The position of `c` in the palette, if it is there.
    pub fn index_of(&self, c: Rgba) -> (r: Option<usize>)
        ensures
            r is Some <==> self@.contains(c),
            r is Some ==> r->Some_0 < self@.len() && self@[r->Some_0 as int] == c && forall|
                j: int,
            |
                0 <= j < r->Some_0 ==> self@[j] != c,
    {
        let mut k: usize = 0;
        while k < self.data.len()
            invariant
                k <= self@.len(),
                forall|j: int| 0 <= j < k ==> self@[j] != c,
            decreases self@.len() - k,
        {
            if self.data[k] == c {
                return Some(k);
            }
            k = k + 1;
        }
        None
    }
}

/// Building the palette twice from the same grid and depth gives the same
/// ordered table.
pub proof fn lemma_from_idempotent(b: BitMap, d: BitDepth, p: RgbQuad, q: RgbQuad)
    requires
        p@ == palette_for(b, d),
        q@ == palette_for(b, d),
    ensures
        p@ == q@,
{
}

/// At a direct-color depth the palette is empty, whatever the pixels.
pub proof fn lemma_direct_color_palette_empty(b: BitMap, d: BitDepth)
    requires
        !d.spec_is_indexed(),
    ensures
        palette_for(b, d).len() == 0,
{
}

/// The palette of an indexed depth holds each color of the grid once, and
/// nothing else.
pub proof fn lemma_palette_colors(b: BitMap, d: BitDepth)
    requires
        d.spec_is_indexed(),
    ensures
        palette_for(b, d).no_duplicates(),
        forall|c: Rgba| b.spec_scan().contains(c) <==> palette_for(b, d).contains(c),
{
    lemma_unique_in_order(b.spec_scan());
}

/// Writing a palette that was read from `b` gives back the bytes it was read from.
pub proof fn lemma_palette_bytes_of_read(b: Seq<u8>, o: int, n: nat)
    requires
        0 <= o,
        o + 4 * n <= b.len(),
    ensures
        palette_bytes(palette_from_bytes(b, o, n)) == b.subrange(o, o + 4 * n),
    decreases n,
{
    if n > 0 {
        lemma_palette_bytes_of_read(b, o, (n - 1) as nat);
        assert(palette_from_bytes(b, o, n).drop_last() =~= palette_from_bytes(
            b,
            o,
            (n - 1) as nat,
        ));
        assert(b.subrange(o, o + 4 * n) =~= b.subrange(o, o + 4 * (n - 1)) + color_bytes(
            color_at(b, o + 4 * (n - 1)),
        ));
    } else {
        assert(b.subrange(o, o) =~= Seq::<u8>::empty());
    }
}

/// The bytes of a palette are four per color.
pub proof fn lemma_palette_bytes_len(p: Seq<Rgba>)
    ensures
        palette_bytes(p).len() == 4 * p.len(),
    decreases p.len(),
{
    if p.len() > 0 {
        lemma_palette_bytes_len(p.drop_last());
    }
}

} // verus!
