use vstd::prelude::*;
use crate::util::{
    BmpError,
    le_u16,
    le_u32,
    u16_bytes,
    u32_bytes,
    i32_of_bits,
    bits_of_i32,
    byte_slice_to_u16,
    byte_slice_to_u32,
    byte_slice_from_u16,
    byte_slice_from_u32,
    i32_from_bits,
    bits_from_i32,
    lemma_u16_bytes_of_le,
    lemma_u32_bytes_of_le,
    lemma_i32_bits,
};

verus! {

/// Size in bytes of the classic info header layout.
pub const INFO_HEADER_SIZE: u32 = 40;

/// The device-independent bitmap header: geometry, depth and palette size.
pub struct InfoHeader {
    /// Size of this header on disk, at least 40.
    pub bi_size: u32,
    pub bi_width: i32,
    /// Negative for rows stored top-down.
    pub bi_height: i32,
    pub bi_planes: u16,
    pub bi_bit_count: u16,
    pub bi_compression: u32,
    /// Byte length of the pixel array; may be 0.
    pub bi_size_image: u32,
    pub bi_x_pels_per_meter: i32,
    pub bi_y_pels_per_meter: i32,
    /// Raw palette entry count as stored.
    pub bi_clr_used: u32,
    pub bi_clr_important: u32,
    /// The bytes of a longer header past the first 40, kept as they are.
    pub extra: Vec<u8>,
}

/// The first 40 bytes that encode an info header.
pub open spec fn info_prefix_bytes(h: InfoHeader) -> Seq<u8> {
    u32_bytes(h.bi_size) + u32_bytes(bits_of_i32(h.bi_width)) + u32_bytes(bits_of_i32(h.bi_height))
        + u16_bytes(h.bi_planes) + u16_bytes(h.bi_bit_count) + u32_bytes(h.bi_compression)
        + u32_bytes(h.bi_size_image) + u32_bytes(bits_of_i32(h.bi_x_pels_per_meter)) + u32_bytes(
        bits_of_i32(h.bi_y_pels_per_meter),
    ) + u32_bytes(h.bi_clr_used) + u32_bytes(h.bi_clr_important)
}

/// All the bytes that encode an info header.
pub open spec fn info_header_bytes(h: InfoHeader) -> Seq<u8> {
    info_prefix_bytes(h) + h.extra@
}

/// `h` is the info header that `b` holds at offset `o`.
pub open spec fn parsed_info_header(h: InfoHeader, b: Seq<u8>, o: int) -> bool {
    &&& h.bi_size == le_u32(b, o)
    &&& h.bi_width == i32_of_bits(le_u32(b, o + 4) as u32)
    &&& h.bi_height == i32_of_bits(le_u32(b, o + 8) as u32)
    &&& h.bi_planes == le_u16(b, o + 12)
    &&& h.bi_bit_count == le_u16(b, o + 14)
    &&& h.bi_compression == le_u32(b, o + 16)
    &&& h.bi_size_image == le_u32(b, o + 20)
    &&& h.bi_x_pels_per_meter == i32_of_bits(le_u32(b, o + 24) as u32)
    &&& h.bi_y_pels_per_meter == i32_of_bits(le_u32(b, o + 28) as u32)
    &&& h.bi_clr_used == le_u32(b, o + 32)
    &&& h.bi_clr_important == le_u32(b, o + 36)
    &&& h.extra@ == b.subrange(o + 40, o + h.bi_size)
}

/// The palette size that a header declares: a raw 0 at an indexed depth
/// means every index of the depth.
pub open spec fn spec_colors_used(bit_count: u16, clr_used: u32) -> nat {
    if clr_used == 0 && bit_count == 1 {
        2
    } else if clr_used == 0 && bit_count == 4 {
        16
    } else if clr_used == 0 && bit_count == 8 {
        256
    } else {
        clr_used as nat
    }
}

impl InfoHeader {
    pub open spec fn well_formed(&self) -> bool {
        &&& self.bi_size >= 40
        &&& self.extra@.len() == self.bi_size - 40
    }

    /// A 40-byte header for an image of the given geometry.
    pub fn new(
        width: i32,
        height: i32,
        bit_count: u16,
        size_image: u32,
        clr_used: u32,
    ) -> (r: InfoHeader)
        ensures
            r.well_formed(),
            r.bi_size == 40,
            r.bi_width == width,
            r.bi_height == height,
            r.bi_planes == 1,
            r.bi_bit_count == bit_count,
            r.bi_compression == 0,
            r.bi_size_image == size_image,
            r.bi_x_pels_per_meter == 2835,
            r.bi_y_pels_per_meter == 2835,
            r.bi_clr_used == clr_used,
            r.bi_clr_important == 0,
            r.extra@.len() == 0,
    {
        InfoHeader {
            bi_size: INFO_HEADER_SIZE,
            bi_width: width,
            bi_height: height,
            bi_planes: 1,
            bi_bit_count: bit_count,
            bi_compression: 0,
            bi_size_image: size_image,
            bi_x_pels_per_meter: 2835,
            bi_y_pels_per_meter: 2835,
            bi_clr_used: clr_used,
            bi_clr_important: 0,
            extra: Vec::new(),
        }
    }

    /// Reads an info header that starts at byte `offset` of a stream.
    pub fn stream(bit_stream: &[u8], offset: usize) -> (r: Result<InfoHeader, BmpError>)
        ensures
            bit_stream@.len() < offset + 40 ==> r == Err::<InfoHeader, BmpError>(
                BmpError::Truncated,
            ),
            bit_stream@.len() >= offset + 40 && le_u32(bit_stream@, offset as int) < 40 ==> r
                == Err::<InfoHeader, BmpError>(BmpError::UnsupportedHeader),
            bit_stream@.len() >= offset + 40 && le_u32(bit_stream@, offset as int) >= 40
                && bit_stream@.len() < offset + le_u32(bit_stream@, offset as int) ==> r == Err::<
                InfoHeader,
                BmpError,
            >(BmpError::Truncated),
            bit_stream@.len() >= offset + 40 && le_u32(bit_stream@, offset as int) >= 40
                && bit_stream@.len() >= offset + le_u32(bit_stream@, offset as int) ==> r is Ok
                && parsed_info_header(r->Ok_0, bit_stream@, offset as int) && r->Ok_0.well_formed(),
    {
        if offset > bit_stream.len() || bit_stream.len() - offset < 40 {
            return Err(BmpError::Truncated);
        }
        let mut i: usize = offset;
        let bi_size = byte_slice_to_u32(bit_stream, &mut i)?;
        if bi_size < INFO_HEADER_SIZE {
            return Err(BmpError::UnsupportedHeader);
        }
        if bit_stream.len() - offset < bi_size as usize {
            return Err(BmpError::Truncated);
        }
        let bi_width = i32_from_bits(byte_slice_to_u32(bit_stream, &mut i)?);
        let bi_height = i32_from_bits(byte_slice_to_u32(bit_stream, &mut i)?);
        let bi_planes = byte_slice_to_u16(bit_stream, &mut i)?;
        let bi_bit_count = byte_slice_to_u16(bit_stream, &mut i)?;
        let bi_compression = byte_slice_to_u32(bit_stream, &mut i)?;
        let bi_size_image = byte_slice_to_u32(bit_stream, &mut i)?;
        let bi_x_pels_per_meter = i32_from_bits(byte_slice_to_u32(bit_stream, &mut i)?);
        let bi_y_pels_per_meter = i32_from_bits(byte_slice_to_u32(bit_stream, &mut i)?);
        let bi_clr_used = byte_slice_to_u32(bit_stream, &mut i)?;
        let bi_clr_important = byte_slice_to_u32(bit_stream, &mut i)?;
        let end = offset + bi_size as usize;
        let mut extra: Vec<u8> = Vec::new();
        while i < end
            invariant
                offset + 40 <= i <= end <= bit_stream@.len(),
                extra@ == bit_stream@.subrange(offset + 40, i as int),
            decreases end - i,
        {
            extra.push(bit_stream[i]);
            i = i + 1;
            assert(extra@ =~= bit_stream@.subrange(offset + 40, i as int));
        }
        Ok(
            InfoHeader {
                bi_size,
                bi_width,
                bi_height,
                bi_planes,
                bi_bit_count,
                bi_compression,
                bi_size_image,
                bi_x_pels_per_meter,
                bi_y_pels_per_meter,
                bi_clr_used,
                bi_clr_important,
                extra,
            },
        )
    }

    /// The bytes that encode this header.
    pub fn as_bytes(&self) -> (r: Vec<u8>)
        ensures
            r@ == info_header_bytes(*self),
    {
        let mut bytes: Vec<u8> = Vec::new();
        push_u32(&mut bytes, self.bi_size);
        push_u32(&mut bytes, bits_from_i32(self.bi_width));
        push_u32(&mut bytes, bits_from_i32(self.bi_height));
        push_u16(&mut bytes, self.bi_planes);
        push_u16(&mut bytes, self.bi_bit_count);
        push_u32(&mut bytes, self.bi_compression);
        push_u32(&mut bytes, self.bi_size_image);
        push_u32(&mut bytes, bits_from_i32(self.bi_x_pels_per_meter));
        push_u32(&mut bytes, bits_from_i32(self.bi_y_pels_per_meter));
        push_u32(&mut bytes, self.bi_clr_used);
        push_u32(&mut bytes, self.bi_clr_important);
        assert(bytes@ =~= info_prefix_bytes(*self));
        let mut k: usize = 0;
        while k < self.extra.len()
            invariant
                k <= self.extra@.len(),
                bytes@ == info_prefix_bytes(*self) + self.extra@.subrange(0, k as int),
            decreases self.extra@.len() - k,
        {
            bytes.push(self.extra[k]);
            k = k + 1;
            assert(bytes@ =~= info_prefix_bytes(*self) + self.extra@.subrange(0, k as int));
        }
        assert(self.extra@.subrange(0, k as int) =~= self.extra@);
        bytes
    }

    pub fn get_info_size(&self) -> (r: u32)
        ensures
            r == self.bi_size,
    {
        self.bi_size
    }

    pub fn get_width(&self) -> (r: i32)
        ensures
            r == self.bi_width,
    {
        self.bi_width
    }

    pub fn get_height(&self) -> (r: i32)
        ensures
            r == self.bi_height,
    {
        self.bi_height
    }

    pub fn get_bit_count(&self) -> (r: u16)
        ensures
            r == self.bi_bit_count,
    {
        self.bi_bit_count
    }

    pub fn get_compression(&self) -> (r: u32)
        ensures
            r == self.bi_compression,
    {
        self.bi_compression
    }

    /// The number of palette entries, with a raw 0 at an indexed depth read
    /// as every index of the depth.
    pub fn get_colors_used(&self) -> (r: u32)
        ensures
            r == spec_colors_used(self.bi_bit_count, self.bi_clr_used),
    {
        if self.bi_clr_used == 0 && self.bi_bit_count == 1 {
            2
        } else if self.bi_clr_used == 0 && self.bi_bit_count == 4 {
            16
        } else if self.bi_clr_used == 0 && self.bi_bit_count == 8 {
            256
        } else {
            self.bi_clr_used
        }
    }
}

/// Appends the little-endian bytes of a `u16`.
pub fn push_u16(bytes: &mut Vec<u8>, x: u16)
    ensures
        final(bytes)@ == old(bytes)@ + u16_bytes(x),
{
    let a = byte_slice_from_u16(x);
    bytes.push(a[0]);
    bytes.push(a[1]);
    assert(bytes@ =~= old(bytes)@ + u16_bytes(x));
}

/// Appends the little-endian bytes of a `u32`.
pub fn push_u32(bytes: &mut Vec<u8>, x: u32)
    ensures
        final(bytes)@ == old(bytes)@ + u32_bytes(x),
{
    let a = byte_slice_from_u32(x);
    bytes.push(a[0]);
    bytes.push(a[1]);
    bytes.push(a[2]);
    bytes.push(a[3]);
    assert(bytes@ =~= old(bytes)@ + u32_bytes(x));
}

/// A 32-bit field read at `k` encodes back to its four bytes.
proof fn lemma_u32_field(b: Seq<u8>, k: int, f: u32)
    requires
        0 <= k,
        k + 4 <= b.len(),
        f == le_u32(b, k),
    ensures
        u32_bytes(f) == b.subrange(k, k + 4),
{
    lemma_u32_bytes_of_le(b, k);
}

/// A 16-bit field read at `k` encodes back to its two bytes.
proof fn lemma_u16_field(b: Seq<u8>, k: int, f: u16)
    requires
        0 <= k,
        k + 2 <= b.len(),
        f == le_u16(b, k),
    ensures
        u16_bytes(f) == b.subrange(k, k + 2),
{
    lemma_u16_bytes_of_le(b, k);
}

/// A signed 32-bit field read at `k` encodes back to its four bytes.
proof fn lemma_i32_field(b: Seq<u8>, k: int, v: i32)
    requires
        0 <= k,
        k + 4 <= b.len(),
        v == i32_of_bits(le_u32(b, k) as u32),
    ensures
        u32_bytes(bits_of_i32(v)) == b.subrange(k, k + 4),
{
    lemma_u32_bytes_of_le(b, k);
    lemma_i32_bits(le_u32(b, k) as u32, 0);
}

/// Reading a header and encoding it again gives the bytes read.
pub proof fn lemma_info_header_bytes_of_parsed(h: InfoHeader, b: Seq<u8>, o: int)
    requires
        0 <= o,
        h.well_formed(),
        o + h.bi_size <= b.len(),
        parsed_info_header(h, b, o),
    ensures
        info_header_bytes(h) == b.subrange(o, o + h.bi_size),
{
    lemma_u32_field(b, o, h.bi_size);
    lemma_i32_field(b, o + 4, h.bi_width);
    lemma_i32_field(b, o + 8, h.bi_height);
    lemma_u16_field(b, o + 12, h.bi_planes);
    lemma_u16_field(b, o + 14, h.bi_bit_count);
    lemma_u32_field(b, o + 16, h.bi_compression);
    lemma_u32_field(b, o + 20, h.bi_size_image);
    lemma_i32_field(b, o + 24, h.bi_x_pels_per_meter);
    lemma_i32_field(b, o + 28, h.bi_y_pels_per_meter);
    lemma_u32_field(b, o + 32, h.bi_clr_used);
    lemma_u32_field(b, o + 36, h.bi_clr_important);
    assert(info_prefix_bytes(h) =~= b.subrange(o, o + 40));
    assert(info_header_bytes(h) =~= b.subrange(o, o + h.bi_size));
}

} // verus!
