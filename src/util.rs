use vstd::prelude::*;

verus! {

/// Failure conditions of decoding and encoding.
#[derive(Debug, Clone, Copy, PartialEq, Eq, Structural)]
pub enum BmpError {
    /// A read would run past the end of the buffer.
    Truncated,
    /// The first two bytes are not "BM".
    InvalidMagic,
    /// The compression field is not "none".
    UnsupportedCompression,
    /// The bit depth is not one of 1, 4, 8, 16, 24, 32.
    UnsupportedBitDepth,
    /// More distinct colors than the bit depth can index.
    PaletteOverflow,
    /// The info header is shorter than the 40-byte layout.
    UnsupportedHeader,
    /// The width is negative.
    InvalidDimensions,
    /// A pixel's index lies past the end of the palette.
    InvalidPaletteIndex,
}

/// Little-endian value of the two bytes of `b` at `i`.
pub open spec fn le_u16(b: Seq<u8>, i: int) -> nat {
    (b[i] + 256 * b[i + 1]) as nat
}

/// Little-endian value of the four bytes of `b` at `i`.
pub open spec fn le_u32(b: Seq<u8>, i: int) -> nat {
    (b[i] + 256 * (b[i + 1] + 256 * (b[i + 2] + 256 * b[i + 3]))) as nat
}

/// The two little-endian bytes of `x`.
#[verifier::opaque]
pub open spec fn u16_bytes(x: u16) -> Seq<u8> {
    seq![(x % 256) as u8, (x / 256) as u8]
}

/// The four little-endian bytes of `x`.
#[verifier::opaque]
pub open spec fn u32_bytes(x: u32) -> Seq<u8> {
    seq![
        (x % 256) as u8,
        (x / 256 % 256) as u8,
        (x / 256 / 256 % 256) as u8,
        (x / 256 / 256 / 256) as u8,
    ]
}

/// The signed value of the two's-complement bits of `x`.
pub open spec fn i32_of_bits(x: u32) -> i32 {
    if x < 0x8000_0000 {
        x as i32
    } else {
        (x - 0x1_0000_0000) as i32
    }
}

/// The two's-complement bits of `v`.
pub open spec fn bits_of_i32(v: i32) -> u32 {
    if v >= 0 {
        v as u32
    } else {
        (v + 0x1_0000_0000) as u32
    }
}

/// Two's-complement bits and values are inverse.
pub proof fn lemma_i32_bits(x: u32, v: i32)
    ensures
        bits_of_i32(i32_of_bits(x)) == x,
        i32_of_bits(bits_of_i32(v)) == v,
{
}

/// Two bytes encode a 16-bit value.
pub proof fn lemma_u16_bytes_len(x: u16)
    ensures
        u16_bytes(x).len() == 2,
{
    reveal(u16_bytes);
}

/// Four bytes encode a 32-bit value.
pub proof fn lemma_u32_bytes_len(x: u32)
    ensures
        u32_bytes(x).len() == 4,
{
    reveal(u32_bytes);
}

/// Reading back the bytes of a 16-bit value gives the value.
pub proof fn lemma_u16_round_trip(x: u16)
    ensures
        le_u16(u16_bytes(x), 0) == x,
{
    reveal(u16_bytes);
}

/// Reading back the bytes of a 32-bit value gives the value.
pub proof fn lemma_u32_round_trip(x: u32)
    ensures
        le_u32(u32_bytes(x), 0) == x,
{
    reveal(u32_bytes);
}

/// Writing the value of two bytes gives the same bytes.
pub proof fn lemma_u16_bytes_of_le(b: Seq<u8>, i: int)
    requires
        0 <= i,
        i + 2 <= b.len(),
    ensures
        le_u16(b, i) <= u16::MAX,
        u16_bytes(le_u16(b, i) as u16) =~= b.subrange(i, i + 2),
{
    reveal(u16_bytes);
}

/// Writing the value of four bytes gives the same bytes.
pub proof fn lemma_u32_bytes_of_le(b: Seq<u8>, i: int)
    requires
        0 <= i,
        i + 4 <= b.len(),
    ensures
        le_u32(b, i) <= u32::MAX,
        u32_bytes(le_u32(b, i) as u32) =~= b.subrange(i, i + 4),
{
    reveal(u32_bytes);
}

/// Reads a little-endian `u16` at `*i` and advances `*i` by two.
pub fn byte_slice_to_u16(b: &[u8], i: &mut usize) -> (r: Result<u16, BmpError>)
    ensures
        *old(i) + 2 <= b@.len() ==> r == Ok::<u16, BmpError>(le_u16(b@, *old(i) as int) as u16)
            && *final(i) == *old(i) + 2,
        *old(i) + 2 > b@.len() ==> r == Err::<u16, BmpError>(BmpError::Truncated) && *final(i)
            == *old(i),
{
    if *i > b.len() || b.len() - *i < 2 {
        return Err(BmpError::Truncated);
    }
    let v: u16 = b[*i] as u16 + 256 * (b[*i + 1] as u16);
    *i = *i + 2;
    Ok(v)
}

/// Reads a little-endian `u32` at `*i` and advances `*i` by four.
pub fn byte_slice_to_u32(b: &[u8], i: &mut usize) -> (r: Result<u32, BmpError>)
    ensures
        *old(i) + 4 <= b@.len() ==> r == Ok::<u32, BmpError>(le_u32(b@, *old(i) as int) as u32)
            && *final(i) == *old(i) + 4,
        *old(i) + 4 > b@.len() ==> r == Err::<u32, BmpError>(BmpError::Truncated) && *final(i)
            == *old(i),
{
    if *i > b.len() || b.len() - *i < 4 {
        return Err(BmpError::Truncated);
    }
    let j = *i;
    let v: u32 = b[j] as u32 + 256 * (b[j + 1] as u32 + 256 * (b[j + 2] as u32 + 256 * (
    b[j + 3] as u32)));
    *i = j + 4;
    Ok(v)
}

/// The signed value of the two's-complement bits of `x`.
pub fn i32_from_bits(x: u32) -> (r: i32)
    ensures
        r == i32_of_bits(x),
{
    if x < 0x8000_0000 {
        x as i32
    } else {
        let y: u32 = x - 0x8000_0000;
        (y as i32) - 0x7fff_ffff - 1
    }
}

/// The two's-complement bits of `v`.
pub fn bits_from_i32(v: i32) -> (r: u32)
    ensures
        r == bits_of_i32(v),
{
    if v >= 0 {
        v as u32
    } else {
        let y: i32 = v + 0x7fff_ffff + 1;
        (y as u32) + 0x8000_0000
    }
}

/// The little-endian bytes of a `u16`.
pub fn byte_slice_from_u16(x: u16) -> (r: [u8; 2])
    ensures
        r@ == u16_bytes(x),
{
    reveal(u16_bytes);
    let r = [(x % 256) as u8, (x / 256) as u8];
    assert(r@ =~= u16_bytes(x));
    r
}

/// The little-endian bytes of a `u32`.
pub fn byte_slice_from_u32(x: u32) -> (r: [u8; 4])
    ensures
        r@ == u32_bytes(x),
{
    reveal(u32_bytes);
    let r = [(x % 256) as u8, (x / 256 % 256) as u8, (x / 256 / 256 % 256) as u8, (x / 256 / 256
        / 256) as u8];
    assert(r@ =~= u32_bytes(x));
    r
}

} // verus!
