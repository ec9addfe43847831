use vstd::prelude::*;
use crate::util::{
    BmpError,
    le_u16,
    le_u32,
    u16_bytes,
    u32_bytes,
    byte_slice_to_u16,
    byte_slice_to_u32,
    byte_slice_from_u16,
    byte_slice_from_u32,
    lemma_u16_bytes_of_le,
    lemma_u32_bytes_of_le,
};

verus! {

/// Size in bytes of the file header on disk.
pub const FILE_HEADER_SIZE: usize = 14;

/// The fixed leading structure of a bitmap file.
pub struct FileHeader {
    /// "BM" in a well-formed file.
    pub bf_type: [u8; 2],
    /// Size of the whole file in bytes.
    pub bf_size: u32,
    pub bf_reserved1: u16,
    pub bf_reserved2: u16,
    /// Offset from the start of the file to the first pixel byte.
    pub bf_off_bits: u32,
}

/// The fourteen bytes that encode a file header.
pub open spec fn file_header_bytes(h: FileHeader) -> Seq<u8> {
    h.bf_type@ + u32_bytes(h.bf_size) + u16_bytes(h.bf_reserved1) + u16_bytes(h.bf_reserved2)
        + u32_bytes(h.bf_off_bits)
}

/// The header that the first fourteen bytes of `b` encode.
pub open spec fn parsed_file_header(h: FileHeader, b: Seq<u8>) -> bool {
    &&& h.bf_type@ == b.subrange(0, 2)
    &&& h.bf_size == le_u32(b, 2)
    &&& h.bf_reserved1 == le_u16(b, 6)
    &&& h.bf_reserved2 == le_u16(b, 8)
    &&& h.bf_off_bits == le_u32(b, 10)
}

impl FileHeader {
    /// A header for a file of `size` bytes whose pixels start at `offset`.
    pub fn new(size: u32, offset: u32) -> (r: FileHeader)
        ensures
            r.bf_type@ == seq![66u8, 77u8],
            r.bf_size == size,
            r.bf_reserved1 == 0,
            r.bf_reserved2 == 0,
            r.bf_off_bits == offset,
    {
        let r = FileHeader {
            bf_type: [66u8, 77u8],
            bf_size: size,
            bf_reserved1: 0,
            bf_reserved2: 0,
            bf_off_bits: offset,
        };
        assert(r.bf_type@ =~= seq![66u8, 77u8]);
        r
    }

    /// Reads a file header from the first fourteen bytes of a stream.
    pub fn stream(bit_stream: &[u8]) -> (r: Result<FileHeader, BmpError>)
        ensures
            bit_stream@.len() < 14 ==> r == Err::<FileHeader, BmpError>(BmpError::Truncated),
            bit_stream@.len() >= 14 ==> r is Ok && parsed_file_header(r->Ok_0, bit_stream@),
    {
        if bit_stream.len() < 14 {
            return Err(BmpError::Truncated);
        }
        let bf_type = [bit_stream[0], bit_stream[1]];
        assert(bf_type@ =~= bit_stream@.subrange(0, 2));
        let mut i: usize = 2;
        let bf_size = byte_slice_to_u32(bit_stream, &mut i)?;
        let bf_reserved1 = byte_slice_to_u16(bit_stream, &mut i)?;
        let bf_reserved2 = byte_slice_to_u16(bit_stream, &mut i)?;
        let bf_off_bits = byte_slice_to_u32(bit_stream, &mut i)?;
        Ok(FileHeader { bf_type, bf_size, bf_reserved1, bf_reserved2, bf_off_bits })
    }

    /// The fourteen bytes that encode this header.
    pub fn as_bytes(&self) -> (r: Vec<u8>)
        ensures
            r@ == file_header_bytes(*self),
    {
        let mut bytes: Vec<u8> = Vec::new();
        bytes.push(self.bf_type[0]);
        bytes.push(self.bf_type[1]);
        let a = byte_slice_from_u32(self.bf_size);
        bytes.push(a[0]);
        bytes.push(a[1]);
        bytes.push(a[2]);
        bytes.push(a[3]);
        let b = byte_slice_from_u16(self.bf_reserved1);
        bytes.push(b[0]);
        bytes.push(b[1]);
        let c = byte_slice_from_u16(self.bf_reserved2);
        bytes.push(c[0]);
        bytes.push(c[1]);
        let d = byte_slice_from_u32(self.bf_off_bits);
        bytes.push(d[0]);
        bytes.push(d[1]);
        bytes.push(d[2]);
        bytes.push(d[3]);
        assert(bytes@ =~= file_header_bytes(*self));
        bytes
    }

    pub fn get_file_header_byte_size(&self) -> (r: usize)
        ensures
            r == 14,
    {
        FILE_HEADER_SIZE
    }

    pub fn get_off_bits(&self) -> (r: u32)
        ensures
            r == self.bf_off_bits,
    {
        self.bf_off_bits
    }

    pub fn get_size(&self) -> (r: u32)
        ensures
            r == self.bf_size,
    {
        self.bf_size
    }

    /// Whether the magic is "BM".
    pub fn has_valid_magic(&self) -> (r: bool)
        ensures
            r == (self.bf_type@ == seq![66u8, 77u8]),
    {
        let r = self.bf_type[0] == 66u8 && self.bf_type[1] == 77u8;
        assert(r == (self.bf_type@ =~= seq![66u8, 77u8]));
        r
    }
}

/// Encoding a header and reading it back gives the same fields.
pub proof fn lemma_file_header_round_trip(h: FileHeader, g: FileHeader)
    requires
        parsed_file_header(g, file_header_bytes(h)),
    ensures
        g.bf_type@ == h.bf_type@,
        g.bf_size == h.bf_size,
        g.bf_reserved1 == h.bf_reserved1,
        g.bf_reserved2 == h.bf_reserved2,
        g.bf_off_bits == h.bf_off_bits,
{
    crate::util::lemma_u16_round_trip(h.bf_reserved1);
    crate::util::lemma_u16_round_trip(h.bf_reserved2);
    crate::util::lemma_u32_round_trip(h.bf_size);
    crate::util::lemma_u32_round_trip(h.bf_off_bits);
    crate::util::lemma_u16_bytes_len(h.bf_reserved1);
    crate::util::lemma_u16_bytes_len(h.bf_reserved2);
    crate::util::lemma_u32_bytes_len(h.bf_size);
    crate::util::lemma_u32_bytes_len(h.bf_off_bits);
    let b = file_header_bytes(h);
    assert(b.subrange(0, 2) =~= h.bf_type@);
    assert(b.subrange(2, 6) =~= u32_bytes(h.bf_size));
    assert(b.subrange(6, 8) =~= u16_bytes(h.bf_reserved1));
    assert(b.subrange(8, 10) =~= u16_bytes(h.bf_reserved2));
    assert(b.subrange(10, 14) =~= u32_bytes(h.bf_off_bits));
    reveal(u16_bytes);
    reveal(u32_bytes);
}

/// Reading a header and encoding it again gives the bytes read.
pub proof fn lemma_file_header_bytes_of_parsed(g: FileHeader, b: Seq<u8>)
    requires
        b.len() >= 14,
        parsed_file_header(g, b),
    ensures
        file_header_bytes(g) == b.subrange(0, 14),
{
    lemma_u32_bytes_of_le(b, 2);
    lemma_u16_bytes_of_le(b, 6);
    lemma_u16_bytes_of_le(b, 8);
    lemma_u32_bytes_of_le(b, 10);
    assert(file_header_bytes(g) =~= b.subrange(0, 14));
}

} // verus!
