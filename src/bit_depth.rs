use vstd::prelude::*;

verus! {

/// The supported numbers of bits per pixel.
#[derive(Debug, Clone, Copy, PartialEq, Eq, Structural)]
pub enum BitDepth {
    /// One bit per pixel, two palette entries.
    BW,
    /// Four bits per pixel, up to sixteen palette entries.
    Color16Bit,
    /// Eight bits per pixel, up to 256 palette entries.
    Color256Bit,
    /// Sixteen bits per pixel, five bits for each of red, green and blue.
    HighColor,
    /// Twenty-four bits per pixel: blue, green, red.
    TrueColor,
    /// Thirty-two bits per pixel: blue, green, red, alpha.
    TrueColorAlpha,
}

impl BitDepth {
    pub open spec fn spec_bits(self) -> nat {
        match self {
            BitDepth::BW => 1,
            BitDepth::Color16Bit => 4,
            BitDepth::Color256Bit => 8,
            BitDepth::HighColor => 16,
            BitDepth::TrueColor => 24,
            BitDepth::TrueColorAlpha => 32,
        }
    }

    /// Whether pixels of this depth are palette indices.
    pub open spec fn spec_is_indexed(self) -> bool {
        self.spec_bits() <= 8
    }

    /// How many palette entries an index of this depth can address.
    pub open spec fn spec_max_colors(self) -> nat {
        match self {
            BitDepth::BW => 2,
            BitDepth::Color16Bit => 16,
            BitDepth::Color256Bit => 256,
            _ => 0,
        }
    }

    /// The depth whose bit count is `bits`, if any.
    pub open spec fn spec_from_bits(bits: u16) -> Option<BitDepth> {
        if bits == 1 {
            Some(BitDepth::BW)
        } else if bits == 4 {
            Some(BitDepth::Color16Bit)
        } else if bits == 8 {
            Some(BitDepth::Color256Bit)
        } else if bits == 16 {
            Some(BitDepth::HighColor)
        } else if bits == 24 {
            Some(BitDepth::TrueColor)
        } else if bits == 32 {
            Some(BitDepth::TrueColorAlpha)
        } else {
            None
        }
    }

    pub fn bits(&self) -> (r: u16)
        ensures
            r == self.spec_bits(),
    {
        match self {
            BitDepth::BW => 1,
            BitDepth::Color16Bit => 4,
            BitDepth::Color256Bit => 8,
            BitDepth::HighColor => 16,
            BitDepth::TrueColor => 24,
            BitDepth::TrueColorAlpha => 32,
        }
    }

    pub fn is_indexed(&self) -> (r: bool)
        ensures
            r == self.spec_is_indexed(),
    {
        match self {
            BitDepth::BW | BitDepth::Color16Bit | BitDepth::Color256Bit => true,
            _ => false,
        }
    }

    pub fn max_colors(&self) -> (r: u32)
        ensures
            r == self.spec_max_colors(),
    {
        match self {
            BitDepth::BW => 2,
            BitDepth::Color16Bit => 16,
            BitDepth::Color256Bit => 256,
            _ => 0,
        }
    }

    pub fn from_bits(bits: u16) -> (r: Option<BitDepth>)
        ensures
            r == BitDepth::spec_from_bits(bits),
    {
        if bits == 1 {
            Some(BitDepth::BW)
        } else if bits == 4 {
            Some(BitDepth::Color16Bit)
        } else if bits == 8 {
            Some(BitDepth::Color256Bit)
        } else if bits == 16 {
            Some(BitDepth::HighColor)
        } else if bits == 24 {
            Some(BitDepth::TrueColor)
        } else if bits == 32 {
            Some(BitDepth::TrueColorAlpha)
        } else {
            None
        }
    }
}

/// Every depth is found again from its bit count.
pub proof fn lemma_from_bits_of_bits(d: BitDepth)
    ensures
        BitDepth::spec_from_bits(d.spec_bits() as u16) == Some(d),
{
}

} // verus!
