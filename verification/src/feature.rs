//! The machine word width and the board the kernel is built for.
use vstd::prelude::*;

verus! {

/// The width of a machine word.
#[derive(Clone, Copy, PartialEq, Eq, Structural, Debug)]
pub enum FeatureWord {
    Word32,
    Word64,
}

impl FeatureWord {
    /// The width in bits.
    pub open spec fn spec_bits(&self) -> usize {
        match self {
            FeatureWord::Word32 => 32,
            FeatureWord::Word64 => 64,
        }
    }

    /// The word of `value` bits; only 32 and 64 are widths.
    pub fn from_width(value: usize) -> (r: Self)
        requires
            value == 32 || value == 64,
        ensures
            r.spec_bits() == value,
    {
        if value == 32 {
            FeatureWord::Word32
        } else {
            FeatureWord::Word64
        }
    }

    /// The width in bits.
    pub fn bits(&self) -> (r: usize)
        ensures
            r == self.spec_bits(),
    {
        match self {
            FeatureWord::Word32 => 32,
            FeatureWord::Word64 => 64,
        }
    }
}

/// The word width of the machine the kernel runs on.
pub fn feature_word() -> (r: FeatureWord)
    ensures
        r.spec_bits() == usize::BITS,
{
    let width: u32 = usize::BITS;
    FeatureWord::from_width(width as usize)
}

/// The boards the kernel runs on.
#[derive(Clone, Copy, PartialEq, Eq, Structural, Debug)]
pub enum FeatureBoard {
    Qemu,
}

/// The board the kernel is built for.
pub fn feature_board() -> (r: FeatureBoard)
    ensures
        r == FeatureBoard::Qemu,
{
    FeatureBoard::Qemu
}

} // verus!
