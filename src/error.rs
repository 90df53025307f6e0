use vstd::prelude::*;

verus! {

/// The structural errors found while a layout or an enum specifier is built.
#[derive(Debug, Clone, PartialEq, Eq, Structural)]
pub enum BitfieldError {
    /// A bit width of 0 or above 64.
    InvalidWidth,
    /// A bitfield struct without fields.
    EmptyStruct,
    /// The total number of bits, which is not a multiple of 8.
    MisalignedSize(usize),
    /// A field of zero bits.
    ZeroWidthField,
    /// The number of enum variants, which is not a power of two.
    NotPowerOfTwo(usize),
    /// An enum without variants, or one that needs more than 64 bits.
    InvalidBitWidth,
    /// The index of a variant and its discriminant, which does not fit the
    /// enum's bit width.
    DiscriminantOutOfRange(usize, i128),
}

} // verus!
