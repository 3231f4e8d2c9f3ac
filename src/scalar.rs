use vstd::prelude::*;

verus! {

/// An animated value: the IEEE-754 bit pattern of an `f32`.
///
/// The timeline only stores, copies and compares such values for identity,
/// so it keeps them as bits; equality here is equality of bit patterns.
#[derive(Clone, Copy, Debug, PartialEq, Eq, Hash, Structural)]
pub struct Scalar {
    pub bits: u32,
}

/// Bit pattern of `1.0f32`.
pub const ONE_BITS: u32 = 0x3f80_0000;

impl Scalar {
    /// The value with the given bit pattern.
    pub fn from_bits(bits: u32) -> (r: Scalar)
        ensures
            r.bits == bits,
    {
        Scalar { bits }
    }

    /// `0.0`, the value a default timeline starts from.
    pub fn zero() -> (r: Scalar)
        ensures
            r.bits == 0,
    {
        Scalar { bits: 0 }
    }

    /// `1.0`, the value a standard timeline ends at.
    pub fn one() -> (r: Scalar)
        ensures
            r.bits == ONE_BITS,
    {
        Scalar { bits: ONE_BITS }
    }
}

} // verus!
