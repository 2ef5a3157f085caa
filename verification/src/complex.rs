//! Complex amplitudes, carried as bit patterns.
use vstd::prelude::*;

verus! {

/// The bit pattern of the double-precision number zero.
pub const ZERO_BITS: u64 = 0;

/// The bit pattern of the double-precision number one.
pub const ONE_BITS: u64 = 0x3FF0_0000_0000_0000;

/// A complex amplitude: the bit patterns of the double-precision numbers
/// that are its real and its imaginary part. Two amplitudes are equal when
/// their bit patterns are.
#[derive(Clone, Copy, Debug, PartialEq, Eq, Hash, Structural)]
pub struct Complex {
    /// Bit pattern of the real part.
    pub re: u64,
    /// Bit pattern of the imaginary part.
    pub im: u64,
}

/// The matrix of a rotation of one qubit, row by row.
pub type UMatrix = (Complex, Complex, Complex, Complex);

impl Complex {
    /// The amplitude with the given parts.
    pub fn new(re: u64, im: u64) -> (r: Self)
        ensures
            r == (Complex { re, im }),
    {
        Complex { re, im }
    }

    /// The amplitude 0 + 0i.
    pub open spec fn spec_zero() -> Self {
        Complex { re: ZERO_BITS, im: ZERO_BITS }
    }

    /// The amplitude 1 + 0i.
    pub open spec fn spec_one() -> Self {
        Complex { re: ONE_BITS, im: ZERO_BITS }
    }

    /// The amplitude 0 + 0i.
    #[verifier::when_used_as_spec(spec_zero)]
    pub fn zero() -> (r: Self)
        ensures
            r == Self::spec_zero(),
    {
        Complex { re: ZERO_BITS, im: ZERO_BITS }
    }

    /// The amplitude 1 + 0i.
    #[verifier::when_used_as_spec(spec_one)]
    pub fn one() -> (r: Self)
        ensures
            r == Self::spec_one(),
    {
        Complex { re: ONE_BITS, im: ZERO_BITS }
    }
}

impl Default for Complex {
    /// The amplitude 0 + 0i.
    fn default() -> (r: Self)
        ensures
            r == Self::spec_zero(),
    {
        Complex { re: ZERO_BITS, im: ZERO_BITS }
    }
}

} // verus!
