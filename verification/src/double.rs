//! Double-precision numbers, held by their bit patterns. What the library
//! has to know of such a number (its sign, whether it is a number at all,
//! whether it is zero, how large it is) can be read from the pattern with
//! integer comparisons.

use vstd::prelude::*;

verus! {

/// The bit that holds the sign.
pub const SIGN_BIT: u64 = 0x8000_0000_0000_0000;

/// The pattern of positive infinity. A magnitude above it is not a number.
pub const INFINITY_BITS: u64 = 0x7ff0_0000_0000_0000;

/// The pattern of the double nearest to one millionth, where the plain band
/// begins.
pub const BAND_START_BITS: u64 = 0x3eb0_c6f7_a0b5_ed8d;

/// The pattern of ten to the sixteenth, where the plain band ends.
pub const BAND_END_BITS: u64 = 0x4341_c379_37e0_8000;

/// A double-precision number in the interchange format: one sign bit, eleven
/// exponent bits, fifty-two fraction bits.
#[derive(Clone, Copy, Debug, PartialEq, Eq, Structural)]
pub struct Double {
    pub bits: u64,
}

impl Double {
    /// The pattern without its sign bit. Among patterns of numbers, a larger
    /// magnitude has the larger pattern.
    pub open spec fn spec_magnitude(self) -> u64 {
        if self.bits >= SIGN_BIT {
            (self.bits - SIGN_BIT) as u64
        } else {
            self.bits
        }
    }

    /// The sign bit is set.
    pub open spec fn spec_sign(self) -> bool {
        self.bits >= SIGN_BIT
    }

    /// Not a number.
    pub open spec fn spec_is_nan(self) -> bool {
        self.spec_magnitude() > INFINITY_BITS
    }

    /// Positive or negative infinity.
    pub open spec fn spec_is_infinite(self) -> bool {
        self.spec_magnitude() == INFINITY_BITS
    }

    /// Positive or negative zero.
    pub open spec fn spec_is_zero(self) -> bool {
        self.spec_magnitude() == 0
    }

    /// Below zero: a number with its sign bit set that is not zero.
    pub open spec fn spec_is_negative(self) -> bool {
        self.spec_sign() && !self.spec_is_zero() && !self.spec_is_nan()
    }

    /// The magnitude is at least one millionth and below ten to the
    /// sixteenth.
    pub open spec fn spec_in_plain_band(self) -> bool {
        BAND_START_BITS <= self.spec_magnitude() < BAND_END_BITS
    }

    /// The number with the given bit pattern.
    pub fn from_bits(bits: u64) -> (d: Double)
        ensures
            d.bits == bits,
    {
        Double { bits }
    }

    #[verifier::when_used_as_spec(spec_magnitude)]
    pub fn magnitude(self) -> (m: u64)
        ensures
            m == self.spec_magnitude(),
    {
        if self.bits >= SIGN_BIT {
            self.bits - SIGN_BIT
        } else {
            self.bits
        }
    }

    #[verifier::when_used_as_spec(spec_sign)]
    pub fn sign(self) -> (b: bool)
        ensures
            b == self.spec_sign(),
    {
        self.bits >= SIGN_BIT
    }

    #[verifier::when_used_as_spec(spec_is_nan)]
    pub fn is_nan(self) -> (b: bool)
        ensures
            b == self.spec_is_nan(),
    {
        self.magnitude() > INFINITY_BITS
    }

    #[verifier::when_used_as_spec(spec_is_infinite)]
    pub fn is_infinite(self) -> (b: bool)
        ensures
            b == self.spec_is_infinite(),
    {
        self.magnitude() == INFINITY_BITS
    }

    #[verifier::when_used_as_spec(spec_is_zero)]
    pub fn is_zero(self) -> (b: bool)
        ensures
            b == self.spec_is_zero(),
    {
        self.magnitude() == 0
    }

    #[verifier::when_used_as_spec(spec_is_negative)]
    pub fn is_negative(self) -> (b: bool)
        ensures
            b == self.spec_is_negative(),
    {
        self.sign() && !self.is_zero() && !self.is_nan()
    }

    #[verifier::when_used_as_spec(spec_in_plain_band)]
    pub fn in_plain_band(self) -> (b: bool)
        ensures
            b == self.spec_in_plain_band(),
    {
        let m = self.magnitude();
        BAND_START_BITS <= m && m < BAND_END_BITS
    }
}

} // verus!
