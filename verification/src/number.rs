//! Complex numbers carried as IEEE-754 binary64 bit patterns.
//!
//! Only two questions are ever asked of a pattern here: whether two patterns
//! denote equal numbers, and whether a pattern denotes a positive finite number.
//! Both are decided on the bits.

use vstd::prelude::*;

verus! {

/// The pattern with only the sign bit set.
pub const SIGN_BIT: u64 = 0x8000_0000_0000_0000;

/// The pattern of positive infinity: sign clear, exponent all ones, fraction zero.
pub const INFINITY_BITS: u64 = 0x7ff0_0000_0000_0000;

/// The pattern with its sign bit cleared.
pub open spec fn magnitude(bits: u64) -> u64 {
    if bits >= SIGN_BIT {
        (bits - SIGN_BIT) as u64
    } else {
        bits
    }
}

/// The pattern is a NaN: exponent all ones and a nonzero fraction.
pub open spec fn is_nan(bits: u64) -> bool {
    magnitude(bits) > INFINITY_BITS
}

/// The pattern is one of the two zeros.
pub open spec fn is_zero(bits: u64) -> bool {
    magnitude(bits) == 0
}

/// The two patterns denote equal numbers: neither is a NaN, and they are the
/// same pattern or both zeros.
pub open spec fn equal_numbers(a: u64, b: u64) -> bool {
    &&& !is_nan(a)
    &&& !is_nan(b)
    &&& (a == b || (is_zero(a) && is_zero(b)))
}

/// The pattern denotes a finite number greater than zero.
pub open spec fn is_positive_finite(bits: u64) -> bool {
    0 < bits < INFINITY_BITS
}

/// Clears the sign bit of a pattern.
pub fn strip_sign(bits: u64) -> (r: u64)
    ensures
        r == magnitude(bits),
{
    if bits >= SIGN_BIT {
        bits - SIGN_BIT
    } else {
        bits
    }
}

/// Decides whether two patterns denote equal numbers.
pub fn same_number(a: u64, b: u64) -> (r: bool)
    ensures
        r == equal_numbers(a, b),
{
    let ma: u64 = strip_sign(a);
    let mb: u64 = strip_sign(b);
    ma <= INFINITY_BITS && mb <= INFINITY_BITS && (a == b || (ma == 0 && mb == 0))
}

/// Decides whether a pattern denotes a finite number greater than zero.
pub fn positive_finite(bits: u64) -> (r: bool)
    ensures
        r == is_positive_finite(bits),
{
    0 < bits && bits < INFINITY_BITS
}

/// A complex number, each part held as a binary64 bit pattern.
#[derive(Clone, Copy, Debug)]
pub struct ComplexBits {
    /// Bit pattern of the real part.
    pub re: u64,
    /// Bit pattern of the imaginary part.
    pub im: u64,
}

impl ComplexBits {
    /// The number whose two parts are positive zero.
    pub open spec fn origin() -> ComplexBits {
        ComplexBits { re: 0, im: 0 }
    }

    /// Both parts denote equal numbers.
    pub open spec fn coincides(self, other: ComplexBits) -> bool {
        equal_numbers(self.re, other.re) && equal_numbers(self.im, other.im)
    }

    /// Builds a number from the patterns of its parts.
    pub fn new(re: u64, im: u64) -> (r: ComplexBits)
        ensures
            r == (ComplexBits { re, im }),
    {
        ComplexBits { re, im }
    }

    /// Decides whether two numbers are equal, part by part.
    pub fn matches(&self, other: &ComplexBits) -> (r: bool)
        ensures
            r == self.coincides(*other),
    {
        same_number(self.re, other.re) && same_number(self.im, other.im)
    }
}

} // verus!
