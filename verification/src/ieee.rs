//! The order of double-precision numbers, read off their bit patterns.
//!
//! A bit pattern holds a sign in its highest bit and a magnitude in the
//! other 63. The magnitudes of the numbers grow with their patterns, up to
//! the pattern of infinity; what lies above it is no number.
use vstd::prelude::*;

verus! {

/// The pattern with the sign bit alone: the least pattern of a negative
/// number.
pub const SIGN_BIT: u64 = 0x8000_0000_0000_0000;

/// The magnitude of infinity: the greatest magnitude of a number.
pub const INFINITY_BITS: u64 = 0x7FF0_0000_0000_0000;

/// The number of patterns that a fraction can take: two to the power 52.
pub const FRACTION_SPAN: u64 = 0x10_0000_0000_0000;

/// The number of patterns that an exponent can take: two to the power 11.
pub const EXPONENT_SPAN: u64 = 2048;

/// What is taken off the exponent field to get the power of two by which
/// the mantissa, read as a whole number, is multiplied.
pub const EXPONENT_SHIFT: u64 = 1075;

/// The bit pattern without its sign.
pub open spec fn magnitude(bits: u64) -> u64 {
    if bits >= SIGN_BIT {
        (bits - SIGN_BIT) as u64
    } else {
        bits
    }
}

/// Whether the bit pattern stands for no number.
pub open spec fn is_nan(bits: u64) -> bool {
    magnitude(bits) > INFINITY_BITS
}

/// The place of a number in the order of all numbers: its magnitude, taken
/// negative under a sign. The two zeros share the place 0.
pub open spec fn rank(bits: u64) -> int {
    if bits >= SIGN_BIT {
        -(magnitude(bits) as int)
    } else {
        magnitude(bits) as int
    }
}

/// Whether `a` is a number greater than or equal to the number `b`.
pub open spec fn spec_ge(a: u64, b: u64) -> bool {
    !is_nan(a) && !is_nan(b) && rank(a) >= rank(b)
}

/// Whether `a` is a number less than the number `b`.
pub open spec fn spec_lt(a: u64, b: u64) -> bool {
    !is_nan(a) && !is_nan(b) && rank(a) < rank(b)
}

/// Whether `bits` is a number from 0 up to, but not including, 1.
pub open spec fn spec_in_unit_interval(bits: u64) -> bool {
    spec_ge(bits, crate::complex::ZERO_BITS) && spec_lt(bits, crate::complex::ONE_BITS)
}

/// Whether `a` is a number greater than or equal to the number `b`.
#[verifier::when_used_as_spec(spec_ge)]
pub fn ge(a: u64, b: u64) -> (r: bool)
    ensures
        r == spec_ge(a, b),
{
    let size_a: u64 = if a >= SIGN_BIT {
        a - SIGN_BIT
    } else {
        a
    };
    let size_b: u64 = if b >= SIGN_BIT {
        b - SIGN_BIT
    } else {
        b
    };
    if size_a > INFINITY_BITS || size_b > INFINITY_BITS {
        false
    } else if a >= SIGN_BIT {
        if b >= SIGN_BIT {
            size_a <= size_b
        } else {
            size_a == 0 && size_b == 0
        }
    } else {
        if b >= SIGN_BIT {
            true
        } else {
            size_a >= size_b
        }
    }
}

/// Whether `a` is a number less than the number `b`.
#[verifier::when_used_as_spec(spec_lt)]
pub fn lt(a: u64, b: u64) -> (r: bool)
    ensures
        r == spec_lt(a, b),
{
    let size_a: u64 = if a >= SIGN_BIT {
        a - SIGN_BIT
    } else {
        a
    };
    let size_b: u64 = if b >= SIGN_BIT {
        b - SIGN_BIT
    } else {
        b
    };
    if size_a > INFINITY_BITS || size_b > INFINITY_BITS {
        false
    } else {
        !ge(a, b)
    }
}

/// Whether `bits` is a number from 0 up to, but not including, 1.
#[verifier::when_used_as_spec(spec_in_unit_interval)]
pub fn in_unit_interval(bits: u64) -> (r: bool)
    ensures
        r == spec_in_unit_interval(bits),
{
    ge(bits, crate::complex::ZERO_BITS) && lt(bits, crate::complex::ONE_BITS)
}

/// The mantissa, the exponent and the sign of a number: the number is
/// sign * mantissa * 2^exponent. Two patterns have the same three parts
/// only if they are the same pattern.
pub open spec fn spec_integer_decode(bits: u64) -> (u64, i16, i8) {
    let field = (bits / FRACTION_SPAN) % EXPONENT_SPAN;
    let fraction = bits % FRACTION_SPAN;
    let mantissa = if field == 0 {
        (fraction * 2) as u64
    } else {
        (fraction + FRACTION_SPAN) as u64
    };
    let sign = if bits < SIGN_BIT {
        1i8
    } else {
        -1i8
    };
    (mantissa, (field - EXPONENT_SHIFT) as i16, sign)
}

/// The mantissa, the exponent and the sign of a number.
#[verifier::when_used_as_spec(spec_integer_decode)]
pub fn integer_decode(bits: u64) -> (r: (u64, i16, i8))
    ensures
        r == spec_integer_decode(bits),
{
    let field: u64 = (bits / FRACTION_SPAN) % EXPONENT_SPAN;
    let fraction: u64 = bits % FRACTION_SPAN;
    let mantissa: u64 = if field == 0 {
        fraction * 2
    } else {
        fraction + FRACTION_SPAN
    };
    let sign: i8 = if bits < SIGN_BIT {
        1
    } else {
        -1
    };
    let exponent: i16 = field as i16 - EXPONENT_SHIFT as i16;
    (mantissa, exponent, sign)
}

/// Two bit patterns with the same mantissa, exponent and sign are the same.
pub proof fn lemma_integer_decode_injective(a: u64, b: u64)
    requires
        spec_integer_decode(a) == spec_integer_decode(b),
    ensures
        a == b,
{
    let field_a = (a / FRACTION_SPAN) % EXPONENT_SPAN;
    let field_b = (b / FRACTION_SPAN) % EXPONENT_SPAN;
    assert(field_a == field_b);
    assert(a % FRACTION_SPAN == b % FRACTION_SPAN);
    assert((a < SIGN_BIT) == (b < SIGN_BIT));
    assert(a / FRACTION_SPAN == b / FRACTION_SPAN);
}

} // verus!
