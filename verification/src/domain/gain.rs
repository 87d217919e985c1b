//! Relevance weights as IEEE 754 binary64 bit patterns, and their order.
//!
//! A gain is carried as the sixty-four bits of its encoding: one sign bit, eleven
//! exponent bits, fifty-two fraction bits. Everything the ranking needs of a gain,
//! whether it is a number at all and how it compares, can be read off those bits.

use vstd::prelude::*;

verus! {

/// The encoding with only the sign bit set: negative zero.
pub const SIGN_BIT: u64 = 0x8000_0000_0000_0000;

/// The encoding of positive infinity. Every magnitude above it is not a number.
pub const INFINITY_BITS: u64 = 0x7ff0_0000_0000_0000;

/// The encoding of positive zero, the gain of a document that nobody judged.
pub const ZERO_BITS: u64 = 0;

/// The encoding without its sign bit.
pub open spec fn magnitude(bits: u64) -> u64 {
    if bits >= SIGN_BIT {
        (bits - SIGN_BIT) as u64
    } else {
        bits
    }
}

/// Whether the sign bit is set.
pub open spec fn is_negative(bits: u64) -> bool {
    bits >= SIGN_BIT
}

/// Whether the encoding is that of no number.
pub open spec fn is_nan(bits: u64) -> bool {
    magnitude(bits) > INFINITY_BITS
}

/// Where a number stands among the others: an integer that grows with the
/// number encoded. Both zeros stand at 0. Has no meaning for what is no number.
pub open spec fn order_key(bits: u64) -> int {
    if is_negative(bits) {
        -(magnitude(bits) as int)
    } else {
        magnitude(bits) as int
    }
}

/// Both are numbers and the first is strictly smaller.
pub open spec fn gain_lt(a: u64, b: u64) -> bool {
    !is_nan(a) && !is_nan(b) && order_key(a) < order_key(b)
}

/// Both are numbers and they are the same number (the two zeros are).
pub open spec fn gain_eq(a: u64, b: u64) -> bool {
    !is_nan(a) && !is_nan(b) && order_key(a) == order_key(b)
}

/// Tells whether an encoding is that of no number.
pub fn encodes_nan(bits: u64) -> (r: bool)
    ensures
        r == is_nan(bits),
{
    if bits >= SIGN_BIT {
        bits - SIGN_BIT > INFINITY_BITS
    } else {
        bits > INFINITY_BITS
    }
}

/// Tells whether the first gain is strictly smaller than the second. A pair
/// with something that is no number in it is never ordered.
pub fn less_than(a: u64, b: u64) -> (r: bool)
    ensures
        r == gain_lt(a, b),
{
    if encodes_nan(a) || encodes_nan(b) {
        false
    } else if a >= SIGN_BIT {
        if b >= SIGN_BIT {
            a > b
        } else {
            a > SIGN_BIT || b > 0
        }
    } else {
        b < SIGN_BIT && a < b
    }
}

} // verus!
