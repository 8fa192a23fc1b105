//! Coordinates and hit times enter the library as the bit patterns of IEEE 754
//! double-precision values. This module maps such a pattern to an unsigned
//! integer key whose `<` agrees with the numeric order of the values, so that
//! the library can compare, sort and take minima and maxima exactly.
use vstd::prelude::*;

verus! {

/// 2^63: the sign bit of a double-precision bit pattern.
pub const SIGN_BIT: u64 = 0x8000_0000_0000_0000;

/// The bit pattern of positive infinity; every larger magnitude is a NaN.
pub const INFINITY_BITS: u64 = 0x7ff0_0000_0000_0000;

/// Whether the sign bit of the pattern is set.
pub open spec fn negative_bits(b: u64) -> bool {
    b >= SIGN_BIT
}

/// The pattern without its sign bit: exponent and mantissa read as one number.
pub open spec fn magnitude(b: u64) -> int {
    if negative_bits(b) {
        b - SIGN_BIT
    } else {
        b as int
    }
}

/// A NaN: all exponent bits set and a non-zero mantissa.
pub open spec fn is_nan_bits(b: u64) -> bool {
    magnitude(b) > INFINITY_BITS
}

/// For patterns that are not NaN, IEEE 754 orders values as sign and magnitude:
/// this rank is the magnitude, negated when the sign bit is set. Both zeros
/// get rank 0.
pub open spec fn rank(b: u64) -> int {
    if negative_bits(b) {
        -magnitude(b)
    } else {
        magnitude(b)
    }
}

/// The key of a pattern: negative values below 2^63 in reverse order of
/// magnitude, non-negative values from 2^63 upwards.
pub open spec fn key_of(b: u64) -> u64 {
    if negative_bits(b) {
        (u64::MAX - b) as u64
    } else {
        (b + SIGN_BIT) as u64
    }
}

/// The pattern a key stands for.
pub open spec fn bits_of(k: u64) -> u64 {
    if k >= SIGN_BIT {
        (k - SIGN_BIT) as u64
    } else {
        (u64::MAX - k) as u64
    }
}

/// The key of a bit pattern, or `None` when the pattern is a NaN, which has no
/// place in the order.
pub fn order_key(bits: u64) -> (r: Option<u64>)
    ensures
        r == (if is_nan_bits(bits) {
            None
        } else {
            Some(key_of(bits))
        }),
{
    if bits >= SIGN_BIT {
        if bits - SIGN_BIT > INFINITY_BITS {
            None
        } else {
            Some(u64::MAX - bits)
        }
    } else if bits > INFINITY_BITS {
        None
    } else {
        Some(bits + SIGN_BIT)
    }
}

/// The bit pattern that a key stands for: the inverse of `order_key`.
pub fn key_bits(k: u64) -> (r: u64)
    ensures
        r == bits_of(k),
{
    if k >= SIGN_BIT {
        k - SIGN_BIT
    } else {
        u64::MAX - k
    }
}

/// Keys order bit patterns as their values are ordered: a smaller value has a
/// smaller key, and a key no larger than another belongs to a value no larger
/// than the other's. Distinct patterns have distinct keys, and `key_bits`
/// recovers the pattern.
pub proof fn lemma_key_order(a: u64, b: u64)
    requires
        !is_nan_bits(a),
        !is_nan_bits(b),
    ensures
        rank(a) < rank(b) ==> key_of(a) < key_of(b),
        key_of(a) <= key_of(b) ==> rank(a) <= rank(b),
        key_of(a) == key_of(b) <==> a == b,
        bits_of(key_of(a)) == a,
{
}

} // verus!
