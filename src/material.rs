//! Rules of the materials and textures that decide by the sign of a value,
//! stated on the value's bit pattern.
use vstd::prelude::*;
use crate::key::{SIGN_BIT, is_nan_bits, rank, order_key};

verus! {

/// The bit pattern of 1.0.
pub const ONE_BITS: u64 = 0x3ff0_0000_0000_0000;

/// The bit pattern of +0.0.
pub const ZERO_BITS: u64 = 0;

/// The fuzziness a metal keeps, given the one it was built with: any negative
/// value becomes exactly 0.0 and any positive value exactly 1.0; a zero of
/// either sign, and a NaN, are kept as they are.
pub fn metal_fuzziness(fuzz_bits: u64) -> (r: u64)
    ensures
        r == (if is_nan_bits(fuzz_bits) || rank(fuzz_bits) == 0 {
            fuzz_bits
        } else if rank(fuzz_bits) < 0 {
            ZERO_BITS
        } else {
            ONE_BITS
        }),
{
    match order_key(fuzz_bits) {
        None => fuzz_bits,
        Some(k) => {
            if k < SIGN_BIT - 1 {
                ZERO_BITS
            } else if k > SIGN_BIT {
                ONE_BITS
            } else {
                fuzz_bits
            }
        },
    }
}

/// Whether a checker texture shows its second texture, given the product of
/// the three sines at the point: only a strictly negative product does; zero,
/// positive and NaN products show the first.
pub fn checker_selects_second(product_bits: u64) -> (r: bool)
    ensures
        r == (!is_nan_bits(product_bits) && rank(product_bits) < 0),
{
    match order_key(product_bits) {
        None => false,
        Some(k) => k < SIGN_BIT - 1,
    }
}

} // verus!
