//! Similarity scores, held as the bit pattern of a single-precision number
//! and ordered by integer arithmetic on that pattern.

use vstd::prelude::*;

verus! {

/// The pattern's sign bit.
pub const SIGN_BIT: u32 = 0x8000_0000;

/// The pattern of positive infinity: every larger magnitude is not a number.
pub const INFINITY_BITS: u32 = 0x7f80_0000;

/// The pattern with its sign bit cleared.
pub open spec fn magnitude(bits: u32) -> int {
    if bits >= SIGN_BIT {
        bits - SIGN_BIT
    } else {
        bits as int
    }
}

/// Whether the pattern stands for no number at all.
pub open spec fn is_nan(bits: u32) -> bool {
    magnitude(bits) > INFINITY_BITS
}

/// An integer that orders patterns as the numbers they stand for are
/// ordered: both zeros share the key 0, and a larger number has a larger key.
pub open spec fn order_key(bits: u32) -> int {
    if bits >= SIGN_BIT {
        -(bits - SIGN_BIT)
    } else {
        bits as int
    }
}

/// Whether the number behind `a` is at least the number behind `b`. A
/// pattern that stands for no number is neither above nor below anything.
pub open spec fn at_least(a: u32, b: u32) -> bool {
    !is_nan(a) && !is_nan(b) && order_key(a) >= order_key(b)
}

/// Whether `bits` stands for no number.
pub fn bits_are_nan(bits: u32) -> (nan: bool)
    ensures
        nan == is_nan(bits),
{
    if bits >= SIGN_BIT {
        bits - SIGN_BIT > INFINITY_BITS
    } else {
        bits > INFINITY_BITS
    }
}

/// The ordering key of `bits`.
pub fn key_of(bits: u32) -> (key: i64)
    ensures
        key == order_key(bits),
{
    if bits >= SIGN_BIT {
        let m: u32 = bits - SIGN_BIT;
        let wide: i64 = m as i64;
        -wide
    } else {
        bits as i64
    }
}

/// Whether the number behind `a` is at least the number behind `b`.
pub fn bits_at_least(a: u32, b: u32) -> (holds: bool)
    ensures
        holds == at_least(a, b),
{
    !bits_are_nan(a) && !bits_are_nan(b) && key_of(a) >= key_of(b)
}

/// The similarity of one entry to a query vector.
#[derive(Debug, Clone)]
pub struct Score {
    /// The similarity's single-precision bit pattern.
    pub bits: u32,
    /// The similarity times one hundred, written with two decimals.
    pub percent: String,
}

} // verus!
