//! How 32-bit floats compare, told from their bit patterns.

use vstd::prelude::*;

verus! {

/// The bit pattern without the sign.
pub open spec fn magnitude(bits: u32) -> int {
    if bits >= 0x8000_0000 {
        bits - 0x8000_0000
    } else {
        bits as int
    }
}

/// The bit pattern is that of no number.
pub open spec fn not_a_number(bits: u32) -> bool {
    magnitude(bits) > 0x7f80_0000
}

/// A number that orders bit patterns as the floats that they stand for. Both
/// zeros have the same one.
pub open spec fn order_key(bits: u32) -> int {
    if bits >= 0x8000_0000 {
        -magnitude(bits)
    } else {
        magnitude(bits)
    }
}

/// The first float is less than the second. What is not a number is neither less
/// than anything nor is anything less than it.
pub open spec fn less(a: u32, b: u32) -> bool {
    !not_a_number(a) && !not_a_number(b) && order_key(a) < order_key(b)
}

/// The first float is as large as the second, or larger.
pub open spec fn at_least(a: u32, b: u32) -> bool {
    !not_a_number(a) && !not_a_number(b) && order_key(a) >= order_key(b)
}

/// A number that orders bit patterns as the floats that they stand for.
pub fn key_of(bits: u32) -> (r: i64)
    ensures
        r == order_key(bits),
{
    if bits >= 0x8000_0000 {
        -((bits - 0x8000_0000) as i64)
    } else {
        bits as i64
    }
}

/// Whether the bit pattern is that of no number.
pub fn is_not_a_number(bits: u32) -> (r: bool)
    ensures
        r == not_a_number(bits),
{
    if bits >= 0x8000_0000 {
        bits - 0x8000_0000 > 0x7f80_0000
    } else {
        bits > 0x7f80_0000
    }
}

/// Whether the first float is less than the second.
pub fn is_less(a: u32, b: u32) -> (r: bool)
    ensures
        r == less(a, b),
{
    !is_not_a_number(a) && !is_not_a_number(b) && key_of(a) < key_of(b)
}

/// Whether the first float is as large as the second, or larger.
pub fn is_at_least(a: u32, b: u32) -> (r: bool)
    ensures
        r == at_least(a, b),
{
    !is_not_a_number(a) && !is_not_a_number(b) && key_of(a) >= key_of(b)
}

} // verus!
