//! Integer casts that keep the low bits.

use vstd::prelude::*;

verus! {

/// The low 32 bits of a number, read as a signed number.
pub open spec fn wrapped_i32(v: int) -> int {
    (v + 0x8000_0000) % 0x1_0000_0000 - 0x8000_0000
}

/// A signed 32-bit number as a `usize`: negative ones count down from the top.
pub open spec fn wrapped_usize(v: int) -> int {
    if v < 0 {
        usize::MAX + 1 + v
    } else {
        v
    }
}

/// The low 32 bits of `v`, read as a signed number.
pub fn as_i32(v: usize) -> (r: i32)
    ensures
        r == wrapped_i32(v as int),
        v <= i32::MAX ==> r == v,
{
    let low: u64 = v as u64 % 0x1_0000_0000;
    if low < 0x8000_0000 {
        low as i32
    } else {
        (low as i64 - 0x1_0000_0000) as i32
    }
}

/// `v` as a `usize`: negative numbers count down from the top.
pub fn as_usize(v: i32) -> (r: usize)
    ensures
        r == wrapped_usize(v as int),
{
    if v < 0 {
        usize::MAX - (-(v + 1)) as usize
    } else {
        v as usize
    }
}

/// Numbers that a signed 32-bit number can hold are kept.
pub proof fn small_numbers_are_kept(v: int)
    requires
        0 <= v <= i32::MAX,
    ensures
        wrapped_i32(v) == v,
        wrapped_usize(v) == v,
{
}

/// The signed number differs from the one it was read from by a multiple of 2^32; as a
/// `usize` a negative one lies as far below 2^64 (or 2^32) as it lies below zero.
pub proof fn casts_keep_low_bits(v: int)
    ensures
        -0x8000_0000 <= wrapped_i32(v) < 0x8000_0000,
        (wrapped_i32(v) - v) % 0x1_0000_0000 == 0,
        v >= 0 ==> wrapped_usize(v) == v,
        v < 0 ==> wrapped_usize(v) - v == usize::MAX + 1,
{
}

} // verus!
