//! Integers cut to a machine width, two's complement.

use vstd::prelude::*;

verus! {

pub open spec fn wrap64(x: int) -> i64 {
    ((x + 0x8000_0000_0000_0000) % 0x1_0000_0000_0000_0000 - 0x8000_0000_0000_0000) as i64
}

pub open spec fn wrap32(x: int) -> i32 {
    ((x + 0x8000_0000) % 0x1_0000_0000 - 0x8000_0000) as i32
}

pub open spec fn wrap16(x: int) -> i16 {
    ((x + 0x8000) % 0x1_0000 - 0x8000) as i16
}

pub open spec fn wrap8(x: int) -> i8 {
    ((x + 0x80) % 0x100 - 0x80) as i8
}

pub open spec fn low32(x: int) -> u32 {
    (x % 0x1_0000_0000) as u32
}

pub open spec fn low16(x: int) -> u16 {
    (x % 0x1_0000) as u16
}

pub open spec fn low8(x: int) -> u8 {
    (x % 0x100) as u8
}

/// Integers that a difference of two 64-bit integers can be.
pub open spec fn near(x: int) -> bool {
    -0x1_0000_0000_0000_0000 <= x <= 0x1_0000_0000_0000_0000
}

pub fn as_i32(x: i128) -> (r: i32)
    requires
        near(x as int),
    ensures
        r == wrap32(x as int),
{
    let up: u128 = (x + 0x1_0000_0000_8000_0000) as u128;
    ((up % 0x1_0000_0000) as i64 - 0x8000_0000) as i32
}

pub fn as_i16(x: i128) -> (r: i16)
    requires
        near(x as int),
    ensures
        r == wrap16(x as int),
{
    let up: u128 = (x + 0x1_0000_0000_0000_8000) as u128;
    ((up % 0x1_0000) as i64 - 0x8000) as i16
}

pub fn as_i8(x: i128) -> (r: i8)
    requires
        near(x as int),
    ensures
        r == wrap8(x as int),
{
    let up: u128 = (x + 0x1_0000_0000_0000_0080) as u128;
    ((up % 0x100) as i64 - 0x80) as i8
}

pub fn as_u32(x: i128) -> (r: u32)
    requires
        near(x as int),
    ensures
        r == low32(x as int),
{
    let up: u128 = (x + 0x1_0000_0000_0000_0000) as u128;
    (up % 0x1_0000_0000) as u32
}

pub fn as_u16(x: i128) -> (r: u16)
    requires
        near(x as int),
    ensures
        r == low16(x as int),
{
    let up: u128 = (x + 0x1_0000_0000_0000_0000) as u128;
    (up % 0x1_0000) as u16
}

pub fn as_u8(x: i128) -> (r: u8)
    requires
        near(x as int),
    ensures
        r == low8(x as int),
{
    let up: u128 = (x + 0x1_0000_0000_0000_0000) as u128;
    (up % 0x100) as u8
}

/// The signed number with the bits of `u`.
pub fn signed64(u: u64) -> (r: i64)
    ensures
        r == wrap64(u as int),
{
    if u < 0x8000_0000_0000_0000 {
        u as i64
    } else {
        -((0xffff_ffff_ffff_ffff - u) as i64) - 1
    }
}

/// The signed number with the bits of `u`.
pub fn signed32(u: u32) -> (r: i32)
    ensures
        r == wrap32(u as int),
{
    if u < 0x8000_0000 {
        u as i32
    } else {
        -((0xffff_ffff - u) as i32) - 1
    }
}

pub proof fn lemma_wrap64_shift(x: int, k: int)
    ensures
        wrap64(x + 0x1_0000_0000_0000_0000 * k) == wrap64(x),
{
    vstd::arithmetic::div_mod::lemma_mod_multiples_vanish(
        k,
        x + 0x8000_0000_0000_0000,
        0x1_0000_0000_0000_0000,
    );
}

pub proof fn lemma_wrap32_of_wrap64(x: int)
    ensures
        wrap32(wrap64(x) as int) == wrap32(x),
{
    let k = (x + 0x8000_0000_0000_0000) / 0x1_0000_0000_0000_0000;
    assert(x == wrap64(x) + 0x1_0000_0000 * (0x1_0000_0000 * k));
    vstd::arithmetic::div_mod::lemma_mod_multiples_vanish(
        0x1_0000_0000 * k,
        wrap64(x) + 0x8000_0000,
        0x1_0000_0000,
    );
}

/// Cutting an integer to a width keeps it up to whole turns of that width,
/// and an integer of the width is kept as it is.
pub proof fn law_cutting_keeps_residues(x: int)
    ensures
        (wrap64(x) - x) % 0x1_0000_0000_0000_0000 == 0,
        (wrap32(x) - x) % 0x1_0000_0000 == 0,
        (wrap16(x) - x) % 0x1_0000 == 0,
        (wrap8(x) - x) % 0x100 == 0,
        (low32(x) - x) % 0x1_0000_0000 == 0,
        (low16(x) - x) % 0x1_0000 == 0,
        (low8(x) - x) % 0x100 == 0,
        i64::MIN <= x <= i64::MAX ==> wrap64(x) == x,
        i32::MIN <= x <= i32::MAX ==> wrap32(x) == x,
        i16::MIN <= x <= i16::MAX ==> wrap16(x) == x,
        i8::MIN <= x <= i8::MAX ==> wrap8(x) == x,
        0 <= x <= u32::MAX ==> low32(x) == x,
        0 <= x <= u16::MAX ==> low16(x) == x,
        0 <= x <= u8::MAX ==> low8(x) == x,
{
}

} // verus!
