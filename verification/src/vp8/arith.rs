//! Signed fixed-point arithmetic.
use vstd::prelude::*;

verus! {

/// Two's complement value of the 32 low bits.
pub open spec fn wrap32(x: int) -> int {
    (x + 0x8000_0000) % 0x1_0000_0000 - 0x8000_0000
}

/// Two's complement value of the 16 low bits.
pub open spec fn wrap16(x: int) -> int {
    (x + 0x8000) % 0x1_0000 - 0x8000
}

pub fn wrap_i32(x: i64) -> (r: i32)
    requires
        -0x100_0000_0000_0000 <= x <= 0x100_0000_0000_0000,
    ensures
        r == wrap32(x as int),
{
    let u: u64 = (x + 0x100_0000_8000_0000) as u64 % 0x1_0000_0000;
    (u as i64 - 0x8000_0000) as i32
}

pub fn wrap_i16(x: i64) -> (r: i16)
    requires
        -0x100_0000_0000_0000 <= x <= 0x100_0000_0000_0000,
    ensures
        r == wrap16(x as int),
{
    let u: u64 = (x + 0x100_0000_0000_8000) as u64 % 0x1_0000;
    (u as i64 - 0x8000) as i16
}

/// `x` divided by 8, rounded down.
pub fn floor_8(x: i64) -> (r: i64)
    requires
        -0x100_0000_0000_0000 <= x <= 0x100_0000_0000_0000,
    ensures
        r == x as int / 8,
{
    ((x + 0x100_0000_0000_0000) as u64 / 8) as i64 - 0x20_0000_0000_0000
}

/// `x` divided by 16, rounded down.
pub fn floor_16(x: i64) -> (r: i64)
    requires
        -0x100_0000_0000_0000 <= x <= 0x100_0000_0000_0000,
    ensures
        r == x as int / 16,
{
    ((x + 0x100_0000_0000_0000) as u64 / 16) as i64 - 0x10_0000_0000_0000
}

/// `x` divided by 256, rounded down.
pub fn floor_256(x: i64) -> (r: i64)
    requires
        -0x100_0000_0000_0000 <= x <= 0x100_0000_0000_0000,
    ensures
        r == x as int / 256,
{
    ((x + 0x100_0000_0000_0000) as u64 / 256) as i64 - 0x1_0000_0000_0000
}

/// `x` divided by 4096, rounded down.
pub fn floor_4096(x: i64) -> (r: i64)
    requires
        -0x100_0000_0000_0000 <= x <= 0x100_0000_0000_0000,
    ensures
        r == x as int / 4096,
{
    ((x + 0x100_0000_0000_0000) as u64 / 4096) as i64 - 0x1000_0000_0000
}

/// `x` divided by 65536, rounded down.
pub fn floor_65536(x: i64) -> (r: i64)
    requires
        -0x100_0000_0000_0000 <= x <= 0x100_0000_0000_0000,
    ensures
        r == x as int / 65536,
{
    ((x + 0x100_0000_0000_0000) as u64 / 65536) as i64 - 0x100_0000_0000
}

pub open spec fn clamp_byte_spec(x: int) -> int {
    if x < 0 {
        0
    } else if x > 255 {
        255
    } else {
        x
    }
}

/// `x` brought into the range of a byte.
pub fn clamp_byte(x: i64) -> (r: u8)
    ensures
        r == clamp_byte_spec(x as int),
{
    if x < 0 {
        0
    } else if x > 255 {
        255
    } else {
        x as u8
    }
}

} // verus!
