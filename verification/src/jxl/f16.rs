//! Half-precision numbers.
use vstd::arithmetic::power2::{lemma2_to64, lemma_pow2_pos, pow2};
use vstd::prelude::*;

verus! {

/// A number is too large for half precision.
#[derive(Debug, Clone, Copy, PartialEq, Eq, Structural)]
pub struct F16Overflow;

/// Sign, exponent and mantissa of a single-precision number, given by its bits.
pub open spec fn sign_of(bits: int) -> int {
    bits / 0x8000_0000
}

pub open spec fn exponent_of(bits: int) -> int {
    bits / 0x80_0000 % 256 - 127
}

pub open spec fn mantissa_of(bits: int) -> int {
    bits % 0x80_0000
}

/// The half-precision bits of a number: mantissas are cut off, tiny numbers become zero, and
/// numbers of 65536 and more do not fit.
pub open spec fn f16_of(bits: int) -> Option<int> {
    let e = exponent_of(bits);
    let m = mantissa_of(bits);
    if e > 15 {
        None
    } else if e < -24 {
        Some(0)
    } else if e < -14 {
        let sub = (-14 - e) as nat;
        Some(
            sign_of(bits) * 0x8000 + (pow2((10 - sub) as nat) + m / pow2(13 + sub) as int),
        )
    } else {
        Some(sign_of(bits) * 0x8000 + (e + 15) * 1024 + m / 8192)
    }
}

/// The half-precision bits of a single-precision number, given by its bits.
pub fn f32_to_f16_bits(bits: u32) -> (r: Result<u16, F16Overflow>)
    ensures
        match r {
            Ok(v) => f16_of(bits as int) == Some(v as int),
            Err(_) => f16_of(bits as int) is None,
        },
{
    let sign: u32 = bits / 0x8000_0000;
    let biased: u32 = bits / 0x80_0000 % 256;
    let mantissa: u32 = bits % 0x80_0000;
    if biased > 142 {
        return Err(F16Overflow);
    }
    if biased < 103 {
        return Ok(0);
    }
    if biased < 113 {
        let sub: u32 = 113 - biased;
        proof {
            lemma2_to64();
            crate::math::lemma_pow2_mono((10 - sub) as nat, 9);
            crate::math::lemma_pow2_mono((13 + sub) as nat, 23);
            lemma_pow2_pos((13 + sub) as nat);
        }
        let top: u32 = crate::math::pow2_u64((10 - sub) as u8) as u32;
        let unit: u32 = crate::math::pow2_u64((13 + sub) as u8) as u32;
        proof {
            lemma_sub(sub as nat, mantissa as int);
        }
        return Ok((sign * 0x8000 + (top + mantissa / unit)) as u16);
    }
    Ok((sign * 0x8000 + (biased - 112) * 1024 + mantissa / 8192) as u16)
}

proof fn lemma_sub(sub: nat, m: int)
    requires
        1 <= sub <= 10,
        0 <= m < 0x80_0000,
    ensures
        0 <= m / pow2(13 + sub) as int <= 511,
{
    lemma2_to64();
    let u = pow2(13 + sub) as int;
    crate::math::lemma_pow2_mono(14, 13 + sub);
    assert(0 <= m / u <= 511) by (nonlinear_arith)
        requires
            0 <= m < 512 * 16384,
            u >= 16384,
    ;
}

/// The single-precision bits of a normal half-precision number.
pub open spec fn f16_widened(h: int) -> int {
    h / 0x8000 * 0x8000_0000 + (h / 1024 % 32 - 15 + 127) * 0x80_0000 + h % 1024 * 8192
}

/// A number of half-precision range whose mantissa needs at most ten bits is kept exactly.
pub proof fn lemma_f16_exact(bits: u32)
    requires
        -14 <= exponent_of(bits as int) <= 15,
        mantissa_of(bits as int) % 8192 == 0,
    ensures
        f16_of(bits as int) matches Some(h) && f16_widened(h) == bits,
{
    let b = bits as int;
    let s = sign_of(b);
    let e = exponent_of(b);
    let m = mantissa_of(b);
    assert(b == s * 0x8000_0000 + (e + 127) * 0x80_0000 + m);
    let h = s * 0x8000 + (e + 15) * 1024 + m / 8192;
    assert(0 <= m / 8192 < 1024);
    assert(h / 1024 == s * 32 + (e + 15));
    assert(h % 1024 == m / 8192);
}

/// A number in the range of normal half-precision numbers is rounded towards zero, by less than one
/// step.
pub proof fn lemma_f16_truncated(bits: u32)
    requires
        -14 <= exponent_of(bits as int) <= 15,
    ensures
        f16_of(bits as int) matches Some(h) && 0 <= bits - f16_widened(h) < 8192,
{
    let b = bits as int;
    let s = sign_of(b);
    let e = exponent_of(b);
    let m = mantissa_of(b);
    assert(b == s * 0x8000_0000 + (e + 127) * 0x80_0000 + m);
    let h = s * 0x8000 + (e + 15) * 1024 + m / 8192;
    assert(0 <= m / 8192 < 1024);
    assert(h / 1024 == s * 32 + (e + 15));
    assert(h % 1024 == m / 8192);
}

/// A smaller number becomes a count of the smallest steps, rounded towards zero: one step is two to
/// the power of minus 24.
pub proof fn lemma_f16_subnormal(bits: u32)
    requires
        -24 <= exponent_of(bits as int) < -14,
    ensures
        f16_of(bits as int) matches Some(h) && h / 0x8000 == sign_of(bits as int) && {
            let step = pow2((-1 - exponent_of(bits as int)) as nat);
            let n = h % 0x8000;
            n * step <= 0x80_0000 + mantissa_of(bits as int) < (n + 1) * step
        },
{
    let b = bits as int;
    let e = exponent_of(b);
    let m = mantissa_of(b);
    let sub = (-14 - e) as nat;
    let step = pow2(13 + sub) as int;
    let top = pow2((10 - sub) as nat) as int;
    vstd::arithmetic::power2::lemma_pow2_pos(13 + sub);
    vstd::arithmetic::power2::lemma_pow2_pos((10 - sub) as nat);
    vstd::arithmetic::power2::lemma_pow2_adds((10 - sub) as nat, 13 + sub);
    vstd::arithmetic::power2::lemma2_to64();
    assert(top * step == 0x80_0000);
    vstd::arithmetic::div_mod::lemma_fundamental_div_mod(m, step);
    vstd::arithmetic::div_mod::lemma_mod_bound(m, step);
    let q = m / step;
    let n = top + q;
    assert(n * step == top * step + step * q) by (nonlinear_arith)
        requires
            n == top + q,
    ;
    assert((n + 1) * step == n * step + step) by (nonlinear_arith);
    assert(0 <= q) by (nonlinear_arith)
        requires
            q == m / step,
            m >= 0,
            step > 0,
    ;
    assert(q < top) by (nonlinear_arith)
        requires
            m == step * q + m % step,
            0 <= m % step,
            m < top * step,
            step > 0,
    ;
    assert(top <= 512) by {
        if sub == 1 {
        } else {
            vstd::arithmetic::power2::lemma_pow2_strictly_increases((10 - sub) as nat, 9);
        }
        assert(pow2(9) == 512);
    }
    let h = sign_of(b) * 0x8000 + n;
    assert(0 <= n < 0x8000);
    assert(h / 0x8000 == sign_of(b) && h % 0x8000 == n);
    assert((-1 - e) as nat == 13 + sub);
}

/// Numbers of 65536 and more do not fit, and those below the smallest step become zero; the sign
/// makes no difference.
pub proof fn lemma_f16_bounds(bits: u32)
    ensures
        (f16_of(bits as int) is None) == (bits as int % 0x8000_0000 >= 0x4780_0000),
        bits as int % 0x8000_0000 < 0x3380_0000 ==> f16_of(bits as int) == Some(0int),
{
}

} // verus!
