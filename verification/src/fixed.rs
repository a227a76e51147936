//! Saturating integers and the 16.16 fixed-point format.
use vstd::arithmetic::div_mod::*;
use vstd::arithmetic::power2::*;
use vstd::bits::*;
use vstd::prelude::*;

verus! {

/// Number of fraction bits of a fixed-point number.
pub const FIXED_FRAC_BITS: u32 = 16;

/// The fixed-point number one.
pub const FIXED_ONE: i64 = 65536;

/// The fixed-point number one half.
pub const FIXED_HALF: i64 = 32768;

/// The `i64` nearest to `x`.
pub open spec fn clamp64(x: int) -> i64 {
    if x > i64::MAX {
        i64::MAX
    } else if x < i64::MIN {
        i64::MIN
    } else {
        x as i64
    }
}

/// The `i32` nearest to `x`.
pub open spec fn clamp32(x: int) -> i32 {
    if x > i32::MAX {
        i32::MAX
    } else if x < i32::MIN {
        i32::MIN
    } else {
        x as i32
    }
}

/// The `usize` nearest to `x`.
pub open spec fn clamp_usize(x: int) -> usize {
    if x > usize::MAX {
        usize::MAX
    } else if x < 0 {
        0
    } else {
        x as usize
    }
}

/// The `isize` nearest to `x`.
pub open spec fn clamp_isize(x: int) -> isize {
    if x > isize::MAX {
        isize::MAX
    } else if x < isize::MIN {
        isize::MIN
    } else {
        x as isize
    }
}

/// The larger of two integers.
pub open spec fn max_of(a: int, b: int) -> int {
    if a >= b {
        a
    } else {
        b
    }
}

/// The smaller of two integers.
pub open spec fn min_of(a: int, b: int) -> int {
    if a <= b {
        a
    } else {
        b
    }
}

/// The distance of `x` from zero.
pub open spec fn abs_of(x: int) -> int {
    if x < 0 {
        -x
    } else {
        x
    }
}

/// The fixed-point product of `a` and `b`: the saturated integer product, divided by one and
/// rounded down.
pub open spec fn fmul(a: i64, b: i64) -> i64 {
    (clamp64(a * b) as int / 65536) as i64
}

pub fn sat_add64(a: i64, b: i64) -> (r: i64)
    ensures
        r == clamp64(a + b),
{
    let wide: i128 = a as i128 + b as i128;
    if wide > i64::MAX as i128 {
        i64::MAX
    } else if wide < i64::MIN as i128 {
        i64::MIN
    } else {
        wide as i64
    }
}

pub fn sat_sub64(a: i64, b: i64) -> (r: i64)
    ensures
        r == clamp64(a - b),
{
    let wide: i128 = a as i128 - b as i128;
    if wide > i64::MAX as i128 {
        i64::MAX
    } else if wide < i64::MIN as i128 {
        i64::MIN
    } else {
        wide as i64
    }
}

pub fn sat_mul64(a: i64, b: i64) -> (r: i64)
    ensures
        r == clamp64(a * b),
{
    assert(-0x4000_0000_0000_0000_0000_0000_0000_0000 <= a * b
        <= 0x4000_0000_0000_0000_0000_0000_0000_0000) by (nonlinear_arith)
        requires
            -0x8000_0000_0000_0000 <= a <= 0x8000_0000_0000_0000,
            -0x8000_0000_0000_0000 <= b <= 0x8000_0000_0000_0000,
    ;
    let wide: i128 = a as i128 * b as i128;
    if wide > i64::MAX as i128 {
        i64::MAX
    } else if wide < i64::MIN as i128 {
        i64::MIN
    } else {
        wide as i64
    }
}

pub fn sat_add32(a: i32, b: i32) -> (r: i32)
    ensures
        r == clamp32(a + b),
{
    let wide: i64 = a as i64 + b as i64;
    if wide > i32::MAX as i64 {
        i32::MAX
    } else if wide < i32::MIN as i64 {
        i32::MIN
    } else {
        wide as i32
    }
}

pub fn sat_sub32(a: i32, b: i32) -> (r: i32)
    ensures
        r == clamp32(a - b),
{
    let wide: i64 = a as i64 - b as i64;
    if wide > i32::MAX as i64 {
        i32::MAX
    } else if wide < i32::MIN as i64 {
        i32::MIN
    } else {
        wide as i32
    }
}

pub fn sat_mul32(a: i32, b: i32) -> (r: i32)
    ensures
        r == clamp32(a * b),
{
    assert(-0x4000_0000_0000_0000 <= a * b <= 0x4000_0000_0000_0000) by (nonlinear_arith)
        requires
            -0x8000_0000 <= a <= 0x8000_0000,
            -0x8000_0000 <= b <= 0x8000_0000,
    ;
    let wide: i64 = a as i64 * b as i64;
    if wide > i32::MAX as i64 {
        i32::MAX
    } else if wide < i32::MIN as i64 {
        i32::MIN
    } else {
        wide as i32
    }
}

pub fn sat_mul_usize(a: usize, b: usize) -> (r: usize)
    ensures
        r == clamp_usize(a * b),
{
    assert(a * b >= 0) by (nonlinear_arith)
        requires
            a >= 0,
            b >= 0,
    ;
    match a.checked_mul(b) {
        Some(v) => v,
        None => usize::MAX,
    }
}

/// `a * b + c` in the index type of a signed offset; both steps saturate.
pub fn sat_mul_add_isize(a: isize, b: isize, c: isize) -> (r: isize)
    ensures
        r == clamp_isize(clamp_isize(a * b) + c),
{
    let product: isize = match a.checked_mul(b) {
        Some(v) => v,
        None => {
            let negative: bool = (a < 0) != (b < 0);
            assert(negative ==> a * b <= 0) by (nonlinear_arith)
                requires
                    negative == ((a < 0) != (b < 0)),
            ;
            assert(!negative ==> a * b >= 0) by (nonlinear_arith)
                requires
                    negative == ((a < 0) != (b < 0)),
            ;
            if negative {
                isize::MIN
            } else {
                isize::MAX
            }
        },
    };
    match product.checked_add(c) {
        Some(v) => v,
        None => if c < 0 {
            isize::MIN
        } else {
            isize::MAX
        },
    }
}

/// The fixed-point product of two numbers; the integer product saturates.
pub fn fixed_mul(lhs: i64, rhs: i64) -> (r: i64)
    ensures
        r == fmul(lhs, rhs),
{
    let product: i64 = sat_mul64(lhs, rhs);
    assert(product >> 16u32 == product / 65536) by (bit_vector);
    product >> FIXED_FRAC_BITS
}

/// Whether the sign bit of a double's bit pattern is set.
pub open spec fn double_sign(bits: u64) -> int {
    if bits >= 0x8000_0000_0000_0000 {
        -1
    } else {
        1
    }
}

/// The biased exponent field of a double's bit pattern.
pub open spec fn double_exponent(bits: u64) -> int {
    (bits as int / 0x10_0000_0000_0000) % 2048
}

/// The 53-bit significand of a normal double's bit pattern, with its hidden bit.
pub open spec fn double_significand(bits: u64) -> int {
    bits as int % 0x10_0000_0000_0000 + 0x10_0000_0000_0000
}

/// The magnitude read off a significand `m` that is scaled by `pow2(shift)`. Scales at and past
/// the width of the word lie outside of the format and give the values that the word's shift
/// operations give there.
pub open spec fn scaled_magnitude(m: int, shift: int) -> i64 {
    if shift >= 64 {
        0
    } else if shift == 63 {
        i64::MIN
    } else if shift >= 0 {
        clamp64(m * pow2(shift as nat))
    } else if shift > -64 {
        clamp64(m / (pow2((-shift) as nat) as int))
    } else {
        clamp64(m)
    }
}

/// The integer read off a double's bit pattern.
pub open spec fn double_to_int(bits: u64) -> i64 {
    if double_exponent(bits) == 0 {
        0
    } else {
        clamp64(
            double_sign(bits) * scaled_magnitude(
                double_significand(bits),
                double_exponent(bits) - 1075,
            ),
        )
    }
}

proof fn lemma_double_fields(bits: u64)
    ensures
        (bits >> 63u32 == 1) == (bits >= 0x8000_0000_0000_0000),
        ((bits >> 52u32) & 0x7FF) == double_exponent(bits),
        ((bits & 0x000F_FFFF_FFFF_FFFF) | 0x0010_0000_0000_0000) == double_significand(bits),
        0 <= double_exponent(bits) < 2048,
        0x10_0000_0000_0000 <= double_significand(bits) < 0x20_0000_0000_0000,
{
    assert((bits >> 63u32 == 1) == (bits >= 0x8000_0000_0000_0000)) by (bit_vector);
    assert(((bits >> 52u32) & 0x7FF) == (bits / 0x10_0000_0000_0000) % 2048) by (bit_vector);
    assert(((bits & 0x000F_FFFF_FFFF_FFFF) | 0x0010_0000_0000_0000) == bits % 0x10_0000_0000_0000
        + 0x10_0000_0000_0000) by (bit_vector);
}

proof fn lemma_power_of_two(k: u32)
    requires
        k < 64,
    ensures
        1u64 << k == pow2(k as nat),
        k <= 62 ==> pow2(k as nat) <= 0x4000_0000_0000_0000,
        k == 63 ==> pow2(k as nat) == 0x8000_0000_0000_0000,
        pow2(k as nat) > 0,
{
    lemma2_to64();
    lemma2_to64_rest();
    lemma_pow2_pos(k as nat);
    if k < 62 {
        lemma_pow2_strictly_increases(k as nat, 62);
    }
    lemma_u64_shl_is_mul(1u64, k as u64);
    assert(1u64 << k == 1u64 << (k as u64)) by (bit_vector);
}

/// The integer in the double whose bit pattern is `bits`. The double is a fixed-point number,
/// scaled and rounded to an integer by the caller.
pub fn float_to_fixed(bits: u64) -> (r: i64)
    ensures
        r == double_to_int(bits),
{
    proof {
        lemma_double_fields(bits);
    }
    let negative: bool = bits >> 63u32 == 1;
    let exponent: i32 = ((bits >> 52u32) & 0x7FF) as i32;
    let mantissa: i64 = ((bits & 0x000F_FFFF_FFFF_FFFF) | 0x0010_0000_0000_0000) as i64;
    if exponent == 0 {
        return 0;
    }
    let shift: i32 = exponent - 1075;
    let magnitude: i64 = if shift >= 64 {
        0
    } else if shift == 63 {
        i64::MIN
    } else if shift >= 0 {
        proof {
            lemma_power_of_two(shift as u32);
        }
        sat_mul64(mantissa, (1u64 << (shift as u32)) as i64)
    } else if shift > -64 {
        proof {
            lemma_power_of_two((-shift) as u32);
            lemma_div_is_ordered_by_denominator(
                mantissa as int,
                1,
                pow2((-shift) as nat) as int,
            );
            lemma_div_pos_is_pos(mantissa as int, pow2((-shift) as nat) as int);
        }
        (mantissa as u64 / (1u64 << ((-shift) as u32))) as i64
    } else {
        mantissa
    };
    if negative {
        sat_mul64(-1, magnitude)
    } else {
        magnitude
    }
}

/// A double that holds an integer which fits the word is read exactly: the bits of
/// `sign * significand * 2^(exponent - 1075)` give that number.
pub proof fn law_float_to_fixed_exact(bits: u64, value: int)
    requires
        1023 <= double_exponent(bits) <= 1085,
        double_exponent(bits) <= 1075 ==> value * pow2((1075 - double_exponent(bits)) as nat)
            == double_sign(bits) * double_significand(bits),
        double_exponent(bits) > 1075 ==> value == double_sign(bits) * double_significand(bits)
            * pow2((double_exponent(bits) - 1075) as nat),
    ensures
        double_to_int(bits) == value,
{
    lemma_double_fields(bits);
    let e = double_exponent(bits);
    let m = double_significand(bits);
    let s = double_sign(bits);
    if e <= 1075 {
        let p = pow2((1075 - e) as nat) as int;
        lemma_power_of_two((1075 - e) as u32);
        let v = s * value;
        assert(v * p == m) by (nonlinear_arith)
            requires
                v == s * value,
                value * p == s * m,
                s == 1 || s == -1,
        ;
        assert(m / p == v) by {
            lemma_div_multiples_vanish(v, p);
            assert(p * v == v * p) by (nonlinear_arith);
        }
        if e == 1075 {
            lemma2_to64();
            assert(p == 1);
            assert(m * p == m && v * p == v) by (nonlinear_arith)
                requires
                    p == 1,
            ;
        }
        assert(0 <= v <= m) by (nonlinear_arith)
            requires
                v * p == m,
                p >= 1,
                m >= 0,
        ;
        assert(scaled_magnitude(m, e - 1075) == v);
        assert(s * v == value) by (nonlinear_arith)
            requires
                v == s * value,
                s == 1 || s == -1,
        ;
    } else {
        let p = pow2((e - 1075) as nat) as int;
        lemma_power_of_two((e - 1075) as u32);
        assert(p <= 1024) by {
            lemma2_to64();
            if e < 1085 {
                lemma_pow2_strictly_increases((e - 1075) as nat, 10);
            }
        }
        assert(0 <= m * p <= 0x20_0000_0000_0000 * 1024 - 1024) by (nonlinear_arith)
            requires
                0 <= m <= 0x20_0000_0000_0000 - 1,
                0 <= p <= 1024,
        ;
        assert(s * (m * p) == s * m * p) by (nonlinear_arith);
    }
}

} // verus!
