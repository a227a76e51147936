//! What the saturating integers and the fixed-point numbers stand for.
use crate::fixed::{
    abs_of, clamp32, clamp64, clamp_isize, clamp_usize, double_exponent, double_sign,
    double_significand, double_to_int, fmul, max_of, min_of, scaled_magnitude,
};
use vstd::arithmetic::div_mod::*;
use vstd::arithmetic::power2::*;
use vstd::prelude::*;

verus! {

/// A saturated number lies on the same side of every number of the word as the number itself. So it
/// is the number where the word holds it, and the end of the word next to it where it does not.
pub proof fn law_saturation_keeps_order(x: int, a: i64, b: i32, c: usize, d: isize)
    ensures
        a <= x ==> a <= clamp64(x),
        x <= a ==> clamp64(x) <= a,
        b <= x ==> b <= clamp32(x),
        x <= b ==> clamp32(x) <= b,
        c <= x ==> c <= clamp_usize(x),
        x <= c ==> clamp_usize(x) <= c,
        d <= x ==> d <= clamp_isize(x),
        x <= d ==> clamp_isize(x) <= d,
{
}

/// The larger of two numbers, the smaller, and the distance from zero.
pub proof fn law_order_of_two(a: int, b: int)
    ensures
        max_of(a, b) >= a && max_of(a, b) >= b,
        min_of(a, b) <= a && min_of(a, b) <= b,
        max_of(a, b) + min_of(a, b) == a + b,
        max_of(a, b) - min_of(a, b) == abs_of(a - b),
        abs_of(a) >= 0,
        abs_of(a) == a || abs_of(a) == -a,
{
}

/// The fixed-point product is the integer product divided by one and rounded down, as long as the
/// word holds the integer product; past its ends the product stays at the largest, or the least.
pub proof fn law_fixed_product(a: i64, b: i64)
    ensures
        i64::MIN <= a * b <= i64::MAX ==> 65536 * fmul(a, b) <= a * b < 65536 * fmul(a, b) + 65536,
        a * b > i64::MAX ==> fmul(a, b) == 0x7fff_ffff_ffff,
        a * b < i64::MIN ==> fmul(a, b) == -0x8000_0000_0000,
        fmul(a, b) == fmul(b, a),
{
    assert(a * b == b * a) by (nonlinear_arith);
}

/// The fields of a double make up its bit pattern: the sign, eleven bits of the exponent, and
/// fifty-two bits of the significand.
pub proof fn law_double_fields(bits: u64)
    ensures
        double_sign(bits) == 1 || double_sign(bits) == -1,
        0 <= double_exponent(bits) <= 2047,
        0x10_0000_0000_0000 <= double_significand(bits) < 0x20_0000_0000_0000,
        bits == (1 - double_sign(bits)) * 0x4000_0000_0000_0000 + double_exponent(bits)
            * 0x10_0000_0000_0000 + double_significand(bits) - 0x10_0000_0000_0000,
{
}

/// A number with a sign.
proof fn lemma_signed(s: int, x: int)
    requires
        s == 1 || s == -1,
    ensures
        s == 1 ==> s * x == x,
        s == -1 ==> s * x == -x,
{
    assert(1 * x == x && -1 * x == -x);
}

/// The integer of a double is the number that it holds, rounded toward zero: as long as the number
/// is not too small, its integer and the next one enclose it, and past the ends of the word the
/// integer stays there.
pub proof fn law_double_is_truncated(bits: u64)
    requires
        1012 <= double_exponent(bits) <= 1137,
    ensures
        ({
            let e = double_exponent(bits);
            let m = double_significand(bits);
            let v = double_sign(bits) * double_to_int(bits);
            &&& v >= 0
            &&& e <= 1075 ==> v * pow2((1075 - e) as nat) <= m < (v + 1) * pow2((1075 - e) as nat)
            &&& 1075 <= e <= 1085 ==> v == m * pow2((e - 1075) as nat)
            &&& e >= 1086 ==> v == i64::MAX
        }),
{
    law_double_fields(bits);
    let e = double_exponent(bits);
    let m = double_significand(bits);
    lemma2_to64();
    lemma2_to64_rest();
    lemma_signed(double_sign(bits), scaled_magnitude(m, e - 1075) as int);
    lemma_signed(double_sign(bits), double_to_int(bits) as int);
    if e < 1075 {
        let p = pow2((1075 - e) as nat) as int;
        lemma_pow2_pos((1075 - e) as nat);
        lemma_fundamental_div_mod(m, p);
        let q = m / p;
        assert(0 <= q <= m) by (nonlinear_arith)
            requires
                m == p * q + m % p,
                0 <= m % p < p,
                p >= 1,
                m >= 0,
        ;
        assert(scaled_magnitude(m, e - 1075) == q);
        assert(q * p <= m < (q + 1) * p) by (nonlinear_arith)
            requires
                m == p * q + m % p,
                0 <= m % p < p,
        ;
    } else {
        let p = pow2((e - 1075) as nat) as int;
        lemma_pow2_pos((e - 1075) as nat);
        if e <= 1085 {
            if e < 1085 {
                lemma_pow2_strictly_increases((e - 1075) as nat, 10);
            }
            assert(0 <= m * p <= i64::MAX) by (nonlinear_arith)
                requires
                    0 <= m < 0x20_0000_0000_0000,
                    0 <= p <= 1024,
            ;
        } else {
            if e > 1086 {
                lemma_pow2_strictly_increases(11, (e - 1075) as nat);
            }
            assert(m * p > i64::MAX) by (nonlinear_arith)
                requires
                    m >= 0x10_0000_0000_0000,
                    p >= 2048,
            ;
        }
        if e == 1075 {
            assert(m * p == m) by (nonlinear_arith)
                requires
                    p == 1,
            ;
            let v = double_sign(bits) * double_to_int(bits);
            assert(v * p == v && (v + 1) * p == v + 1) by (nonlinear_arith)
                requires
                    p == 1,
            ;
        }
    }
}

/// What is read off the other patterns: a zero, or a number below the least that has a full
/// exponent, is zero; one that is too small to be scaled is not scaled; and one whose exponent is
/// larger than any that a shift takes is the least of the word, or zero.
pub proof fn law_double_out_of_range(bits: u64)
    ensures
        ({
            let e = double_exponent(bits);
            &&& e == 0 ==> double_to_int(bits) == 0
            &&& 0 < e < 1012 ==> double_to_int(bits) == double_sign(bits) * double_significand(bits)
            &&& e == 1138 && double_sign(bits) == 1 ==> double_to_int(bits) == i64::MIN
            &&& e == 1138 && double_sign(bits) == -1 ==> double_to_int(bits) == i64::MAX
            &&& e > 1138 ==> double_to_int(bits) == 0
        }),
{
    law_double_fields(bits);
    let e = double_exponent(bits);
    let m = double_significand(bits);
    lemma_signed(double_sign(bits), scaled_magnitude(m, e - 1075) as int);
    lemma_signed(double_sign(bits), m);
}

} // verus!
