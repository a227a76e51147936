use dbs_dither::fixed::{
    fixed_mul, float_to_fixed, sat_add32, sat_add64, sat_mul32, sat_mul64, sat_mul_add_isize,
    sat_mul_usize, sat_sub32, sat_sub64, FIXED_FRAC_BITS, FIXED_HALF, FIXED_ONE,
};

#[test]
fn constants_agree() {
    assert_eq!(FIXED_ONE, 1 << FIXED_FRAC_BITS);
    assert_eq!(2 * FIXED_HALF, FIXED_ONE);
}

#[test]
fn products_round_down() {
    assert_eq!(fixed_mul(3 * FIXED_ONE, FIXED_HALF), 98304);
    assert_eq!(fixed_mul(1, 65535), 0);
    assert_eq!(fixed_mul(-1, 1), -1);
    assert_eq!(fixed_mul(-FIXED_ONE, 12345), -12345);
}

#[test]
fn products_saturate_before_the_shift() {
    assert_eq!(fixed_mul(i64::MAX, 2), i64::MAX >> 16);
    assert_eq!(fixed_mul(i64::MIN, 2), i64::MIN >> 16);
    assert_eq!(fixed_mul(i64::MIN, -1), i64::MAX >> 16);
}

#[test]
fn sums_saturate() {
    assert_eq!(sat_add64(i64::MAX, 1), i64::MAX);
    assert_eq!(sat_add64(i64::MIN, -1), i64::MIN);
    assert_eq!(sat_add64(40, 2), 42);
    assert_eq!(sat_sub64(i64::MIN, 1), i64::MIN);
    assert_eq!(sat_sub64(0, i64::MIN), i64::MAX);
    assert_eq!(sat_mul64(i64::MAX, -2), i64::MIN);
    assert_eq!(sat_mul64(-6, 7), -42);
    assert_eq!(sat_add32(i32::MAX, 5), i32::MAX);
    assert_eq!(sat_sub32(i32::MIN, 5), i32::MIN);
    assert_eq!(sat_mul32(i32::MIN, -1), i32::MAX);
    assert_eq!(sat_mul32(6, 7), 42);
    assert_eq!(sat_mul_usize(usize::MAX, 2), usize::MAX);
    assert_eq!(sat_mul_usize(6, 7), 42);
    assert_eq!(sat_mul_add_isize(isize::MAX, 2, -1), isize::MAX - 1);
    assert_eq!(sat_mul_add_isize(-3, 8, 2), -22);
}

#[test]
fn doubles_that_are_integers() {
    assert_eq!(float_to_fixed(1.0f64.to_bits()), 1);
    assert_eq!(float_to_fixed((-3.0f64).to_bits()), -3);
    assert_eq!(float_to_fixed(16384.0f64.to_bits()), 16384);
    assert_eq!(float_to_fixed(65536.0f64.to_bits()), 65536);
    assert_eq!(float_to_fixed(4503599627370497.0f64.to_bits()), 4503599627370497);
    assert_eq!(float_to_fixed(9007199254740992.0f64.to_bits()), 9007199254740992);
    assert_eq!(float_to_fixed(4611686018427387904.0f64.to_bits()), 4611686018427387904);
}

#[test]
fn zeros_and_subnormals_are_zero() {
    assert_eq!(float_to_fixed(0.0f64.to_bits()), 0);
    assert_eq!(float_to_fixed((-0.0f64).to_bits()), 0);
    assert_eq!(float_to_fixed(1), 0);
}

#[test]
fn fractions_are_cut_off() {
    assert_eq!(float_to_fixed(0.5f64.to_bits()), 0);
    assert_eq!(float_to_fixed(2.75f64.to_bits()), 2);
    assert_eq!(float_to_fixed((-2.75f64).to_bits()), -2);
}

#[test]
fn doubles_past_the_word() {
    assert_eq!(float_to_fixed(9223372036854775808.0f64.to_bits()), i64::MAX);
    assert_eq!(float_to_fixed((-9223372036854775808.0f64).to_bits()), -i64::MAX);
    assert_eq!(float_to_fixed(((1023u64 + 52 + 63) << 52) | 5), i64::MIN);
    assert_eq!(float_to_fixed((1 << 63) | ((1023u64 + 52 + 63) << 52)), i64::MAX);
    assert_eq!(float_to_fixed(1e300f64.to_bits()), 0);
    assert_eq!(float_to_fixed(f64::INFINITY.to_bits()), 0);
    assert_eq!(float_to_fixed(f64::NAN.to_bits()), 0);
}

#[test]
fn tiny_doubles_keep_their_significand() {
    assert_eq!(float_to_fixed(1012u64 << 52), 0);
    assert_eq!(float_to_fixed(1011u64 << 52), 1 << 52);
    assert_eq!(float_to_fixed((1u64 << 52) | 7), (1 << 52) + 7);
}
