use ring_signature::bignum::BigUint;
use ring_signature::utils::{
    add_mod_expand, inverse_mod, mul_mod, mul_mod_expand, multi_step_power, power_mod,
    power_mod_buint, CycleMeasure,
};

fn one_digit(x: u64) -> BigUint<1> {
    BigUint { digits: [x] }
}

fn four_digits(d: [u64; 4]) -> BigUint<4> {
    BigUint { digits: d }
}

#[test]
fn power_mod_small_values() {
    assert_eq!(power_mod::<1, 2>(one_digit(3), 4, one_digit(5)).digits, [1]);
    assert_eq!(power_mod::<1, 2>(one_digit(2), 10, one_digit(1000)).digits, [24]);
}

#[test]
fn power_mod_zero_exponent_is_one_unreduced() {
    assert_eq!(power_mod::<1, 2>(one_digit(9), 0, one_digit(1)).digits, [1]);
    assert_eq!(power_mod::<1, 2>(one_digit(9), 1, one_digit(1)).digits, [0]);
}

#[test]
fn power_mod_buint_matches_power_mod() {
    let b = one_digit(2);
    let m = one_digit(1000);
    assert_eq!(power_mod_buint::<1, 2>(b, one_digit(10), m).digits, [24]);
    assert_eq!(power_mod_buint::<1, 2>(b, one_digit(0), m).digits, [1]);
}

#[test]
fn multi_step_power_two_digit_exponent() {
    // 7^(2^64 + 3) mod 1000000007
    let a = BigUint { digits: [7u64, 0] };
    let b = BigUint { digits: [3u64, 1] };
    let p = BigUint { digits: [1000000007u64, 0] };
    assert_eq!(multi_step_power::<2, 4>(a, b, p).digits, [508918737, 0]);
    assert_eq!(power_mod_buint::<2, 4>(a, b, p).digits, [508918737, 0]);
}

#[test]
fn mul_and_add_mod_expand_use_the_wider_width() {
    let p = one_digit(1000000007);
    assert_eq!(mul_mod_expand::<1, 2>(one_digit(1 << 63), one_digit(4), p).digits, [164688009]);
    assert_eq!(add_mod_expand::<1, 2>(one_digit(u64::MAX), one_digit(u64::MAX), p).digits, [164688007]);
}

#[test]
fn mul_mod_in_one_width() {
    assert_eq!(mul_mod::<1>(one_digit(12345), one_digit(67890), one_digit(97)).digits, [31]);
}

#[test]
fn inverse_mod_small_modulus() {
    let r = inverse_mod::<4, 8>(four_digits([3, 0, 0, 0]), four_digits([7, 0, 0, 0]));
    assert_eq!(r.digits, [5, 0, 0, 0]);
}

#[test]
fn inverse_mod_below_half_width_is_an_inverse() {
    // 5^-1 modulo 2^255 - 19
    let p = four_digits([0xFFFF_FFFF_FFFF_FFED, u64::MAX, u64::MAX, 0x7FFF_FFFF_FFFF_FFFF]);
    let r = inverse_mod::<4, 8>(four_digits([5, 0, 0, 0]), p);
    assert_eq!(
        r.digits,
        [0x9999_9999_9999_9996, 0x9999_9999_9999_9999, 0x9999_9999_9999_9999, 0x1999_9999_9999_9999]
    );
}

#[test]
fn inverse_mod_modulo_the_secp256k1_prime() {
    // The prime is above 2^255; the inverse is still taken modulo the prime itself.
    let p = four_digits([0xFFFF_FFFE_FFFF_FC2F, u64::MAX, u64::MAX, u64::MAX]);
    let r = inverse_mod::<4, 8>(four_digits([3, 0, 0, 0]), p);
    assert_eq!(
        r.digits,
        [0xaaaa_aaa9_ffff_fd75, 0xaaaa_aaaa_aaaa_aaaa, 0xaaaa_aaaa_aaaa_aaaa, 0xaaaa_aaaa_aaaa_aaaa]
    );
    let r = inverse_mod::<4, 8>(four_digits([2, 0, 0, 0]), p);
    assert_eq!(
        r.digits,
        [0xffff_ffff_7fff_fe18, u64::MAX, u64::MAX, 0x7fff_ffff_ffff_ffff]
    );
}

#[test]
fn inverse_mod_twice_gives_back_the_input() {
    let p = four_digits([0xFFFF_FFFE_FFFF_FC2F, u64::MAX, u64::MAX, u64::MAX]);
    let a = four_digits([0x1234_5678_9abc_def0, 42, 0, 7]);
    let r = inverse_mod::<4, 8>(a, p);
    assert_eq!(inverse_mod::<4, 8>(r, p).digits, a.digits);
}

#[test]
fn power_mod_zero_exponent_with_zero_modulus() {
    assert_eq!(power_mod::<1, 2>(one_digit(9), 0, one_digit(0)).digits, [1]);
    assert_eq!(power_mod_buint::<1, 2>(one_digit(9), one_digit(0), one_digit(0)).digits, [1]);
}

#[test]
fn cycle_measure_from_start() {
    let m = CycleMeasure::from_start(100, "kmul");
    assert_eq!(m.start_cycles(), 100);
    assert_eq!(m.label(), "kmul");
    assert_eq!(m.used_cycles(250), 150);
}

#[test]
fn cycle_measure_keeps_its_name() {
    let m = CycleMeasure::new("compound hash");
    assert_eq!(m.label(), "compound hash");
    let start = m.start_cycles();
    assert_eq!(m.used_cycles(start), 0);
    assert_eq!(m.used_cycles(start.wrapping_add(0)), 0);
}
