use arith128::{divide, gcd, multiply, multiply_by_rational, split, to_big_uint};
use num_bigint::BigUint;
use num_traits::ToPrimitive;

/// The 256-bit product recombined in the arbitrary-precision domain.
fn wide_product(a: u128, b: u128) -> BigUint {
    BigUint::from(a) * BigUint::from(b)
}

fn recombine(carry: u128, result: u128) -> BigUint {
    (BigUint::from(carry) << 128u32) + BigUint::from(result)
}

#[test]
fn divide_works() {
    assert_eq!(divide(i128::max_value() as u128, 16, 3), Some((i128::max_value() / 2) as u128));
}

#[test]
fn multiply_matches_reference() {
    let cases: [(u128, u128); 7] = [
        (0, 0),
        (0, u128::MAX),
        (1, u128::MAX),
        (u128::MAX, u128::MAX),
        (1 << 64, 1 << 64),
        (1 << 127, 2),
        (123_456_789_012_345_678_901_234_567_890, 987_654_321_098_765_432_109_876_543_210),
    ];
    for (a, b) in cases {
        let (carry, result) = multiply(a, b);
        assert_eq!(recombine(carry, result), wide_product(a, b));
    }
}

#[test]
fn multiply_max_operands() {
    // (2^128 - 1)^2 == (2^128 - 2) * 2^128 + 1
    let (carry, result) = multiply(u128::MAX, u128::MAX);
    assert_eq!(carry, u128::MAX - 1);
    assert_eq!(result, 1);
}

#[test]
fn multiply_zero_operand() {
    assert_eq!(multiply(0, 0), (0, 0));
    assert_eq!(multiply(0, 42), (0, 0));
    assert_eq!(multiply(42, 0), (0, 0));
}

#[test]
fn split_halves() {
    assert_eq!(split(0), (0, 0));
    assert_eq!(split(u128::MAX), (u64::MAX, u64::MAX));
    assert_eq!(split((5u128 << 64) | 7u128), (5, 7));
}

#[test]
fn rational_native_path_truncates() {
    // No overflow: plain floor(a * b / c).
    assert_eq!(multiply_by_rational(3, 5, 2), Ok(7));
    assert_eq!(multiply_by_rational(1 << 60, 1 << 60, 7), Ok((1u128 << 120) / 7));
    assert_eq!(multiply_by_rational(0, u128::MAX, 3), Ok(0));
    assert_eq!(multiply_by_rational(u128::MAX, 1, 1), Ok(u128::MAX));
}

#[test]
fn rational_exact_division_shortcut() {
    // c divides one operand, so the product may overflow and still be exact.
    assert_eq!(multiply_by_rational(1 << 100, 1 << 100, 1 << 74), Ok(1 << 126));
}

#[test]
fn rational_fallback_single_limb_truncates() {
    // a * b overflows 128 bits; c fits one base-2^32 limb: truncation.
    let a = (1u128 << 127) - 1;
    let b = 3u128;
    let c = 5u128;
    assert!(a % c != 0 && b % c != 0);
    let expected = (wide_product(a, b) / BigUint::from(c)).to_u128().unwrap();
    assert_eq!(multiply_by_rational(a, b, c), Ok(expected));
}

#[test]
fn rational_fallback_multi_limb_rounds_half_up() {
    // a * b overflows 128 bits; c needs two base-2^32 limbs, and the
    // remainder exceeds c / 2: the quotient is rounded up by one.
    let a = (1u128 << 127) - 1;
    let b = 3u128;
    let c = (1u128 << 40) + 1;
    assert!(a % c != 0 && b % c != 0);
    let p = wide_product(a, b);
    let cb = BigUint::from(c);
    let q = (&p / &cb).to_u128().unwrap();
    let r = (&p % &cb).to_u128().unwrap();
    assert!(r > c / 2);
    assert_eq!(multiply_by_rational(a, b, c), Ok(q + 1));
}

#[test]
fn rational_fallback_multi_limb_small_remainder_truncates() {
    // Same fallback, but the remainder is at most c / 2: plain truncation.
    let a = (1u128 << 127) + 129;
    let b = 3u128;
    let c = (1u128 << 40) + 1;
    assert!(a % c != 0 && b % c != 0);
    let p = wide_product(a, b);
    let cb = BigUint::from(c);
    let q = (&p / &cb).to_u128().unwrap();
    let r = (&p % &cb).to_u128().unwrap();
    assert!(r <= c / 2);
    assert_eq!(multiply_by_rational(a, b, c), Ok(q));
}

#[test]
fn rational_unrepresentable_result() {
    assert_eq!(multiply_by_rational(u128::MAX, u128::MAX, 1), Err("result cannot fit in u128"));
    // 2^100 * 2^100 / 2^64 == 2^136, which has no 128-bit representation.
    assert_eq!(
        multiply_by_rational(1 << 100, 1 << 100, 1 << 64),
        Err("result cannot fit in u128")
    );
}

#[test]
fn gcd_zero_and_equal_operands() {
    assert_eq!(gcd(42, 0), 42);
    assert_eq!(gcd(0, 42), 42);
    assert_eq!(gcd(0, 0), 0);
    assert_eq!(gcd(7, 7), 7);
    assert_eq!(gcd(u128::MAX, u128::MAX), u128::MAX);
    assert_eq!(gcd(u128::MAX, 0), u128::MAX);
}

#[test]
fn gcd_small_and_large_values() {
    assert_eq!(gcd(12, 18), 6);
    assert_eq!(gcd(17, 5), 1);
    assert_eq!(gcd(1 << 64, 1 << 32), 1 << 32);
    assert_eq!(gcd(6 << 100, 9 << 100), 3 << 100);
    assert_eq!(gcd(u128::MAX, 3), 3);
}

#[test]
fn divide_zero_shift_is_plain_division() {
    assert_eq!(divide(4, 2, 0), Some(2));
    assert_eq!(divide(0, 9, 0), Some(0));
    assert_eq!(divide(u128::MAX, 1, 0), Some(u128::MAX));
    assert_eq!(divide(u128::MAX, 7, 0), Some(u128::MAX / 7));
}

#[test]
fn divide_headroom_boundary() {
    // One bit of headroom available ...
    assert_eq!(divide(1 << 126, 1, 1), Some(1 << 127));
    // ... and exactly one bit short.
    assert_eq!(divide(1 << 127, 1, 1), None);
}

#[test]
fn divide_with_remainder_refinement() {
    // 7 * 2^100 / 3 needs the second pass for the remainder.
    let expected = ((BigUint::from(7u32) << 100u32) / BigUint::from(3u32)).to_u128().unwrap();
    assert_eq!(divide(7, 3, 100), Some(expected));
}

#[test]
fn divide_large_shift_overflows() {
    assert_eq!(divide(u128::MAX, 1, 255), None);
    assert_eq!(divide(2, 1, 200), None);
}

#[test]
fn big_uint_round_trip() {
    for x in [0u128, 1, 2, u64::MAX as u128, 1 << 64, 1 << 127, u128::MAX - 1, u128::MAX] {
        let n = to_big_uint(x);
        assert_eq!(n.to_u128(), Some(x));
        assert_eq!(u128::try_from(&n).ok(), Some(x));
        assert_eq!(n, BigUint::from(x));
    }
}
