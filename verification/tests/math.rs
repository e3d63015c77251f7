use clob_core::errors::CoreError;
use clob_core::math::{mul_div_down, mul_div_up};
use clob_core::types::U256;

#[test]
fn mul_div_down_basic() {
    let a = U256::from(10u64);
    let b = U256::from(20u64);
    let d = U256::from(6u64);
    let out = mul_div_down(a, b, d).expect("mul_div_down");
    assert_eq!(out, U256::from(33u64));
}

#[test]
fn mul_div_up_basic() {
    let a = U256::from(10u64);
    let b = U256::from(20u64);
    let d = U256::from(6u64);
    let out = mul_div_up(a, b, d).expect("mul_div_up");
    assert_eq!(out, U256::from(34u64));
}

#[test]
fn mul_div_down_of_largest_values() {
    let max = U256::max_value();
    assert_eq!(mul_div_down(max, max, max).expect("fits"), max);
    assert_eq!(mul_div_up(max, max, max).expect("fits"), max);
}

#[test]
fn mul_div_up_of_zero_is_zero() {
    let d = U256::from(7u64);
    let x = U256::from(123_456u64);
    assert_eq!(mul_div_up(U256::zero(), x, d).expect("zero"), U256::zero());
    assert_eq!(mul_div_up(x, U256::zero(), d).expect("zero"), U256::zero());
    assert_eq!(mul_div_down(U256::zero(), x, d).expect("zero"), U256::zero());
}

#[test]
fn mul_div_exact_division_does_not_round() {
    let out = mul_div_up(U256::from(6u64), U256::from(4u64), U256::from(8u64)).expect("exact");
    assert_eq!(out, U256::from(3u64));
    let out = mul_div_down(U256::from(6u64), U256::from(4u64), U256::from(8u64)).expect("exact");
    assert_eq!(out, U256::from(3u64));
}

#[test]
fn mul_div_by_zero_fails() {
    let one = U256::one();
    assert!(matches!(mul_div_down(one, one, U256::zero()), Err(CoreError::Math(_))));
    assert!(matches!(mul_div_up(one, one, U256::zero()), Err(CoreError::Math(_))));
}

#[test]
fn mul_div_overflow_fails() {
    let max = U256::max_value();
    let two = U256::from(2u64);
    assert!(matches!(mul_div_down(max, two, U256::one()), Err(CoreError::Math(_))));
    assert!(matches!(mul_div_up(max, two, U256::one()), Err(CoreError::Math(_))));
    assert!(matches!(mul_div_up(max, max, U256::from(3u64)), Err(CoreError::Math(_))));
}

#[test]
fn mul_div_up_overflows_only_by_rounding() {
    // (2^256 - 1) * 3 / 3 fits exactly; (2^256 - 1) * 3 / 2 does not.
    let max = U256::max_value();
    let three = U256::from(3u64);
    assert_eq!(mul_div_up(max, three, three).expect("fits"), max);
    assert!(matches!(mul_div_up(max, three, U256::from(2u64)), Err(CoreError::Math(_))));
}

#[test]
fn mul_div_with_wide_intermediate() {
    // 2^200 * 2^100 / 2^150 = 2^150
    let a = U256 { hi: 1u128 << 72, lo: 0 };
    let b = U256 { hi: 0, lo: 1u128 << 100 };
    let d = U256 { hi: 1u128 << 22, lo: 0 };
    let expected = U256 { hi: 1u128 << 22, lo: 0 };
    assert_eq!(mul_div_down(a, b, d).expect("fits"), expected);
    assert_eq!(mul_div_up(a, b, d).expect("fits"), expected);
}

#[test]
fn price_scale_amounts() {
    // price 2e18 per unit, 5 units, scale 1e18: 10
    let scale = U256::from(1_000_000_000_000_000_000u128);
    let price = U256::from(2_000_000_000_000_000_000u128);
    assert_eq!(mul_div_up(price, U256::from(5u64), scale).expect("lock"), U256::from(10u64));
    // fee of 10 bps on 1999: ceil(1999 * 10 / 10000) = 2
    let fee = mul_div_up(U256::from(1999u64), U256::from(10u64), U256::from(10_000u64));
    assert_eq!(fee.expect("fee"), U256::from(2u64));
}

#[test]
fn u256_arithmetic_is_checked() {
    let max = U256::max_value();
    assert_eq!(max.checked_add(&U256::one()), None);
    assert_eq!(U256::zero().checked_sub(&U256::one()), None);
    assert_eq!(max.checked_mul(&U256::from(2u64)), None);
    assert_eq!(U256::from(7u64).checked_rem(&U256::zero()), None);
    assert_eq!(U256::from(7u64).checked_rem(&U256::from(4u64)), Some(U256::from(3u64)));
    assert_eq!(U256::from(7u64).checked_add(&U256::from(4u64)), Some(U256::from(11u64)));
    assert_eq!(U256::from(7u64).checked_sub(&U256::from(4u64)), Some(U256::from(3u64)));
    assert_eq!(U256::from(7u64).checked_mul(&U256::from(4u64)), Some(U256::from(28u64)));
    let carry = U256 { hi: 0, lo: u128::MAX }.checked_add(&U256::one());
    assert_eq!(carry, Some(U256 { hi: 1, lo: 0 }));
    let borrow = U256 { hi: 1, lo: 0 }.checked_sub(&U256::one());
    assert_eq!(borrow, Some(U256 { hi: 0, lo: u128::MAX }));
}

#[test]
fn u256_order_and_bytes() {
    let small = U256 { hi: 0, lo: u128::MAX };
    let large = U256 { hi: 1, lo: 0 };
    assert!(small.lt(&large));
    assert!(small.le(&small));
    assert!(large.gt(&small));
    assert!(large.ge(&large));
    assert!(!large.lt(&small));
    assert!(small < large);
    let bytes = large.to_be_bytes();
    assert_eq!(bytes[15], 1);
    assert_eq!(bytes.iter().map(|b| *b as u32).sum::<u32>(), 1);
    assert_eq!(U256::from_be_bytes(&bytes), large);
    assert_eq!(U256::from_be_bytes(&[1, 0]), U256::from(256u64));
    assert_eq!(U256::from_be_bytes(&[]), U256::zero());
    assert!(U256::zero().is_zero());
    assert!(!U256::one().is_zero());
    assert_eq!(U256::from_u64(9), U256::from(9u64));
    assert_eq!(U256::from_u128(9), U256::from(9u128));
}
