//! The shared arithmetic and the 256-bit values under the stable curve.

use amm_core::math::{initial_liquidity, isqrt, pow_decimals, proportional_value, rounding_up_division};
use amm_core::wide::Wide;

#[test]
fn isqrt_exact_values() {
    assert_eq!(isqrt(0), 0);
    assert_eq!(isqrt(1), 1);
    assert_eq!(isqrt(3), 1);
    assert_eq!(isqrt(4), 2);
    assert_eq!(isqrt(1_020_100), 1010);
    assert_eq!(isqrt(10_201_000_000), 101_000);
    assert_eq!(isqrt(u128::MAX), u64::MAX);
}

#[test]
fn initial_liquidity_is_the_root_of_the_product() {
    assert_eq!(initial_liquidity(10201, 100), 1010);
    assert_eq!(initial_liquidity(1_020_100, 10_000), 101_000);
    assert_eq!(initial_liquidity(1000, 1000), 1000);
    assert_eq!(initial_liquidity(0, 5), 0);
}

#[test]
fn proportional_value_floors() {
    assert_eq!(proportional_value(60_000, 1_020_100, 101_000), 606_000);
    assert_eq!(proportional_value(60_000, 10_000, 101_000), 5940);
    assert_eq!(proportional_value(1, 1, 2), 0);
}

#[test]
fn rounding_up_division_values() {
    assert_eq!(rounding_up_division(10, 5), 2);
    assert_eq!(rounding_up_division(11, 5), 3);
    assert_eq!(rounding_up_division(0, 7), 0);
    assert_eq!(rounding_up_division(1, u128::MAX), 1);
}

#[test]
fn pow_decimals_values() {
    assert_eq!(pow_decimals(0), 1);
    assert_eq!(pow_decimals(9), 1_000_000_000);
    assert_eq!(pow_decimals(18), 1_000_000_000_000_000_000);
    assert_eq!(pow_decimals(19), 10_000_000_000_000_000_000);
}

#[test]
fn wide_round_trips_and_compares() {
    let a = Wide::from_u128(u128::MAX);
    assert_eq!(a.to_u128(), Some(u128::MAX));
    let b = Wide::from_u64(7);
    assert_eq!(b.to_u64(), Some(7));
    assert!(b.lt(a));
    assert!(!a.lt(b));
    assert!(b.le(b));
    assert!(Wide::zero().is_zero());
    assert!(!b.is_zero());
}

#[test]
fn wide_checked_add_and_sub() {
    let a = Wide::from_u128(u128::MAX);
    let s = a.checked_add(a).unwrap();
    // (2^128 - 1) * 2 exceeds u128 but not 256 bits
    assert_eq!(s.to_u128(), None);
    assert_eq!(s.checked_sub(a).unwrap().to_u128(), Some(u128::MAX));
    assert_eq!(Wide::from_u64(3).checked_sub(Wide::from_u64(5)), None);
    assert_eq!(
        Wide::from_u64(5).checked_sub(Wide::from_u64(3)).unwrap().to_u64(),
        Some(2)
    );
}
