//! Prices, sizes, amounts and basis points.
use matching_engine::types::numeric::{Amount, Bps, Price, Size};

#[test]
fn price_size_product_fits_in_i128() {
    let product = Price(i64::MAX).mul_size(Size(i64::MAX));
    assert!(product > 0);
    assert!(product < i128::MAX);
}

#[test]
fn checked_add_detects_overflow() {
    assert_eq!(Amount(i64::MAX).checked_add(Amount(1)), None);
}

#[test]
fn checked_sub_detects_underflow() {
    assert_eq!(Amount(i64::MIN).checked_sub(Amount(1)), None);
}

#[test]
fn mul_bps_truncates_toward_zero() {
    assert_eq!(Amount(10_001).mul_bps(Bps(1)), Some(Amount(1)));
    assert_eq!(Amount(-10_001).mul_bps(Bps(1)), Some(Amount(-1)));
}

#[test]
fn mul_bps_ceil_rounds_away_from_zero() {
    assert_eq!(Amount(10_001).mul_bps_ceil(Bps(1)), Some(Amount(2)));
    assert_eq!(Amount(-10_001).mul_bps_ceil(Bps(1)), Some(Amount(-2)));
}

#[test]
fn mul_bps_zero_amount_is_zero() {
    assert_eq!(Amount(0).mul_bps(Bps(500)), Some(Amount(0)));
    assert_eq!(Amount(0).mul_bps_ceil(Bps(500)), Some(Amount(0)));
}

#[test]
fn from_scaled_i128_zero_divisor_returns_none() {
    assert_eq!(Amount::from_scaled_i128(100, 0), None);
}

#[test]
fn from_scaled_i128_overflow_returns_none() {
    assert_eq!(Amount::from_scaled_i128(i128::MAX, 1), None);
}

/// Amounts at the borders and in between.
const AMOUNTS: [i64; 9] =
    [i64::MIN, -10_001, -1, 0, 1, 9_999, 10_000, 1_000_000_007, i64::MAX];

#[test]
fn add_then_sub_roundtrip() {
    for a in AMOUNTS {
        for b in AMOUNTS {
            if let Some(sum) = Amount(a).checked_add(Amount(b)) {
                assert_eq!(sum.checked_sub(Amount(b)), Some(Amount(a)));
            }
        }
    }
}

#[test]
fn mul_bps_bounded_by_amount() {
    for a in AMOUNTS {
        for bps in [0u32, 1, 20, 5_000, 9_999, 10_000] {
            let cut = Amount(a).mul_bps(Bps(bps)).unwrap();
            assert!(cut.raw().unsigned_abs() <= a.unsigned_abs());
        }
    }
}

#[test]
fn mul_bps_ceil_at_least_mul_bps() {
    for a in [0i64, 1, 9_999, 10_001, 1_000_000_007] {
        for bps in [0u32, 1, 20, 5_000, 10_000] {
            let floor = Amount(a).mul_bps(Bps(bps)).unwrap();
            let ceil = Amount(a).mul_bps_ceil(Bps(bps)).unwrap();
            assert!(ceil.raw() >= floor.raw());
            assert!(ceil.raw() - floor.raw() <= 1);
        }
    }
}
