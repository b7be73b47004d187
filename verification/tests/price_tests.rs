use std::collections::hash_map::DefaultHasher;
use std::hash::{Hash, Hasher};

use matching_engine::price::{Price, PriceError, SCALE};

fn hash_of(p: &Price) -> u64 {
    let mut h = DefaultHasher::new();
    p.hash(&mut h);
    h.finish()
}

#[test]
fn construct_is_deterministic_and_hashes_alike() {
    let a = Price::construct(100000, 1).unwrap();
    let b = Price::construct(100000, 1).unwrap();
    assert_eq!(a, b);
    assert_eq!(hash_of(&a), hash_of(&b));
}

#[test]
fn construct_collapses_representations() {
    // 10000.0, 10000.00 and 10000 are one key.
    let a = Price::construct(100000, 1).unwrap();
    let b = Price::construct(1000000, 2).unwrap();
    let c = Price::construct(10000, 0).unwrap();
    assert_eq!(a, b);
    assert_eq!(b, c);
    assert_eq!(a.integral, 10000);
    assert_eq!(a.fractional, 0);
}

#[test]
fn construct_splits_at_the_scale() {
    // 12345.67 -> whole part 12345, fractional part 0.67 of a unit.
    let p = Price::construct(1234567, 2).unwrap();
    assert_eq!(p.integral, 12345);
    assert_eq!(p.fractional, 67000);
}

#[test]
fn construct_drops_digits_below_the_scale() {
    // 1.2345678 keeps only five fractional digits.
    let p = Price::construct(12345678, 7).unwrap();
    assert_eq!(p.integral, 1);
    assert_eq!(p.fractional, 23456);
    assert!(p.fractional < SCALE);
}

#[test]
fn construct_rejects_negative_input() {
    assert_eq!(Price::construct(-1, 2), Err(PriceError::Negative));
}

#[test]
fn construct_rejects_overflowing_input() {
    assert_eq!(Price::construct(i128::MAX, 0), Err(PriceError::Overflow));
    // The largest whole part still fits.
    let p = Price::construct(u64::MAX as i128, 0).unwrap();
    assert_eq!(p.integral, u64::MAX);
    assert_eq!(p.fractional, 0);
}

#[test]
fn prices_order_lexicographically() {
    let low = Price::construct(999, 2).unwrap();
    let high = Price::construct(1001, 2).unwrap();
    assert!(low.less_than(&high));
    assert!(!high.less_than(&low));
    assert!(!low.less_than(&low));
}
