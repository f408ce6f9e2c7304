use maze_mining::u256::{add_over_flow, div_over_flow, mul_over_flow, sub_over_flow};
use maze_mining::u256::U256;

fn n(x: u64) -> U256 {
    U256::from_u64(x)
}

#[test]
fn from_u64_strips_leading_zeros() {
    assert_eq!(n(0).as_slice(), &[] as &[u8]);
    assert_eq!(n(1).as_slice(), &[1u8]);
    assert_eq!(n(256).as_slice(), &[1u8, 0]);
    assert_eq!(n(u64::MAX).as_slice(), &[0xffu8; 8]);
    assert_eq!(n(0x0102_0304).u64(), 0x0102_0304);
}

#[test]
fn add_sub_mul_div_rem() {
    let a = n(1_000_000_007);
    let b = n(998_244_353);
    assert_eq!(a.add(&b).u64(), 1_998_244_360);
    assert_eq!(a.sub(&b).u64(), 1_755_654);
    let p = a.mul(&b);
    assert_eq!(p.to_string(), "998244359987710471");
    assert_eq!(p.div(&b).u64(), 1_000_000_007);
    assert_eq!(p.rem(&a).u64(), 0);
    assert_eq!(n(17).rem(&n(5)).u64(), 2);
    assert_eq!(n(17).div(&n(5)).u64(), 3);
}

#[test]
fn max_and_pow() {
    let max = U256::max();
    assert_eq!(max.as_slice().len(), 32);
    assert_eq!(
        max.to_string(),
        "115792089237316195423570985008687907853269984665640564039457584007913129639935"
    );
    let two = n(2);
    assert_eq!(two.pow(255).add(&two.pow(255).sub(&n(1))).as_slice(), max.as_slice());
    assert_eq!(n(10).pow(0).u64(), 1);
    assert_eq!(n(0).pow(5).u64(), 0);
    assert_eq!(n(3).pow(4).u64(), 81);
}

#[test]
fn compare_and_equals() {
    assert!(n(5).lt(&n(6)));
    assert!(n(256).gt(&n(255)));
    assert!(n(7).le(&n(7)));
    assert!(n(7).ge(&n(7)));
    assert!(n(300).equals(&n(300)));
    assert!(!n(300).equals(&n(301)));
    assert_eq!(n(1 << 40).compare(&n(1 << 39)), std::cmp::Ordering::Greater);
    assert!(U256::zero().is_zero());
    assert!(!U256::one().is_zero());
    assert!(!U256::new(vec![0]).is_zero());
}

#[test]
fn from_str_reads_digits() {
    let pi = U256::from_str("3141592653589793238462643383").unwrap();
    assert_eq!(pi.to_string(), "3141592653589793238462643383");
    assert_eq!(U256::from_str("").unwrap().u64(), 0);
    assert_eq!(U256::from_str("007").unwrap().u64(), 7);
    let x = U256::max().div(&n(2));
    assert!(U256::from_str(&x.to_string()).unwrap().equals(&x));
}

#[test]
fn decode_value_rejects_leading_zero() {
    assert!(U256::decode_value(vec![0, 1]).is_err());
    assert_eq!(U256::decode_value(vec![1, 0]).unwrap().u64(), 256);
    assert!(U256::decode_value(vec![]).unwrap().is_zero());
}

#[test]
fn fits_checks() {
    let max = U256::max();
    assert!(max.fits_add(&U256::zero()));
    assert!(!max.fits_add(&U256::one()));
    assert!(n(u64::MAX).fits_mul(&n(u64::MAX)));
    let big = n(2).pow(128);
    assert!(!big.fits_mul(&big));
    assert!(big.fits_mul(&big.sub(&n(1))));
    assert!(U256::zero().fits_mul(&max));
}

#[test]
fn overflow_checks_of_the_arithmetic() {
    // 2^256 - 1 + 2 wraps to 1
    assert!(add_over_flow(&U256::max(), &n(2), &n(1)));
    assert!(!add_over_flow(&n(3), &n(4), &n(7)));
    assert!(sub_over_flow(&n(3), &n(4), &U256::zero()));
    assert!(!sub_over_flow(&n(4), &n(3), &n(1)));
    // 2^255 * 2 wraps to 0
    assert!(mul_over_flow(&n(2), &n(2).pow(255), &U256::zero()));
    assert!(!mul_over_flow(&n(6), &n(7), &n(42)));
    assert!(!mul_over_flow(&U256::zero(), &n(7), &U256::zero()));
    assert!(div_over_flow(&n(1), &U256::zero(), &U256::zero()));
    assert!(!div_over_flow(&n(1), &n(1), &n(1)));
}
