use num::BigUint;
use sothr_lib::big_natural::BigNatural;
use sothr_lib::number_util::{factorial, factors_for_number};

#[test]
fn factors_of_small_numbers() {
    assert_eq!(vec![1u64], factors_for_number(1u64));
    assert_eq!(vec![1, 2], factors_for_number(2u64));
    assert_eq!(vec![1, 3], factors_for_number(3u64));
    assert_eq!(vec![1, 2, 4], factors_for_number(4u64));
    assert_eq!(vec![1, 3, 5, 15], factors_for_number(15u64));
    assert_eq!(vec![1, 2, 3, 4, 6, 12], factors_for_number(12u32));
    assert_eq!(vec![1, 2, 4, 8, 16], factors_for_number(16i32));
    assert_eq!(vec![1, 97], factors_for_number(97i64));
}

#[test]
fn factors_are_symmetric_divisors() {
    for m in 1..500u64 {
        let f = factors_for_number(m);
        for w in f.windows(2) {
            assert!(w[0] < w[1]);
        }
        for d in f.iter() {
            assert_eq!(0, m % d);
            assert!(f.contains(&(m / d)));
        }
        let brute: Vec<u64> = (1..=m).filter(|d| m % d == 0).collect();
        assert_eq!(brute, f);
    }
}

#[test]
fn factors_of_big_natural() {
    let f = factors_for_number(BigNatural::from_u64(36));
    let values: Vec<BigUint> = f.iter().map(|x| BigUint::new(x.to_digits())).collect();
    let expected: Vec<BigUint> = [1u32, 2, 3, 4, 6, 9, 12, 18, 36].iter().map(|&x| BigUint::from(x)).collect();
    assert_eq!(expected, values);
}

#[test]
fn factorial_of_nine_in_each_type() {
    assert_eq!(362880u32, factorial(9u32));
    assert_eq!(362880i32, factorial(9i32));
    assert_eq!(362880u64, factorial(9u64));
    assert_eq!(362880i64, factorial(9i64));
    let big = factorial(BigNatural::from_u64(9));
    assert_eq!(BigUint::from(362880u32), BigUint::new(big.to_digits()));
}

#[test]
fn factorial_of_zero_and_one() {
    assert_eq!(1u64, factorial(0u64));
    assert_eq!(1u64, factorial(1u64));
    assert_eq!(2u64, factorial(2u64));
    assert_eq!(2432902008176640000u64, factorial(20u64));
}

#[test]
fn factorial_beyond_u64() {
    let big = factorial(BigNatural::from_u64(30));
    let mut expected = BigUint::from(1u32);
    for k in 1..=30u32 {
        expected *= BigUint::from(k);
    }
    assert_eq!(expected, BigUint::new(big.to_digits()));
}

#[test]
fn big_natural_from_u64_round_trip() {
    let x = BigNatural::from_u64(u64::MAX);
    assert_eq!(BigUint::from(u64::MAX), BigUint::new(x.to_digits()));
}
