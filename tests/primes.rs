use sothr_lib::prime_util::{find_number_of_primes, is_prime, list_of_primes};

#[test]
fn test_example() {
    assert_eq!("test", "test");
}

#[test]
fn test_list_of_primes() {
    let limit = 2_000_000u64;
    let mut primes = Vec::new();
    for i in 2..limit {
        if is_prime(i) {
            primes.push(i);
        }
    }

    // the sieve must return the same list as the brute force test
    let supposed_primes = list_of_primes(limit).expect("Not enough primes?!?!");

    for prime in supposed_primes.iter() {
        assert_eq!((true, prime), (is_prime(*prime), prime));
    }

    if primes.len() > supposed_primes.len() {
        for i in 0..primes.len() {
            assert_eq!(primes[i], supposed_primes[i]);
        }
    }

    assert_eq!(primes.len(), supposed_primes.len());
}

#[test]
fn is_prime_concrete_values() {
    assert_eq!(true, is_prime(1));
    assert_eq!(true, is_prime(5));
    assert_eq!(false, is_prime(6));
    assert_eq!(true, is_prime(6857));
    assert_eq!(false, is_prime(75031));
}

#[test]
fn is_prime_small_and_square_values() {
    assert!(is_prime(0));
    assert!(is_prime(2));
    assert!(is_prime(3));
    assert!(!is_prime(4));
    assert!(!is_prime(9));
    assert!(!is_prime(25));
    assert!(!is_prime(49));
    assert!(!is_prime(121));
    assert!(is_prime(18446744073709551557));
    assert!(!is_prime(18446744073709551615));
    assert!(!is_prime(4294967291 * 3));
}

#[test]
fn list_of_primes_below_twelve() {
    assert_eq!(Some(vec![2, 3, 5, 7, 11]), list_of_primes(12));
}

#[test]
fn list_of_primes_small_bounds() {
    assert_eq!(None, list_of_primes(0));
    assert_eq!(None, list_of_primes(1));
    assert_eq!(Some(vec![]), list_of_primes(2));
    assert_eq!(Some(vec![2]), list_of_primes(3));
    assert_eq!(Some(vec![2, 3]), list_of_primes(4));
    assert_eq!(Some(vec![2, 3]), list_of_primes(5));
    assert_eq!(Some(vec![2, 3, 5, 7, 11, 13]), list_of_primes(14));
    assert_eq!(Some(vec![2, 3, 5, 7, 11, 13, 17, 19, 23]), list_of_primes(25));
    assert_eq!(Some(vec![2, 3, 5, 7, 11, 13, 17, 19, 23]), list_of_primes(26));
}

#[test]
fn list_of_primes_agrees_with_is_prime_on_small_bounds() {
    for b in 2..300u64 {
        let expected: Vec<u64> = (2..b).filter(|&x| is_prime(x)).collect();
        assert_eq!(Some(expected), list_of_primes(b));
    }
}

#[test]
fn find_number_of_primes_five() {
    assert_eq!(Some(vec![2, 3, 5, 7, 11]), find_number_of_primes(5));
}

#[test]
fn find_number_of_primes_edge_counts() {
    assert_eq!(None, find_number_of_primes(0));
    assert_eq!(Some(vec![2]), find_number_of_primes(1));
    assert_eq!(Some(vec![2, 3]), find_number_of_primes(2));
}

#[test]
fn find_number_of_primes_matches_sieve_prefix() {
    let first = find_number_of_primes(1000).unwrap();
    assert_eq!(1000, first.len());
    assert_eq!(7919, first[999]);
    let sieve = list_of_primes(10_000).unwrap();
    assert_eq!(&sieve[..1000], &first[..]);
    assert_eq!(first, find_number_of_primes(1000).unwrap());
}

#[test]
fn repeated_calls_agree() {
    assert_eq!(list_of_primes(1000), list_of_primes(1000));
    assert_eq!(is_prime(75031), is_prime(75031));
}
