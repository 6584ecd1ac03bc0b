use algorithms::primes::{sieve_of_eratosthenes_naive, sieve_of_eratosthenes_odds, trial_division};

#[test]
fn test_trial_division() {
    let values: Vec<usize> = vec![0, 1, 2, 3, 6, 100000];
    let num_primes: Vec<usize> = vec![0, 0, 0, 1, 3, 9592];
    for (value, num_prime) in values.into_iter().zip(num_primes) {
        assert_eq!(trial_division(value), num_prime);
    }
}

#[test]
fn test_sieve_of_eratosthenes_naive() {
    let values: Vec<usize> = vec![0, 1, 2, 3, 6, 100000];
    let num_primes: Vec<usize> = vec![0, 0, 0, 1, 3, 9592];
    for (value, num_prime) in values.into_iter().zip(num_primes) {
        assert_eq!(sieve_of_eratosthenes_naive(value), num_prime);
    }
}

#[test]
fn small_prime_counts_exact() {
    assert_eq!(trial_division(10), 4);
    assert_eq!(sieve_of_eratosthenes_naive(10), 4);
    assert_eq!(trial_division(30), 10);
    assert_eq!(sieve_of_eratosthenes_naive(30), 10);
}

#[test]
fn test_sieve_of_eratosthenes_odds() {
    let values: Vec<usize> = vec![0, 1, 2, 3, 6, 100000];
    let num_primes: Vec<usize> = vec![0, 0, 0, 1, 3, 9592];
    for (value, num_prime) in values.into_iter().zip(num_primes) {
        assert_eq!(sieve_of_eratosthenes_odds(value), num_prime);
    }
}

#[test]
fn sieve_variants_agree() {
    for n in 0..200 {
        let a = trial_division(n);
        assert_eq!(sieve_of_eratosthenes_naive(n), a);
        assert_eq!(sieve_of_eratosthenes_odds(n), a);
    }
}
