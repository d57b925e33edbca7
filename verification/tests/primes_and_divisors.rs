use lib::divisors::{divisors_of, prefix_sums};
use lib::primes::{first_prime_greater_than, next_prime_above, primes_from_sieve, sieve};

#[test]
fn sieve_flags_exactly_the_primes_up_to_thirty() {
    let table = sieve(30);
    assert_eq!(table.len(), 31);
    let primes: Vec<usize> = (0..=30).filter(|&n| table[n] == 1).collect();
    assert_eq!(primes, vec![2, 3, 5, 7, 11, 13, 17, 19, 23, 29]);
    assert!(table.iter().all(|&f| f == 0 || f == 1));
}

#[test]
fn sieve_of_the_smallest_limit() {
    assert_eq!(sieve(2), vec![0, 0, 1]);
    assert_eq!(sieve(4), vec![0, 0, 1, 1, 0]);
}

#[test]
fn sieve_crosses_out_squares_of_primes() {
    let table = sieve(121);
    assert_eq!(table[49], 0);
    assert_eq!(table[121], 0);
    assert_eq!(table[113], 1);
    assert_eq!(table[119], 0);
}

#[test]
fn primes_from_sieve_lists_nonzero_indices_in_order() {
    assert_eq!(primes_from_sieve(&sieve(30)), vec![2, 3, 5, 7, 11, 13, 17, 19, 23, 29]);
    assert_eq!(primes_from_sieve(&[0, 5, 0, 1]), vec![1, 3]);
    assert_eq!(primes_from_sieve(&[]), Vec::<usize>::new());
}

#[test]
fn first_prime_greater_than_counts_primes_at_most_n() {
    let primes = [2, 3, 5, 7, 11];
    assert_eq!(first_prime_greater_than(&primes, 5), 3);
    assert_eq!(first_prime_greater_than(&primes, 6), 3);
    assert_eq!(first_prime_greater_than(&primes, 7), 4);
    assert_eq!(first_prime_greater_than(&primes, 1), 0);
    assert_eq!(first_prime_greater_than(&primes, 11), 5);
    assert_eq!(first_prime_greater_than(&primes, 100), 5);
    assert_eq!(first_prime_greater_than(&[], 3), 0);
}

#[test]
fn next_prime_above_finds_the_next_flag() {
    let table = sieve(30);
    assert_eq!(next_prime_above(&table, 13), Some(17));
    assert_eq!(next_prime_above(&table, 0), Some(2));
    assert_eq!(next_prime_above(&table, 29), None);
    assert_eq!(next_prime_above(&table, 40), None);
}

#[test]
fn divisors_come_sorted() {
    assert_eq!(divisors_of(12), vec![1, 2, 3, 4, 6, 12]);
    assert_eq!(divisors_of(36), vec![1, 2, 3, 4, 6, 9, 12, 18, 36]);
    assert_eq!(divisors_of(1), vec![1]);
    assert_eq!(divisors_of(13), vec![1, 13]);
    assert_eq!(divisors_of(0), Vec::<usize>::new());
}

#[test]
fn divisors_of_every_small_number_match_trial_division() {
    for n in 1..=300usize {
        let expected: Vec<usize> = (1..=n).filter(|d| n % d == 0).collect();
        assert_eq!(divisors_of(n), expected, "n = {n}");
    }
}

#[test]
fn prefix_sums_run_through_the_values() {
    assert_eq!(prefix_sums(&[1, 2, 3]), vec![1, 3, 6]);
    assert_eq!(prefix_sums(&divisors_of(4)), vec![1, 3, 7]);
    assert_eq!(prefix_sums(&[]), Vec::<usize>::new());
}
