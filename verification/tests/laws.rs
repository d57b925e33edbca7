use lib::certificate::seed_certificate;
use lib::divisors::{divisors_of, prefix_sums};
use lib::primes::{primes_from_sieve, sieve};

fn is_prefix_sum_of(m: usize, n: usize) -> bool {
    prefix_sums(&divisors_of(m)).contains(&n)
}

#[test]
fn bq_sums_are_divisor_prefix_sums_of_b_times_q() {
    let primes = primes_from_sieve(&sieve(200));
    for b in 1..=30usize {
        let divisors = divisors_of(b);
        let sigma: usize = divisors.iter().sum();
        for &q in primes.iter().filter(|&&q| q > b) {
            for slope in prefix_sums(&divisors) {
                let n = sigma + q * slope;
                assert!(is_prefix_sum_of(b * q, n), "b = {b}, q = {q}, slope = {slope}");
            }
        }
    }
}

#[test]
fn bq_sum_for_six_and_seven() {
    // The divisors of 42 are 1, 2, 3, 6, 7, 14, 21, 42.
    assert_eq!(prefix_sums(&divisors_of(42)), vec![1, 3, 6, 12, 19, 33, 54, 96]);
    assert!(is_prefix_sum_of(42, 12 + 7 * 3));
}

#[test]
fn products_of_window_primes_start_with_their_primes() {
    // Primes above M = 10 and below M^2: composite divisors exceed 100.
    let cases: [&[usize]; 3] = [&[11, 13, 17], &[23, 29, 31, 37], &[89, 97]];
    for primes in cases {
        let m: usize = primes.iter().product();
        let divisors = divisors_of(m);
        assert_eq!(divisors[0], 1);
        assert_eq!(&divisors[1..=primes.len()], primes);
        let n = 1 + primes.iter().sum::<usize>();
        assert!(is_prefix_sum_of(m, n), "primes = {primes:?}");
    }
}

#[test]
fn seed_certificates_give_representations() {
    let table = sieve(660);
    for n in [1594usize, 1595, 1600, 1601, 1650, 1700] {
        let cert = seed_certificate(&table, n, 300, 6, 307).expect("certificate");
        let m: usize = cert.values().iter().product();
        assert!(is_prefix_sum_of(m, n + 1), "n = {n}");
    }
}

#[test]
fn two_and_five_are_not_divisor_prefix_sums() {
    for m in 1..=3000usize {
        let sums = prefix_sums(&divisors_of(m));
        assert!(!sums.contains(&2), "m = {m}");
        assert!(!sums.contains(&5), "m = {m}");
    }
}

#[test]
fn one_three_four_and_seven_are_divisor_prefix_sums() {
    assert!(is_prefix_sum_of(1, 1));
    assert!(is_prefix_sum_of(2, 3));
    assert!(is_prefix_sum_of(3, 4));
    assert!(is_prefix_sum_of(4, 7));
}

#[test]
fn values_that_at_most_double_keep_extending_the_interval() {
    // [1, 2] covers [0, 3]; 3 <= 4, 5 <= 2 * 3 and 8 <= 2 * 5, so the
    // subset sums of [1, 2, 3, 5, 8] cover [0, 19].
    let table = lib::subset_sums::reachable_subset_sums(&[1, 2, 3, 5, 8]);
    assert_eq!(table.len(), 20);
    assert!(table.iter().all(|&f| f == 1));
}

#[test]
fn certificate_values_are_subset_sums_of_the_window() {
    let table = sieve(660);
    let window: Vec<usize> = primes_from_sieve(&table).into_iter().filter(|&p| p > 300 && p <= 600).collect();
    let reachable = lib::subset_sums::reachable_subset_sums(&window);
    for n in 1594..=1620usize {
        if seed_certificate(&table, n, 300, 6, 307).is_some() {
            assert_eq!(reachable[n], 1, "n = {n}");
        }
    }
}

#[test]
fn small_numbers_are_prefix_sums_unless_two_or_five() {
    let mut found = vec![false; 201];
    for m in 1..=10_000usize {
        for s in prefix_sums(&divisors_of(m)) {
            if s <= 200 {
                found[s] = true;
            }
        }
    }
    for n in 1..=200usize {
        assert_eq!(found[n], n != 2 && n != 5, "n = {n}");
    }
}
