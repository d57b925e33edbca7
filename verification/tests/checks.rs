use lib::bq::{small_bq_cover, small_bq_misses, BqExample, SmallBqError};
use lib::seed::{large_seed_check, LargeSeedError};
use lib::window::{first_window_check, FirstWindowError};

#[test]
fn divisor_prefix_search_reaches_six_to_one_hundred() {
    let cover = small_bq_cover(6, 100, 10);
    assert_eq!(cover.covered.len(), 101);
    for n in 0..=100usize {
        let expected = if n >= 6 && n != 7 { 1 } else { 0 };
        assert_eq!(cover.covered[n], expected, "n = {n}");
    }
    assert_eq!(cover.marked, 94);
    assert_eq!(cover.max_seen_b, 8);
    assert_eq!(
        cover.examples,
        vec![
            BqExample { n: 6, b: 1, q: 5, slope: 1, sigma: 1 },
            BqExample { n: 8, b: 1, q: 7, slope: 1, sigma: 1 },
            BqExample { n: 12, b: 1, q: 11, slope: 1, sigma: 1 },
            BqExample { n: 14, b: 1, q: 13, slope: 1, sigma: 1 },
            BqExample { n: 18, b: 1, q: 17, slope: 1, sigma: 1 },
        ]
    );
}

#[test]
fn divisor_prefix_search_with_only_b_equal_one() {
    // With B = 1 the numbers found are 1 + q for the primes q > 1.
    let cover = small_bq_cover(6, 30, 1);
    let found: Vec<usize> = (0..=30).filter(|&n| cover.covered[n] == 1).collect();
    assert_eq!(found, vec![6, 8, 12, 14, 18, 20, 24, 30]);
    assert_eq!(cover.marked, 8);
    assert_eq!(cover.max_seen_b, 1);
    let misses = small_bq_misses(&cover.covered, 6, 30, 7);
    assert_eq!(misses, vec![9, 10, 11, 13, 15, 16, 17, 19, 21, 22, 23, 25, 26, 27, 28, 29]);
}

#[test]
fn at_most_twenty_misses_are_reported() {
    let cover = small_bq_cover(6, 200, 2);
    let misses = small_bq_misses(&cover.covered, 6, 200, 7);
    assert_eq!(misses, vec![9, 11, 13, 15, 17, 19, 21, 23, 25, 27, 28, 29, 31, 33, 35, 37, 39, 41, 43, 45]);
    let message = SmallBqError::Misses(misses).message();
    assert!(message.starts_with("small Bq misses: [9, 11, 13,"));
}

#[test]
fn seven_is_the_exception_of_the_search() {
    let cover = small_bq_cover(6, 50, 50);
    assert_eq!(cover.covered[7], 0);
    assert_eq!(small_bq_misses(&cover.covered, 6, 50, 7), Vec::<usize>::new());
    assert_eq!(small_bq_misses(&cover.covered, 6, 50, 8), vec![7]);
}

#[test]
fn nothing_found_below_the_first() {
    let cover = small_bq_cover(20, 40, 10);
    assert!((0..20).all(|n| cover.covered[n] == 0));
}

#[test]
fn first_window_on_small_primes() {
    let report = first_window_check(10, 99, 9, 63, 158).unwrap();
    assert_eq!(report.prime_count, 21);
    assert_eq!(report.largest_prime, 97);
    assert_eq!(report.seed_first, 11);
    assert_eq!(report.seed_last, 41);
    assert_eq!((report.longest_start, report.longest_end), (63, 158));
    assert_eq!(report.u, 980);
}

#[test]
fn first_window_with_an_extension_gap() {
    let err = first_window_check(10, 99, 8, 76, 104).unwrap_err();
    assert_eq!(err, FirstWindowError::ExtensionGap { p: 41, c: 76, u: 104 });
    assert_eq!(err.message(), "extension gap at p=41, interval=[76,104]");
}

#[test]
fn first_window_with_an_unreachable_seed_sum() {
    let err = first_window_check(10, 99, 8, 70, 104).unwrap_err();
    assert_eq!(err, FirstWindowError::SeedSumNotReachable { n: 75 });
    assert_eq!(err.message(), "seed sum 75 is not reachable");
}

#[test]
fn first_window_beyond_the_seed_table() {
    let err = first_window_check(10, 99, 2, 0, 30).unwrap_err();
    assert_eq!(err, FirstWindowError::SeedSumNotReachable { n: 1 });
}

#[test]
fn first_window_too_wide() {
    let err = first_window_check(10, 100, 9, 63, 158).unwrap_err();
    assert_eq!(err, FirstWindowError::WindowTooWide { x: 100, m_squared: 100 });
    assert_eq!(err.message(), "need X < M^2, got 100 >= 100");
}

#[test]
fn first_window_with_too_few_primes() {
    let err = first_window_check(10, 99, 22, 63, 158).unwrap_err();
    assert_eq!(err, FirstWindowError::NotEnoughPrimes { found: 21, needed: 22 });
}

#[test]
fn large_seed_on_a_small_window() {
    let report = large_seed_check(300, 6, 1594, 2321, 660).unwrap();
    assert_eq!(report.p0, 307);
    assert_eq!(report.next_after_window, 601);
    assert_eq!(report.example_n, 1594);
    assert_eq!(report.example_primes, "[317, 479, 307, 491]");
}

#[test]
fn large_seed_with_misses() {
    let err = large_seed_check(300, 6, 1570, 1600, 660).unwrap_err();
    assert_eq!(err, LargeSeedError::Misses(vec![1571, 1573, 1575, 1577, 1581, 1583, 1587, 1589, 1591, 1593]));
    assert_eq!(err.message(), "large seed misses: [1571, 1573, 1575, 1577, 1581, 1583, 1587, 1589, 1591, 1593]");
}

#[test]
fn large_seed_reports_twenty_misses_at_most() {
    let err = large_seed_check(300, 6, 661, 1000, 660).unwrap_err();
    assert_eq!(err, LargeSeedError::Misses((661..=680).collect()));
}

#[test]
fn large_seed_too_short() {
    let err = large_seed_check(100, 10, 550, 757, 260).unwrap_err();
    assert_eq!(err, LargeSeedError::TooShort);
    assert_eq!(err.message(), "large seed too short to extend");
}

#[test]
fn large_seed_without_a_prime_above_the_window() {
    let err = large_seed_check(10, 2, 30, 40, 20).unwrap_err();
    assert_eq!(err, LargeSeedError::NoPrimeAbove { n: 20 });
    assert_eq!(err.message(), "sieve too small to find prime above 20");
}
