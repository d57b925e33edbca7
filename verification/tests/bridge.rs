use lib::bridge::{
    block_bounds,
    block_json,
    blocks_json,
    bridge_block_bounds,
    lower_prime_sum_by_blocks,
    verify_large_bridge,
    Block,
    BridgeError,
    HELFGOTT_START,
};
use lib::primes::{primes_from_sieve, sieve};

#[test]
fn blocks_grow_by_the_ratio() {
    assert_eq!(block_bounds(2, 100, 3), vec![(2, 6), (6, 18), (18, 54), (54, 100)]);
    assert_eq!(block_bounds(5, 5, 3), Vec::<(u64, u64)>::new());
    assert_eq!(block_bounds(1, 2, 2), vec![(1, 2)]);
}

#[test]
fn bridge_blocks() {
    let bounds = bridge_block_bounds();
    assert_eq!(bounds.len(), 15);
    assert_eq!(bounds[0], (40_000_000, 120_000_000));
    assert_eq!(bounds[14], (191_318_760_000_000, 399_000_000_000_000));
}

#[test]
fn lower_prime_sum_over_small_blocks() {
    let (sum, blocks) = lower_prime_sum_by_blocks(2, 100, 3, &[3, 7, 16, 25], &[1, 3, 7, 16]).unwrap();
    assert_eq!(sum, 676);
    assert_eq!(
        blocks,
        vec![
            Block { a: 2, b: 6, count_lower: 2, contribution: 4 },
            Block { a: 6, b: 18, count_lower: 4, contribution: 24 },
            Block { a: 18, b: 54, count_lower: 9, contribution: 162 },
            Block { a: 54, b: 100, count_lower: 9, contribution: 486 },
        ]
    );
}

#[test]
fn lower_prime_sum_is_below_the_prime_sum() {
    // With the exact prime counts the bound stays below the sum of the primes.
    let primes = primes_from_sieve(&sieve(100));
    let pi = |x: u64| primes.iter().filter(|&&p| p as u64 <= x).count() as i128;
    let bounds = block_bounds(2, 100, 3);
    let lower: Vec<i128> = bounds.iter().map(|&(_, b)| pi(b)).collect();
    let upper: Vec<i128> = bounds.iter().map(|&(a, _)| pi(a)).collect();
    let (sum, _) = lower_prime_sum_by_blocks(2, 100, 3, &lower, &upper).unwrap();
    let prime_sum: usize = primes.iter().filter(|&&p| p > 2).sum();
    assert_eq!(prime_sum, 1058);
    assert!(sum <= prime_sum as u128);
}

#[test]
fn negative_differences_count_as_zero() {
    let (sum, blocks) = lower_prime_sum_by_blocks(2, 6, 3, &[1], &[5]).unwrap();
    assert_eq!(sum, 0);
    assert_eq!(blocks, vec![Block { a: 2, b: 6, count_lower: 0, contribution: 0 }]);
}

#[test]
fn lower_prime_sum_out_of_range() {
    assert_eq!(lower_prime_sum_by_blocks(2, 6, 3, &[i128::MAX], &[-1]), None);
    assert!(lower_prime_sum_by_blocks(2, 6, 3, &[i128::MAX], &[0]).is_some());
    assert_eq!(lower_prime_sum_by_blocks(3, 9, 3, &[i128::MAX], &[0]), None);
    assert_eq!(lower_prime_sum_by_blocks(2, 18, 3, &[i128::MAX, i128::MAX], &[0, 0]), None);
}

#[test]
fn block_as_json() {
    let block = Block { a: 2, b: 6, count_lower: 2, contribution: 4 };
    assert_eq!(
        block_json(&block),
        "{\n      \"a\": 2,\n      \"b\": 6,\n      \"countLower\": 2,\n      \"contribution\": \"4\"\n    }"
    );
    let negative = Block { a: 1, b: 3, count_lower: -5, contribution: 0 };
    assert!(block_json(&negative).contains("\"countLower\": -5,"));
}

#[test]
fn blocks_as_json() {
    let first = Block { a: 2, b: 6, count_lower: 2, contribution: 4 };
    let second = Block { a: 6, b: 18, count_lower: 4, contribution: 24 };
    let json = blocks_json(&[first, second]);
    assert_eq!(json, format!("{},\n    {}", block_json(&first), block_json(&second)));
    assert_eq!(blocks_json(&[]), "");
}

#[test]
fn bridge_with_bounds_that_do_not_match() {
    assert_eq!(
        verify_large_bridge(&[], &[]),
        Err(BridgeError::BoundCountMismatch { blocks: 15, lower: 0, upper: 0 })
    );
}

#[test]
fn bridge_that_stops_too_early() {
    let zeros = vec![0i128; 15];
    let err = verify_large_bridge(&zeros, &zeros).unwrap_err();
    assert_eq!(err, BridgeError::StopsTooEarly { target_u: 156_000_001 });
    assert_eq!(err.message(), "large bridge stops too early: 156000001");
}

#[test]
fn bridge_that_reaches_the_tail() {
    let mut lower = vec![0i128; 15];
    lower[14] = 10_000_000_000_000;
    let upper = vec![0i128; 15];
    let report = verify_large_bridge(&lower, &upper).unwrap();
    assert_eq!(report.lower_sum, 191_318_760_000_000u128 * 10_000_000_000_000);
    assert_eq!(report.target_u, 156_000_000 + report.lower_sum + 1);
    assert!(report.target_u >= HELFGOTT_START);
    assert_eq!(report.block_count, 15);
    assert!(report.first_blocks.starts_with("{\n      \"a\": 40000000,"));
    assert!(report.last_blocks.contains("\"contribution\": \"1913187600000000000000000000\""));
}
