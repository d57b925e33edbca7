use crate::ordered::{int_sum, lemma_int_sum_concat, lemma_ordered_filter_members, lemma_ordered_filter_split};
use crate::primes::{prime_pred, primes_between};
use crate::representation::{is_divisor_prefix_sum, lemma_window_subset_sum_represented};
use crate::seed::{LARGE_FIRST, LARGE_LAST, LARGE_M, LARGE_SIEVE_EXTRA};
use crate::subset_sums::{is_subset_sum, lemma_doubling_extension};
use crate::text::{decimal, push_decimal, push_signed_decimal, signed_decimal};
use vstd::prelude::*;
use vstd::string::*;

verus! {

/// The upper end `X` of the bridge's prime range `(2 * M, X]`.
pub const BRIDGE_X: u64 = 399_000_000_000_000;

/// The first prime after `2 * M`, which the seed interval must reach past.
pub const BRIDGE_NEXT_PRIME_AFTER_2M: usize = 40_000_003;

/// The ratio of consecutive block ends.
pub const BRIDGE_BLOCK_RATIO: u64 = 3;

/// Where the tail argument takes over: every odd `N` from here on is a sum
/// of three distinct odd primes of the required size.
pub const HELFGOTT_START: u128 = 1_000_000_000_000_000_000_100_000_000;

/// The end of the block that starts at `a`: `min(last_b, a * ratio)`.
pub open spec fn next_block_end(a: int, last_b: int, ratio: int) -> int {
    if a * ratio < last_b {
        a * ratio
    } else {
        last_b
    }
}

/// The blocks `(a, b)` that cover `[a, last_b]`: each ends at
/// `min(last_b, a * ratio)` and the next starts there.
pub open spec fn block_bounds_from(a: int, last_b: int, ratio: int) -> Seq<(int, int)>
    decreases last_b - a,
{
    if a >= last_b || a < 1 || ratio < 2 {
        Seq::empty()
    } else {
        proof {
            assert(a * ratio >= 2 * a) by (nonlinear_arith)
                requires
                    a >= 1,
                    ratio >= 2,
            ;
        }
        seq![(a, next_block_end(a, last_b, ratio))] + block_bounds_from(
            next_block_end(a, last_b, ratio),
            last_b,
            ratio,
        )
    }
}

/// One block of the lower bound on the prime sum.
#[derive(Clone, Copy, Debug, PartialEq, Eq)]
pub struct Block {
    pub a: u64,
    pub b: u64,
    pub count_lower: i128,
    pub contribution: u128,
}

/// The lower bound on the number of primes of a block: the lower bound at
/// its end less the upper bound at its start, and 0 when that is negative.
pub open spec fn count_lower(pi_lower_at_b: int, pi_upper_at_a: int) -> int {
    if pi_lower_at_b - pi_upper_at_a > 0 {
        pi_lower_at_b - pi_upper_at_a
    } else {
        0
    }
}

/// The sum of `a_i * count_lower_i` over the first `k` blocks.
pub open spec fn lower_total(bounds: Seq<(int, int)>, lower: Seq<i128>, upper: Seq<i128>, k: int) -> int
    decreases k,
{
    if k <= 0 {
        0
    } else {
        lower_total(bounds, lower, upper, k - 1) + bounds[k - 1].0 * count_lower(
            lower[k - 1] as int,
            upper[k - 1] as int,
        )
    }
}

/// Every difference of bounds fits in an `i128`.
pub open spec fn differences_fit(lower: Seq<i128>, upper: Seq<i128>) -> bool {
    forall|i: int|
        0 <= i < lower.len() ==> i128::MIN <= #[trigger] lower[i] - upper[i] <= i128::MAX
}

/// The block `(a, b)` with its count and contribution.
pub open spec fn expected_block(bound: (int, int), lower: i128, upper: i128) -> Block {
    Block {
        a: bound.0 as u64,
        b: bound.1 as u64,
        count_lower: count_lower(lower as int, upper as int) as i128,
        contribution: (bound.0 * count_lower(lower as int, upper as int)) as u128,
    }
}

/// Facts on the blocks: they start at `a`, each lies inside `[a, last_b]`,
/// starts where the previous one ended, and ends at
/// `min(last_b, start * ratio)`.
pub proof fn lemma_block_bounds_shape(a: int, last_b: int, ratio: int)
    ensures
        forall|i: int|
            0 <= i < block_bounds_from(a, last_b, ratio).len() ==> {
                let (s, e) = #[trigger] block_bounds_from(a, last_b, ratio)[i];
                &&& a <= s < e <= last_b
                &&& s >= 1
                &&& e == next_block_end(s, last_b, ratio)
            },
        block_bounds_from(a, last_b, ratio).len() > 0 ==> block_bounds_from(a, last_b, ratio)[0].0
            == a,
        block_bounds_from(a, last_b, ratio).len() > 0 ==> block_bounds_from(a, last_b, ratio).last().1
            == last_b,
        block_bounds_from(a, last_b, ratio).len() == 0 ==> (a >= last_b || a < 1 || ratio < 2),
        forall|i: int|
            0 <= i < block_bounds_from(a, last_b, ratio).len() - 1 ==> (#[trigger] block_bounds_from(
                a,
                last_b,
                ratio,
            )[i]).1 == block_bounds_from(a, last_b, ratio)[i + 1].0,
    decreases last_b - a,
{
    if !(a >= last_b || a < 1 || ratio < 2) {
        let b = next_block_end(a, last_b, ratio);
        assert(a * ratio >= 2 * a) by (nonlinear_arith)
            requires
                a >= 1,
                ratio >= 2,
        ;
        lemma_block_bounds_shape(b, last_b, ratio);
        let rest = block_bounds_from(b, last_b, ratio);
        assert forall|i: int| 0 <= i < block_bounds_from(a, last_b, ratio).len() implies {
            let (s, e) = #[trigger] block_bounds_from(a, last_b, ratio)[i];
            &&& a <= s < e <= last_b
            &&& s >= 1
            &&& e == next_block_end(s, last_b, ratio)
        } by {
            if i > 0 {
                assert(block_bounds_from(a, last_b, ratio)[i] == rest[i - 1]);
            }
        }
        let all = block_bounds_from(a, last_b, ratio);
        assert forall|i: int| 0 <= i < all.len() - 1 implies (#[trigger] all[i]).1 == all[i + 1].0 by {
            assert(all[i + 1] == rest[i]);
            if i > 0 {
                assert(all[i] == rest[i - 1]);
            } else {
                if rest.len() > 0 {
                    assert(rest[0].0 == b);
                }
            }
        }
        if rest.len() == 0 {
            assert(b >= last_b);
        } else {
            assert(all.last() == rest.last());
        }
    }
}

/// The blocks that cover `[first_a, last_b]`, each `(a, min(last_b, a *
/// ratio))`, the next starting where the previous one ended.
pub fn block_bounds(first_a: u64, last_b: u64, ratio: u64) -> (bounds: Vec<(u64, u64)>)
    requires
        first_a >= 1,
        ratio >= 2,
    ensures
        bounds@.map_values(|p: (u64, u64)| (p.0 as int, p.1 as int)) == block_bounds_from(
            first_a as int,
            last_b as int,
            ratio as int,
        ),
        bounds.len() > 0 <==> first_a < last_b,
        bounds.len() > 0 ==> bounds[0].0 == first_a && bounds[bounds.len() - 1].1 == last_b,
        forall|i: int|
            0 <= i < bounds.len() ==> (#[trigger] bounds[i]).0 < bounds[i].1 && bounds[i].1 == (if bounds[i].0
                * ratio < last_b {
                bounds[i].0 * ratio
            } else {
                last_b as int
            }),
        forall|i: int| 0 <= i < bounds.len() - 1 ==> (#[trigger] bounds[i]).1 == bounds[i + 1].0,
{
    let mut bounds: Vec<(u64, u64)> = Vec::new();
    let mut a = first_a;
    while a < last_b
        invariant
            1 <= a,
            ratio >= 2,
            first_a >= 1,
            bounds@.map_values(|p: (u64, u64)| (p.0 as int, p.1 as int)) + block_bounds_from(
                a as int,
                last_b as int,
                ratio as int,
            ) == block_bounds_from(first_a as int, last_b as int, ratio as int),
        decreases last_b - a,
    {
        let fits = a <= last_b / ratio;
        proof {
            vstd::arithmetic::div_mod::lemma_fundamental_div_mod(last_b as int, ratio as int);
            if a <= last_b / ratio {
                assert(a * ratio <= (last_b / ratio) * ratio) by (nonlinear_arith)
                    requires
                        a <= last_b / ratio,
                        ratio >= 2,
                ;
                assert((last_b / ratio) * ratio <= last_b) by (nonlinear_arith)
                    requires
                        last_b == ratio * (last_b / ratio) + last_b % ratio,
                        last_b % ratio >= 0,
                ;
            } else {
                assert(a * ratio >= (last_b / ratio + 1) * ratio) by (nonlinear_arith)
                    requires
                        a >= last_b / ratio + 1,
                        ratio >= 2,
                ;
                assert((last_b / ratio + 1) * ratio > last_b) by (nonlinear_arith)
                    requires
                        last_b == ratio * (last_b / ratio) + last_b % ratio,
                        last_b % ratio < ratio,
                ;
            }
            assert(a * ratio >= 2 * a) by (nonlinear_arith)
                requires
                    a >= 1,
                    ratio >= 2,
            ;
        }
        let b = if fits {
            a * ratio
        } else {
            last_b
        };
        assert(b == next_block_end(a as int, last_b as int, ratio as int));
        let ghost before = bounds@;
        bounds.push((a, b));
        proof {
            assert(bounds@.map_values(|p: (u64, u64)| (p.0 as int, p.1 as int)) =~= before.map_values(
                |p: (u64, u64)| (p.0 as int, p.1 as int),
            ).push((a as int, b as int)));
            assert(block_bounds_from(a as int, last_b as int, ratio as int) =~= seq![
                (a as int, b as int),
            ] + block_bounds_from(b as int, last_b as int, ratio as int));
        }
        a = b;
    }
    proof {
        assert(block_bounds_from(a as int, last_b as int, ratio as int) =~= Seq::<(int, int)>::empty());
        assert(bounds@.map_values(|p: (u64, u64)| (p.0 as int, p.1 as int)) + Seq::<(int, int)>::empty()
            =~= bounds@.map_values(|p: (u64, u64)| (p.0 as int, p.1 as int)));
        lemma_machine_blocks(bounds@, first_a, last_b, ratio);
    }
    bounds
}

/// The blocks are geometric: there is one exactly when `first_a < last_b`;
/// the first starts at `first_a`, the last ends at `last_b`, each next one
/// starts where the one before ended, and each block `(a, b)` ends at
/// `min(last_b, a * ratio)`, after its start.
pub proof fn lemma_blocks_geometric(first_a: int, last_b: int, ratio: int)
    requires
        first_a >= 1,
        ratio >= 2,
    ensures
        block_bounds_from(first_a, last_b, ratio).len() > 0 <==> first_a < last_b,
        block_bounds_from(first_a, last_b, ratio).len() > 0 ==> block_bounds_from(
            first_a,
            last_b,
            ratio,
        )[0].0 == first_a && block_bounds_from(first_a, last_b, ratio).last().1 == last_b,
        forall|i: int|
            0 <= i < block_bounds_from(first_a, last_b, ratio).len() ==> {
                let (a, b) = #[trigger] block_bounds_from(first_a, last_b, ratio)[i];
                &&& a < b
                &&& b == (if a * ratio < last_b {
                    a * ratio
                } else {
                    last_b
                })
            },
        forall|i: int|
            0 <= i < block_bounds_from(first_a, last_b, ratio).len() - 1 ==> (#[trigger] block_bounds_from(
                first_a,
                last_b,
                ratio,
            )[i]).1 == block_bounds_from(first_a, last_b, ratio)[i + 1].0,
{
    lemma_block_bounds_shape(first_a, last_b, ratio);
    if first_a < last_b {
        assert(block_bounds_from(first_a, last_b, ratio).len() > 0);
    }
}

/// Machine blocks that match `block_bounds_from` have its shape.
proof fn lemma_machine_blocks(bounds: Seq<(u64, u64)>, first_a: u64, last_b: u64, ratio: u64)
    requires
        first_a >= 1,
        ratio >= 2,
        bounds.map_values(|p: (u64, u64)| (p.0 as int, p.1 as int)) == block_bounds_from(
            first_a as int,
            last_b as int,
            ratio as int,
        ),
    ensures
        bounds.len() > 0 <==> first_a < last_b,
        bounds.len() > 0 ==> bounds[0].0 == first_a && bounds[bounds.len() - 1].1 == last_b,
        forall|i: int|
            0 <= i < bounds.len() ==> (#[trigger] bounds[i]).0 < bounds[i].1 && bounds[i].1 == (if bounds[i].0
                * ratio < last_b {
                bounds[i].0 * ratio
            } else {
                last_b as int
            }),
        forall|i: int| 0 <= i < bounds.len() - 1 ==> (#[trigger] bounds[i]).1 == bounds[i + 1].0,
{
    lemma_blocks_geometric(first_a as int, last_b as int, ratio as int);
    let spec_bounds = block_bounds_from(first_a as int, last_b as int, ratio as int);
    let mapped = bounds.map_values(|p: (u64, u64)| (p.0 as int, p.1 as int));
    assert forall|i: int| 0 <= i < bounds.len() implies #[trigger] spec_bounds[i] == (
        bounds[i].0 as int,
        bounds[i].1 as int,
    ) by {
        assert(mapped[i] == (bounds[i].0 as int, bounds[i].1 as int));
    }
    assert forall|i: int| 0 <= i < bounds.len() implies (#[trigger] bounds[i]).0 < bounds[i].1 && bounds[i].1
        == (if bounds[i].0 * ratio < last_b {
        bounds[i].0 * ratio
    } else {
        last_b as int
    }) by {
        assert(spec_bounds[i] == (bounds[i].0 as int, bounds[i].1 as int));
        let (a, b) = spec_bounds[i];
        assert(b == (if a * ratio < last_b {
            a * ratio
        } else {
            last_b as int
        }));
    }
    if bounds.len() > 0 {
        assert(spec_bounds[0] == (bounds[0].0 as int, bounds[0].1 as int));
        assert(spec_bounds[bounds.len() - 1] == (
            bounds[bounds.len() - 1].0 as int,
            bounds[bounds.len() - 1].1 as int,
        ));
    }
    assert forall|i: int| 0 <= i < bounds.len() - 1 implies (#[trigger] bounds[i]).1 == bounds[i + 1].0 by {
        assert(spec_bounds[i] == (bounds[i].0 as int, bounds[i].1 as int));
        assert(spec_bounds[i + 1] == (bounds[i + 1].0 as int, bounds[i + 1].1 as int));
    }
}

/// The sum over blocks is monotone in the number of blocks taken, the
/// terms being nonnegative.
proof fn lemma_lower_total_monotone(
    bounds: Seq<(int, int)>,
    lower: Seq<i128>,
    upper: Seq<i128>,
    j: int,
    k: int,
)
    requires
        0 <= j <= k,
        forall|i: int| 0 <= i < k ==> (#[trigger] bounds[i]).0 >= 1,
    ensures
        lower_total(bounds, lower, upper, j) <= lower_total(bounds, lower, upper, k),
    decreases k - j,
{
    if j < k {
        lemma_lower_total_monotone(bounds, lower, upper, j, k - 1);
        let c = count_lower(lower[k - 1] as int, upper[k - 1] as int);
        assert(bounds[k - 1].0 * c >= 0) by (nonlinear_arith)
            requires
                bounds[k - 1].0 >= 1,
                c >= 0,
        ;
    }
}

/// The lower bound on the sum of the primes of `(first_a, last_b]`, block by
/// block: each block `(a, b)` contributes `a` times a lower bound on the
/// number of its primes, `max(0, pi_lower_at_b[i] - pi_upper_at_a[i])`.
/// `None` when a difference of bounds leaves the `i128` range or the sum
/// leaves the `u128` range.
pub fn lower_prime_sum_by_blocks(
    first_a: u64,
    last_b: u64,
    ratio: u64,
    pi_lower_at_b: &[i128],
    pi_upper_at_a: &[i128],
) -> (r: Option<(u128, Vec<Block>)>)
    requires
        first_a >= 1,
        ratio >= 2,
        pi_lower_at_b.len() == block_bounds_from(first_a as int, last_b as int, ratio as int).len(),
        pi_upper_at_a.len() == pi_lower_at_b.len(),
    ensures
        ({
            let bounds = block_bounds_from(first_a as int, last_b as int, ratio as int);
            let n = bounds.len() as int;
            &&& r is Some <==> differences_fit(pi_lower_at_b@, pi_upper_at_a@) && lower_total(
                bounds,
                pi_lower_at_b@,
                pi_upper_at_a@,
                n,
            ) <= u128::MAX
            &&& r matches Some((sum, blocks)) ==> sum == lower_total(
                bounds,
                pi_lower_at_b@,
                pi_upper_at_a@,
                n,
            ) && blocks.len() == n && forall|i: int|
                0 <= i < n ==> #[trigger] blocks[i] == expected_block(
                    bounds[i],
                    pi_lower_at_b[i],
                    pi_upper_at_a[i],
                )
        }),
{
    let bounds = block_bounds(first_a, last_b, ratio);
    let ghost spec_bounds = block_bounds_from(first_a as int, last_b as int, ratio as int);
    let ghost n = spec_bounds.len() as int;
    proof {
        lemma_block_bounds_shape(first_a as int, last_b as int, ratio as int);
        assert(bounds.len() == n);
    }
    let mut lower_sum: u128 = 0;
    let mut blocks: Vec<Block> = Vec::new();
    let mut i: usize = 0;
    while i < bounds.len()
        invariant
            i <= bounds.len() == n,
            n == spec_bounds.len(),
            spec_bounds == block_bounds_from(first_a as int, last_b as int, ratio as int),
            pi_lower_at_b.len() == n,
            pi_upper_at_a.len() == n,
            bounds@.map_values(|p: (u64, u64)| (p.0 as int, p.1 as int)) == spec_bounds,
            forall|k: int| 0 <= k < n ==> (#[trigger] spec_bounds[k]).0 >= 1,
            forall|k: int| 0 <= k < i ==> i128::MIN <= #[trigger] pi_lower_at_b[k] - pi_upper_at_a[k] <= i128::MAX,
            lower_sum == lower_total(spec_bounds, pi_lower_at_b@, pi_upper_at_a@, i as int),
            blocks.len() == i,
            forall|k: int|
                0 <= k < i ==> #[trigger] blocks[k] == expected_block(
                    spec_bounds[k],
                    pi_lower_at_b[k],
                    pi_upper_at_a[k],
                ),
        decreases n - i,
    {
        let (a, b) = bounds[i];
        let lower = pi_lower_at_b[i];
        let upper = pi_upper_at_a[i];
        proof {
            assert(spec_bounds[i as int] == (a as int, b as int));
        }
        if (upper > 0 && lower < i128::MIN + upper) || (upper < 0 && lower > i128::MAX + upper) {
            return None;
        }
        let diff = lower - upper;
        let count: i128 = if diff > 0 {
            diff
        } else {
            0
        };
        let count_u = count as u128;
        proof {
            assert(count as int == count_lower(lower as int, upper as int));
            assert(lower_total(spec_bounds, pi_lower_at_b@, pi_upper_at_a@, i + 1) == lower_sum + (
            a as int) * (count_u as int));
        }
        if count_u > 0 && (a as u128) > u128::MAX / count_u {
            proof {
                assert((a as int) * (count_u as int) > u128::MAX) by (nonlinear_arith)
                    requires
                        count_u > 0,
                        a > u128::MAX / count_u,
                ;
                lemma_lower_total_monotone(spec_bounds, pi_lower_at_b@, pi_upper_at_a@, i + 1, n);
                lemma_lower_total_monotone(spec_bounds, pi_lower_at_b@, pi_upper_at_a@, i as int, i as int);
                assert(lower_total(spec_bounds, pi_lower_at_b@, pi_upper_at_a@, i + 1) > u128::MAX);
                assert(lower_total(spec_bounds, pi_lower_at_b@, pi_upper_at_a@, n) > u128::MAX);
            }
            return None;
        }
        proof {
            if count_u > 0 {
                assert((a as int) * (count_u as int) <= u128::MAX) by (nonlinear_arith)
                    requires
                        count_u > 0,
                        a <= u128::MAX / count_u,
                ;
            } else {
                assert((a as int) * (count_u as int) == 0) by (nonlinear_arith)
                    requires
                        count_u == 0,
                ;
            }
        }
        let contribution = (a as u128) * count_u;
        if contribution > u128::MAX - lower_sum {
            proof {
                lemma_lower_total_monotone(spec_bounds, pi_lower_at_b@, pi_upper_at_a@, i + 1, n);
                assert(lower_total(spec_bounds, pi_lower_at_b@, pi_upper_at_a@, i + 1) > u128::MAX);
                assert(lower_total(spec_bounds, pi_lower_at_b@, pi_upper_at_a@, n) > u128::MAX);
            }
            return None;
        }
        lower_sum = lower_sum + contribution;
        blocks.push(Block { a, b, count_lower: count, contribution });
        proof {
            assert(blocks[i as int] == expected_block(
                spec_bounds[i as int],
                pi_lower_at_b[i as int],
                pi_upper_at_a[i as int],
            ));
        }
        i = i + 1;
    }
    Some((lower_sum, blocks))
}

/// The number of primes at most `x`.
pub open spec fn prime_count(x: int) -> int {
    primes_between(0, x).len() as int
}

/// A sequence whose entries are all at least `a` sums to at least
/// `a` times its length.
pub proof fn lemma_int_sum_at_least(s: Seq<int>, a: int)
    requires
        forall|i: int| 0 <= i < s.len() ==> #[trigger] s[i] >= a,
    ensures
        int_sum(s) >= a * s.len(),
    decreases s.len(),
{
    if s.len() > 0 {
        lemma_int_sum_at_least(s.drop_last(), a);
        assert(a * s.len() == a * s.drop_last().len() + a) by (nonlinear_arith)
            requires
                s.drop_last().len() + 1 == s.len(),
        ;
    }
}

/// One block: `a` times a lower bound on the number of primes of `(a, b]`
/// is at most the sum of those primes.
pub proof fn lemma_block_contribution(a: int, b: int, lower: int, upper: int)
    requires
        1 <= a <= b,
        lower <= prime_count(b),
        upper >= prime_count(a),
    ensures
        a * count_lower(lower, upper) <= int_sum(primes_between(a, b)),
{
    lemma_ordered_filter_split(0, a, b, prime_pred());
    let block = primes_between(a, b);
    lemma_ordered_filter_members(a, b, prime_pred());
    assert(prime_count(b) == prime_count(a) + block.len());
    let c = count_lower(lower, upper);
    assert(c <= block.len());
    assert forall|i: int| 0 <= i < block.len() implies #[trigger] block[i] >= a by {}
    lemma_int_sum_at_least(block, a);
    assert(a * c <= a * block.len()) by (nonlinear_arith)
        requires
            a >= 1,
            0 <= c <= block.len(),
    ;
}

/// Given bounds with `lower[i] <= pi(b_i)` and `upper[i] >= pi(a_i)`, the
/// first `k` blocks' lower bound is at most the sum of the primes of
/// `(first_a, end]`, `end` being where the `k`-th block ends.
proof fn lemma_lower_total_prefix(
    first_a: int,
    last_b: int,
    ratio: int,
    lower: Seq<i128>,
    upper: Seq<i128>,
    k: int,
)
    requires
        first_a >= 1,
        ratio >= 2,
        0 <= k <= block_bounds_from(first_a, last_b, ratio).len(),
        lower.len() == block_bounds_from(first_a, last_b, ratio).len(),
        upper.len() == lower.len(),
        forall|i: int|
            0 <= i < lower.len() ==> #[trigger] lower[i] <= prime_count(
                block_bounds_from(first_a, last_b, ratio)[i].1,
            ) && upper[i] >= prime_count(block_bounds_from(first_a, last_b, ratio)[i].0),
    ensures
        lower_total(block_bounds_from(first_a, last_b, ratio), lower, upper, k) <= int_sum(
            primes_between(
                first_a,
                if k == 0 {
                    first_a
                } else {
                    block_bounds_from(first_a, last_b, ratio)[k - 1].1
                },
            ),
        ),
    decreases k,
{
    let bounds = block_bounds_from(first_a, last_b, ratio);
    lemma_block_bounds_shape(first_a, last_b, ratio);
    if k == 0 {
        assert(primes_between(first_a, first_a) =~= Seq::<int>::empty());
    } else {
        lemma_lower_total_prefix(first_a, last_b, ratio, lower, upper, k - 1);
        let (a, b) = bounds[k - 1];
        let start = if k - 1 == 0 {
            first_a
        } else {
            bounds[k - 2].1
        };
        assert(start == a);
        lemma_block_contribution(a, b, lower[k - 1] as int, upper[k - 1] as int);
        lemma_ordered_filter_split(first_a, a, b, prime_pred());
        lemma_int_sum_concat(primes_between(first_a, a), primes_between(a, b));
    }
}

/// The bridge's lower bound is sound: when every `pi_lower_at_b[i]` is at
/// most the number of primes up to the end of block `i` and every
/// `pi_upper_at_a[i]` at least the number of primes up to its start, the
/// sum of the blocks' contributions is at most the sum of the primes of
/// `(first_a, last_b]`.
pub proof fn lemma_lower_total_bounds_prime_sum(
    first_a: int,
    last_b: int,
    ratio: int,
    lower: Seq<i128>,
    upper: Seq<i128>,
)
    requires
        first_a >= 1,
        ratio >= 2,
        lower.len() == block_bounds_from(first_a, last_b, ratio).len(),
        upper.len() == lower.len(),
        forall|i: int|
            0 <= i < lower.len() ==> #[trigger] lower[i] <= prime_count(
                block_bounds_from(first_a, last_b, ratio)[i].1,
            ) && upper[i] >= prime_count(block_bounds_from(first_a, last_b, ratio)[i].0),
    ensures
        lower_total(
            block_bounds_from(first_a, last_b, ratio),
            lower,
            upper,
            block_bounds_from(first_a, last_b, ratio).len() as int,
        ) <= int_sum(primes_between(first_a, last_b)),
{
    let n = block_bounds_from(first_a, last_b, ratio).len() as int;
    lemma_block_bounds_shape(first_a, last_b, ratio);
    lemma_lower_total_prefix(first_a, last_b, ratio, lower, upper, n);
    if n == 0 {
        assert(primes_between(first_a, last_b) =~= Seq::<int>::empty());
    }
}

/// The bridge argument. Let the subset sums of the primes of `(m, 2 * m]`
/// cover `[c, u]`, let the first prime of `(2 * m, x]` be at most the width
/// `u - c + 1`, and let each prime of `(2 * m, x]` be at most twice the one
/// before it, as Bertrand's postulate gives. Adjoining those primes one by
/// one extends the interval, and with `x < m * m` every subset sum `s` of
/// the primes of `(m, x]` makes `s + 1` represented. So every `n` of
/// `[c + 1, u + bound + 1]` is represented, for any `bound` at most the sum
/// of the primes of `(2 * m, x]`.
pub proof fn lemma_bridge_represented(m: int, x: int, c: int, u: int, bound: int)
    requires
        m >= 1,
        2 * m <= x < m * m,
        c <= u,
        forall|n: int| c <= n <= u ==> #[trigger] is_subset_sum(primes_between(m, 2 * m), n),
        primes_between(2 * m, x).len() > 0 ==> primes_between(2 * m, x)[0] <= u - c + 1,
        forall|i: int|
            0 < i < primes_between(2 * m, x).len() ==> #[trigger] primes_between(2 * m, x)[i] <= 2
                * primes_between(2 * m, x)[i - 1],
        bound <= int_sum(primes_between(2 * m, x)),
    ensures
        forall|n: int| c + 1 <= n <= u + bound + 1 ==> #[trigger] is_divisor_prefix_sum(n),
{
    let seed = primes_between(m, 2 * m);
    let rest = primes_between(2 * m, x);
    lemma_ordered_filter_members(2 * m, x, prime_pred());
    assert forall|i: int| 0 <= i < rest.len() implies #[trigger] rest[i] >= 0 by {}
    lemma_doubling_extension(seed, rest, c, u);
    lemma_ordered_filter_split(m, 2 * m, x, prime_pred());
    assert forall|n: int| c + 1 <= n <= u + bound + 1 implies #[trigger] is_divisor_prefix_sum(n) by {
        assert(is_subset_sum(seed + rest, n - 1));
        lemma_window_subset_sum_represented(m, x, n - 1);
    }
}

/// The seed and the bridge together. When every `n` of
/// `[LARGE_FIRST, LARGE_LAST]` is a subset sum of the primes of
/// `(LARGE_M, 2 * LARGE_M]`, the seed interval is at least as wide as the
/// first prime after `2 * LARGE_M`, consecutive primes of
/// `(2 * LARGE_M, BRIDGE_X]` at most double (Bertrand's postulate), and the
/// bridge's bounds are true bounds on the prime-counting function, every `n`
/// from `LARGE_FIRST + 1` to `LARGE_LAST` plus the bridge's lower bound plus
/// one is represented.
pub proof fn lemma_large_bridge_represented(lower: Seq<i128>, upper: Seq<i128>)
    requires
        forall|n: int|
            LARGE_FIRST <= n <= LARGE_LAST ==> #[trigger] is_subset_sum(
                primes_between(LARGE_M as int, 2 * LARGE_M),
                n,
            ),
        primes_between(2 * LARGE_M, 2 * LARGE_M + LARGE_SIEVE_EXTRA).len() > 0,
        LARGE_LAST - LARGE_FIRST + 1 >= primes_between(2 * LARGE_M, 2 * LARGE_M + LARGE_SIEVE_EXTRA)[0],
        forall|i: int|
            0 < i < primes_between(2 * LARGE_M, BRIDGE_X as int).len() ==> #[trigger] primes_between(
                2 * LARGE_M,
                BRIDGE_X as int,
            )[i] <= 2 * primes_between(2 * LARGE_M, BRIDGE_X as int)[i - 1],
        lower.len() == block_bounds_from(2 * LARGE_M, BRIDGE_X as int, BRIDGE_BLOCK_RATIO as int).len(),
        upper.len() == lower.len(),
        forall|i: int|
            0 <= i < lower.len() ==> #[trigger] lower[i] <= prime_count(
                block_bounds_from(2 * LARGE_M, BRIDGE_X as int, BRIDGE_BLOCK_RATIO as int)[i].1,
            ) && upper[i] >= prime_count(
                block_bounds_from(2 * LARGE_M, BRIDGE_X as int, BRIDGE_BLOCK_RATIO as int)[i].0,
            ),
    ensures
        forall|n: int|
            LARGE_FIRST + 1 <= n <= LARGE_LAST + lower_total(
                block_bounds_from(2 * LARGE_M, BRIDGE_X as int, BRIDGE_BLOCK_RATIO as int),
                lower,
                upper,
                lower.len() as int,
            ) + 1 ==> #[trigger] is_divisor_prefix_sum(n),
{
    let m = LARGE_M as int;
    let x = BRIDGE_X as int;
    let bound = lower_total(
        block_bounds_from(2 * m, x, BRIDGE_BLOCK_RATIO as int),
        lower,
        upper,
        lower.len() as int,
    );
    lemma_lower_total_bounds_prime_sum(2 * m, x, BRIDGE_BLOCK_RATIO as int, lower, upper);
    lemma_ordered_filter_split(2 * m, 2 * m + LARGE_SIEVE_EXTRA, x, prime_pred());
    assert(primes_between(2 * m, x)[0] == primes_between(2 * m, 2 * m + LARGE_SIEVE_EXTRA)[0]);
    assert(x < m * m);
    lemma_bridge_represented(m, x, LARGE_FIRST as int, LARGE_LAST as int, bound);
}

/// The JSON object of one block.
pub open spec fn block_json_text(block: Block) -> Seq<char> {
    "{\n      \"a\": "@ + decimal(block.a as nat) + ",\n      \"b\": "@ + decimal(block.b as nat)
        + ",\n      \"countLower\": "@ + signed_decimal(block.count_lower as int)
        + ",\n      \"contribution\": \""@ + decimal(block.contribution as nat) + "\"\n    }"@
}

/// The JSON objects of the blocks, separated by a comma and a line break.
pub open spec fn blocks_json_text(blocks: Seq<Block>) -> Seq<char>
    decreases blocks.len(),
{
    if blocks.len() == 0 {
        Seq::empty()
    } else if blocks.len() == 1 {
        block_json_text(blocks[0])
    } else {
        blocks_json_text(blocks.drop_last()) + ",\n    "@ + block_json_text(blocks.last())
    }
}

/// The block texts are joined by `",\n    "`: no blocks give the empty
/// text, one block its own text, and the text of `s + t`, both nonempty, is
/// the text of `s`, the separator, then the text of `t`. So there is one
/// separator between any two consecutive blocks.
pub proof fn lemma_blocks_json_joined(s: Seq<Block>, t: Seq<Block>, b: Block)
    ensures
        blocks_json_text(Seq::empty()) == Seq::<char>::empty(),
        blocks_json_text(seq![b]) == block_json_text(b),
        s.len() > 0 && t.len() > 0 ==> blocks_json_text(s + t) == blocks_json_text(s) + ",\n    "@
            + blocks_json_text(t),
    decreases t.len(),
{
    if s.len() > 0 && t.len() > 0 {
        let st = s + t;
        assert(st.last() == t.last());
        if t.len() == 1 {
            assert(st.drop_last() =~= s);
            assert(t =~= seq![t[0]]);
        } else {
            lemma_blocks_json_joined(s, t.drop_last(), b);
            assert(st.drop_last() =~= s + t.drop_last());
            assert(blocks_json_text(s + t) =~= blocks_json_text(s) + ",\n    "@ + blocks_json_text(t));
        }
    }
}

/// One block as a JSON object, its contribution as a string.
pub fn block_json(block: &Block) -> (json: String)
    ensures
        json@ == block_json_text(*block),
{
    let mut json = String::from_str("{\n      \"a\": ");
    push_decimal(&mut json, block.a as u128);
    json.append(",\n      \"b\": ");
    push_decimal(&mut json, block.b as u128);
    json.append(",\n      \"countLower\": ");
    push_signed_decimal(&mut json, block.count_lower);
    json.append(",\n      \"contribution\": \"");
    push_decimal(&mut json, block.contribution);
    json.append("\"\n    }");
    json
}

/// The blocks as JSON objects separated by a comma and a line break.
pub fn blocks_json(blocks: &[Block]) -> (json: String)
    ensures
        json@ == blocks_json_text(blocks@),
{
    let mut json = String::new();
    let mut i: usize = 0;
    while i < blocks.len()
        invariant
            i <= blocks.len(),
            json@ == blocks_json_text(blocks@.take(i as int)),
        decreases blocks.len() - i,
    {
        proof {
            assert(blocks@.take(i + 1).drop_last() =~= blocks@.take(i as int));
        }
        if i > 0 {
            json.append(",\n    ");
        }
        json.append(block_json(&blocks[i]).as_str());
        proof {
            if i == 0 {
                assert(json@ =~= blocks_json_text(blocks@.take(1)));
            } else {
                assert(json@ =~= blocks_json_text(blocks@.take(i + 1)));
            }
        }
        i = i + 1;
    }
    proof {
        assert(blocks@.take(blocks.len() as int) =~= blocks@);
    }
    json
}

/// The outcome of a successful bridge check.
#[derive(Debug, PartialEq, Eq)]
pub struct BridgeReport {
    pub seed_width: usize,
    pub lower_sum: u128,
    pub target_u: u128,
    pub block_count: usize,
    pub first_blocks: String,
    pub last_blocks: String,
}

/// Why the bridge check failed.
#[derive(Debug, PartialEq, Eq)]
pub enum BridgeError {
    /// The range does not end below `M^2`.
    WindowTooWide { x: u64, m_squared: u64 },
    /// The seed interval is narrower than the first prime after `2 * M`.
    SeedTooShort,
    /// The bounds given do not match the blocks, one bound of each kind per
    /// block.
    BoundCountMismatch { blocks: usize, lower: usize, upper: usize },
    /// A difference of bounds or the sum leaves the machine range.
    OutOfRange,
    /// The bridge ends before the tail range starts.
    StopsTooEarly { target_u: u128 },
    /// Fewer than three blocks to show at each end.
    TooFewBlocks { count: usize },
}

impl BridgeError {
    /// The message that reports the failure.
    pub fn message(&self) -> (text: String)
        ensures
            self matches BridgeError::WindowTooWide { x, m_squared } ==> text@ == "need X < M^2; got "@
                + decimal(x as nat) + " >= "@ + decimal(m_squared as nat),
            self is SeedTooShort ==> text@ == "large seed interval is too short for the next prime"@,
            self matches BridgeError::StopsTooEarly { target_u } ==> text@
                == "large bridge stops too early: "@ + decimal(target_u as nat),
            self matches BridgeError::BoundCountMismatch { blocks, lower, upper } ==> text@
                == "bridge has "@ + decimal(blocks as nat) + " blocks but "@ + decimal(lower as nat)
                + " lower and "@ + decimal(upper as nat) + " upper prime-count bounds"@,
            self is OutOfRange ==> text@ == "bridge bounds leave the machine range"@,
            self matches BridgeError::TooFewBlocks { count } ==> text@ == "bridge has only "@
                + decimal(count as nat) + " blocks"@,
    {
        match self {
            BridgeError::WindowTooWide { x, m_squared } => {
                let mut text = String::from_str("need X < M^2; got ");
                push_decimal(&mut text, *x as u128);
                text.append(" >= ");
                push_decimal(&mut text, *m_squared as u128);
                text
            },
            BridgeError::SeedTooShort => String::from_str(
                "large seed interval is too short for the next prime",
            ),
            BridgeError::BoundCountMismatch { blocks, lower, upper } => {
                let mut text = String::from_str("bridge has ");
                push_decimal(&mut text, *blocks as u128);
                text.append(" blocks but ");
                push_decimal(&mut text, *lower as u128);
                text.append(" lower and ");
                push_decimal(&mut text, *upper as u128);
                text.append(" upper prime-count bounds");
                text
            },
            BridgeError::OutOfRange => String::from_str("bridge bounds leave the machine range"),
            BridgeError::StopsTooEarly { target_u } => {
                let mut text = String::from_str("large bridge stops too early: ");
                push_decimal(&mut text, *target_u);
                text
            },
            BridgeError::TooFewBlocks { count } => {
                let mut text = String::from_str("bridge has only ");
                push_decimal(&mut text, *count as u128);
                text.append(" blocks");
                text
            },
        }
    }
}

/// The blocks of the bridge: from `2 * LARGE_M` to `BRIDGE_X` with ratio
/// `BRIDGE_BLOCK_RATIO`.
pub fn bridge_block_bounds() -> (bounds: Vec<(u64, u64)>)
    ensures
        bounds@.map_values(|p: (u64, u64)| (p.0 as int, p.1 as int)) == block_bounds_from(
            2 * LARGE_M,
            BRIDGE_X as int,
            BRIDGE_BLOCK_RATIO as int,
        ),
{
    block_bounds((2 * LARGE_M) as u64, BRIDGE_X, BRIDGE_BLOCK_RATIO)
}

/// The bridge check. With `pi_lower_at_b[i]` a lower bound on the number of
/// primes up to the end of block `i` and `pi_upper_at_a[i]` an upper bound
/// on the number up to its start, the blocks give a lower bound on the sum
/// of the primes of `(2 * LARGE_M, BRIDGE_X]`; the check succeeds when
/// `BRIDGE_X < LARGE_M^2`, the seed interval is at least as wide as the
/// first prime after `2 * LARGE_M`, and `LARGE_LAST + lower_sum + 1` reaches
/// `HELFGOTT_START`.
pub fn verify_large_bridge(pi_lower_at_b: &[i128], pi_upper_at_a: &[i128]) -> (r: Result<
    BridgeReport,
    BridgeError,
>)
    ensures
        r matches Ok(report) ==> {
            let bounds = block_bounds_from(2 * LARGE_M, BRIDGE_X as int, BRIDGE_BLOCK_RATIO as int);
            &&& BRIDGE_X < LARGE_M * LARGE_M
            &&& LARGE_LAST - LARGE_FIRST + 1 >= BRIDGE_NEXT_PRIME_AFTER_2M
            &&& pi_lower_at_b.len() == bounds.len() && pi_upper_at_a.len() == bounds.len()
            &&& report.lower_sum == lower_total(
                bounds,
                pi_lower_at_b@,
                pi_upper_at_a@,
                bounds.len() as int,
            )
            &&& report.target_u == LARGE_LAST + report.lower_sum + 1
            &&& report.target_u >= HELFGOTT_START
            &&& report.block_count == bounds.len()
            &&& report.seed_width == LARGE_LAST - LARGE_FIRST + 1
            &&& report.first_blocks@ == blocks_json_text(
                Seq::new(3, |i: int| expected_block(bounds[i], pi_lower_at_b[i], pi_upper_at_a[i])),
            )
            &&& report.last_blocks@ == blocks_json_text(
                Seq::new(
                    3,
                    |i: int|
                        expected_block(
                            bounds[bounds.len() - 3 + i],
                            pi_lower_at_b[bounds.len() - 3 + i],
                            pi_upper_at_a[bounds.len() - 3 + i],
                        ),
                ),
            )
        },
        r matches Err(BridgeError::WindowTooWide { x, m_squared }) ==> x == BRIDGE_X && m_squared
            == LARGE_M * LARGE_M && x >= m_squared,
        r is Err && r->Err_0 is SeedTooShort ==> LARGE_LAST - LARGE_FIRST + 1 < BRIDGE_NEXT_PRIME_AFTER_2M,
        r matches Err(BridgeError::BoundCountMismatch { blocks, lower, upper }) ==> {
            let bounds = block_bounds_from(2 * LARGE_M, BRIDGE_X as int, BRIDGE_BLOCK_RATIO as int);
            &&& blocks == bounds.len()
            &&& lower == pi_lower_at_b.len()
            &&& upper == pi_upper_at_a.len()
            &&& (lower != blocks || upper != blocks)
        },
        r is Err && r->Err_0 is OutOfRange ==> {
            let bounds = block_bounds_from(2 * LARGE_M, BRIDGE_X as int, BRIDGE_BLOCK_RATIO as int);
            &&& pi_lower_at_b.len() == bounds.len() && pi_upper_at_a.len() == bounds.len()
            &&& (!differences_fit(pi_lower_at_b@, pi_upper_at_a@) || lower_total(
                bounds,
                pi_lower_at_b@,
                pi_upper_at_a@,
                bounds.len() as int,
            ) > u128::MAX - LARGE_LAST - 1)
        },
        r matches Err(BridgeError::StopsTooEarly { target_u }) ==> {
            let bounds = block_bounds_from(2 * LARGE_M, BRIDGE_X as int, BRIDGE_BLOCK_RATIO as int);
            &&& pi_lower_at_b.len() == bounds.len() && pi_upper_at_a.len() == bounds.len()
            &&& differences_fit(pi_lower_at_b@, pi_upper_at_a@)
            &&& target_u == LARGE_LAST + lower_total(
                bounds,
                pi_lower_at_b@,
                pi_upper_at_a@,
                bounds.len() as int,
            ) + 1
            &&& target_u < HELFGOTT_START
        },
        r matches Err(BridgeError::TooFewBlocks { count }) ==> {
            let bounds = block_bounds_from(2 * LARGE_M, BRIDGE_X as int, BRIDGE_BLOCK_RATIO as int);
            &&& count == bounds.len() && count < 3
            &&& pi_lower_at_b.len() == bounds.len() && pi_upper_at_a.len() == bounds.len()
            &&& differences_fit(pi_lower_at_b@, pi_upper_at_a@)
            &&& LARGE_LAST + lower_total(bounds, pi_lower_at_b@, pi_upper_at_a@, bounds.len() as int)
                + 1 >= HELFGOTT_START
        },
{
    let seed_width = LARGE_LAST - LARGE_FIRST + 1;
    let m_squared: u64 = (LARGE_M as u64) * (LARGE_M as u64);
    if !(BRIDGE_X < m_squared) {
        return Err(BridgeError::WindowTooWide { x: BRIDGE_X, m_squared });
    }
    if !(seed_width >= BRIDGE_NEXT_PRIME_AFTER_2M) {
        return Err(BridgeError::SeedTooShort);
    }
    let bounds = bridge_block_bounds();
    if pi_lower_at_b.len() != bounds.len() || pi_upper_at_a.len() != bounds.len() {
        return Err(
            BridgeError::BoundCountMismatch {
                blocks: bounds.len(),
                lower: pi_lower_at_b.len(),
                upper: pi_upper_at_a.len(),
            },
        );
    }
    let (lower_sum, blocks) = match lower_prime_sum_by_blocks(
        (2 * LARGE_M) as u64,
        BRIDGE_X,
        BRIDGE_BLOCK_RATIO,
        pi_lower_at_b,
        pi_upper_at_a,
    ) {
        Some(found) => found,
        None => {
            return Err(BridgeError::OutOfRange);
        },
    };
    if lower_sum > u128::MAX - (LARGE_LAST as u128) - 1 {
        return Err(BridgeError::OutOfRange);
    }
    let target_u = LARGE_LAST as u128 + lower_sum + 1;
    if target_u < HELFGOTT_START {
        return Err(BridgeError::StopsTooEarly { target_u });
    }
    let count = blocks.len();
    if count < 3 {
        return Err(BridgeError::TooFewBlocks { count });
    }
    let ghost bounds_spec = block_bounds_from(2 * LARGE_M, BRIDGE_X as int, BRIDGE_BLOCK_RATIO as int);
    let head = &blocks.as_slice()[0..3];
    let tail = &blocks.as_slice()[count - 3..count];
    proof {
        assert(head@ =~= Seq::new(
            3,
            |i: int| expected_block(bounds_spec[i], pi_lower_at_b[i], pi_upper_at_a[i]),
        ));
        assert(tail@ =~= Seq::new(
            3,
            |i: int|
                expected_block(
                    bounds_spec[bounds_spec.len() - 3 + i],
                    pi_lower_at_b[bounds_spec.len() - 3 + i],
                    pi_upper_at_a[bounds_spec.len() - 3 + i],
                ),
        ));
    }
    let first_blocks = blocks_json(head);
    let last_blocks = blocks_json(tail);
    Ok(BridgeReport { seed_width, lower_sum, target_u, block_count: count, first_blocks, last_blocks })
}

} // verus!
