use crate::bq::bounded_sum;
use crate::divisors::seq_sum;
use crate::ordered::{
    as_ints,
    increasing,
    int_sum,
    lemma_as_ints_sum,
    lemma_ordered_filter_members,
    lemma_ordered_filter_unique,
    lists_exactly,
};
use crate::primes::{is_prime_table, prime_flag, prime_pred, primes_between, primes_from_sieve, sieve};
use crate::subset_sums::{
    extends_interval,
    is_first_longest_run,
    is_subset_sum,
    lemma_extension_chain,
    lemma_subset_sum_range,
    longest_reachable_interval,
    reachable_subset_sums,
};
use crate::representation::{is_divisor_prefix_sum, lemma_window_subset_sum_represented};
use crate::text::{decimal, push_decimal};
use vstd::prelude::*;
use vstd::string::*;

verus! {

/// The lower end `M` of the first prime window `(M, X]`.
pub const FIRST_M: usize = 10_000;

/// The upper end `X` of the first prime window `(M, X]`.
pub const FIRST_X: usize = 99_000_000;

/// How many of the smallest primes of the window form the seed.
pub const FIRST_SEED_COUNT: usize = 94;

/// The lower end `C` of the interval that the seed's subset sums cover.
pub const FIRST_SEED_C: usize = 469_615;

/// The upper end `U` of the interval that the seed's subset sums cover.
pub const FIRST_SEED_U: usize = 480_503;

/// Whether an entry lies above `m`.
pub open spec fn exceeds(m: usize) -> spec_fn(usize) -> bool {
    |p: usize| p > m
}

/// The entries of `primes` above `m`, in their order.
pub fn primes_above(primes: &[usize], m: usize) -> (above: Vec<usize>)
    ensures
        above@ == primes@.filter(exceeds(m)),
        forall|i: int| 0 <= i < above.len() ==> #[trigger] above[i] > m && primes@.contains(above[i]),
        forall|i: int| 0 <= i < primes.len() && primes[i] > m ==> above@.contains(#[trigger] primes[i]),
        forall|i: int, j: int|
            0 <= i < j < above.len() && (forall|a: int, b: int|
                0 <= a < b < primes.len() ==> primes[a] < primes[b]) ==> above[i] < above[j],
{
    let mut above: Vec<usize> = Vec::new();
    let mut k: usize = 0;
    while k < primes.len()
        invariant
            k <= primes.len(),
            above@ == primes@.take(k as int).filter(exceeds(m)),
            forall|i: int|
                0 <= i < above.len() ==> #[trigger] above[i] > m && exists|a: int|
                    0 <= a < k && primes[a] == above[i],
            forall|i: int| 0 <= i < k && primes[i] > m ==> above@.contains(#[trigger] primes[i]),
            forall|i: int|
                0 <= i < above.len() ==> forall|a: int|
                    k <= a < primes.len() && (forall|x: int, y: int|
                        0 <= x < y < primes.len() ==> primes[x] < primes[y]) ==> #[trigger] above[i]
                        < primes[a],
            forall|i: int, j: int|
                0 <= i < j < above.len() && (forall|a: int, b: int|
                    0 <= a < b < primes.len() ==> primes[a] < primes[b]) ==> above[i] < above[j],
        decreases primes.len() - k,
    {
        let ghost before = above@;
        proof {
            assert(primes@.take(k + 1) =~= primes@.take(k as int).push(primes[k as int]));
            primes@.take(k as int).lemma_filter_push(primes[k as int], exceeds(m));
        }
        if primes[k] > m {
            above.push(primes[k]);
            proof {
                assert(above[before.len() as int] == primes[k as int]);
                assert forall|i: int| 0 <= i < k + 1 && primes[i] > m implies above@.contains(
                    #[trigger] primes[i],
                ) by {
                    if i < k {
                        assert(before.contains(primes[i]));
                        let w = choose|w: int| 0 <= w < before.len() && before[w] == primes[i];
                        assert(above[w] == primes[i]);
                    }
                }
                assert forall|i: int| 0 <= i < above.len() implies #[trigger] above[i] > m && exists|
                    a: int,
                | 0 <= a < k + 1 && primes[a] == above[i] by {
                    if i < before.len() {
                        assert(above[i] == before[i]);
                    }
                }
            }
        }
        k = k + 1;
    }
    proof {
        assert(primes@.take(k as int) =~= primes@);
        assert forall|i: int| 0 <= i < above.len() implies #[trigger] above[i] > m && primes@.contains(
            above[i],
        ) by {
            let a = choose|a: int| 0 <= a < k && primes[a] == above[i];
        }
    }
    above
}

/// A first copy of a slice: the first `count` entries.
fn leading(values: &[usize], count: usize) -> (lead: Vec<usize>)
    requires
        count <= values.len(),
    ensures
        lead@ == values@.take(count as int),
{
    let mut lead: Vec<usize> = Vec::new();
    let mut i: usize = 0;
    while i < count
        invariant
            i <= count <= values.len(),
            lead@ == values@.take(i as int),
        decreases count - i,
    {
        lead.push(values[i]);
        proof {
            assert(lead@ =~= values@.take(i + 1));
        }
        i = i + 1;
    }
    lead
}

/// The outcome of a successful first-window check.
#[derive(Debug, PartialEq, Eq)]
pub struct FirstWindowReport {
    pub m: usize,
    pub x: usize,
    pub seed_count: usize,
    pub seed_c: usize,
    pub seed_u: usize,
    pub seed_first: usize,
    pub seed_last: usize,
    pub longest_start: usize,
    pub longest_end: usize,
    pub prime_count: usize,
    pub largest_prime: usize,
    pub u: u128,
}

/// Why a first-window check failed.
#[derive(Debug, PartialEq, Eq)]
pub enum FirstWindowError {
    /// The window does not end below `M^2`.
    WindowTooWide { x: usize, m_squared: u128 },
    /// The window holds fewer primes than the seed needs.
    NotEnoughPrimes { found: usize, needed: usize },
    /// The seed primes sum to more than a machine integer holds.
    SeedTooLarge,
    /// `n` of the asserted seed interval is no subset sum of the seed.
    SeedSumNotReachable { n: usize },
    /// The prime `p` is wider than the interval `[c, u]` reached before it.
    ExtensionGap { p: usize, c: usize, u: u128 },
}

impl FirstWindowError {
    /// The message that reports the failure.
    pub fn message(&self) -> (text: String)
        ensures
            self matches FirstWindowError::WindowTooWide { x, m_squared } ==> text@ == "need X < M^2, got "@
                + decimal(x as nat) + " >= "@ + decimal(m_squared as nat),
            self matches FirstWindowError::NotEnoughPrimes { found, needed } ==> text@
                == "prime window holds "@ + decimal(found as nat) + " primes, fewer than "@ + decimal(
                needed as nat,
            ),
            self is SeedTooLarge ==> text@ == "seed primes sum beyond the machine range"@,
            self matches FirstWindowError::SeedSumNotReachable { n } ==> text@ == "seed sum "@
                + decimal(n as nat) + " is not reachable"@,
            self matches FirstWindowError::ExtensionGap { p, c, u } ==> text@ == "extension gap at p="@
                + decimal(p as nat) + ", interval=["@ + decimal(c as nat) + ","@ + decimal(u as nat)
                + "]"@,
    {
        match self {
            FirstWindowError::WindowTooWide { x, m_squared } => {
                let mut text = String::from_str("need X < M^2, got ");
                push_decimal(&mut text, *x as u128);
                text.append(" >= ");
                push_decimal(&mut text, *m_squared);
                text
            },
            FirstWindowError::NotEnoughPrimes { found, needed } => {
                let mut text = String::from_str("prime window holds ");
                push_decimal(&mut text, *found as u128);
                text.append(" primes, fewer than ");
                push_decimal(&mut text, *needed as u128);
                text
            },
            FirstWindowError::SeedTooLarge => String::from_str("seed primes sum beyond the machine range"),
            FirstWindowError::SeedSumNotReachable { n } => {
                let mut text = String::from_str("seed sum ");
                push_decimal(&mut text, *n as u128);
                text.append(" is not reachable");
                text
            },
            FirstWindowError::ExtensionGap { p, c, u } => {
                let mut text = String::from_str("extension gap at p=");
                push_decimal(&mut text, *p as u128);
                text.append(", interval=[");
                push_decimal(&mut text, *c as u128);
                text.append(",");
                push_decimal(&mut text, *u);
                text.append("]");
                text
            },
        }
    }
}

/// The table of subset sums of `values`, as `reachable_subset_sums` builds
/// it.
pub open spec fn subset_sum_table(values: Seq<int>) -> Seq<u8> {
    Seq::new(
        (int_sum(values) + 1) as nat,
        |s: int|
            if is_subset_sum(values, s) {
                1u8
            } else {
                0u8
            },
    )
}

/// The primes of the window `(m, x]`, in increasing order.
pub fn window_primes(m: usize, x: usize) -> (window: Vec<usize>)
    requires
        2 <= x < usize::MAX,
    ensures
        as_ints(window@) == primes_between(m as int, x as int),
{
    let table = sieve(x);
    let primes = primes_from_sieve(&table);
    let window = primes_above(&primes, m);
    proof {
        let ints = as_ints(window@);
        assert forall|i: int| 0 <= i < ints.len() implies m < #[trigger] ints[i] <= x && prime_pred()(
            ints[i],
        ) by {
            assert(ints[i] == window[i] as int);
            assert(primes@.contains(window[i]));
            let a = choose|a: int| 0 <= a < primes.len() && primes[a] == window[i];
            assert(table[primes[a] as int] == prime_flag(primes[a] as int));
        }
        assert forall|k: int| m < k <= x && prime_pred()(k) implies #[trigger] ints.contains(k) by {
            assert(table[k] == prime_flag(k));
            assert(primes@.contains(k as usize));
            let a = choose|a: int| 0 <= a < primes.len() && primes[a] == k as usize;
            assert(window@.contains(primes[a]));
            let w = choose|w: int| 0 <= w < window.len() && window[w] == primes[a];
            assert(ints[w] == k);
        }
        assert(increasing(ints));
        lemma_ordered_filter_unique(ints, m as int, x as int, prime_pred());
    }
    window
}

/// The first `n` of `[c, u]` whose entry in the subset-sum table of `seed`
/// is zero or missing, if there is one.
#[verifier::loop_isolation(false)]
fn first_unreachable(reachable: &[u8], c: usize, u: usize, seed: Ghost<Seq<int>>) -> (miss: Option<usize>)
    requires
        c <= u < usize::MAX,
        forall|i: int| 0 <= i < seed@.len() ==> #[trigger] seed@[i] >= 0,
        reachable.len() == int_sum(seed@) + 1,
        forall|s: int|
            0 <= s < reachable.len() ==> #[trigger] reachable[s] == (if is_subset_sum(seed@, s) {
                1u8
            } else {
                0u8
            }),
    ensures
        miss is None ==> forall|k: int| c <= k <= u ==> #[trigger] is_subset_sum(seed@, k),
        miss matches Some(n) ==> c <= n <= u && !is_subset_sum(seed@, n as int) && forall|k: int|
            c <= k < n ==> #[trigger] is_subset_sum(seed@, k),
{
    let mut n: usize = c;
    while n <= u
        invariant
            c <= n <= u + 1,
            forall|k: int| c <= k < n ==> #[trigger] is_subset_sum(seed@, k),
        decreases u + 1 - n,
    {
        if n >= reachable.len() || reachable[n] == 0 {
            proof {
                if n >= reachable.len() && is_subset_sum(seed@, n as int) {
                    lemma_subset_sum_range(seed@, n as int);
                }
            }
            return Some(n);
        }
        n = n + 1;
    }
    None
}

/// Runs the interval extension over `window[from..]` starting from the
/// interval `[c, u]`: `Ok` with the final upper end when every prime is at
/// most one more than the width of the interval reached before it, else the
/// first prime that is not, with the upper end reached before it.
pub fn extend_interval(window: &[usize], from: usize, c: usize, u: usize) -> (r: Result<u128, (usize, u128)>)
    requires
        from <= window.len(),
        c <= u,
    ensures
        r matches Ok(end) ==> extends_interval(as_ints(window@).skip(from as int), c as int, u as int)
            && end == u + int_sum(as_ints(window@).skip(from as int)),
        r matches Err((p, end)) ==> {
            let rest = as_ints(window@).skip(from as int);
            exists|j: int|
                0 <= j < rest.len() && rest[j] == p && end == u + int_sum(rest.take(j)) && p > end
                    - c + 1 && extends_interval(rest.take(j), c as int, u as int)
        },
{
    let ghost rest = as_ints(window@).skip(from as int);
    let mut big_u: u128 = u as u128;
    let mut k: usize = from;
    proof {
        assert(rest.take(0) =~= Seq::<int>::empty());
    }
    while k < window.len()
        invariant
            from <= k <= window.len(),
            rest == as_ints(window@).skip(from as int),
            big_u == u + int_sum(rest.take(k - from)),
            big_u <= (k + 1) * 0x1_0000_0000_0000_0000,
            c <= big_u,
            extends_interval(rest.take(k - from), c as int, u as int),
        decreases window.len() - k,
    {
        let p = window[k];
        let ghost j = k - from;
        proof {
            assert(rest[j] == p as int);
            assert(rest.take(j + 1).drop_last() =~= rest.take(j));
            assert(rest.take(j + 1).last() == p as int);
        }
        if p as u128 > big_u - c as u128 + 1 {
            return Err((p, big_u));
        }
        proof {
            assert forall|i: int| 0 <= i < j + 1 implies #[trigger] rest.take(j + 1)[i] <= u + int_sum(
                rest.take(j + 1).take(i),
            ) - c + 1 by {
                if i < j {
                    assert(rest.take(j + 1).take(i) =~= rest.take(j).take(i));
                    assert(rest.take(j)[i] <= u + int_sum(rest.take(j).take(i)) - c + 1);
                } else {
                    assert(rest.take(j + 1).take(i) =~= rest.take(j));
                }
            }
        }
        big_u = big_u + p as u128;
        k = k + 1;
    }
    proof {
        assert(rest.take(rest.len() as int) =~= rest);
    }
    Ok(big_u)
}

/// The first-window check for the window `(m, x]`: `x < m^2`; the subset
/// sums of the `seed_count` smallest primes of the window cover `[c, u]`;
/// and each further prime of the window, taken in increasing order, is at
/// most one more than the width of the interval reached before it. Then the
/// subset sums of all primes of the window cover `[c, u + (sum of the
/// further primes)]`.
/// The first-window check for the window `(m, x]`: `x < m^2`; the subset
/// sums of the `seed_count` smallest primes of the window cover `[c, u]`;
/// and each further prime of the window, taken in increasing order, is at
/// most one more than the width of the interval reached before it. Then the
/// subset sums of all primes of the window cover `[c, u + (sum of the
/// further primes)]`.
pub fn first_window_check(m: usize, x: usize, seed_count: usize, c: usize, u: usize) -> (r: Result<
    FirstWindowReport,
    FirstWindowError,
>)
    requires
        2 <= x < usize::MAX,
        1 <= seed_count,
        c <= u < usize::MAX,
    ensures
        r matches Ok(report) ==> {
            let window = primes_between(m as int, x as int);
            let seed = window.take(seed_count as int);
            let rest = window.skip(seed_count as int);
            &&& x < m * m
            &&& window.len() >= seed_count
            &&& forall|n: int| c <= n <= u ==> #[trigger] is_subset_sum(seed, n)
            &&& extends_interval(rest, c as int, u as int)
            &&& report.u == u + int_sum(rest)
            &&& forall|s: int| c <= s <= report.u ==> #[trigger] is_subset_sum(window, s)
            &&& forall|s: int| c <= s <= report.u ==> #[trigger] is_divisor_prefix_sum(s + 1)
            &&& report.prime_count == window.len()
            &&& report.largest_prime == window.last()
            &&& report.seed_first == window[0]
            &&& report.seed_last == window[seed_count - 1]
            &&& report.m == m && report.x == x && report.seed_count == seed_count
            &&& report.seed_c == c && report.seed_u == u
            &&& (exists|s: int| 0 <= s <= int_sum(seed) && #[trigger] is_subset_sum(seed, s))
            &&& is_first_longest_run(
                subset_sum_table(seed),
                report.longest_start as int,
                report.longest_end as int,
            )
        },
        r matches Err(FirstWindowError::WindowTooWide { x: x1, m_squared }) ==> x1 == x && m_squared
            == m * m && x >= m * m,
        r matches Err(FirstWindowError::NotEnoughPrimes { found, needed }) ==> x < m * m && found
            == primes_between(m as int, x as int).len() && needed == seed_count && found < needed,
        r matches Err(FirstWindowError::SeedTooLarge) ==> x < m * m && primes_between(
            m as int,
            x as int,
        ).len() >= seed_count && int_sum(primes_between(m as int, x as int).take(seed_count as int))
            >= usize::MAX,
        r matches Err(FirstWindowError::SeedSumNotReachable { n }) ==> {
            let seed = primes_between(m as int, x as int).take(seed_count as int);
            &&& x < m * m
            &&& primes_between(m as int, x as int).len() >= seed_count
            &&& int_sum(seed) < usize::MAX
            &&& c <= n <= u
            &&& !is_subset_sum(seed, n as int)
            &&& forall|k: int| c <= k < n ==> #[trigger] is_subset_sum(seed, k)
        },
        r matches Err(FirstWindowError::ExtensionGap { p, c: c1, u: u1 }) ==> {
            let window = primes_between(m as int, x as int);
            let seed = window.take(seed_count as int);
            let rest = window.skip(seed_count as int);
            &&& x < m * m
            &&& window.len() >= seed_count
            &&& int_sum(seed) < usize::MAX
            &&& c1 == c
            &&& forall|n: int| c <= n <= u ==> #[trigger] is_subset_sum(seed, n)
            &&& exists|j: int|
                0 <= j < rest.len() && rest[j] == p && u1 == u + int_sum(rest.take(j)) && p > u1
                    - c + 1 && extends_interval(rest.take(j), c as int, u as int)
        },
{
    assert((m as u128) * (m as u128) <= u128::MAX) by (nonlinear_arith)
        requires
            m <= usize::MAX,
            usize::MAX < 0x1_0000_0000_0000_0000,
    ;
    let m_squared: u128 = (m as u128) * (m as u128);
    if !((x as u128) < m_squared) {
        return Err(FirstWindowError::WindowTooWide { x, m_squared });
    }
    assert(m >= 1) by (nonlinear_arith)
        requires
            (x as u128) < m_squared,
            m_squared == (m as u128) * (m as u128),
    ;
    let window = window_primes(m, x);
    let ghost spec_window = primes_between(m as int, x as int);
    proof {
        lemma_ordered_filter_members(m as int, x as int, prime_pred());
    }
    if window.len() < seed_count {
        return Err(FirstWindowError::NotEnoughPrimes { found: window.len(), needed: seed_count });
    }
    let seed = leading(&window, seed_count);
    let ghost spec_seed = spec_window.take(seed_count as int);
    proof {
        assert(as_ints(seed@) =~= spec_seed);
        lemma_as_ints_sum(seed@);
    }
    if bounded_sum(&seed, usize::MAX - 1).is_none() {
        return Err(FirstWindowError::SeedTooLarge);
    }
    let reachable = reachable_subset_sums(&seed);
    proof {
        assert forall|i: int| 0 <= i < spec_seed.len() implies #[trigger] spec_seed[i] >= 0 by {
            assert(spec_seed[i] == spec_window[i]);
        }
    }
    if let Some(n) = first_unreachable(&reachable, c, u, Ghost(spec_seed)) {
        return Err(FirstWindowError::SeedSumNotReachable { n });
    }
    let ghost rest = spec_window.skip(seed_count as int);
    match extend_interval(&window, seed_count, c, u) {
        Err((p, end)) => {
            return Err(FirstWindowError::ExtensionGap { p, c, u: end });
        },
        Ok(end) => {
            let (longest_start, longest_end) = longest_reachable_interval(&reachable);
            proof {
                assert forall|i: int| 0 <= i < rest.len() implies #[trigger] rest[i] >= 0 by {
                    assert(rest[i] == spec_window[i + seed_count]);
                }
                lemma_extension_chain(spec_seed, rest, c as int, u as int);
                assert(spec_seed + rest =~= spec_window);
                assert(reachable@ =~= subset_sum_table(spec_seed));
                assert forall|t: int| c <= t <= end implies #[trigger] is_divisor_prefix_sum(t + 1) by {
                    assert(is_subset_sum(spec_window, t));
                    lemma_window_subset_sum_represented(m as int, x as int, t);
                }
                lemma_subset_sum_range(spec_seed, c as int);
                assert(reachable[c as int] != 0);
            }
            Ok(
                FirstWindowReport {
                    m,
                    x,
                    seed_count,
                    seed_c: c,
                    seed_u: u,
                    seed_first: window[0],
                    seed_last: window[seed_count - 1],
                    longest_start,
                    longest_end,
                    prime_count: window.len(),
                    largest_prime: window[window.len() - 1],
                    u: end,
                },
            )
        },
    }
}

/// The first-window check with `M = FIRST_M`, `X = FIRST_X`, the
/// `FIRST_SEED_COUNT` smallest primes of the window as seed, and the seed
/// interval `[FIRST_SEED_C, FIRST_SEED_U]`.
pub fn verify_first_window() -> (r: Result<FirstWindowReport, FirstWindowError>)
    ensures
        r matches Ok(report) ==> {
            let window = primes_between(FIRST_M as int, FIRST_X as int);
            let seed = window.take(FIRST_SEED_COUNT as int);
            &&& window.len() >= FIRST_SEED_COUNT
            &&& forall|n: int| FIRST_SEED_C <= n <= FIRST_SEED_U ==> #[trigger] is_subset_sum(seed, n)
            &&& report.prime_count == window.len()
            &&& report.largest_prime == window.last()
            &&& report.seed_first == window[0]
            &&& report.seed_last == window[FIRST_SEED_COUNT - 1]
            &&& report.m == FIRST_M && report.x == FIRST_X && report.seed_count == FIRST_SEED_COUNT
            &&& report.seed_c == FIRST_SEED_C && report.seed_u == FIRST_SEED_U
            &&& is_first_longest_run(
                subset_sum_table(seed),
                report.longest_start as int,
                report.longest_end as int,
            )
        },
        r matches Ok(report) ==> forall|s: int|
            FIRST_SEED_C <= s <= report.u ==> #[trigger] is_subset_sum(
                primes_between(FIRST_M as int, FIRST_X as int),
                s,
            ),
        r matches Ok(report) ==> forall|s: int|
            FIRST_SEED_C <= s <= report.u ==> #[trigger] is_divisor_prefix_sum(s + 1),
        r matches Ok(report) ==> report.u == FIRST_SEED_U + int_sum(
            primes_between(FIRST_M as int, FIRST_X as int).skip(FIRST_SEED_COUNT as int),
        ),
        !(r matches Err(FirstWindowError::WindowTooWide { .. })),
        r matches Err(FirstWindowError::NotEnoughPrimes { found, needed }) ==> found
            == primes_between(FIRST_M as int, FIRST_X as int).len() && needed == FIRST_SEED_COUNT
            && found < needed,
        r matches Err(FirstWindowError::SeedTooLarge) ==> primes_between(
            FIRST_M as int,
            FIRST_X as int,
        ).len() >= FIRST_SEED_COUNT && int_sum(
            primes_between(FIRST_M as int, FIRST_X as int).take(FIRST_SEED_COUNT as int),
        ) >= usize::MAX,
        r matches Err(FirstWindowError::SeedSumNotReachable { n }) ==> {
            let seed = primes_between(FIRST_M as int, FIRST_X as int).take(FIRST_SEED_COUNT as int);
            &&& primes_between(FIRST_M as int, FIRST_X as int).len() >= FIRST_SEED_COUNT
            &&& int_sum(seed) < usize::MAX
            &&& FIRST_SEED_C <= n <= FIRST_SEED_U
            &&& !is_subset_sum(seed, n as int)
            &&& forall|k: int| FIRST_SEED_C <= k < n ==> #[trigger] is_subset_sum(seed, k)
        },
        r matches Err(FirstWindowError::ExtensionGap { p, c, u }) ==> {
            let window = primes_between(FIRST_M as int, FIRST_X as int);
            let seed = window.take(FIRST_SEED_COUNT as int);
            let rest = window.skip(FIRST_SEED_COUNT as int);
            &&& window.len() >= FIRST_SEED_COUNT
            &&& int_sum(seed) < usize::MAX
            &&& c == FIRST_SEED_C
            &&& forall|n: int| FIRST_SEED_C <= n <= FIRST_SEED_U ==> #[trigger] is_subset_sum(seed, n)
            &&& exists|j: int|
                0 <= j < rest.len() && rest[j] == p && u == FIRST_SEED_U + int_sum(rest.take(j)) && p
                    > u - FIRST_SEED_C + 1 && extends_interval(
                    rest.take(j),
                    FIRST_SEED_C as int,
                    FIRST_SEED_U as int,
                )
        },
{
    first_window_check(FIRST_M, FIRST_X, FIRST_SEED_COUNT, FIRST_SEED_C, FIRST_SEED_U)
}

} // verus!
