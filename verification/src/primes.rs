use vstd::arithmetic::div_mod::*;
use vstd::arithmetic::mul::*;
use crate::ordered::ordered_filter;
use vstd::prelude::*;

verus! {

/// `d` divides `n` (both taken as integers, `d` positive).
pub open spec fn divides(d: int, n: int) -> bool {
    d > 0 && n % d == 0
}

/// `n` is a prime number.
pub open spec fn is_prime(n: int) -> bool {
    n >= 2 && forall|d: int| 2 <= d < n ==> !#[trigger] divides(d, n)
}

/// The predicate `is_prime` as a value.
pub open spec fn prime_pred() -> spec_fn(int) -> bool {
    |k: int| is_prime(k)
}

/// The primes `p` with `lo < p <= hi`, in increasing order.
pub open spec fn primes_between(lo: int, hi: int) -> Seq<int> {
    ordered_filter(lo, hi, prime_pred())
}

/// `k` has a factor `d` with `2 <= d < p` and `d * d <= k`: the numbers that
/// a sieve has crossed out once it has handled every candidate below `p`.
pub open spec fn has_small_factor(k: int, p: int) -> bool {
    exists|d: int| 2 <= d < p && d * d <= k && #[trigger] divides(d, k)
}

/// The flag a prime table holds for `n`: 1 for a prime, 0 otherwise.
pub open spec fn prime_flag(n: int) -> u8 {
    if is_prime(n) {
        1
    } else {
        0
    }
}

/// `table` is the prime table of `0..table.len()`.
pub open spec fn is_prime_table(table: Seq<u8>) -> bool {
    forall|n: int| 0 <= n < table.len() ==> #[trigger] table[n] == prime_flag(n)
}

/// If `d` divides `p` and `p` divides `k`, then `d` divides `k`.
pub proof fn lemma_divides_transitive(d: int, p: int, k: int)
    requires
        divides(d, p),
        divides(p, k),
    ensures
        divides(d, k),
{
    lemma_fundamental_div_mod(p, d);
    lemma_fundamental_div_mod(k, p);
    let a = p / d;
    let b = k / p;
    assert(k == d * (a * b)) by {
        lemma_mul_is_associative(d, a, b);
    }
    lemma_mod_multiples_basic(a * b, d);
    lemma_mul_is_commutative(d, a * b);
}

/// A divisor `d` of a positive `k` satisfies `d <= k`, and `k / d` divides `k`.
pub proof fn lemma_cofactor(d: int, k: int)
    requires
        divides(d, k),
        k > 0,
    ensures
        d <= k,
        k / d > 0,
        d * (k / d) == k,
        divides(k / d, k),
{
    lemma_fundamental_div_mod(k, d);
    let e = k / d;
    if e <= 0 {
        assert(d * e <= 0) by (nonlinear_arith)
            requires
                d > 0,
                e <= 0,
        ;
    }
    assert(d <= d * e) by (nonlinear_arith)
        requires
            d > 0,
            e >= 1,
    ;
    lemma_mod_multiples_basic(d, e);
    lemma_mul_is_commutative(d, e);
}

/// A number `k >= 2` that is not prime has a factor `d` with `2 <= d` and
/// `d * d <= k`.
pub proof fn lemma_composite_has_small_factor(k: int)
    requires
        k >= 2,
        !is_prime(k),
    ensures
        exists|d: int| 2 <= d && d * d <= k && #[trigger] divides(d, k),
{
    let d = choose|d: int| 2 <= d < k && #[trigger] divides(d, k);
    lemma_cofactor(d, k);
    let e = k / d;
    if e < 2 {
        assert(e == 1);
        assert(d * e == d) by (nonlinear_arith)
            requires
                e == 1,
        ;
        assert(false);
    }
    if d <= e {
        assert(d * d <= d * e) by (nonlinear_arith)
            requires
                0 < d <= e,
        ;
        assert(divides(d, k));
    } else {
        assert(e * e <= d * e) by (nonlinear_arith)
            requires
                0 < e < d,
        ;
        lemma_mul_is_commutative(d, e);
        assert(divides(e, k));
    }
}

/// Once every candidate below `p` with `k < p * p` has been handled, the
/// numbers crossed out are exactly the composite ones.
pub proof fn lemma_small_factor_iff_composite(k: int, p: int)
    requires
        k >= 2,
        k < p * p,
        p >= 2,
    ensures
        has_small_factor(k, p) <==> !is_prime(k),
{
    if has_small_factor(k, p) {
        let d = choose|d: int| 2 <= d < p && d * d <= k && #[trigger] divides(d, k);
        assert(d < k) by (nonlinear_arith)
            requires
                2 <= d,
                d * d <= k,
        ;
        assert(!is_prime(k));
    }
    if !is_prime(k) {
        lemma_composite_has_small_factor(k);
        let d = choose|d: int| 2 <= d && d * d <= k && #[trigger] divides(d, k);
        if d >= p {
            assert(p * p <= d * d) by (nonlinear_arith)
                requires
                    2 <= p <= d,
            ;
        }
        assert(has_small_factor(k, p));
    }
}

/// Past a composite `p`, a factor `p` adds nothing: any multiple of `p` at
/// least `p * p` already has a smaller factor.
pub proof fn lemma_composite_step(k: int, p: int)
    requires
        p >= 2,
        has_small_factor(p, p),
        k >= 1,
    ensures
        has_small_factor(k, p + 1) <==> has_small_factor(k, p),
{
    if has_small_factor(k, p + 1) && !has_small_factor(k, p) {
        let d = choose|d: int| 2 <= d < p + 1 && d * d <= k && #[trigger] divides(d, k);
        assert(d == p);
        let e = choose|e: int| 2 <= e < p && e * e <= p && #[trigger] divides(e, p);
        lemma_divides_transitive(e, p, k);
        assert(p <= p * p) by (nonlinear_arith)
            requires
                p >= 2,
        ;
        assert(e * e <= k);
        assert(has_small_factor(k, p));
    }
}

/// After a prime `p` has crossed out its multiples from `p * p` on, the
/// crossed-out numbers are those with a small factor below `p + 1`.
pub proof fn lemma_prime_step(k: int, p: int)
    requires
        p >= 2,
        k >= 1,
    ensures
        has_small_factor(k, p + 1) <==> (has_small_factor(k, p) || (p * p <= k && divides(p, k))),
{
    if has_small_factor(k, p + 1) && !has_small_factor(k, p) {
        let d = choose|d: int| 2 <= d < p + 1 && d * d <= k && #[trigger] divides(d, k);
        assert(d == p);
    }
    if p * p <= k && divides(p, k) {
        assert(has_small_factor(k, p + 1));
    }
}

/// Between two consecutive multiples of `p` lies no multiple of `p`.
pub proof fn lemma_no_multiple_between(k: int, j: int, p: int)
    requires
        p > 0,
        k % p == 0,
        k < j < k + p,
    ensures
        j % p != 0,
{
    lemma_fundamental_div_mod(k, p);
    let q = k / p;
    lemma_mul_is_commutative(p, q);
    lemma_fundamental_div_mod_converse(j, p, q, j - k);
}

/// The prime table of `0..=limit`: entry `n` is 1 when `n` is prime and 0
/// otherwise. The multiples of each prime `p` with `p * p <= limit` are
/// crossed out from `p * p` on.
pub fn sieve(limit: usize) -> (table: Vec<u8>)
    requires
        limit >= 2,
        limit < usize::MAX,
    ensures
        table.len() == limit + 1,
        is_prime_table(table@),
{
    let mut flags: Vec<u8> = Vec::new();
    let mut i: usize = 0;
    while i <= limit
        invariant
            i <= limit + 1,
            limit < usize::MAX,
            flags.len() == i,
            forall|n: int| 0 <= n < i ==> #[trigger] flags[n] == (if n < 2 { 0u8 } else { 1u8 }),
        decreases limit + 1 - i,
    {
        if i < 2 {
            flags.push(0);
        } else {
            flags.push(1);
        }
        i = i + 1;
    }
    let mut p: usize = 2;
    while p <= limit / p
        invariant
            2 <= p <= limit,
            flags.len() == limit + 1,
            forall|n: int|
                0 <= n <= limit ==> (#[trigger] flags[n] == 0 <==> (n < 2 || has_small_factor(n, p
                    as int))),
            forall|n: int| 0 <= n <= limit ==> #[trigger] flags[n] <= 1,
        decreases limit - p,
    {
        assert(p * p <= limit) by {
            lemma_fundamental_div_mod(limit as int, p as int);
            assert(p * (limit / p) <= limit);
            assert(p * p <= p * (limit / p)) by (nonlinear_arith)
                requires
                    p <= limit / p,
                    p >= 2,
            ;
        }
        assert(p < limit) by (nonlinear_arith)
            requires
                p * p <= limit,
                p >= 2,
        ;
        if flags[p] == 0 {
            proof {
                assert forall|n: int| 0 <= n <= limit implies (flags[n] == 0 <==> (n < 2
                    || has_small_factor(n, p + 1))) by {
                    if n >= 1 {
                        lemma_composite_step(n, p as int);
                    }
                }
            }
        } else {
            let mut k: usize = p * p;
            assert(k % p == 0) by {
                lemma_mod_multiples_basic(p as int, p as int);
            }
            loop
                invariant_except_break
                    p * p <= k <= limit,
                    k % p == 0,
                    forall|n: int|
                        0 <= n <= limit ==> (#[trigger] flags[n] == 0 <==> (n < 2
                            || has_small_factor(n, p as int) || (p * p <= n < k && n % (p as int) == 0))),
                invariant
                    2 <= p <= limit,
                    p * p <= limit,
                    flags.len() == limit + 1,
                    forall|n: int| 0 <= n <= limit ==> #[trigger] flags[n] <= 1,
                ensures
                    p * p <= k <= limit,
                    k % p == 0,
                    k + p > limit,
                    forall|n: int|
                        0 <= n <= limit ==> (#[trigger] flags[n] == 0 <==> (n < 2
                            || has_small_factor(n, p as int) || (p * p <= n <= k && n % (p as int) == 0))),
                decreases limit - k,
            {
                flags.set(k, 0);
                if k > limit - p {
                    break ;
                }
                proof {
                    assert((k + p) % (p as int) == 0) by {
                        lemma_mod_add_multiples_vanish(k as int, p as int);
                    }
                    assert forall|n: int| k < n < k + p implies #[trigger] (n % (p as int)) != 0 by {
                        lemma_no_multiple_between(k as int, n, p as int);
                    }
                }
                k = k + p;
            }
            proof {
                assert forall|n: int| 0 <= n <= limit implies (flags[n] == 0 <==> (n < 2
                    || has_small_factor(n, p + 1))) by {
                    if n >= 1 {
                        lemma_prime_step(n, p as int);
                        if p * p <= n && n % (p as int) == 0 && n > k {
                            lemma_no_multiple_between(k as int, n, p as int);
                            if n >= k + p {
                                assert(false);
                            }
                        }
                    }
                }
            }
        }
        p = p + 1;
    }
    proof {
        assert(p * p > limit) by {
            lemma_fundamental_div_mod(limit as int, p as int);
            assert(limit < p * (limit / p + 1)) by (nonlinear_arith)
                requires
                    limit == p * (limit / p) + limit % p,
                    limit % p < p,
            ;
            assert(p * (limit / p + 1) <= p * p) by (nonlinear_arith)
                requires
                    limit / p + 1 <= p,
                    p >= 2,
            ;
        }
        assert forall|n: int| 0 <= n < flags.len() implies #[trigger] flags@[n] == prime_flag(n) by {
            if n >= 2 {
                lemma_small_factor_iff_composite(n, p as int);
            }
        }
    }
    flags
}

/// The indices of the nonzero entries of `table`, in increasing order.
pub fn primes_from_sieve(table: &[u8]) -> (primes: Vec<usize>)
    ensures
        forall|i: int| 0 <= i < primes.len() ==> #[trigger] primes[i] < table.len() && table[primes[i] as int] != 0,
        forall|i: int, j: int| 0 <= i < j < primes.len() ==> primes[i] < primes[j],
        forall|n: int| 0 <= n < table.len() && table[n] != 0 ==> #[trigger] primes@.contains(n as usize),
{
    let mut primes: Vec<usize> = Vec::new();
    let mut n: usize = 0;
    while n < table.len()
        invariant
            n <= table.len(),
            forall|i: int| 0 <= i < primes.len() ==> #[trigger] primes[i] < n && table[primes[i] as int] != 0,
            forall|i: int, j: int| 0 <= i < j < primes.len() ==> primes[i] < primes[j],
            forall|m: int| 0 <= m < n && table[m] != 0 ==> #[trigger] primes@.contains(m as usize),
        decreases table.len() - n,
    {
        if table[n] != 0 {
            let ghost before = primes@;
            primes.push(n);
            proof {
                assert(primes@[before.len() as int] == n);
                assert forall|m: int| 0 <= m < n + 1 && table[m] != 0 implies #[trigger] primes@.contains(m as usize) by {
                    if m < n {
                        assert(before.contains(m as usize));
                        let i = choose|i: int| 0 <= i < before.len() && before[i] == m as usize;
                        assert(primes@[i] == m as usize);
                    } else {
                        assert(primes@[before.len() as int] == m as usize);
                    }
                }
            }
        }
        n = n + 1;
    }
    primes
}

/// Every entry of `values` that is at most `n` comes before every entry
/// above `n`.
pub open spec fn partitioned_at(values: Seq<usize>, n: usize) -> bool {
    forall|i: int, j: int| 0 <= i < j < values.len() && values[j] <= n ==> values[i] <= n
}

/// The number of leading entries of `primes` that are at most `n`, found by
/// bisection: the index of the first entry above `n` where the entries are
/// ordered so that those at most `n` come first.
pub fn first_prime_greater_than(primes: &[usize], n: usize) -> (idx: usize)
    ensures
        idx <= primes.len(),
        partitioned_at(primes@, n) ==> (forall|i: int| 0 <= i < idx ==> primes[i] <= n),
        partitioned_at(primes@, n) ==> (forall|i: int| idx <= i < primes.len() ==> primes[i] > n),
{
    let mut lo: usize = 0;
    let mut hi: usize = primes.len();
    while lo < hi
        invariant
            lo <= hi <= primes.len(),
            partitioned_at(primes@, n) ==> (forall|i: int| 0 <= i < lo ==> primes[i] <= n),
            partitioned_at(primes@, n) ==> (forall|i: int| hi <= i < primes.len() ==> primes[i] > n),
        decreases hi - lo,
    {
        let mid = lo + (hi - lo) / 2;
        if primes[mid] <= n {
            lo = mid + 1;
        } else {
            hi = mid;
        }
    }
    lo
}

/// The first index above `n` whose entry in `table` is nonzero, if there is
/// one.
pub fn next_prime_above(table: &[u8], n: usize) -> (next: Option<usize>)
    requires
        n < usize::MAX,
    ensures
        next matches Some(p) ==> n < p < table.len() && table[p as int] != 0 && (forall|j: int|
            n < j < p ==> table[j] == 0),
        next is None ==> forall|j: int| n < j < table.len() ==> table[j] == 0,
{
    let mut p: usize = n + 1;
    while p < table.len()
        invariant
            n < p,
            forall|j: int| n < j < p && j < table.len() ==> table[j] == 0,
        decreases table.len() - p,
    {
        if table[p] != 0 {
            return Some(p);
        }
        p = p + 1;
    }
    None
}

} // verus!
