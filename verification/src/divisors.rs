use crate::ordered::{as_ints, increasing, lemma_ordered_filter_unique, lists_exactly, ordered_filter};
use crate::primes::{divides, lemma_cofactor};
use vstd::arithmetic::div_mod::*;
use vstd::prelude::*;

verus! {

/// The sum of a sequence of machine integers, taken as an integer.
pub open spec fn seq_sum(values: Seq<usize>) -> int
    decreases values.len(),
{
    if values.len() == 0 {
        0
    } else {
        seq_sum(values.drop_last()) + values.last()
    }
}

/// `values` is strictly increasing.
pub open spec fn strictly_increasing(values: Seq<usize>) -> bool {
    forall|i: int, j: int| 0 <= i < j < values.len() ==> values[i] < values[j]
}

/// `d * d <= n` exactly when `d <= n / d`, for a positive `d`.
proof fn lemma_square_le_iff(d: int, n: int)
    requires
        d > 0,
        n >= 0,
    ensures
        (d * d <= n) <==> (d <= n / d),
{
    lemma_fundamental_div_mod(n, d);
    let q = n / d;
    let r = n % d;
    if d <= q {
        assert(d * d <= d * q) by (nonlinear_arith)
            requires
                0 < d <= q,
        ;
    } else {
        assert(d * (q + 1) <= d * d) by (nonlinear_arith)
            requires
                0 < d,
                q + 1 <= d,
        ;
        assert(n < d * (q + 1)) by (nonlinear_arith)
            requires
                n == d * q + r,
                r < d,
        ;
    }
}

/// The divisors of `n` in increasing order (none for `n == 0`).
pub open spec fn divisor_list(n: int) -> Seq<int> {
    ordered_filter(0, n, divides_pred(n))
}

/// The predicate "divides `n`" as a value.
pub open spec fn divides_pred(n: int) -> spec_fn(int) -> bool {
    |d: int| divides(d, n)
}

/// For a divisor `s` of `n > 0` with cofactor `l = n / s`: `s * l == n`, and
/// two such pairs are ordered oppositely.
proof fn lemma_cofactor_order(s: int, t: int, n: int)
    requires
        n > 0,
        divides(s, n),
        divides(t, n),
        s < t,
    ensures
        n / t < n / s,
{
    lemma_cofactor(s, n);
    lemma_cofactor(t, n);
    let a = n / s;
    let b = n / t;
    if a <= b {
        assert(s * a < t * b) by (nonlinear_arith)
            requires
                0 < s < t,
                0 < a <= b,
        ;
    }
}

/// The divisors of `n`, in increasing order: for `n > 0` every `d` with
/// `1 <= d <= n` and `n % d == 0`, and none for `n == 0`. They are found in
/// pairs `d`, `n / d` with `d * d <= n`.
pub fn divisors_of(n: usize) -> (divisors: Vec<usize>)
    ensures
        as_ints(divisors@) == divisor_list(n as int),
        strictly_increasing(divisors@),
        forall|i: int|
            0 <= i < divisors.len() ==> 1 <= #[trigger] divisors[i] <= n && n % divisors[i] == 0,
        forall|d: int| 1 <= d <= n && (n as int) % d == 0 ==> #[trigger] divisors@.contains(d as usize),
{
    let mut small: Vec<usize> = Vec::new();
    let mut large: Vec<usize> = Vec::new();
    let mut d: usize = 1;
    while d <= n / d
        invariant
            1 <= d,
            n > 0 ==> (d - 1) * (d - 1) <= n,
            n == 0 ==> d == 1 && small.len() == 0 && large.len() == 0,
            strictly_increasing(small@),
            forall|i: int|
                0 <= i < small.len() ==> (#[trigger] small[i]) < d && divides(small[i] as int, n as int)
                    && small[i] * small[i] <= n,
            forall|e: int| 1 <= e < d && divides(e, n as int) ==> #[trigger] small@.contains(e as usize),
            forall|i: int, j: int| 0 <= i < j < large.len() ==> large[i] > large[j],
            forall|i: int|
                0 <= i < large.len() ==> divides((#[trigger] large[i]) as int, n as int) && large[i]
                    * large[i] > n && large[i] * d > n,
            forall|i: int|
                0 <= i < small.len() ==> (n / #[trigger] small[i] == small[i] || large@.contains(
                    (n / small[i]) as usize)),
        decreases n + 1 - d,
    {
        let ghost large_before = large@;
        proof {
            lemma_square_le_iff(d as int, n as int);
            assert(d <= n) by (nonlinear_arith)
                requires
                    d * d <= n,
                    d >= 1,
            ;
            if d >= 2 {
                assert(d < d * d) by (nonlinear_arith)
                    requires
                        d >= 2,
                ;
            }
        }
        if n % d == 0 {
            let other = n / d;
            proof {
                lemma_cofactor(d as int, n as int);
            }
            let ghost small0 = small@;
            let ghost large0 = large@;
            small.push(d);
            if other != d {
                proof {
                    assert(d <= other);
                    assert(other * other > n) by (nonlinear_arith)
                        requires
                            d < other,
                            d * other == n,
                    ;
                    assert(other * (d + 1) > n) by (nonlinear_arith)
                        requires
                            d < other,
                            d * other == n,
                            d >= 1,
                    ;
                    assert forall|i: int| 0 <= i < large0.len() implies large0[i] > other by {
                        assert(large0[i] * d > n);
                        assert(large0[i] > other) by (nonlinear_arith)
                            requires
                                large0[i] * d > n,
                                d * other == n,
                                d >= 1,
                        ;
                    }
                }
                large.push(other);
                proof {
                    assert(large@[large0.len() as int] == other);
                    assert(other * d == n) by (nonlinear_arith)
                        requires
                            d * other == n,
                    ;
                }
            }
            proof {
                assert forall|i: int| 0 <= i < small.len() implies (n / #[trigger] small[i] == small[i]
                    || large@.contains((n / small[i]) as usize)) by {
                    if i < small0.len() {
                        if n / small0[i] != small0[i] {
                            assert(large0.contains((n / small0[i]) as usize));
                            let j = choose|j: int| 0 <= j < large0.len() && large0[j] == (n / small0[i]) as usize;
                            assert(large@[j] == large0[j]);
                        }
                    }
                }
                assert forall|e: int| 1 <= e < d + 1 && divides(e, n as int) implies #[trigger] small@.contains(e as usize) by {
                    if e < d {
                        assert(small0.contains(e as usize));
                        let j = choose|j: int| 0 <= j < small0.len() && small0[j] == e as usize;
                        assert(small@[j] == small0[j]);
                    } else {
                        assert(small@[small0.len() as int] == d);
                    }
                }
            }
        }
        proof {
            assert(forall|i: int| large_before.len() <= i < large.len() ==> large[i] * d == n);
            assert forall|i: int| 0 <= i < large.len() implies divides((#[trigger] large[i]) as int, n as int)
                && large[i] * large[i] > n && large[i] * (d + 1) > n by {
                if i < large_before.len() {
                    assert(large[i] == large_before[i]);
                }
                assert(large[i] * (d + 1) > n) by (nonlinear_arith)
                    requires
                        large[i] * large[i] > n,
                        large[i] * d >= n,
                        d >= 1,
                ;
            }
        }
        d = d + 1;
    }
    proof {
        if n > 0 {
            lemma_square_le_iff(d as int, n as int);
        }
    }
    let ghost small_final = small@;
    let mut divisors = small;
    let mut k: usize = large.len();
    while k > 0
        invariant
            k <= large.len(),
            divisors.len() == small_final.len() + (large.len() - k),
            forall|i: int| 0 <= i < small_final.len() ==> divisors[i] == small_final[i],
            forall|i: int|
                small_final.len() <= i < divisors.len() ==> divisors[i] == large[large.len() - 1
                    - (i - small_final.len())],
        decreases k,
    {
        k = k - 1;
        divisors.push(large[k]);
    }
    proof {
        assert forall|i: int, j: int| 0 <= i < j < divisors.len() implies divisors[i] < divisors[j] by {
            if j < small_final.len() {
                assert(divisors[i] == small_final[i]);
                assert(divisors[j] == small_final[j]);
            } else if i >= small_final.len() {
                let mi = large.len() - 1 - (i - small_final.len());
                let mj = large.len() - 1 - (j - small_final.len());
                assert(divisors[i] == large[mi]);
                assert(divisors[j] == large[mj]);
            } else {
                let l = divisors[j];
                let s = divisors[i];
                assert(s == small_final[i]);
                assert(s * s <= n);
                let m = large.len() - 1 - (j - small_final.len());
                assert(l == large[m]);
                assert(l * l > n);
                assert(s < l) by (nonlinear_arith)
                    requires
                        s * s <= n,
                        l * l > n,
                ;
            }
        }
        assert forall|i: int| 0 <= i < divisors.len() implies 1 <= #[trigger] divisors[i] <= n && n
            % divisors[i] == 0 by {
            if i < small_final.len() {
                assert(divisors[i] == small_final[i]);
            } else {
                let m = large.len() - 1 - (i - small_final.len());
                assert(divisors[i] == large[m]);
            }
            lemma_cofactor(divisors[i] as int, n as int);
        }
        assert forall|e: int| 1 <= e <= n && (n as int) % e == 0 implies #[trigger] divisors@.contains(e as usize) by {
            assert(divides(e, n as int));
            if e < d {
                assert(small_final.contains(e as usize));
                let j = choose|j: int| 0 <= j < small_final.len() && small_final[j] == e as usize;
                assert(divisors[j] == small_final[j]);
            } else {
                lemma_cofactor(e, n as int);
                let f = n as int / e;
                assert(e * e > n) by (nonlinear_arith)
                    requires
                        e >= d,
                        d * d > n,
                        d >= 1,
                ;
                assert(f < e) by (nonlinear_arith)
                    requires
                        e * f == n,
                        e * e > n,
                        e > 0,
                ;
                assert(f < d) by (nonlinear_arith)
                    requires
                        e * f == n,
                        f > 0,
                        d * d > n,
                        d >= 1,
                        e >= d,
                ;
                assert(small_final.contains(f as usize));
                let j = choose|j: int| 0 <= j < small_final.len() && small_final[j] == f as usize;
                lemma_cofactor(f, n as int);
                assert(n as int / f == e) by {
                    lemma_fundamental_div_mod_converse(n as int, f, e, 0);
                }
                assert(large@.contains(e as usize));
                let m = choose|m: int| 0 <= m < large.len() && large[m] == e as usize;
                let pos = small_final.len() + (large.len() - 1 - m);
                assert(divisors[pos] == e as usize);
            }
        }
        let ints = as_ints(divisors@);
        let pred = divides_pred(n as int);
        assert forall|i: int| 0 <= i < ints.len() implies 0 < #[trigger] ints[i] <= n && pred(ints[i]) by {
            assert(ints[i] == divisors[i] as int);
        }
        assert forall|k: int| 0 < k <= n && pred(k) implies #[trigger] ints.contains(k) by {
            assert(divisors@.contains(k as usize));
            let j = choose|j: int| 0 <= j < divisors.len() && divisors[j] == k as usize;
            assert(ints[j] == k);
        }
        assert(increasing(ints));
        assert(lists_exactly(ints, 0, n as int, pred));
        lemma_ordered_filter_unique(ints, 0, n as int, pred);
    }
    divisors
}

/// The running sums of `values`: entry `i` is the sum of the first `i + 1`
/// values.
pub fn prefix_sums(values: &[usize]) -> (sums: Vec<usize>)
    requires
        seq_sum(values@) <= usize::MAX,
    ensures
        sums.len() == values.len(),
        forall|i: int| 0 <= i < values.len() ==> #[trigger] sums[i] == seq_sum(values@.take(i + 1)),
{
    let mut sums: Vec<usize> = Vec::new();
    let mut running: usize = 0;
    let mut i: usize = 0;
    while i < values.len()
        invariant
            i <= values.len(),
            sums.len() == i,
            running == seq_sum(values@.take(i as int)),
            seq_sum(values@) <= usize::MAX,
            forall|j: int| 0 <= j < i ==> #[trigger] sums[j] == seq_sum(values@.take(j + 1)),
        decreases values.len() - i,
    {
        proof {
            assert(values@.take(i + 1).drop_last() =~= values@.take(i as int));
            lemma_seq_sum_prefix_le(values@, i + 1);
        }
        running = running + values[i];
        sums.push(running);
        i = i + 1;
    }
    sums
}

/// The sum of a prefix is at most the sum of the whole sequence.
pub proof fn lemma_seq_sum_prefix_le(values: Seq<usize>, k: int)
    requires
        0 <= k <= values.len(),
    ensures
        seq_sum(values.take(k)) <= seq_sum(values),
    decreases values.len(),
{
    if k < values.len() {
        assert(values.drop_last().take(k) =~= values.take(k));
        lemma_seq_sum_prefix_le(values.drop_last(), k);
    } else {
        assert(values.take(k) =~= values);
    }
}

} // verus!
