use crate::bq::bq_rep;
use crate::divisors::{divides_pred, divisor_list};
use crate::subset_sums::{is_subset_sum, lemma_int_sum_nonneg};
use crate::ordered::{
    increasing,
    int_sum,
    lemma_int_sum_concat,
    lemma_int_sum_scale,
    lemma_ordered_filter_members,
    lemma_ordered_filter_split,
    lemma_ordered_filter_unique,
    lists_exactly,
    ordered_filter,
};
use crate::primes::{divides, is_prime, lemma_cofactor, lemma_divides_transitive};
use vstd::arithmetic::div_mod::*;
use vstd::arithmetic::mul::*;
use vstd::prelude::*;

verus! {

/// `n` is represented: it is the sum of the first `k` divisors of some
/// `m >= 1`, for some `k >= 1`.
pub open spec fn is_divisor_prefix_sum(n: int) -> bool {
    exists|m: int, k: int|
        m >= 1 && 1 <= k <= divisor_list(m).len() && n == #[trigger] int_sum(
            divisor_list(m).take(k),
        )
}

/// `d` divides `n` exactly when `n = d * c` for some `c`.
pub proof fn lemma_divides_product(d: int, c: int)
    requires
        d > 0,
    ensures
        divides(d, d * c),
        (d * c) / d == c,
{
    lemma_mod_multiples_basic(c, d);
    lemma_mul_is_commutative(c, d);
    lemma_div_multiples_vanish(c, d);
}

/// A positive multiple of a divisor: if `d` divides `n` then `d` divides
/// `n * k`.
pub proof fn lemma_divides_multiple(d: int, n: int, k: int)
    requires
        divides(d, n),
    ensures
        divides(d, n * k),
{
    lemma_fundamental_div_mod(n, d);
    let c = n / d;
    assert(n * k == d * (c * k)) by {
        lemma_mul_is_associative(d, c, k);
    }
    lemma_divides_product(d, c * k);
}

/// If `d` divides `x` and `y` then `d` divides `x - y`.
proof fn lemma_divides_difference(d: int, x: int, y: int)
    requires
        divides(d, x),
        divides(d, y),
    ensures
        divides(d, x - y),
{
    lemma_fundamental_div_mod(x, d);
    lemma_fundamental_div_mod(y, d);
    let a = x / d;
    let b = y / d;
    assert(x - y == d * (a - b)) by {
        lemma_mul_is_distributive_sub(d, a, b);
    }
    lemma_divides_product(d, a - b);
}

/// Euclid's lemma for `0 < a < p`: if the prime `p` divides `a * b` then it
/// divides `b`.
proof fn lemma_euclid_small(p: int, a: int, b: int)
    requires
        is_prime(p),
        0 < a < p,
        divides(p, a * b),
    ensures
        divides(p, b),
    decreases a,
{
    if a == 1 {
        assert(a * b == b) by (nonlinear_arith)
            requires
                a == 1,
        ;
    } else {
        let r = p % a;
        let q = p / a;
        lemma_fundamental_div_mod(p, a);
        assert(!divides(a, p));
        assert(r != 0);
        assert(0 < r < a) by {
            lemma_mod_bound(p, a);
        }
        // r * b = p * b - q * (a * b)
        assert(r * b == p * b - q * (a * b)) by {
            assert(r == p - a * q);
            lemma_mul_is_distributive_sub_other_way(b, p, a * q);
            lemma_mul_is_associative(a, q, b);
            lemma_mul_is_commutative(a, q);
            lemma_mul_is_associative(q, a, b);
        }
        lemma_divides_product(p, b);
        lemma_divides_multiple(p, a * b, q);
        lemma_mul_is_commutative(a * b, q);
        lemma_divides_difference(p, p * b, q * (a * b));
        lemma_euclid_small(p, r, b);
    }
}

/// Euclid's lemma: if a prime divides a product of two nonnegative
/// integers, it divides one of them.
pub proof fn lemma_euclid(p: int, a: int, b: int)
    requires
        is_prime(p),
        a >= 0,
        b >= 0,
        divides(p, a * b),
    ensures
        divides(p, a) || divides(p, b),
{
    if !divides(p, a) {
        let r = a % p;
        lemma_fundamental_div_mod(a, p);
        assert(0 < r < p) by {
            lemma_mod_bound(a, p);
        }
        // r * b = a * b - (a / p) * p * b
        let q = a / p;
        assert(r * b == a * b - p * (q * b)) by {
            assert(r == a - p * q);
            lemma_mul_is_distributive_sub_other_way(b, a, p * q);
            lemma_mul_is_associative(p, q, b);
        }
        lemma_divides_product(p, q * b);
        lemma_divides_difference(p, a * b, p * (q * b));
        lemma_euclid_small(p, r, b);
    }
}

/// Cancelling a positive factor: if `c * x == c * y` then `x == y`.
proof fn lemma_cancel(c: int, x: int, y: int)
    requires
        c > 0,
        c * x == c * y,
    ensures
        x == y,
{
    if x < y {
        assert(c * x < c * y) by (nonlinear_arith)
            requires
                c > 0,
                x < y,
        ;
    } else if x > y {
        assert(c * x > c * y) by (nonlinear_arith)
            requires
                c > 0,
                x > y,
        ;
    }
}

/// A divisor `e` of `n * p`, `p` prime: either `p` divides `e` and `e / p`
/// divides `n`, or `e` divides `n`.
pub proof fn lemma_divisor_of_prime_multiple(n: int, p: int, e: int)
    requires
        n >= 1,
        is_prime(p),
        divides(e, n * p),
    ensures
        divides(p, e) ==> divides(e / p, n) && e == p * (e / p) && e / p >= 1,
        !divides(p, e) ==> divides(e, n),
{
    assert(n * p > 0) by (nonlinear_arith)
        requires
            n >= 1,
            p >= 2,
    ;
    lemma_cofactor(e, n * p);
    let f = (n * p) / e;
    if divides(p, e) {
        lemma_cofactor(p, e);
        let e1 = e / p;
        // n * p == p * e1 * f, so n == e1 * f
        assert(p * n == p * (e1 * f)) by {
            lemma_mul_is_commutative(n, p);
            lemma_mul_is_associative(p, e1, f);
        }
        lemma_cancel(p, n, e1 * f);
        lemma_mul_is_commutative(e1, f);
        lemma_divides_product(e1, f);
    } else {
        // p divides e * f, not e, so p divides f
        lemma_divides_product(p, n);
        lemma_mul_is_commutative(n, p);
        assert(e >= 0 && f >= 0);
        lemma_euclid(p, e, f);
        lemma_cofactor(p, f);
        let f1 = f / p;
        assert(p * n == p * (e * f1)) by {
            lemma_mul_is_commutative(n, p);
            lemma_mul_is_associative(e, p, f1);
            lemma_mul_is_commutative(e, p);
            lemma_mul_is_associative(p, e, f1);
        }
        lemma_cancel(p, n, e * f1);
        lemma_divides_product(e, f1);
    }
}

/// The divisors of `b * q`, for a prime `q > b`: the divisors `d` of `b`
/// followed by the products `q * d`, both in increasing order.
pub proof fn lemma_bq_divisors(b: int, q: int)
    requires
        b >= 1,
        is_prime(q),
        q > b,
    ensures
        divisor_list(b * q) == divisor_list(b) + divisor_list(b).map_values(|d: int| q * d),
{
    let ds = divisor_list(b);
    let scaled = ds.map_values(|d: int| q * d);
    let s = ds + scaled;
    let n = b * q;
    lemma_ordered_filter_members(0, b, divides_pred(b));
    assert(b <= n) by (nonlinear_arith)
        requires
            b >= 1,
            q >= 2,
            n == b * q,
    ;
    assert forall|i: int, j: int| 0 <= i < j < s.len() implies s[i] < s[j] by {
        let len = ds.len() as int;
        if j < len {
        } else if i >= len {
            let di = ds[i - len];
            let dj = ds[j - len];
            assert(di < dj);
            assert(q * di < q * dj) by (nonlinear_arith)
                requires
                    q > 0,
                    di < dj,
            ;
        } else {
            let dj = ds[j - len];
            assert(ds[i] <= b);
            assert(q * dj >= q) by (nonlinear_arith)
                requires
                    q > 0,
                    dj >= 1,
            ;
        }
    }
    assert forall|i: int| 0 <= i < s.len() implies 0 < #[trigger] s[i] <= n && divides_pred(n)(s[i]) by {
        let len = ds.len() as int;
        if i < len {
            lemma_divides_multiple(ds[i], b, q);
        } else {
            let d = ds[i - len];
            lemma_cofactor(d, b);
            let c = b / d;
            assert(n == (q * d) * c) by {
                lemma_mul_is_commutative(d, c);
                lemma_mul_is_associative(q, d, c);
                lemma_mul_is_commutative(b, q);
            }
            assert(q * d > 0) by (nonlinear_arith)
                requires
                    q > 0,
                    d > 0,
            ;
            lemma_divides_product(q * d, c);
            assert(q * d <= q * b) by (nonlinear_arith)
                requires
                    q > 0,
                    d <= b,
            ;
            lemma_mul_is_commutative(q, b);
        }
    }
    assert forall|e: int| 0 < e <= n && divides_pred(n)(e) implies #[trigger] s.contains(e) by {
        lemma_divisor_of_prime_multiple(b, q, e);
        if divides(q, e) {
            let e1 = e / q;
            lemma_cofactor(e1, b);
            assert(divides_pred(b)(e1));
            assert(ds.contains(e1));
            let j = choose|j: int| 0 <= j < ds.len() && ds[j] == e1;
            assert(s[ds.len() + j] == e);
        } else {
            lemma_cofactor(e, b);
            assert(divides_pred(b)(e));
            assert(ds.contains(e));
            let j = choose|j: int| 0 <= j < ds.len() && ds[j] == e;
            assert(s[j] == e);
        }
    }
    assert(increasing(s));
    assert(lists_exactly(s, 0, n, divides_pred(n)));
    lemma_ordered_filter_unique(s, 0, n, divides_pred(n));
}

/// The gadget of the divisor-prefix search: `sigma(b) + q * (d_1 + ... +
/// d_k)`, with `q > b` prime, is the sum of the first `len + k` divisors of
/// `b * q`, `len` being the number of divisors of `b`.
pub proof fn lemma_bq_rep_is_divisor_prefix_sum(n: int, b: int, k: int, q: int)
    requires
        bq_rep(n, b, k, q),
    ensures
        n == int_sum(divisor_list(b * q).take(divisor_list(b).len() + k)),
        is_divisor_prefix_sum(n),
{
    lemma_bq_divisors(b, q);
    let ds = divisor_list(b);
    let all = divisor_list(b * q);
    let len = ds.len() as int;
    assert(all.take(len + k) =~= ds + ds.take(k).map_values(|d: int| q * d));
    lemma_int_sum_concat(ds, ds.take(k).map_values(|d: int| q * d));
    lemma_int_sum_scale(ds.take(k), q);
    assert(b * q >= 1) by (nonlinear_arith)
        requires
            b >= 1,
            q >= 2,
    ;
    assert(1 <= len + k <= all.len());
}

/// The product of a sequence of integers.
pub open spec fn seq_product(values: Seq<int>) -> int
    decreases values.len(),
{
    if values.len() == 0 {
        1
    } else {
        seq_product(values.drop_last()) * values.last()
    }
}

/// The product of primes `p` with `m < p <= x < m * m`: among the numbers
/// up to `x`, its divisors are exactly 1 and the primes themselves, since a
/// divisor with two prime factors exceeds `m * m`.
pub proof fn lemma_prime_product_small_divisors(primes: Seq<int>, m: int, x: int)
    requires
        m >= 1,
        x < m * m,
        forall|i: int| 0 <= i < primes.len() ==> is_prime(#[trigger] primes[i]) && m < primes[i] <= x,
    ensures
        seq_product(primes) >= 1,
        forall|e: int|
            0 < e <= x ==> (divides(e, seq_product(primes)) <==> (e == 1 || #[trigger] primes.contains(
                e,
            ))),
    decreases primes.len(),
{
    if primes.len() == 0 {
        assert forall|e: int| 0 < e <= x implies (divides(e, seq_product(primes)) <==> (e == 1
            || #[trigger] primes.contains(e))) by {
            if divides(e, 1) {
                lemma_cofactor(e, 1);
            }
        }
    } else {
        let init = primes.drop_last();
        let p = primes.last();
        lemma_prime_product_small_divisors(init, m, x);
        let n = seq_product(init);
        assert(primes[primes.len() - 1] == p);
        assert(n * p >= 1) by (nonlinear_arith)
            requires
                n >= 1,
                p >= 2,
        ;
        assert forall|e: int| 0 < e <= x implies (divides(e, n * p) <==> (e == 1
            || #[trigger] primes.contains(e))) by {
            if divides(e, n * p) {
                lemma_divisor_of_prime_multiple(n, p, e);
                if divides(p, e) {
                    let e1 = e / p;
                    if e1 == 1 {
                        assert(e == p) by (nonlinear_arith)
                            requires
                                e == p * e1,
                                e1 == 1,
                        ;
                        assert(primes[primes.len() - 1] == e);
                    } else {
                        if e1 <= x {
                            assert(init.contains(e1));
                        }
                        assert(e1 > m);
                        assert(p * e1 > m * m) by (nonlinear_arith)
                            requires
                                p > m,
                                e1 > m,
                                m >= 1,
                        ;
                    }
                } else {
                    if init.contains(e) {
                        let j = choose|j: int| 0 <= j < init.len() && init[j] == e;
                        assert(primes[j] == e);
                    }
                }
            }
            if e == 1 {
                lemma_divides_product(1, n * p);
            } else if primes.contains(e) {
                let j = choose|j: int| 0 <= j < primes.len() && primes[j] == e;
                if j == primes.len() - 1 {
                    lemma_divides_product(p, n);
                    lemma_mul_is_commutative(p, n);
                } else {
                    assert(init[j] == e);
                    assert(init.contains(e));
                    lemma_divides_multiple(e, n, p);
                }
            }
        }
    }
}

/// Removing entry `j` takes it off the sum.
pub proof fn lemma_int_sum_remove(values: Seq<int>, j: int)
    requires
        0 <= j < values.len(),
    ensures
        int_sum(values) == int_sum(values.remove(j)) + values[j],
{
    let before = values.take(j);
    let after = values.skip(j + 1);
    assert(values =~= before + (seq![values[j]] + after));
    assert(values.remove(j) =~= before + after);
    lemma_int_sum_concat(before, seq![values[j]] + after);
    lemma_int_sum_concat(seq![values[j]], after);
    lemma_int_sum_concat(before, after);
    assert(int_sum(seq![values[j]]) == values[j]) by {
        reveal_with_fuel(int_sum, 2);
        assert(seq![values[j]].drop_last() =~= Seq::<int>::empty());
    }
}

/// Two sequences without repetitions that hold the same integers have the
/// same length and the same sum.
pub proof fn lemma_same_elements(a: Seq<int>, b: Seq<int>)
    requires
        a.no_duplicates(),
        b.no_duplicates(),
        forall|v: int| a.contains(v) <==> #[trigger] b.contains(v),
    ensures
        a.len() == b.len(),
        int_sum(a) == int_sum(b),
    decreases a.len(),
{
    if a.len() == 0 {
        if b.len() > 0 {
            assert(b.contains(b[0]));
        }
    } else {
        let v = a.last();
        assert(a.contains(v));
        assert(b.contains(v));
        let j = choose|j: int| 0 <= j < b.len() && b[j] == v;
        let a2 = a.drop_last();
        let b2 = b.remove(j);
        assert forall|w: int| a2.contains(w) <==> #[trigger] b2.contains(w) by {
            if a2.contains(w) {
                let i = choose|i: int| 0 <= i < a2.len() && a2[i] == w;
                assert(a[i] == w);
                assert(i != a.len() - 1);
                assert(w != v);
                assert(b.contains(w));
                let k = choose|k: int| 0 <= k < b.len() && b[k] == w;
                assert(k != j);
                if k < j {
                    assert(b2[k] == w);
                } else {
                    assert(b2[k - 1] == w);
                }
            }
            if b2.contains(w) {
                let k = choose|k: int| 0 <= k < b2.len() && b2[k] == w;
                let kb = if k < j {
                    k
                } else {
                    k + 1
                };
                assert(b[kb] == w);
                assert(kb != j);
                assert(w != v);
                assert(b.contains(w));
                assert(a.contains(w));
                let i = choose|i: int| 0 <= i < a.len() && a[i] == w;
                assert(i != a.len() - 1);
                assert(a2[i] == w);
            }
        }
        assert(b2.no_duplicates()) by {
            assert forall|x: int, y: int| 0 <= x < b2.len() && 0 <= y < b2.len() && x != y implies b2[x]
                != b2[y] by {
                let bx = if x < j {
                    x
                } else {
                    x + 1
                };
                let by = if y < j {
                    y
                } else {
                    y + 1
                };
                assert(b[bx] == b2[x] && b[by] == b2[y]);
            }
        }
        lemma_same_elements(a2, b2);
        lemma_int_sum_remove(b, j);
    }
}

/// The prime-window gadget: for distinct primes `p_1, ..., p_t` with
/// `m < p_i <= x < m * m`, the first `t + 1` divisors of their product are
/// 1 and the primes, so `1 + p_1 + ... + p_t` is represented.
pub proof fn lemma_prime_product_prefix(primes: Seq<int>, m: int, x: int)
    requires
        m >= 1,
        x >= 1,
        x < m * m,
        primes.no_duplicates(),
        forall|i: int| 0 <= i < primes.len() ==> is_prime(#[trigger] primes[i]) && m < primes[i] <= x,
    ensures
        1 + int_sum(primes) == int_sum(divisor_list(seq_product(primes)).take(primes.len() as int + 1)),
        is_divisor_prefix_sum(1 + int_sum(primes)),
{
    lemma_prime_product_small_divisors(primes, m, x);
    let n = seq_product(primes);
    let pred = divides_pred(n);
    let y = if x < n {
        x
    } else {
        n
    };
    let small = ordered_filter(0, y, pred);
    lemma_ordered_filter_members(0, y, pred);
    lemma_ordered_filter_split(0, y, n, pred);
    let whole = divisor_list(n);
    let listed = seq![1int] + primes;
    assert(small.no_duplicates()) by {
        assert forall|i: int, j: int| 0 <= i < small.len() && 0 <= j < small.len() && i != j implies small[i]
            != small[j] by {
            if i < j {
                assert(small[i] < small[j]);
            } else {
                assert(small[j] < small[i]);
            }
        }
    }
    assert(listed.no_duplicates()) by {
        assert forall|i: int, j: int| 0 <= i < listed.len() && 0 <= j < listed.len() && i != j implies listed[i]
            != listed[j] by {
            if i > 0 && j > 0 {
                assert(listed[i] == primes[i - 1] && listed[j] == primes[j - 1]);
            } else if i == 0 {
                assert(listed[j] == primes[j - 1]);
            } else {
                assert(listed[i] == primes[i - 1]);
            }
        }
    }
    assert forall|v: int| small.contains(v) <==> #[trigger] listed.contains(v) by {
        if small.contains(v) {
            let i = choose|i: int| 0 <= i < small.len() && small[i] == v;
            assert(0 < v <= y && pred(v));
            if v == 1 {
                assert(listed[0] == v);
            } else {
                assert(primes.contains(v));
                let j = choose|j: int| 0 <= j < primes.len() && primes[j] == v;
                assert(listed[j + 1] == v);
            }
        }
        if listed.contains(v) {
            let i = choose|i: int| 0 <= i < listed.len() && listed[i] == v;
            if i == 0 {
                lemma_divides_product(1, n);
                assert(1 <= y);
            } else {
                assert(primes[i - 1] == v);
                assert(primes.contains(v));
                assert(divides(v, n));
                lemma_cofactor(v, n);
            }
            assert(0 < v <= y && pred(v));
        }
    }
    lemma_same_elements(small, listed);
    assert(whole.take(primes.len() as int + 1) =~= small);
    lemma_int_sum_concat(seq![1int], primes);
    assert(int_sum(seq![1int]) == 1) by {
        reveal_with_fuel(int_sum, 2);
        assert(seq![1int].drop_last() =~= Seq::<int>::empty());
    }
    assert(1 <= primes.len() + 1 <= whole.len());
}

/// A subset summing to `t`, in increasing order, picked from an increasing
/// sequence whose subset sums include `t`.
pub proof fn lemma_subset_witness(values: Seq<int>, t: int) -> (picked: Seq<int>)
    requires
        is_subset_sum(values, t),
        increasing(values),
    ensures
        increasing(picked),
        forall|i: int| 0 <= i < picked.len() ==> values.contains(#[trigger] picked[i]),
        int_sum(picked) == t,
    decreases values.len(),
{
    if values.len() == 0 {
        Seq::empty()
    } else {
        let init = values.drop_last();
        let last = values.last();
        assert(increasing(init));
        if is_subset_sum(init, t) {
            let w = lemma_subset_witness(init, t);
            assert forall|i: int| 0 <= i < w.len() implies values.contains(#[trigger] w[i]) by {
                let j = choose|j: int| 0 <= j < init.len() && init[j] == w[i];
                assert(values[j] == w[i]);
            }
            w
        } else {
            let w = lemma_subset_witness(init, t - last);
            let picked = w.push(last);
            assert forall|i: int| 0 <= i < w.len() implies #[trigger] w[i] < last && values.contains(w[i]) by {
                let j = choose|j: int| 0 <= j < init.len() && init[j] == w[i];
                assert(values[j] == w[i]);
                assert(values[j] < values[values.len() - 1]);
            }
            assert forall|i: int| 0 <= i < picked.len() implies values.contains(#[trigger] picked[i]) by {
                if i == w.len() {
                    assert(values[values.len() - 1] == last);
                } else {
                    assert(picked[i] == w[i]);
                }
            }
            assert forall|i: int, j: int| 0 <= i < j < picked.len() implies picked[i] < picked[j] by {
                if j == w.len() {
                    assert(picked[i] == w[i]);
                } else {
                    assert(picked[i] == w[i] && picked[j] == w[j]);
                }
            }
            assert(picked.drop_last() =~= w);
            picked
        }
    }
}

/// Every subset sum `t` of the primes of a window `(m, x]` with `x < m * m`
/// gives a representation of `t + 1`: the product of the primes of the
/// subset has them, after 1, as its first divisors.
pub proof fn lemma_window_subset_sum_represented(m: int, x: int, t: int)
    requires
        m >= 1,
        x >= 1,
        x < m * m,
        is_subset_sum(crate::primes::primes_between(m, x), t),
    ensures
        is_divisor_prefix_sum(t + 1),
{
    let window = crate::primes::primes_between(m, x);
    lemma_ordered_filter_members(m, x, crate::primes::prime_pred());
    let picked = lemma_subset_witness(window, t);
    assert(picked.no_duplicates()) by {
        assert forall|i: int, j: int| 0 <= i < picked.len() && 0 <= j < picked.len() && i != j implies picked[i]
            != picked[j] by {
            if i < j {
                assert(picked[i] < picked[j]);
            } else {
                assert(picked[j] < picked[i]);
            }
        }
    }
    assert forall|i: int| 0 <= i < picked.len() implies is_prime(#[trigger] picked[i]) && m < picked[i] <= x by {
        assert(window.contains(picked[i]));
        let j = choose|j: int| 0 <= j < window.len() && window[j] == picked[i];
        assert(crate::primes::prime_pred()(window[j]));
    }
    lemma_prime_product_prefix(picked, m, x);
}

/// The seed gadget: a certificate of distinct primes strictly between `m`
/// and `2 * m` summing to `n`, `m >= 2`, gives a representation of `n + 1`
/// (the primes are below `m * m`).
pub proof fn lemma_certificate_represented(values: Seq<int>, n: int, m: int)
    requires
        m >= 2,
        crate::seed::prime_certificate(values, n, m),
    ensures
        is_divisor_prefix_sum(n + 1),
{
    assert(2 * m - 1 < m * m) by (nonlinear_arith)
        requires
            m >= 2,
    ;
    assert(values.no_duplicates()) by {
        assert forall|i: int, j: int| 0 <= i < values.len() && 0 <= j < values.len() && i != j implies values[i]
            != values[j] by {
            if i < j {
                assert(values[i] != values[j]);
            } else {
                assert(values[j] != values[i]);
            }
        }
    }
    lemma_prime_product_prefix(values, m, 2 * m - 1);
}

/// The first divisors of any `m >= 1`: 1 first, then the least divisor
/// above 1, which is never 4 (2 would come before it), then a third one of
/// at least 3.
proof fn lemma_first_divisors(m: int)
    requires
        m >= 1,
    ensures
        divisor_list(m).len() >= 1,
        divisor_list(m)[0] == 1,
        divisor_list(m).len() >= 2 ==> divisor_list(m)[1] >= 2 && divisor_list(m)[1] != 4,
        divisor_list(m).len() >= 3 ==> divisor_list(m)[2] >= 3,
        forall|i: int| 0 <= i < divisor_list(m).len() ==> #[trigger] divisor_list(m)[i] >= 1,
{
    let ds = divisor_list(m);
    lemma_ordered_filter_members(0, m, divides_pred(m));
    lemma_divides_product(1, m);
    assert(divides_pred(m)(1));
    assert(ds.contains(1));
    let j = choose|j: int| 0 <= j < ds.len() && ds[j] == 1;
    if j > 0 {
        assert(ds[0] < ds[j]);
    }
    if ds.len() >= 2 && ds[1] == 4 {
        assert(divides(4, m));
        lemma_divides_product(2, 2);
        lemma_divides_transitive(2, 4, m);
        lemma_cofactor(2, m);
        assert(divides_pred(m)(2));
        assert(ds.contains(2));
        let i = choose|i: int| 0 <= i < ds.len() && ds[i] == 2;
        if i >= 2 {
            assert(ds[1] < ds[i]);
        }
    }
    if ds.len() >= 3 {
        assert(ds[1] < ds[2]);
    }
}

/// 1, 3 and 4 are represented, by `m = 1, 2, 3`.
pub proof fn lemma_one_three_four_represented()
    ensures
        is_divisor_prefix_sum(1),
        is_divisor_prefix_sum(3),
        is_divisor_prefix_sum(4),
{
    reveal_with_fuel(int_sum, 3);
    lemma_first_divisors(1);
    let d1 = divisor_list(1);
    assert(d1.take(1) =~= seq![1int]);
    assert(seq![1int].drop_last() =~= Seq::<int>::empty());
    assert(1int >= 1 && 1 <= 1int <= d1.len() && 1 == int_sum(d1.take(1)));
    let two = 2int;
    let three = 3int;
    assert(is_prime(two));
    assert(is_prime(three));
    lemma_bq_divisors(1, two);
    lemma_bq_divisors(1, three);
    assert(divisor_list(2) =~= seq![1int, 2]) by {
        assert(divisor_list(1) =~= seq![1int]) by {
            lemma_ordered_filter_members(0, 1, divides_pred(1));
        }
    }
    assert(divisor_list(3) =~= seq![1int, 3]) by {
        assert(divisor_list(1) =~= seq![1int]) by {
            lemma_ordered_filter_members(0, 1, divides_pred(1));
        }
    }
    assert(divisor_list(2).take(2) =~= seq![1int, 2]);
    assert(divisor_list(3).take(2) =~= seq![1int, 3]);
    assert(seq![1int, 2].drop_last() =~= seq![1int]);
    assert(seq![1int, 3].drop_last() =~= seq![1int]);
    assert(2int >= 1 && 1 <= 2int <= divisor_list(2).len() && 3 == int_sum(divisor_list(2).take(2)));
    assert(3int >= 1 && 1 <= 2int <= divisor_list(3).len() && 4 == int_sum(divisor_list(3).take(2)));
}

/// 2 and 5 are not represented: a prefix of one divisor sums to 1, of two
/// to `1 + d` with `d` the least divisor above 1 (at least 2, never 4), and
/// of three or more to at least `1 + 2 + 3`.
pub proof fn lemma_two_and_five_not_represented()
    ensures
        !is_divisor_prefix_sum(2),
        !is_divisor_prefix_sum(5),
{
    assert forall|m: int, k: int|
        m >= 1 && 1 <= k <= divisor_list(m).len() implies #[trigger] int_sum(divisor_list(m).take(k))
        != 2 && int_sum(divisor_list(m).take(k)) != 5 by {
        let ds = divisor_list(m);
        lemma_first_divisors(m);
        reveal_with_fuel(int_sum, 4);
        if k == 1 {
            assert(ds.take(1) =~= seq![ds[0]]);
            assert(seq![ds[0]].drop_last() =~= Seq::<int>::empty());
        } else if k == 2 {
            assert(ds.take(2) =~= seq![ds[0], ds[1]]);
            assert(seq![ds[0], ds[1]].drop_last() =~= seq![ds[0]]);
            assert(seq![ds[0]].drop_last() =~= Seq::<int>::empty());
        } else {
            let first3 = ds.take(3);
            assert(first3 =~= seq![ds[0], ds[1], ds[2]]);
            assert(first3.drop_last() =~= seq![ds[0], ds[1]]);
            assert(seq![ds[0], ds[1]].drop_last() =~= seq![ds[0]]);
            assert(seq![ds[0]].drop_last() =~= Seq::<int>::empty());
            let prefix = ds.take(k);
            assert forall|i: int| 0 <= i < prefix.len() implies #[trigger] prefix[i] >= 0 by {
                assert(prefix[i] == ds[i]);
            }
            lemma_int_sum_nonneg(prefix, 3);
            assert(prefix.take(3) =~= first3);
        }
    }
}

} // verus!
