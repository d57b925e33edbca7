use crate::divisors::{divisor_list, divisors_of, lemma_seq_sum_prefix_le, prefix_sums, seq_sum};
use crate::ordered::{
    as_ints,
    int_sum,
    lemma_as_ints_sum,
    lemma_ordered_filter_members,
    lemma_ordered_filter_same,
    lemma_ordered_filter_split,
    ordered_filter,
};
use crate::representation::{is_divisor_prefix_sum, lemma_bq_rep_is_divisor_prefix_sum};
use crate::text::{json_array_text, json_usize_array};
use crate::primes::{
    first_prime_greater_than,
    is_prime,
    is_prime_table,
    prime_flag,
    partitioned_at,
    primes_from_sieve,
    sieve,
};
use vstd::arithmetic::div_mod::*;
use vstd::prelude::*;
use vstd::string::*;

verus! {

/// `n = sigma(b) + q * (d_1 + ... + d_k)`, where `d_1 < d_2 < ...` are the
/// divisors of `b`, `sigma(b)` is their sum, `1 <= k` and `q > b` is prime:
/// the sum of the first divisors of `m = b * q` up to `q * d_k`.
pub open spec fn bq_rep(n: int, b: int, k: int, q: int) -> bool {
    &&& 1 <= b
    &&& 1 <= k <= divisor_list(b).len()
    &&& b < q
    &&& is_prime(q)
    &&& n == int_sum(divisor_list(b)) + q * int_sum(divisor_list(b).take(k))
}

/// `(b, k, q)` comes before `(bb, kk, qq)` in lexicographic order.
pub open spec fn lex_before(b: int, k: int, q: int, bb: int, kk: int, qq: int) -> bool {
    b < bb || (b == bb && (k < kk || (k == kk && q < qq)))
}

/// `n` has a representation `(b, k, q)` that comes before `(bb, kk, qq)`.
pub open spec fn rep_before(n: int, bb: int, kk: int, qq: int) -> bool {
    exists|b: int, k: int, q: int| #[trigger] bq_rep(n, b, k, q) && lex_before(b, k, q, bb, kk, qq)
}

/// `n` has a representation `sigma(b) + q * (d_1 + ... + d_k)` with
/// `b <= max_b`.
pub open spec fn bq_represented(n: int, max_b: int) -> bool {
    exists|b: int, k: int, q: int| #[trigger] bq_rep(n, b, k, q) && b <= max_b
}

/// The number of nonzero entries.
pub open spec fn count_nonzero(s: Seq<u8>) -> int
    decreases s.len(),
{
    if s.len() == 0 {
        0
    } else {
        count_nonzero(s.drop_last()) + if s.last() != 0 {
            1int
        } else {
            0int
        }
    }
}

/// Turning a zero entry into a nonzero one adds one to the count.
pub proof fn lemma_count_update(s: Seq<u8>, i: int, v: u8)
    requires
        0 <= i < s.len(),
        s[i] == 0,
        v != 0,
    ensures
        count_nonzero(s.update(i, v)) == count_nonzero(s) + 1,
    decreases s.len(),
{
    let t = s.update(i, v);
    if i == s.len() - 1 {
        assert(t.drop_last() =~= s.drop_last());
    } else {
        assert(t.drop_last() =~= s.drop_last().update(i, v));
        lemma_count_update(s.drop_last(), i, v);
    }
}

/// The count lies between 0 and the length.
pub proof fn lemma_count_bounds(s: Seq<u8>)
    ensures
        0 <= count_nonzero(s) <= s.len(),
    decreases s.len(),
{
    if s.len() > 0 {
        lemma_count_bounds(s.drop_last());
    }
}

/// The sum of `values` when it is at most `bound`; `None` when it exceeds
/// `bound`.
pub fn bounded_sum(values: &[usize], bound: usize) -> (sum: Option<usize>)
    ensures
        sum is Some <==> seq_sum(values@) <= bound,
        sum matches Some(s) ==> s == seq_sum(values@),
{
    let mut total: usize = 0;
    let mut i: usize = 0;
    while i < values.len()
        invariant
            i <= values.len(),
            total == seq_sum(values@.take(i as int)),
            total <= bound,
        decreases values.len() - i,
    {
        proof {
            assert(values@.take(i + 1).drop_last() =~= values@.take(i as int));
        }
        if values[i] > bound - total {
            proof {
                lemma_seq_sum_prefix_le(values@, i + 1);
            }
            return None;
        }
        total = total + values[i];
        i = i + 1;
    }
    proof {
        assert(values@.take(values.len() as int) =~= values@);
    }
    Some(total)
}

/// A number found by the search, with the representation that found it.
#[derive(Debug, PartialEq, Eq)]
pub struct BqExample {
    pub n: usize,
    pub b: usize,
    pub q: usize,
    pub slope: usize,
    pub sigma: usize,
}

/// `e` records the representation `n = sigma + q * slope` by which the
/// search first found `n`, within `[first, last]`: no representation of `n`
/// comes before it.
pub open spec fn example_sound(e: BqExample, first: int, last: int) -> bool {
    &&& first <= e.n <= last
    &&& e.sigma == int_sum(divisor_list(e.b as int))
    &&& exists|k: int|
        #[trigger] bq_rep(e.n as int, e.b as int, k, e.q as int) && e.slope == int_sum(
            divisor_list(e.b as int).take(k),
        ) && !rep_before(e.n as int, e.b as int, k, e.q as int)
}

/// The representation of `e` comes before `(b, slope, q)` in the search
/// order: by `b`, then by the slope, then by `q`.
pub open spec fn example_before(e: BqExample, b: int, slope: int, q: int) -> bool {
    e.b < b || (e.b == b && (e.slope < slope || (e.slope == slope && e.q < q)))
}

/// The examples come in the order in which the search found them.
pub open spec fn examples_in_order(examples: Seq<BqExample>) -> bool {
    forall|i: int, j: int|
        0 <= i < j < examples.len() ==> example_before(
            #[trigger] examples[i],
            examples[j].b as int,
            examples[j].slope as int,
            #[trigger] examples[j].q as int,
        )
}

/// `n` is among the examples.
pub open spec fn is_example(examples: Seq<BqExample>, n: int) -> bool {
    exists|i: int| 0 <= i < examples.len() && #[trigger] examples[i].n == n
}

/// The examples are the first numbers found: in order, each found, and every
/// other number found was found after the fifth example.
#[verifier::opaque]
pub open spec fn examples_first(covered: Seq<u8>, examples: Seq<BqExample>, last: int) -> bool {
    &&& examples_in_order(examples)
    &&& forall|i: int| 0 <= i < examples.len() ==> covered[#[trigger] examples[i].n as int] != 0
    &&& forall|n: int, b: int, k: int, q: int|
        0 <= n <= last && covered[n] != 0 && #[trigger] bq_rep(n, b, k, q) && !rep_before(n, b, k, q)
            && !is_example(examples, n) ==> examples.len() == 5 && example_before(
            examples[4],
            b,
            int_sum(divisor_list(b).take(k)),
            q,
        )
}

/// The prefix sums of the divisors of `b` strictly increase.
proof fn lemma_slopes_increase(b: int, k1: int, k2: int)
    requires
        b >= 1,
        1 <= k1 < k2 <= divisor_list(b).len(),
    ensures
        int_sum(divisor_list(b).take(k1)) < int_sum(divisor_list(b).take(k2)),
    decreases k2 - k1,
{
    let ds = divisor_list(b);
    lemma_ordered_filter_members(0, b, crate::divisors::divides_pred(b));
    assert(ds.take(k2).drop_last() =~= ds.take(k2 - 1));
    assert(ds.take(k2).last() == ds[k2 - 1]);
    if k1 < k2 - 1 {
        lemma_slopes_increase(b, k1, k2 - 1);
    }
}

/// When `n` was first found with `(b1, k1, q1)` and has a representation
/// before `(b, k, q)`, the first one comes before `(b, k, q)`, also when
/// comparing slopes in place of `k`.
proof fn lemma_first_before(n: int, b1: int, k1: int, q1: int, b: int, k: int, q: int)
    requires
        bq_rep(n, b1, k1, q1),
        !rep_before(n, b1, k1, q1),
        rep_before(n, b, k, q),
        b >= 1,
        1 <= k <= divisor_list(b).len(),
    ensures
        lex_before(b1, k1, q1, b, k, q),
        b1 < b || (b1 == b && (int_sum(divisor_list(b).take(k1)) < int_sum(divisor_list(b).take(k)) || (k1
            == k && q1 < q))),
{
    let (b2, k2, q2) = choose|b2: int, k2: int, q2: int|
        #[trigger] bq_rep(n, b2, k2, q2) && lex_before(b2, k2, q2, b, k, q);
    if !lex_before(b1, k1, q1, b, k, q) {
        assert(lex_before(b2, k2, q2, b1, k1, q1));
        assert(bq_rep(n, b2, k2, q2) && lex_before(b2, k2, q2, b1, k1, q1));
        assert(rep_before(n, b1, k1, q1));
    }
    if b1 == b && k1 < k {
        lemma_slopes_increase(b, k1, k);
    }
}

/// The outcome of the divisor-prefix search over `B = 1..=max_b`.
#[derive(Debug, PartialEq, Eq)]
pub struct SmallBqCover {
    /// Entry `n` is 1 when `n` was found, 0 otherwise.
    pub covered: Vec<u8>,
    /// How many numbers were found.
    pub marked: usize,
    /// The largest `B` that found a number no smaller `B` found.
    pub max_seen_b: usize,
    /// The first numbers found, at most five.
    pub examples: Vec<BqExample>,
}

/// The numbers `q * slope` with `q` a prime above `b` that the search goes
/// through for a fixed slope: those with `sigma + q * slope <= last`.
proof fn lemma_quotient_bound(q: int, slope: int, room: int)
    requires
        slope >= 1,
        room >= 0,
        q >= 0,
    ensures
        q <= room / slope <==> q * slope <= room,
{
    lemma_fundamental_div_mod(room, slope);
    let d = room / slope;
    if q <= d {
        assert(q * slope <= d * slope) by (nonlinear_arith)
            requires
                q <= d,
                slope >= 1,
        ;
        assert(d * slope == slope * d) by (nonlinear_arith);
    } else {
        assert((d + 1) * slope <= q * slope) by (nonlinear_arith)
            requires
                d + 1 <= q,
                slope >= 1,
        ;
        assert((d + 1) * slope == slope * d + slope) by (nonlinear_arith);
    }
}

/// Every representation uses a prime `q` with `q * slope <= n`, and its
/// slope is at least 1.
proof fn lemma_rep_facts(n: int, b: int, k: int, q: int)
    requires
        bq_rep(n, b, k, q),
    ensures
        int_sum(divisor_list(b)) >= 1,
        int_sum(divisor_list(b).take(k)) >= 1,
        int_sum(divisor_list(b).take(k)) <= int_sum(divisor_list(b)),
        q * int_sum(divisor_list(b).take(k)) <= n - int_sum(divisor_list(b)),
        q <= n,
{
    let ds = divisor_list(b);
    lemma_ordered_filter_members(0, b, crate::divisors::divides_pred(b));
    lemma_positive_sum_facts(ds, k);
    let slope = int_sum(ds.take(k));
    assert(q <= q * slope) by (nonlinear_arith)
        requires
            slope >= 1,
            q >= 0,
    ;
}

/// A sequence of positive integers: its nonempty prefixes have positive sums
/// no larger than the whole sum.
proof fn lemma_positive_sum_facts(s: Seq<int>, k: int)
    requires
        1 <= k <= s.len(),
        forall|i: int| 0 <= i < s.len() ==> #[trigger] s[i] > 0,
    ensures
        int_sum(s.take(k)) >= 1,
        int_sum(s.take(k)) <= int_sum(s),
        int_sum(s) >= 1,
    decreases s.len(),
{
    if k == s.len() {
        assert(s.take(k) =~= s);
        if s.len() > 1 {
            lemma_positive_sum_facts(s.drop_last(), k - 1);
        }
    } else {
        assert(s.drop_last().take(k) =~= s.take(k));
        lemma_positive_sum_facts(s.drop_last(), k);
    }
    if s.len() == 1 {
        assert(s.drop_last() =~= Seq::<int>::empty());
    }
}

/// Representations are ordered lexicographically by `(b, k, q)`; having one
/// before a point implies having one before any later point.
pub proof fn lemma_rep_before_mono(n: int, b1: int, k1: int, q1: int, b2: int, k2: int, q2: int)
    requires
        rep_before(n, b1, k1, q1),
        !lex_before(b2, k2, q2, b1, k1, q1),
    ensures
        rep_before(n, b2, k2, q2),
{
    let (b, k, q) = choose|b: int, k: int, q: int|
        #[trigger] bq_rep(n, b, k, q) && lex_before(b, k, q, b1, k1, q1);
    assert(bq_rep(n, b, k, q) && lex_before(b, k, q, b2, k2, q2));
}

/// Before `(b, kk + 1, 0)` come the representations before `(b, kk, 0)` and
/// those with `b` and `kk` themselves.
pub proof fn lemma_rep_before_next_k(n: int, b: int, kk: int)
    requires
        b >= 1,
    ensures
        rep_before(n, b, kk + 1, 0) <==> (rep_before(n, b, kk, 0) || exists|q: int|
            #[trigger] bq_rep(n, b, kk, q)),
{
    if rep_before(n, b, kk + 1, 0) {
        let (b1, k1, q1) = choose|b1: int, k1: int, q1: int|
            #[trigger] bq_rep(n, b1, k1, q1) && lex_before(b1, k1, q1, b, kk + 1, 0);
        if !(b1 == b && k1 == kk) {
            assert(bq_rep(n, b1, k1, q1) && lex_before(b1, k1, q1, b, kk, 0));
        }
    }
    if exists|q: int| #[trigger] bq_rep(n, b, kk, q) {
        let q = choose|q: int| #[trigger] bq_rep(n, b, kk, q);
        assert(bq_rep(n, b, kk, q) && lex_before(b, kk, q, b, kk + 1, 0));
    }
    if rep_before(n, b, kk, 0) {
        lemma_rep_before_mono(n, b, kk, 0, b, kk + 1, 0);
    }
}

/// Past the last prefix of the divisors of `b` comes `b + 1`.
pub proof fn lemma_rep_before_next_b(n: int, b: int)
    requires
        b >= 1,
    ensures
        rep_before(n, b, divisor_list(b).len() as int + 1, 0) <==> rep_before(n, b + 1, 1, 0),
{
    let len = divisor_list(b).len() as int;
    if rep_before(n, b, len + 1, 0) {
        lemma_rep_before_mono(n, b, len + 1, 0, b + 1, 1, 0);
    }
    if rep_before(n, b + 1, 1, 0) {
        let (b1, k1, q1) = choose|b1: int, k1: int, q1: int|
            #[trigger] bq_rep(n, b1, k1, q1) && lex_before(b1, k1, q1, b + 1, 1, 0);
        assert(bq_rep(n, b1, k1, q1) && lex_before(b1, k1, q1, b, len + 1, 0));
    }
}

/// Before `(b, 1, 0)` come exactly the representations with a smaller `b`.
pub proof fn lemma_rep_before_start(n: int, b: int)
    ensures
        rep_before(n, b, 1, 0) <==> bq_represented(n, b - 1),
{
    if rep_before(n, b, 1, 0) {
        let (b1, k1, q1) = choose|b1: int, k1: int, q1: int|
            #[trigger] bq_rep(n, b1, k1, q1) && lex_before(b1, k1, q1, b, 1, 0);
        assert(bq_rep(n, b1, k1, q1) && b1 <= b - 1);
    }
    if bq_represented(n, b - 1) {
        let (b1, k1, q1) = choose|b1: int, k1: int, q1: int|
            #[trigger] bq_rep(n, b1, k1, q1) && b1 <= b - 1;
        assert(bq_rep(n, b1, k1, q1) && lex_before(b1, k1, q1, b, 1, 0));
    }
}

/// Every representation with `b` is at least the divisor sum of `b`.
pub proof fn lemma_rep_at_least_sigma(n: int, b: int, k: int, q: int)
    requires
        bq_rep(n, b, k, q),
    ensures
        n >= int_sum(divisor_list(b)),
{
    lemma_rep_facts(n, b, k, q);
    let slope = int_sum(divisor_list(b).take(k));
    assert(q * slope >= 0) by (nonlinear_arith)
        requires
            q >= 0,
            slope >= 0,
    ;
}

/// The prefix sums of the machine divisor list equal those of the spec list.
proof fn lemma_prefix_as_ints(v: Seq<usize>, k: int)
    requires
        0 <= k <= v.len(),
    ensures
        seq_sum(v.take(k)) == int_sum(as_ints(v).take(k)),
{
    assert(as_ints(v.take(k)) =~= as_ints(v).take(k));
    lemma_as_ints_sum(v.take(k));
}

/// `n` has a representation with `b`, `k` and one of the primes
/// `primes[from..to]`.
pub open spec fn found_with_primes(
    n: int,
    b: int,
    k: int,
    primes: Seq<usize>,
    from: int,
    to: int,
) -> bool {
    exists|jj: int| from <= jj < to && #[trigger] bq_rep(n, b, k, primes[jj] as int)
}

/// `n` has a representation before `(b, k, 0)`, or one with `b`, `k` and
/// one of the primes `primes[from..to]`.
pub open spec fn slope_progress(
    n: int,
    b: int,
    k: int,
    primes: Seq<usize>,
    from: int,
    to: int,
) -> bool {
    rep_before(n, b, k, 0) || found_with_primes(n, b, k, primes, from, to)
}

/// A number found before the scan of the primes for `(b, k)` reached
/// `primes[j]` has a representation before `(b, k, primes[j])`.
proof fn lemma_progress_before(m: int, b: int, k: int, primes: Seq<usize>, fpi: int, j: int)
    requires
        slope_progress(m, b, k, primes, fpi, j),
        0 <= fpi <= j < primes.len(),
        forall|i: int, i2: int| 0 <= i < i2 < primes.len() ==> primes[i] < primes[i2],
    ensures
        rep_before(m, b, k, primes[j] as int),
{
    if rep_before(m, b, k, 0) {
        lemma_rep_before_mono(m, b, k, 0, b, k, primes[j] as int);
    } else {
        let jj = choose|jj: int| fpi <= jj < j && #[trigger] bq_rep(m, b, k, primes[jj] as int);
        assert(primes[jj] < primes[j]);
        assert(bq_rep(m, b, k, primes[jj] as int) && lex_before(b, k, primes[jj] as int, b, k, primes[j] as int));
    }
}

/// A number that the scan for `(b, k)` first reaches at `q = primes[j]` has
/// no representation before `(b, k, q)`: the primes above `b` up to `last`
/// come from index `fpi` on, in increasing order.
proof fn lemma_found_here(
    n: int,
    b: int,
    k: int,
    table: Seq<u8>,
    primes: Seq<usize>,
    fpi: int,
    j: int,
    last: int,
)
    requires
        0 <= fpi <= j < primes.len(),
        bq_rep(n, b, k, primes[j] as int),
        n <= last,
        !slope_progress(n, b, k, primes, fpi, j),
        forall|i: int| 0 <= i < fpi ==> primes[i] <= b,
        forall|i: int, i2: int| 0 <= i < i2 < primes.len() ==> primes[i] < primes[i2],
        is_prime_table(table),
        table.len() == last + 1,
        forall|p: int| 0 <= p < table.len() && table[p] != 0 ==> #[trigger] primes.contains(p as usize),
    ensures
        !rep_before(n, b, k, primes[j] as int),
{
    let q = primes[j] as int;
    if rep_before(n, b, k, q) {
        let (b2, k2, q2) = choose|b2: int, k2: int, q2: int|
            #[trigger] bq_rep(n, b2, k2, q2) && lex_before(b2, k2, q2, b, k, q);
        if lex_before(b2, k2, q2, b, k, 0) {
            assert(rep_before(n, b, k, 0));
        } else {
            lemma_rep_facts(n, b2, k2, q2);
            assert(table[q2] == prime_flag(q2));
            assert(primes.contains(q2 as usize));
            let jj = choose|jj: int| 0 <= jj < primes.len() && primes[jj] == q2 as usize;
            if jj < fpi {
                assert(primes[jj] <= b);
            }
            if jj >= j {
                if jj > j {
                    assert(primes[j] < primes[jj]);
                }
            }
            assert(fpi <= jj < j && bq_rep(n, b, k, primes[jj] as int));
            assert(found_with_primes(n, b, k, primes, fpi, j));
        }
    }
}

/// An example comes before every position that its number was found
/// before.
proof fn lemma_example_before(e: BqExample, first: int, last: int, b: int, k: int, q: int)
    requires
        example_sound(e, first, last),
        rep_before(e.n as int, b, k, q),
        b >= 1,
        1 <= k <= divisor_list(b).len(),
    ensures
        example_before(e, b, int_sum(divisor_list(b).take(k)), q),
{
    let ke = choose|ke: int|
        #[trigger] bq_rep(e.n as int, e.b as int, ke, e.q as int) && e.slope == int_sum(
            divisor_list(e.b as int).take(ke),
        ) && !rep_before(e.n as int, e.b as int, ke, e.q as int);
    lemma_first_before(e.n as int, e.b as int, ke, e.q as int, b, k, q);
}

/// Two representations by which `n` was first found are the same.
proof fn lemma_first_unique(n: int, b1: int, k1: int, q1: int, b2: int, k2: int, q2: int)
    requires
        bq_rep(n, b1, k1, q1),
        !rep_before(n, b1, k1, q1),
        bq_rep(n, b2, k2, q2),
        !rep_before(n, b2, k2, q2),
    ensures
        b1 == b2 && k1 == k2 && q1 == q2,
{
    if lex_before(b1, k1, q1, b2, k2, q2) {
        assert(bq_rep(n, b1, k1, q1) && lex_before(b1, k1, q1, b2, k2, q2));
        assert(rep_before(n, b2, k2, q2));
    }
    if lex_before(b2, k2, q2, b1, k1, q1) {
        assert(bq_rep(n, b2, k2, q2) && lex_before(b2, k2, q2, b1, k1, q1));
        assert(rep_before(n, b1, k1, q1));
    }
}

/// Marking `n`, first found at `(b, k, q)`, keeps the examples the first
/// numbers found: `e`, recording that representation, joins them while
/// there are fewer than five.
proof fn lemma_examples_after_mark(
    old_covered: Seq<u8>,
    old_examples: Seq<BqExample>,
    e: BqExample,
    b: int,
    k: int,
    first: int,
    last: int,
)
    requires
        examples_first(old_covered, old_examples, last),
        old_examples.len() <= 5,
        forall|i: int| 0 <= i < old_examples.len() ==> example_sound(#[trigger] old_examples[i], first, last),
        old_covered.len() == last + 1,
        first <= e.n <= last,
        old_covered[e.n as int] == 0,
        bq_rep(e.n as int, b, k, e.q as int),
        !rep_before(e.n as int, b, k, e.q as int),
        e.b == b,
        e.slope == int_sum(divisor_list(b).take(k)),
        forall|m: int| 0 <= m <= last && old_covered[m] != 0 ==> #[trigger] rep_before(m, b, k, e.q as int),
    ensures
        old_examples.len() < 5 ==> examples_first(
            old_covered.update(e.n as int, 1),
            old_examples.push(e),
            last,
        ),
        old_examples.len() == 5 ==> examples_first(old_covered.update(e.n as int, 1), old_examples, last),
{
    reveal(examples_first);
    let covered = old_covered.update(e.n as int, 1);
    let n = e.n as int;
    let q = e.q as int;
    lemma_rep_facts(n, b, k, q);
    assert forall|t: int| 0 <= t < old_examples.len() implies example_before(
        #[trigger] old_examples[t],
        b,
        e.slope as int,
        q,
    ) by {
        assert(old_covered[old_examples[t].n as int] != 0);
        lemma_example_before(old_examples[t], first, last, b, k, q);
    }
    if old_examples.len() < 5 {
        let examples = old_examples.push(e);
        assert forall|i: int, j: int| 0 <= i < j < examples.len() implies example_before(
            #[trigger] examples[i],
            examples[j].b as int,
            examples[j].slope as int,
            #[trigger] examples[j].q as int,
        ) by {
            assert(examples[i] == old_examples[i]);
            if j < old_examples.len() {
                assert(examples[j] == old_examples[j]);
            }
        }
        assert forall|i: int| 0 <= i < examples.len() implies covered[#[trigger] examples[i].n as int] != 0 by {
            if i < old_examples.len() {
                assert(examples[i] == old_examples[i]);
            }
        }
        assert forall|m: int, b1: int, k1: int, q1: int|
            0 <= m <= last && covered[m] != 0 && #[trigger] bq_rep(m, b1, k1, q1) && !rep_before(m, b1, k1, q1)
                && !is_example(examples, m) implies examples.len() == 5 && example_before(
            examples[4],
            b1,
            int_sum(divisor_list(b1).take(k1)),
            q1,
        ) by {
            assert(examples[old_examples.len() as int].n == n);
            assert(m != n);
            assert(old_covered[m] != 0);
            if is_example(old_examples, m) {
                let i = choose|i: int| 0 <= i < old_examples.len() && #[trigger] old_examples[i].n == m;
                assert(examples[i].n == m);
            }
        }
    } else {
        assert forall|m: int, b1: int, k1: int, q1: int|
            0 <= m <= last && covered[m] != 0 && #[trigger] bq_rep(m, b1, k1, q1) && !rep_before(m, b1, k1, q1)
                && !is_example(old_examples, m) implies old_examples.len() == 5 && example_before(
            old_examples[4],
            b1,
            int_sum(divisor_list(b1).take(k1)),
            q1,
        ) by {
            if m == n {
                lemma_first_unique(n, b, k, q, b1, k1, q1);
            } else {
                assert(old_covered[m] != 0);
            }
        }
        assert forall|i: int| 0 <= i < old_examples.len() implies covered[#[trigger] old_examples[i].n as int]
            != 0 by {}
    }
}

/// The bookkeeping of the search: the count of found numbers, the largest
/// `B` that found a new number, and the recorded examples.
pub open spec fn bookkeeping(
    covered: Seq<u8>,
    marked: int,
    max_seen_b: int,
    examples: Seq<BqExample>,
    first: int,
    last: int,
) -> bool {
    &&& marked == count_nonzero(covered)
    &&& marked == 0 <==> max_seen_b == 0
    &&& marked > 0 ==> exists|n: int|
        first <= n <= last && #[trigger] rep_before(n, max_seen_b + 1, 1, 0) && !rep_before(
            n,
            max_seen_b,
            1,
            0,
        )
    &&& forall|n: int|
        0 <= n <= last && covered[n] != 0 ==> #[trigger] rep_before(n, max_seen_b + 1, 1, 0)
    &&& examples.len() <= 5
    &&& examples.len() == 5 || examples.len() == marked
    &&& forall|i: int| 0 <= i < examples.len() ==> example_sound(#[trigger] examples[i], first, last)
    &&& examples_first(covered, examples, last)
}

/// The divisor-prefix search: for each `b` in `1..=max_b` whose divisor sum
/// `sigma` is at most `last`, each prefix sum `slope` of the divisors of `b`,
/// and each prime `q > b` with `sigma + q * slope <= last`, the number
/// `sigma + q * slope` is found when it is at least `first`. Entry `n` of
/// `covered` is 1 exactly for the numbers of `[first, last]` with such a
/// representation.
#[verifier::loop_isolation(false)]
#[verifier::spinoff_prover]
#[verifier::rlimit(40)]
pub fn small_bq_cover(first: usize, last: usize, max_b: usize) -> (cover: SmallBqCover)
    requires
        2 <= last < usize::MAX,
        max_b < usize::MAX,
    ensures
        cover.covered.len() == last + 1,
        forall|n: int|
            0 <= n <= last ==> #[trigger] cover.covered[n] == (if first <= n && bq_represented(
                n,
                max_b as int,
            ) {
                1u8
            } else {
                0u8
            }),
        bookkeeping(
            cover.covered@,
            cover.marked as int,
            cover.max_seen_b as int,
            cover.examples@,
            first as int,
            last as int,
        ),
        cover.max_seen_b <= max_b,
{
    let table = sieve(last);
    let primes = primes_from_sieve(&table);
    let mut covered: Vec<u8> = Vec::new();
    let mut t: usize = 0;
    while t <= last
        invariant
            t <= last + 1,
            covered.len() == t,
            forall|n: int| 0 <= n < t ==> #[trigger] covered[n] == 0,
            count_nonzero(covered@) == 0,
        decreases last + 1 - t,
    {
        let ghost before = covered@;
        covered.push(0);
        proof {
            assert(covered@.drop_last() =~= before);
        }
        t = t + 1;
    }
    let mut examples: Vec<BqExample> = Vec::new();
    let mut max_seen_b: usize = 0;
    let mut marked: usize = 0;
    let mut b: usize = 1;
    proof {
        assert forall|n: int| 0 <= n <= last implies !rep_before(n, 1, 1, 0) by {
            lemma_rep_before_start(n, 1);
        }
        reveal(examples_first);
    }
    while b <= max_b
        invariant
            1 <= b <= max_b + 1,
            covered.len() == last + 1,
            forall|n: int|
                0 <= n <= last ==> #[trigger] covered[n] == (if first <= n && rep_before(
                    n,
                    b as int,
                    1,
                    0,
                ) {
                    1u8
                } else {
                    0u8
                }),
            bookkeeping(
                covered@,
                marked as int,
                max_seen_b as int,
                examples@,
                first as int,
                last as int,
            ),
            max_seen_b < b,
        decreases max_b + 1 - b,
    {
        let divisors = divisors_of(b);
        proof {
            lemma_as_ints_sum(divisors@);
        }
        match bounded_sum(&divisors, last) {
            None => {
                proof {
                    assert forall|n: int| 0 <= n <= last implies rep_before(n, b as int, 1, 0)
                        == rep_before(n, b + 1, 1, 0) by {
                        if rep_before(n, b + 1, 1, 0) {
                            let (b1, k1, q1) = choose|b1: int, k1: int, q1: int|
                                #[trigger] bq_rep(n, b1, k1, q1) && lex_before(
                                    b1,
                                    k1,
                                    q1,
                                    b + 1,
                                    1,
                                    0,
                                );
                            if b1 == b {
                                lemma_rep_at_least_sigma(n, b1, k1, q1);
                            } else {
                                assert(bq_rep(n, b1, k1, q1) && lex_before(b1, k1, q1, b as int, 1, 0));
                            }
                        }
                        if rep_before(n, b as int, 1, 0) {
                            lemma_rep_before_mono(n, b as int, 1, 0, b + 1, 1, 0);
                        }
                    }
                }
            },
            Some(sigma) => {
                let slopes = prefix_sums(&divisors);
                let fpi = first_prime_greater_than(&primes, b);
                proof {
                    assert(partitioned_at(primes@, b));
                }
                let mut i: usize = 0;
                while i < slopes.len()
                    invariant
                        i <= slopes.len(),
                        covered.len() == last + 1,
                        forall|n: int|
                            0 <= n <= last ==> #[trigger] covered[n] == (if first <= n
                                && rep_before(n, b as int, i + 1, 0) {
                                1u8
                            } else {
                                0u8
                            }),
                        bookkeeping(
                            covered@,
                            marked as int,
                            max_seen_b as int,
                            examples@,
                            first as int,
                            last as int,
                        ),
                        max_seen_b <= b,
                    decreases slopes.len() - i,
                {
                    let slope = slopes[i];
                    proof {
                        lemma_prefix_as_ints(divisors@, i + 1);
                        lemma_ordered_filter_members(0, b as int, crate::divisors::divides_pred(b as int));
                        lemma_positive_sum_facts(divisor_list(b as int), i + 1);
                    }
                    let max_q = (last - sigma) / slope;
                    let mut j: usize = fpi;
                    while j < primes.len()
                        invariant
                            fpi <= j <= primes.len(),
                            covered.len() == last + 1,
                            forall|n: int|
                                0 <= n <= last ==> #[trigger] covered[n] == (if first <= n && slope_progress(
                                    n,
                                    b as int,
                                    i + 1,
                                    primes@,
                                    fpi as int,
                                    j as int,
                                ) {
                                    1u8
                                } else {
                                    0u8
                                }),
                            bookkeeping(
                                covered@,
                                marked as int,
                                max_seen_b as int,
                                examples@,
                                first as int,
                                last as int,
                            ),
                            max_seen_b <= b,
                        decreases primes.len() - j,
                    {
                        let q = primes[j];
                        if q > max_q {
                            break ;
                        }
                        proof {
                            lemma_quotient_bound(q as int, slope as int, (last - sigma) as int);
                        }
                        let n = sigma + q * slope;
                        proof {
                            assert(table[q as int] != 0);
                            assert(bq_rep(n as int, b as int, i + 1, q as int));
                            assert forall|m: int| #[trigger] bq_rep(m, b as int, i + 1, q as int) implies m == n by {}
                        }
                        let ghost old_covered = covered@;
                        let ghost old_msb = max_seen_b;
                        let ghost old_examples = examples@;
                        if n >= first && covered[n] == 0 {
                            let ghost e = BqExample { n, b, q, slope, sigma };
                            proof {
                                lemma_count_update(covered@, n as int, 1);
                                lemma_found_here(
                                    n as int,
                                    b as int,
                                    i + 1,
                                    table@,
                                    primes@,
                                    fpi as int,
                                    j as int,
                                    last as int,
                                );
                                assert forall|m: int| 0 <= m <= last && covered[m] != 0 implies #[trigger] rep_before(
                                    m,
                                    b as int,
                                    i + 1,
                                    q as int,
                                ) by {
                                    lemma_progress_before(m, b as int, i + 1, primes@, fpi as int, j as int);
                                }
                                lemma_ordered_filter_members(0, b as int, crate::divisors::divides_pred(b as int));
                                lemma_examples_after_mark(
                                    covered@,
                                    examples@,
                                    e,
                                    b as int,
                                    i + 1,
                                    first as int,
                                    last as int,
                                );
                            }
                            covered.set(n, 1);
                            proof {
                                lemma_count_bounds(covered@);
                            }
                            marked = marked + 1;
                            if examples.len() < 5 {
                                examples.push(BqExample { n, b, q, slope, sigma });
                                proof {
                                    assert(examples@ == old_examples.push(e));
                                    assert(bq_rep(e.n as int, e.b as int, i + 1, e.q as int));
                                    assert(example_sound(e, first as int, last as int));
                                    assert forall|k: int| 0 <= k < examples.len() implies example_sound(
                                        #[trigger] examples@[k],
                                        first as int,
                                        last as int,
                                    ) by {
                                        if k < old_examples.len() {
                                            assert(examples@[k] == old_examples[k]);
                                        }
                                    }
                                }
                            }
                            if b > max_seen_b {
                                max_seen_b = b;
                            }
                            proof {
                                assert(!slope_progress(n as int, b as int, i + 1, primes@, fpi as int, j as int));
                                if rep_before(n as int, b as int, 1, 0) {
                                    lemma_rep_before_mono(n as int, b as int, 1, 0, b as int, i + 1, 0);
                                }
                                assert(bq_rep(n as int, b as int, i + 1, q as int) && lex_before(
                                    b as int,
                                    i + 1,
                                    q as int,
                                    b + 1,
                                    1,
                                    0,
                                ));
                                assert(rep_before(n as int, b + 1, 1, 0));
                                if old_msb == b {
                                    assert(max_seen_b == b);
                                } else {
                                    assert(first <= n <= last && rep_before(n as int, max_seen_b + 1, 1, 0)
                                        && !rep_before(n as int, max_seen_b as int, 1, 0));
                                }
                                assert forall|m: int|
                                    0 <= m <= last && covered[m] != 0 implies #[trigger] rep_before(
                                    m,
                                    max_seen_b + 1,
                                    1,
                                    0,
                                ) by {
                                    if m != n {
                                        assert(old_covered[m] != 0);
                                        lemma_rep_before_mono(m, old_msb + 1, 1, 0, max_seen_b + 1, 1, 0);
                                    }
                                }
                            }
                        }
                        proof {
                            assert forall|m: int| 0 <= m <= last implies #[trigger] covered[m] == (if first
                                <= m && slope_progress(m, b as int, i + 1, primes@, fpi as int, j + 1) {
                                1u8
                            } else {
                                0u8
                            }) by {
                                if found_with_primes(m, b as int, i + 1, primes@, fpi as int, j + 1) {
                                    let jj = choose|jj: int|
                                        fpi <= jj < j + 1 && #[trigger] bq_rep(m, b as int, i + 1, primes[jj] as int);
                                    if jj < j {
                                        assert(found_with_primes(m, b as int, i + 1, primes@, fpi as int, j as int));
                                    } else {
                                        assert(m == n);
                                    }
                                }
                                if m == n {
                                    assert(bq_rep(m, b as int, i + 1, primes[j as int] as int));
                                    assert(found_with_primes(m, b as int, i + 1, primes@, fpi as int, j + 1));
                                }
                                if found_with_primes(m, b as int, i + 1, primes@, fpi as int, j as int) {
                                    let jj = choose|jj: int|
                                        fpi <= jj < j && #[trigger] bq_rep(m, b as int, i + 1, primes[jj] as int);
                                    assert(found_with_primes(m, b as int, i + 1, primes@, fpi as int, j + 1));
                                }
                            }
                        }
                        j = j + 1;
                    }
                    proof {
                        assert forall|n: int| 0 <= n <= last implies #[trigger] covered[n] == (if first
                            <= n && rep_before(n, b as int, i + 2, 0) {
                            1u8
                        } else {
                            0u8
                        }) by {
                            lemma_rep_before_next_k(n, b as int, i + 1);
                            if exists|q: int| #[trigger] bq_rep(n, b as int, i + 1, q) {
                                let q = choose|q: int| #[trigger] bq_rep(n, b as int, i + 1, q);
                                lemma_rep_facts(n, b as int, i + 1, q);
                                assert(table[q] == 1);
                                assert(primes@.contains(q as usize));
                                let jj = choose|jj: int| 0 <= jj < primes.len() && primes[jj] == q as usize;
                                assert(jj >= fpi);
                                lemma_quotient_bound(q, slope as int, (last - sigma) as int);
                                if jj >= j {
                                    assert(primes[jj as int] >= primes[j as int]);
                                }
                                assert(found_with_primes(n, b as int, i + 1, primes@, fpi as int, j as int));
                            }
                            if found_with_primes(n, b as int, i + 1, primes@, fpi as int, j as int) {
                                let jj = choose|jj: int|
                                    fpi <= jj < j && #[trigger] bq_rep(n, b as int, i + 1, primes[jj] as int);
                                assert(bq_rep(n, b as int, i + 1, primes[jj] as int));
                            }
                        }
                    }
                    i = i + 1;
                }
            },
        }
        b = b + 1;
    }
    SmallBqCover { covered, marked, max_seen_b, examples }
}

/// The lower end of the range of the divisor-prefix search.
pub const SMALL_FIRST: usize = 6;

/// The upper end of the range of the divisor-prefix search.
pub const SMALL_LAST: usize = 10_000_000;

/// The largest `B` of the divisor-prefix search.
pub const SMALL_MAX_B: usize = 1000;

/// The one number of the range that the search does not reach and that is
/// handled on its own: `7 = 1 + 2 + 4`, the divisors of 4.
pub const SMALL_EXCEPTION: usize = 7;

/// The number of misses that a failed search reports at most.
pub const MAX_REPORTED_MISSES: usize = 20;

/// The numbers of `[first, last]` other than `exception` that are not
/// covered, in increasing order.
pub open spec fn uncovered(covered: Seq<u8>, first: int, last: int, exception: int) -> Seq<int> {
    ordered_filter(first - 1, last, is_miss(covered, exception))
}

/// `n` is not `exception` and its entry in `covered` is zero.
pub open spec fn is_miss(covered: Seq<u8>, exception: int) -> spec_fn(int) -> bool {
    |n: int| n != exception && covered[n] == 0
}

/// `n` is not `exception` and has no representation with `b <= max_b`.
pub open spec fn is_unrepresented(max_b: int, exception: int) -> spec_fn(int) -> bool {
    |n: int| n != exception && !bq_represented(n, max_b)
}

/// The first `limit` entries of `s` (all of them when there are fewer).
pub open spec fn first_entries(s: Seq<int>, limit: int) -> Seq<int> {
    if s.len() <= limit {
        s
    } else {
        s.take(limit)
    }
}

/// The first twenty numbers of `[first, last]`, other than `exception`,
/// whose entry in `covered` is zero, in increasing order.
pub fn small_bq_misses(covered: &[u8], first: usize, last: usize, exception: usize) -> (misses: Vec<
    usize,
>)
    requires
        1 <= first,
        last < covered.len(),
    ensures
        as_ints(misses@) == first_entries(
            uncovered(covered@, first as int, last as int, exception as int),
            MAX_REPORTED_MISSES as int,
        ),
{
    let ghost pred = is_miss(covered@, exception as int);
    let mut misses: Vec<usize> = Vec::new();
    let mut n: usize = first;
    proof {
        assert(as_ints(misses@) =~= ordered_filter(first - 1, n - 1, pred)) by {
            assert(ordered_filter(first - 1, first - 1, pred) =~= Seq::<int>::empty());
        }
    }
    while n <= last
        invariant
            first <= n,
            n <= last + 1 || n == first,
            last < covered.len(),
            pred == is_miss(covered@, exception as int),
            as_ints(misses@) == ordered_filter(first - 1, n - 1, pred),
            misses.len() < MAX_REPORTED_MISSES,
        decreases last + 1 - n,
    {
        if n != exception && covered[n] == 0 {
            misses.push(n);
            proof {
                assert(pred(n as int));
                assert(as_ints(misses@) =~= ordered_filter(first - 1, n - 1, pred).push(n as int));
            }
            if misses.len() >= MAX_REPORTED_MISSES {
                proof {
                    lemma_ordered_filter_split(first - 1, n as int, last as int, pred);
                    assert(uncovered(covered@, first as int, last as int, exception as int).take(
                        MAX_REPORTED_MISSES as int,
                    ) =~= as_ints(misses@));
                }
                return misses;
            }
        } else {
            proof {
                assert(!pred(n as int));
            }
        }
        n = n + 1;
    }
    proof {
        if n > last + 1 {
            assert(ordered_filter(first - 1, last as int, pred) =~= Seq::<int>::empty());
            assert(ordered_filter(first - 1, n - 1, pred) =~= Seq::<int>::empty());
        }
    }
    misses
}

/// The divisor-prefix search of `[SMALL_FIRST, SMALL_LAST]` with
/// `B <= SMALL_MAX_B`, once it has reached every number but the exception.
#[derive(Debug, PartialEq, Eq)]
pub struct SmallBqReport {
    pub first: usize,
    pub last: usize,
    pub max_b: usize,
    pub exception: usize,
    pub marked: usize,
    pub max_seen_b: usize,
    pub examples: Vec<BqExample>,
}

/// Why the divisor-prefix search failed: the first numbers it missed.
#[derive(Debug, PartialEq, Eq)]
pub enum SmallBqError {
    Misses(Vec<usize>),
}

impl SmallBqError {
    /// The message that reports the failure.
    pub fn message(&self) -> (text: String)
        ensures
            self matches SmallBqError::Misses(misses) ==> text@ == "small Bq misses: "@ + json_array_text(misses@),
    {
        match self {
            SmallBqError::Misses(misses) => {
                let mut text = String::from_str("small Bq misses: ");
                text.append(json_usize_array(misses.as_slice()).as_str());
                text
            },
        }
    }
}

/// `n` has a representation with `b <= max_b`.
pub open spec fn is_represented_within(max_b: int) -> spec_fn(int) -> bool {
    |n: int| bq_represented(n, max_b)
}

/// A table whose entry `n` is 1 exactly for the numbers of `(lo, hi]` that
/// satisfy `pred` counts them.
proof fn lemma_count_filter(covered: Seq<u8>, lo: int, hi: int, pred: spec_fn(int) -> bool)
    requires
        0 <= lo,
        -1 <= hi < covered.len(),
        forall|n: int|
            0 <= n <= hi ==> #[trigger] covered[n] == (if lo < n && pred(n) {
                1u8
            } else {
                0u8
            }),
    ensures
        count_nonzero(covered.take(hi + 1)) == ordered_filter(lo, hi, pred).len(),
    decreases hi + 1,
{
    if hi >= 0 {
        lemma_count_filter(covered, lo, hi - 1, pred);
        assert(covered.take(hi + 1).drop_last() =~= covered.take(hi));
        assert(covered.take(hi + 1).last() == covered[hi]);
    } else {
        assert(covered.take(hi + 1) =~= Seq::<u8>::empty());
    }
}

/// The divisor-prefix search over `[SMALL_FIRST, SMALL_LAST]` with
/// `B <= SMALL_MAX_B`: it succeeds exactly when every number of the range
/// but `SMALL_EXCEPTION` has a representation
/// `sigma(B) + q * (d_1 + ... + d_k)`, and otherwise reports the first
/// numbers without one.
pub fn verify_small_bq() -> (r: Result<SmallBqReport, SmallBqError>)
    ensures
        r is Ok <==> forall|n: int|
            SMALL_FIRST <= n <= SMALL_LAST && n != SMALL_EXCEPTION ==> #[trigger] bq_represented(
                n,
                SMALL_MAX_B as int,
            ),
        r is Ok ==> forall|n: int|
            SMALL_FIRST <= n <= SMALL_LAST && n != SMALL_EXCEPTION ==> #[trigger] is_divisor_prefix_sum(n),
        r matches Ok(report) ==> report.marked == ordered_filter(
            SMALL_FIRST - 1,
            SMALL_LAST as int,
            is_represented_within(SMALL_MAX_B as int),
        ).len(),
        r matches Ok(report) ==> (report.marked == 0 <==> report.max_seen_b == 0) && (report.marked > 0
            ==> exists|n: int|
            SMALL_FIRST <= n <= SMALL_LAST && #[trigger] bq_represented(n, report.max_seen_b as int)
                && !bq_represented(n, report.max_seen_b - 1)) && forall|n: int|
            SMALL_FIRST <= n <= SMALL_LAST && bq_represented(n, SMALL_MAX_B as int)
                ==> #[trigger] bq_represented(n, report.max_seen_b as int),
        r matches Ok(report) ==> examples_in_order(report.examples@),
        r matches Ok(report) ==> forall|n: int, b: int, k: int, q: int|
            SMALL_FIRST <= n <= SMALL_LAST && b <= SMALL_MAX_B && #[trigger] bq_rep(n, b, k, q)
                && !rep_before(n, b, k, q) && !is_example(report.examples@, n) ==> report.examples.len()
                == 5 && example_before(
                report.examples[4],
                b,
                int_sum(divisor_list(b).take(k)),
                q,
            ),
        r matches Ok(report) ==> report.first == SMALL_FIRST && report.last == SMALL_LAST
            && report.max_b == SMALL_MAX_B && report.exception == SMALL_EXCEPTION && report.max_seen_b
            <= SMALL_MAX_B && report.examples.len() <= 5 && (forall|i: int|
            0 <= i < report.examples.len() ==> example_sound(
                #[trigger] report.examples[i],
                SMALL_FIRST as int,
                SMALL_LAST as int,
            )),
        r matches Err(SmallBqError::Misses(misses)) ==> misses.len() > 0 && as_ints(misses@)
            == first_entries(
            ordered_filter(
                SMALL_FIRST - 1,
                SMALL_LAST as int,
                is_unrepresented(SMALL_MAX_B as int, SMALL_EXCEPTION as int),
            ),
            MAX_REPORTED_MISSES as int,
        ),
{
    let cover = small_bq_cover(SMALL_FIRST, SMALL_LAST, SMALL_MAX_B);
    let misses = small_bq_misses(&cover.covered, SMALL_FIRST, SMALL_LAST, SMALL_EXCEPTION);
    let ghost by_table = is_miss(cover.covered@, SMALL_EXCEPTION as int);
    let ghost by_rep = is_unrepresented(SMALL_MAX_B as int, SMALL_EXCEPTION as int);
    proof {
        lemma_ordered_filter_same(SMALL_FIRST - 1, SMALL_LAST as int, by_table, by_rep);
        lemma_ordered_filter_members(SMALL_FIRST - 1, SMALL_LAST as int, by_rep);
    }
    let ghost listed = ordered_filter(SMALL_FIRST - 1, SMALL_LAST as int, by_rep);
    if misses.len() > 0 {
        proof {
            assert(as_ints(misses@).len() > 0);
            assert(listed.len() > 0);
            let n = listed[0];
            assert(by_rep(n));
            assert(!bq_represented(n, SMALL_MAX_B as int));
        }
        return Err(SmallBqError::Misses(misses));
    }
    proof {
        assert(as_ints(misses@).len() == 0);
        assert(listed.len() == 0);
        assert forall|n: int|
            SMALL_FIRST <= n <= SMALL_LAST && n != SMALL_EXCEPTION implies #[trigger] bq_represented(
            n,
            SMALL_MAX_B as int,
        ) by {
            if !bq_represented(n, SMALL_MAX_B as int) {
                assert(by_rep(n));
                let s = ordered_filter(SMALL_FIRST - 1, SMALL_LAST as int, by_rep);
                assert(s.contains(n));
            }
        }
        assert forall|n: int|
            SMALL_FIRST <= n <= SMALL_LAST && n != SMALL_EXCEPTION implies #[trigger] is_divisor_prefix_sum(n) by {
            assert(bq_represented(n, SMALL_MAX_B as int));
            let (b, k, q) = choose|b: int, k: int, q: int| #[trigger] bq_rep(n, b, k, q) && b <= SMALL_MAX_B;
            lemma_bq_rep_is_divisor_prefix_sum(n, b, k, q);
        }
        lemma_count_filter(
            cover.covered@,
            SMALL_FIRST - 1,
            SMALL_LAST as int,
            is_represented_within(SMALL_MAX_B as int),
        );
        assert(cover.covered@.take(SMALL_LAST + 1) =~= cover.covered@);
        let msb = cover.max_seen_b as int;
        if cover.marked > 0 {
            let n = choose|n: int|
                SMALL_FIRST <= n <= SMALL_LAST && #[trigger] rep_before(n, msb + 1, 1, 0) && !rep_before(
                    n,
                    msb,
                    1,
                    0,
                );
            lemma_rep_before_start(n, msb + 1);
            lemma_rep_before_start(n, msb);
            assert(SMALL_FIRST <= n <= SMALL_LAST && bq_represented(n, msb) && !bq_represented(n, msb - 1));
        }
        assert(cover.marked == 0 <==> msb == 0);
        reveal(examples_first);
        assert forall|n: int, b: int, k: int, q: int|
            SMALL_FIRST <= n <= SMALL_LAST && b <= SMALL_MAX_B && #[trigger] bq_rep(n, b, k, q)
                && !rep_before(n, b, k, q) && !is_example(cover.examples@, n) implies cover.examples.len()
                == 5 && example_before(cover.examples[4], b, int_sum(divisor_list(b).take(k)), q) by {
            assert(bq_represented(n, SMALL_MAX_B as int));
            assert(cover.covered[n] != 0);
        }
        assert forall|n: int|
            SMALL_FIRST <= n <= SMALL_LAST && bq_represented(n, SMALL_MAX_B as int)
                implies #[trigger] bq_represented(n, msb) by {
            assert(cover.covered[n] != 0);
            lemma_rep_before_start(n, msb + 1);
        }
    }
    Ok(
        SmallBqReport {
            first: SMALL_FIRST,
            last: SMALL_LAST,
            max_b: SMALL_MAX_B,
            exception: SMALL_EXCEPTION,
            marked: cover.marked,
            max_seen_b: cover.max_seen_b,
            examples: cover.examples,
        },
    )
}

/// The exception of the search: `7` is the sum of the divisors `1, 2, 4` of
/// `4`, the first three divisors of `m = 4`.
pub proof fn lemma_seven_is_divisor_prefix_sum()
    ensures
        divisor_list(4).len() == 3,
        int_sum(divisor_list(4).take(3)) == 7,
        is_divisor_prefix_sum(7),
{
    let pred = crate::divisors::divides_pred(4);
    assert(pred(1) && pred(2) && !pred(3) && pred(4));
    reveal_with_fuel(ordered_filter, 5);
    assert(divisor_list(4) =~= seq![1int, 2, 4]);
    assert(divisor_list(4).take(3) =~= seq![1int, 2, 4]);
    reveal_with_fuel(int_sum, 4);
    assert(seq![1int, 2, 4].drop_last() =~= seq![1int, 2]);
    assert(seq![1int, 2].drop_last() =~= seq![1int]);
    assert(seq![1int].drop_last() =~= Seq::<int>::empty());
    assert(int_sum(divisor_list(4).take(3)) == 7);
    assert(4int >= 1 && 1 <= 3int <= divisor_list(4).len() && 7 == int_sum(divisor_list(4).take(3)));
}

} // verus!
