use crate::divisors::seq_sum;
use crate::ordered::{as_ints, int_sum, lemma_as_ints_sum};
use crate::representation::lemma_int_sum_remove;
use vstd::prelude::*;

verus! {

/// `s` is the sum of some subset of `values` (each entry used at most once).
pub open spec fn is_subset_sum(values: Seq<int>, s: int) -> bool
    decreases values.len(),
{
    if values.len() == 0 {
        s == 0
    } else {
        is_subset_sum(values.drop_last(), s) || is_subset_sum(values.drop_last(), s - values.last())
    }
}

/// A subset sum lies between 0 and the sum of all values.
pub proof fn lemma_subset_sum_range(values: Seq<int>, s: int)
    requires
        is_subset_sum(values, s),
        forall|i: int| 0 <= i < values.len() ==> #[trigger] values[i] >= 0,
    ensures
        0 <= s <= int_sum(values),
    decreases values.len(),
{
    if values.len() > 0 {
        if is_subset_sum(values.drop_last(), s) {
            lemma_subset_sum_range(values.drop_last(), s);
        } else {
            lemma_subset_sum_range(values.drop_last(), s - values.last());
        }
    }
}

/// Interval extension: if the subset sums of `values` cover every integer of
/// `[c, u]` and `p <= u - c + 1`, then the subset sums of `values` with `p`
/// appended cover every integer of `[c, u + p]`.
pub proof fn lemma_interval_extension(values: Seq<int>, p: int, c: int, u: int)
    requires
        c <= u,
        forall|s: int| c <= s <= u ==> #[trigger] is_subset_sum(values, s),
        0 <= p <= u - c + 1,
    ensures
        forall|s: int| c <= s <= u + p ==> #[trigger] is_subset_sum(values.push(p), s),
{
    let extended = values.push(p);
    assert(extended.drop_last() =~= values);
    assert forall|s: int| c <= s <= u + p implies #[trigger] is_subset_sum(extended, s) by {
        if s <= u {
            assert(is_subset_sum(values, s));
        } else {
            assert(is_subset_sum(values, s - p));
        }
    }
}

/// A sum of nonnegative integers is nonnegative, and no smaller than the sum
/// of any prefix.
pub proof fn lemma_int_sum_nonneg(values: Seq<int>, k: int)
    requires
        forall|i: int| 0 <= i < values.len() ==> #[trigger] values[i] >= 0,
        0 <= k <= values.len(),
    ensures
        0 <= int_sum(values.take(k)) <= int_sum(values),
    decreases values.len(),
{
    if values.len() > 0 {
        if k == values.len() {
            assert(values.take(k) =~= values);
            lemma_int_sum_nonneg(values.drop_last(), k - 1);
        } else {
            assert(values.drop_last().take(k) =~= values.take(k));
            lemma_int_sum_nonneg(values.drop_last(), k);
        }
    } else {
        assert(values.take(k) =~= values);
    }
}

/// Each value of `rest` is at most one more than the width of the interval
/// `[c, u + (sum of the values before it)]`.
pub open spec fn extends_interval(rest: Seq<int>, c: int, u: int) -> bool {
    forall|j: int| 0 <= j < rest.len() ==> #[trigger] rest[j] <= u + int_sum(rest.take(j)) - c + 1
}

/// Repeated interval extension: if the subset sums of `seed` cover `[c, u]`
/// and the nonnegative values of `rest` extend the interval one after the
/// other, the subset sums of `seed + rest` cover `[c, u + sum(rest)]`.
pub proof fn lemma_extension_chain(seed: Seq<int>, rest: Seq<int>, c: int, u: int)
    requires
        c <= u,
        forall|s: int| c <= s <= u ==> #[trigger] is_subset_sum(seed, s),
        forall|i: int| 0 <= i < rest.len() ==> #[trigger] rest[i] >= 0,
        extends_interval(rest, c, u),
    ensures
        forall|s: int| c <= s <= u + int_sum(rest) ==> #[trigger] is_subset_sum(seed + rest, s),
    decreases rest.len(),
{
    if rest.len() == 0 {
        assert(seed + rest =~= seed);
    } else {
        let init = rest.drop_last();
        let last = rest.last();
        assert forall|j: int| 0 <= j < init.len() implies #[trigger] init[j] <= u + int_sum(init.take(j))
            - c + 1 by {
            assert(init.take(j) =~= rest.take(j));
            assert(rest[j] <= u + int_sum(rest.take(j)) - c + 1);
        }
        lemma_extension_chain(seed, init, c, u);
        lemma_int_sum_nonneg(init, 0);
        assert(rest.take(init.len() as int) =~= init);
        assert(last <= u + int_sum(init) - c + 1);
        lemma_interval_extension(seed + init, last, c, u + int_sum(init));
        assert((seed + init).push(last) =~= seed + rest);
    }
}

/// When the first value is at most the width of `[c, u]` and each value is
/// at most twice the one before it, each value is at most the width of the
/// interval reached before it: that width is at least twice the previous
/// value.
proof fn lemma_doubling_width(rest: Seq<int>, c: int, u: int, j: int)
    requires
        0 <= j < rest.len(),
        rest[0] <= u - c + 1,
        forall|i: int| 0 <= i < rest.len() ==> #[trigger] rest[i] >= 0,
        forall|i: int| 0 < i < rest.len() ==> #[trigger] rest[i] <= 2 * rest[i - 1],
    ensures
        rest[j] <= u + int_sum(rest.take(j)) - c + 1,
    decreases j,
{
    if j > 0 {
        lemma_doubling_width(rest, c, u, j - 1);
        assert(rest.take(j).drop_last() =~= rest.take(j - 1));
        assert(rest[j] <= 2 * rest[j - 1]);
    }
}

/// Continuing the interval extension: if the subset sums of `seed` cover
/// `[c, u]`, the first value of `rest` is at most the width `u - c + 1`, and
/// each value of `rest` is at most twice the one before it (as Bertrand's
/// postulate gives for consecutive primes), then the subset sums of
/// `seed + rest` cover `[c, u + sum(rest)]`.
pub proof fn lemma_doubling_extension(seed: Seq<int>, rest: Seq<int>, c: int, u: int)
    requires
        c <= u,
        forall|s: int| c <= s <= u ==> #[trigger] is_subset_sum(seed, s),
        forall|i: int| 0 <= i < rest.len() ==> #[trigger] rest[i] >= 0,
        rest.len() > 0 ==> rest[0] <= u - c + 1,
        forall|i: int| 0 < i < rest.len() ==> #[trigger] rest[i] <= 2 * rest[i - 1],
    ensures
        forall|s: int| c <= s <= u + int_sum(rest) ==> #[trigger] is_subset_sum(seed + rest, s),
{
    assert forall|j: int| 0 <= j < rest.len() implies #[trigger] rest[j] <= u + int_sum(rest.take(j)) - c
        + 1 by {
        lemma_doubling_width(rest, c, u, j);
    }
    lemma_extension_chain(seed, rest, c, u);
}

/// Distinct members of a list without repetitions sum to one of its subset
/// sums.
pub proof fn lemma_members_subset_sum(list: Seq<int>, values: Seq<int>)
    requires
        list.no_duplicates(),
        values.no_duplicates(),
        forall|i: int| 0 <= i < values.len() ==> list.contains(#[trigger] values[i]),
    ensures
        is_subset_sum(list, int_sum(values)),
    decreases list.len(),
{
    if list.len() == 0 {
        if values.len() > 0 {
            assert(list.contains(values[0]));
        }
        assert(values =~= Seq::<int>::empty());
    } else {
        let init = list.drop_last();
        let last = list.last();
        assert(init.no_duplicates()) by {
            assert forall|a: int, b: int| 0 <= a < init.len() && 0 <= b < init.len() && a != b implies init[a]
                != init[b] by {
                assert(list[a] != list[b]);
            }
        }
        if values.contains(last) {
            let j = choose|j: int| 0 <= j < values.len() && values[j] == last;
            let rest = values.remove(j);
            lemma_int_sum_remove(values, j);
            assert(rest.no_duplicates()) by {
                assert forall|a: int, b: int| 0 <= a < rest.len() && 0 <= b < rest.len() && a != b implies rest[a]
                    != rest[b] by {
                    let a1 = if a < j { a } else { a + 1 };
                    let b1 = if b < j { b } else { b + 1 };
                    assert(rest[a] == values[a1] && rest[b] == values[b1]);
                }
            }
            assert forall|i: int| 0 <= i < rest.len() implies init.contains(#[trigger] rest[i]) by {
                let i1 = if i < j { i } else { i + 1 };
                assert(rest[i] == values[i1]);
                assert(values[i1] != values[j]);
                assert(list.contains(values[i1]));
                let k = choose|k: int| 0 <= k < list.len() && list[k] == values[i1];
                assert(k != list.len() - 1);
                assert(init[k] == rest[i]);
            }
            lemma_members_subset_sum(init, rest);
        } else {
            assert forall|i: int| 0 <= i < values.len() implies init.contains(#[trigger] values[i]) by {
                assert(list.contains(values[i]));
                let k = choose|k: int| 0 <= k < list.len() && list[k] == values[i];
                assert(values[i] != last);
                assert(k != list.len() - 1);
                assert(init[k] == values[i]);
            }
            lemma_members_subset_sum(init, values);
        }
    }
}

/// The table of subset sums of `values`: entry `s`, for `s` from 0 to the
/// sum of all values, is 1 when `s` is the sum of some subset of `values`
/// and 0 otherwise.
pub fn reachable_subset_sums(values: &[usize]) -> (reachable: Vec<u8>)
    requires
        seq_sum(values@) < usize::MAX,
    ensures
        reachable.len() == seq_sum(values@) + 1,
        forall|s: int|
            0 <= s < reachable.len() ==> #[trigger] reachable[s] == (if is_subset_sum(
                as_ints(values@),
                s,
            ) {
                1u8
            } else {
                0u8
            }),
{
    let mut reachable: Vec<u8> = Vec::new();
    reachable.push(1);
    let mut max_sum: usize = 0;
    let mut i: usize = 0;
    proof {
        assert(values@.take(0) =~= Seq::<usize>::empty());
        assert forall|s: int| 0 <= s < 1 implies #[trigger] reachable[s] == (if is_subset_sum(
            as_ints(values@.take(0)),
            s,
        ) {
            1u8
        } else {
            0u8
        }) by {}
    }
    while i < values.len()
        invariant
            i <= values.len(),
            seq_sum(values@) < usize::MAX,
            max_sum == seq_sum(values@.take(i as int)),
            reachable.len() == max_sum + 1,
            forall|s: int|
                0 <= s < reachable.len() ==> #[trigger] reachable[s] == (if is_subset_sum(
                    as_ints(values@.take(i as int)),
                    s,
                ) {
                    1u8
                } else {
                    0u8
                }),
        decreases values.len() - i,
    {
        let value = values[i];
        let ghost prefix = as_ints(values@.take(i as int));
        let ghost next_prefix = as_ints(values@.take(i + 1));
        proof {
            assert(next_prefix.drop_last() =~= prefix);
            assert(next_prefix.last() == value);
            assert(values@.take(i + 1).drop_last() =~= values@.take(i as int));
            lemma_as_ints_sum(values@.take(i as int));
            crate::divisors::lemma_seq_sum_prefix_le(values@, i + 1);
        }
        let mut next: Vec<u8> = Vec::new();
        let mut t: usize = 0;
        while t <= max_sum
            invariant
                t <= max_sum + 1,
                max_sum + value < usize::MAX,
                reachable.len() == max_sum + 1,
                next.len() == t,
                forall|s: int| 0 <= s < t ==> #[trigger] next[s] == reachable[s],
            decreases max_sum + 1 - t,
        {
            next.push(reachable[t]);
            t = t + 1;
        }
        while t <= max_sum + value
            invariant
                max_sum + 1 <= t <= max_sum + value + 1,
                max_sum + value < usize::MAX,
                next.len() == t,
                forall|s: int| 0 <= s <= max_sum ==> #[trigger] next[s] == reachable[s],
                forall|s: int| max_sum < s < t ==> #[trigger] next[s] == 0,
            decreases max_sum + value + 1 - t,
        {
            next.push(0);
            t = t + 1;
        }
        let mut s: usize = 0;
        while s <= max_sum
            invariant
                s <= max_sum + 1,
                max_sum + value < usize::MAX,
                reachable.len() == max_sum + 1,
                next.len() == max_sum + value + 1,
                forall|k: int|
                    0 <= k <= max_sum + value ==> #[trigger] next[k] == (if (k <= max_sum
                        && reachable[k] != 0) || (value <= k < s + value && reachable[k - value]
                        != 0) {
                        1u8
                    } else {
                        0u8
                    }),
            decreases max_sum + 1 - s,
        {
            if reachable[s] != 0 {
                next.set(s + value, 1);
            }
            s = s + 1;
        }
        proof {
            assert forall|k: int| 0 <= k < next.len() implies #[trigger] next[k] == (if is_subset_sum(
                next_prefix,
                k,
            ) {
                1u8
            } else {
                0u8
            }) by {
                if k > max_sum && is_subset_sum(prefix, k) {
                    lemma_subset_sum_range(prefix, k);
                }
                if k - value > max_sum && is_subset_sum(prefix, k - value) {
                    lemma_subset_sum_range(prefix, k - value);
                }
                if k - value < 0 && is_subset_sum(prefix, k - value) {
                    lemma_subset_sum_range(prefix, k - value);
                }
            }
        }
        reachable = next;
        max_sum = max_sum + value;
        i = i + 1;
    }
    proof {
        assert(values@.take(values.len() as int) =~= values@);
    }
    reachable
}

/// Every entry of `reachable` from `start` to `end` (inclusive) is nonzero.
pub open spec fn all_on(reachable: Seq<u8>, start: int, end: int) -> bool {
    forall|k: int| start <= k <= end ==> #[trigger] reachable[k] != 0
}

/// `(start, end)` is the first among the longest runs of nonzero entries of
/// `reachable`.
pub open spec fn is_first_longest_run(reachable: Seq<u8>, start: int, end: int) -> bool {
    &&& 0 <= start <= end < reachable.len()
    &&& all_on(reachable, start, end)
    &&& forall|s: int, e: int|
        0 <= s <= e < reachable.len() && all_on(reachable, s, e) ==> e - s <= end - start && (e - s
            == end - start ==> start <= s)
}

/// The first longest run of nonzero entries of `reachable`, as the indices of
/// its first and last entries; `(0, 0)` when every entry is zero.
pub fn longest_reachable_interval(reachable: &[u8]) -> (run: (usize, usize))
    ensures
        (forall|k: int| 0 <= k < reachable.len() ==> reachable[k] == 0) ==> run == (0usize, 0usize),
        (exists|k: int| 0 <= k < reachable.len() && reachable[k] != 0) ==> is_first_longest_run(
            reachable@,
            run.0 as int,
            run.1 as int,
        ),
{
    let len = reachable.len();
    let mut best_start: usize = 0;
    let mut best_end: usize = 0;
    let mut best_len: usize = 0;
    let mut start: Option<usize> = None;
    let mut n: usize = 0;
    while n < len
        invariant
            n <= len,
            len == reachable.len(),
            best_len > 0 ==> best_end - best_start + 1 == best_len && best_start <= best_end < n
                && all_on(reachable@, best_start as int, best_end as int),
            best_len == 0 ==> best_start == 0 && best_end == 0,
            best_len == 0 ==> forall|k: int| 0 <= k < n && (start is None || k < start->0) ==> reachable[k] == 0,
            start matches Some(s) ==> s < n && all_on(reachable@, s as int, n - 1) && (s == 0
                || reachable[s - 1] == 0),
            best_len > 0 ==> (start matches Some(s) ==> best_end + 1 < s),
            start is None ==> n == 0 || reachable[n - 1] == 0,
            forall|s: int, e: int|
                0 <= s <= e < n && all_on(reachable@, s, e) && (start is None || s < start->0)
                    ==> e - s + 1 <= best_len && (e - s + 1 == best_len ==> best_start <= s),
        decreases len - n,
    {
        let on = reachable[n] != 0;
        if on && start.is_none() {
            start = Some(n);
        }
        if !on {
            if let Some(s) = start {
                let end = n - 1;
                let run_len = end - s + 1;
                if run_len > best_len {
                    best_start = s;
                    best_end = end;
                    best_len = run_len;
                }
                start = None;
            }
        }
        proof {
            assert forall|s2: int, e2: int|
                0 <= s2 <= e2 < n + 1 && all_on(reachable@, s2, e2) && (start is None || s2
                    < start->0) implies e2 - s2 + 1 <= best_len && (e2 - s2 + 1 == best_len
                ==> best_start <= s2) by {
                if e2 == n && !on {
                    assert(reachable[e2] != 0);
                }
                if e2 == n - 1 && on && s2 < n {
                    assert(reachable[e2] != 0);
                }
                if s2 < n - 1 && e2 >= n - 1 && n >= 1 && reachable[n - 1] == 0 {
                    assert(reachable[n - 1] != 0);
                }
            }
        }
        n = n + 1;
    }
    if let Some(s) = start {
        let end = n - 1;
        let run_len = end - s + 1;
        if run_len > best_len {
            best_start = s;
            best_end = end;
            best_len = run_len;
        }
    }
    proof {
        if best_len > 0 {
            assert(reachable[best_start as int] != 0);
        }
        if best_len == 0 {
            assert forall|k: int| 0 <= k < len implies reachable[k] == 0 by {
                if reachable[k] != 0 {
                    assert(all_on(reachable@, k, k));
                }
            }
        } else {
            assert forall|s2: int, e2: int|
                0 <= s2 <= e2 < len && all_on(reachable@, s2, e2) implies e2 - s2 <= best_end
                - best_start && (e2 - s2 == best_end - best_start ==> best_start <= s2) by {}
        }
    }
    (best_start, best_end)
}

} // verus!
