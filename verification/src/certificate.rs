use crate::divisors::seq_sum;
use crate::ordered::{as_ints, int_sum, lemma_as_ints_sum};
use crate::text::{decimal, json_array_text, json_usize_array, push_decimal};
use vstd::prelude::*;
use vstd::string::*;

verus! {

/// `p` is one of the three excluded values.
pub open spec fn is_forbidden(p: int, f0: int, f1: int, f2: int) -> bool {
    p == f0 || p == f1 || p == f2
}

/// Whether `p` is one of the three excluded values `f0`, `f1`, `f2`.
pub fn forbidden(p: usize, f0: usize, f1: usize, f2: usize) -> (r: bool)
    ensures
        r == is_forbidden(p as int, f0 as int, f1 as int, f2 as int),
{
    p == f0 || p == f1 || p == f2
}

/// `p` and `even - p` are two different flagged entries of `table`, neither
/// of them excluded.
pub open spec fn pair_ok(table: Seq<u8>, even: int, p: int, f0: int, f1: int, f2: int) -> bool {
    let q = even - p;
    &&& p != q
    &&& 0 <= p < table.len()
    &&& 0 <= q < table.len()
    &&& table[p] != 0
    &&& table[q] != 0
    &&& !is_forbidden(p, f0, f1, f2)
    &&& !is_forbidden(q, f0, f1, f2)
}

/// The smallest candidate `p` of a central pair: above `lo`, and such that
/// `even - p` stays below `hi`.
pub open spec fn pair_start(even: int, lo: int, hi: int) -> int {
    let below = if even > hi {
        even - hi
    } else {
        0
    };
    if lo + 1 >= below + 1 {
        lo + 1
    } else {
        below + 1
    }
}

/// The largest candidate `p` of a central pair: below `hi` and at most half
/// of `even`.
pub open spec fn pair_stop(even: int, hi: int) -> int {
    if hi - 1 <= even / 2 {
        hi - 1
    } else {
        even / 2
    }
}

/// The first odd number at least `start`.
pub open spec fn first_odd_from(start: int) -> int {
    if start % 2 == 0 {
        start + 1
    } else {
        start
    }
}

/// Scanning `p, p + 2, p + 4, ...` up to `stop`, the first `p` with
/// `pair_ok`, together with `even - p`.
pub open spec fn first_pair_from(
    table: Seq<u8>,
    even: int,
    p: int,
    stop: int,
    f0: int,
    f1: int,
    f2: int,
) -> Option<(int, int)>
    decreases stop - p + 2,
{
    if p > stop {
        None
    } else if pair_ok(table, even, p, f0, f1, f2) {
        Some((p, even - p))
    } else {
        first_pair_from(table, even, p + 2, stop, f0, f1, f2)
    }
}

/// The central pair of `even` in the window `(lo, hi)`: the smallest odd
/// `p` with `lo < p`, `even - p < hi` and `p <= even / 2` such that `p` and
/// `even - p` are different flagged entries, neither excluded.
pub open spec fn spec_central_pair(
    table: Seq<u8>,
    even: int,
    lo: int,
    hi: int,
    f0: int,
    f1: int,
    f2: int,
) -> Option<(int, int)> {
    first_pair_from(
        table,
        even,
        first_odd_from(pair_start(even, lo, hi)),
        pair_stop(even, hi),
        f0,
        f1,
        f2,
    )
}

/// What the scan of `first_pair_from` finds: the first candidate of the
/// right parity that passes `pair_ok`, or none when no candidate does.
pub proof fn lemma_first_pair_from(
    table: Seq<u8>,
    even: int,
    p: int,
    stop: int,
    f0: int,
    f1: int,
    f2: int,
)
    ensures
        first_pair_from(table, even, p, stop, f0, f1, f2) matches Some(r) ==> p <= r.0 <= stop && (
        r.0 - p) % 2 == 0 && r.1 == even - r.0 && pair_ok(table, even, r.0, f0, f1, f2) && (forall|
            x: int|
            p <= x < r.0 && (x - p) % 2 == 0 ==> !#[trigger] pair_ok(table, even, x, f0, f1, f2)),
        first_pair_from(table, even, p, stop, f0, f1, f2) is None ==> forall|x: int|
            p <= x <= stop && (x - p) % 2 == 0 ==> !#[trigger] pair_ok(table, even, x, f0, f1, f2),
    decreases stop - p + 2,
{
    if p <= stop && !pair_ok(table, even, p, f0, f1, f2) {
        lemma_first_pair_from(table, even, p + 2, stop, f0, f1, f2);
        assert forall|x: int| p <= x < p + 2 && (x - p) % 2 == 0 implies !#[trigger] pair_ok(
            table,
            even,
            x,
            f0,
            f1,
            f2,
        ) by {
            assert(x == p);
        }
    }
}

/// `p` is a candidate for the central pair of `even` in the window
/// `(lo, hi)`: `p` is odd, `lo < p < even - p < hi`, both `p` and `even - p`
/// are flagged in `table`, and neither is one of `f0`, `f1`, `f2`.
pub open spec fn central_candidate(
    table: Seq<u8>,
    even: int,
    lo: int,
    hi: int,
    f0: int,
    f1: int,
    f2: int,
    p: int,
) -> bool {
    &&& p % 2 == 1
    &&& lo < p
    &&& p < even - p
    &&& even - p < hi
    &&& table[p] != 0
    &&& table[even - p] != 0
    &&& p != f0 && p != f1 && p != f2
    &&& even - p != f0 && even - p != f1 && even - p != f2
}

/// The central pair is complete: it is `(p, even - p)` for the least
/// candidate `p`, and there is none exactly when no `p` is a candidate.
pub proof fn lemma_central_pair_complete(
    table: Seq<u8>,
    even: int,
    lo: int,
    hi: int,
    f0: int,
    f1: int,
    f2: int,
)
    requires
        0 <= lo,
        1 <= hi <= table.len(),
    ensures
        spec_central_pair(table, even, lo, hi, f0, f1, f2) matches Some((p, q)) ==> q == even - p
            && central_candidate(table, even, lo, hi, f0, f1, f2, p) && forall|x: int|
            #[trigger] central_candidate(table, even, lo, hi, f0, f1, f2, x) ==> p <= x,
        spec_central_pair(table, even, lo, hi, f0, f1, f2) is None ==> forall|x: int|
            !#[trigger] central_candidate(table, even, lo, hi, f0, f1, f2, x),
{
    let start = pair_start(even, lo, hi);
    let p0 = first_odd_from(start);
    let stop = pair_stop(even, hi);
    lemma_first_pair_from(table, even, p0, stop, f0, f1, f2);
    assert(p0 % 2 == 1 && p0 >= lo + 1 && p0 >= 1);
    assert forall|x: int| #[trigger] central_candidate(table, even, lo, hi, f0, f1, f2, x) implies p0 <= x
        <= stop && (x - p0) % 2 == 0 && pair_ok(table, even, x, f0, f1, f2) by {
        assert(x >= start);
        assert(2 * x < even);
        assert(x <= even / 2);
    }
    assert forall|x: int|
        p0 <= x <= stop && (x - p0) % 2 == 0 && pair_ok(table, even, x, f0, f1, f2) implies #[trigger] central_candidate(
        table,
        even,
        lo,
        hi,
        f0,
        f1,
        f2,
        x,
    ) by {
        assert(x % 2 == 1);
        assert(x <= even / 2);
        assert(even - x < hi);
    }
}

/// The central pair of `even` within `(lo, hi)`, avoiding the excluded
/// values `f0`, `f1`, `f2`: the smallest odd `p` above `lo`, with
/// `even - p < hi` and `p <= even / 2`, such that `p` and `q = even - p` are
/// different flagged entries of `table` and neither is excluded.
pub fn central_pair(
    table: &[u8],
    even: usize,
    lo: usize,
    hi: usize,
    f0: usize,
    f1: usize,
    f2: usize,
) -> (pair: Option<(usize, usize)>)
    requires
        1 <= hi <= table.len(),
        lo < usize::MAX,
    ensures
        pair matches Some((p, q)) ==> spec_central_pair(
            table@,
            even as int,
            lo as int,
            hi as int,
            f0 as int,
            f1 as int,
            f2 as int,
        ) == Some((p as int, q as int)),
        pair is None ==> spec_central_pair(
            table@,
            even as int,
            lo as int,
            hi as int,
            f0 as int,
            f1 as int,
            f2 as int,
        ) is None,
        pair matches Some((p, q)) ==> p % 2 == 1 && lo < p <= even / 2 && p + q == even && q < hi
            && pair_ok(table@, even as int, p as int, f0 as int, f1 as int, f2 as int),
        pair matches Some((p, q)) ==> q == even - p && central_candidate(
            table@,
            even as int,
            lo as int,
            hi as int,
            f0 as int,
            f1 as int,
            f2 as int,
            p as int,
        ) && forall|x: int|
            #[trigger] central_candidate(
                table@,
                even as int,
                lo as int,
                hi as int,
                f0 as int,
                f1 as int,
                f2 as int,
                x,
            ) ==> p <= x,
        pair is None ==> forall|x: int|
            !#[trigger] central_candidate(
                table@,
                even as int,
                lo as int,
                hi as int,
                f0 as int,
                f1 as int,
                f2 as int,
                x,
            ),
{
    proof {
        lemma_central_pair_complete(
            table@,
            even as int,
            lo as int,
            hi as int,
            f0 as int,
            f1 as int,
            f2 as int,
        );
    }
    let low = if even > hi {
        even - hi
    } else {
        0
    };
    let start = if lo + 1 >= low + 1 {
        lo + 1
    } else {
        low + 1
    };
    let stop = if hi - 1 <= even / 2 {
        hi - 1
    } else {
        even / 2
    };
    let first = if start % 2 == 0 {
        start + 1
    } else {
        start
    };
    let ghost target = spec_central_pair(
        table@,
        even as int,
        lo as int,
        hi as int,
        f0 as int,
        f1 as int,
        f2 as int,
    );
    let mut p = first;
    assert(target == first_pair_from(
        table@,
        even as int,
        p as int,
        stop as int,
        f0 as int,
        f1 as int,
        f2 as int,
    ));
    while p <= stop
        invariant
            first <= p,
            p % 2 == 1,
            start <= first,
            first % 2 == 1,
            lo + 1 <= start,
            even <= hi + start - 1,
            stop <= hi - 1,
            stop <= even / 2,
            hi <= table.len(),
            target == spec_central_pair(
                table@,
                even as int,
                lo as int,
                hi as int,
                f0 as int,
                f1 as int,
                f2 as int,
            ),
            target == first_pair_from(
                table@,
                even as int,
                p as int,
                stop as int,
                f0 as int,
                f1 as int,
                f2 as int,
            ),
        decreases stop - p + 2,
    {
        let q = even - p;
        if p != q && table[p] != 0 && table[q] != 0 && !forbidden(p, f0, f1, f2) && !forbidden(
            q,
            f0,
            f1,
            f2,
        ) {
            assert(pair_ok(table@, even as int, p as int, f0 as int, f1 as int, f2 as int));
            proof {
                lemma_central_pair_complete(
                table@,
                even as int,
                lo as int,
                hi as int,
                f0 as int,
                f1 as int,
                f2 as int,
            );
            }
            return Some((p, q));
        }
        assert(!pair_ok(table@, even as int, p as int, f0 as int, f1 as int, f2 as int));
        if stop - p < 2 {
            assert(first_pair_from(
                table@,
                even as int,
                p + 2,
                stop as int,
                f0 as int,
                f1 as int,
                f2 as int,
            ) is None);
            proof {
                lemma_central_pair_complete(
                table@,
                even as int,
                lo as int,
                hi as int,
                f0 as int,
                f1 as int,
                f2 as int,
            );
            }
            return None;
        }
        p = p + 2;
    }
    proof {
        lemma_central_pair_complete(
                table@,
                even as int,
                lo as int,
                hi as int,
                f0 as int,
                f1 as int,
                f2 as int,
            );
    }
    None
}

/// The candidate splits `e1` of the four-prime search: even, at most half of
/// `even`, with both `e1` and `even - e1` within the chunk bounds.
pub open spec fn first_split(even: int) -> int {
    let mid = even / 2;
    if mid % 2 == 0 {
        mid
    } else {
        mid - 1
    }
}

/// Scanning the splits `e1, e1 - 2, ...` while `e1 >= min_chunk` and
/// `even - e1 <= max_chunk`, the first split for which both halves have a
/// central pair, the second avoiding the first.
pub open spec fn four_primes_from(
    table: Seq<u8>,
    even: int,
    e1: int,
    lo: int,
    hi: int,
    min_chunk: int,
    max_chunk: int,
    f0: int,
) -> Option<Seq<int>>
    decreases e1 + 2,
{
    if e1 < 0 || !(e1 >= min_chunk && even - e1 <= max_chunk) {
        None
    } else {
        let e2 = even - e1;
        let found = if min_chunk <= e2 <= max_chunk {
            match spec_central_pair(table, e1, lo, hi, f0, 0, 0) {
                Some((p1, q1)) => match spec_central_pair(table, e2, lo, hi, f0, p1, q1) {
                    Some((p2, q2)) => Some(seq![p1, q1, p2, q2]),
                    None => None,
                },
                None => None,
            }
        } else {
            None
        };
        if found is Some {
            found
        } else if e1 < 2 {
            None
        } else {
            four_primes_from(table, even, e1 - 2, lo, hi, min_chunk, max_chunk, f0)
        }
    }
}

/// The four-prime certificate of `even` with window parameter `m`: the
/// result of `four_primes_from` from the first even split at most `even / 2`.
pub open spec fn spec_four_prime_certificate(
    table: Seq<u8>,
    even: int,
    m: int,
    margin: int,
    f0: int,
) -> Option<Seq<int>> {
    four_primes_from(table, even, first_split(even), m, 2 * m, 2 * m + margin, 4 * m - margin, f0)
}

/// `values` is a certificate for `n` in the window of `m`: distinct flagged
/// entries of `table`, each strictly between `m` and `2 * m`, summing to
/// `n`.
pub open spec fn valid_certificate(table: Seq<u8>, values: Seq<int>, n: int, m: int) -> bool {
    &&& forall|i: int|
        0 <= i < values.len() ==> m < #[trigger] values[i] < 2 * m && values[i] < table.len()
            && table[values[i]] != 0
    &&& forall|i: int, j: int| 0 <= i < j < values.len() ==> values[i] != values[j]
    &&& int_sum(values) == n
}

/// Every certificate that the four-prime scan finds is made of four distinct
/// flagged entries strictly between `m` and `2 * m`, none equal to `f0`,
/// summing to `even`.
pub proof fn lemma_four_primes_valid(
    table: Seq<u8>,
    even: int,
    e1: int,
    m: int,
    min_chunk: int,
    max_chunk: int,
    f0: int,
)
    requires
        m >= 1,
        four_primes_from(table, even, e1, m, 2 * m, min_chunk, max_chunk, f0) is Some,
    ensures
        valid_certificate(
            table,
            four_primes_from(table, even, e1, m, 2 * m, min_chunk, max_chunk, f0)->0,
            even,
            m,
        ),
        four_primes_from(table, even, e1, m, 2 * m, min_chunk, max_chunk, f0)->0.len() == 4,
        forall|i: int|
            0 <= i < 4 ==> #[trigger] four_primes_from(
                table,
                even,
                e1,
                m,
                2 * m,
                min_chunk,
                max_chunk,
                f0,
            )->0[i] != f0,
    decreases e1 + 2,
{
    let lo = m;
    let hi = 2 * m;
    let e2 = even - e1;
    let found = if min_chunk <= e2 <= max_chunk {
        match spec_central_pair(table, e1, lo, hi, f0, 0, 0) {
            Some((p1, q1)) => match spec_central_pair(table, e2, lo, hi, f0, p1, q1) {
                Some((p2, q2)) => Some(seq![p1, q1, p2, q2]),
                None => None,
            },
            None => None,
        }
    } else {
        None
    };
    if found is Some {
        let (p1, q1) = spec_central_pair(table, e1, lo, hi, f0, 0, 0)->0;
        let (p2, q2) = spec_central_pair(table, e2, lo, hi, f0, p1, q1)->0;
        lemma_central_pair_window(table, e1, lo, hi, f0, 0, 0);
        lemma_central_pair_window(table, e2, lo, hi, f0, p1, q1);
        let c = seq![p1, q1, p2, q2];
        assert(int_sum(c) == p1 + q1 + p2 + q2) by {
            reveal_with_fuel(int_sum, 5);
            assert(c.drop_last() =~= seq![p1, q1, p2]);
            assert(c.drop_last().drop_last() =~= seq![p1, q1]);
            assert(c.drop_last().drop_last().drop_last() =~= seq![p1]);
            assert(c.drop_last().drop_last().drop_last().drop_last() =~= Seq::<int>::empty());
        }
        assert(forall|i: int| 0 <= i < 4 ==> #[trigger] c[i] == p1 || c[i] == q1 || c[i] == p2 || c[i] == q2);
    } else {
        lemma_four_primes_valid(table, even, e1 - 2, m, min_chunk, max_chunk, f0);
    }
}

/// A central pair found by the scan lies strictly inside the window, its two
/// members sum to `even` and are distinct flagged entries, neither excluded.
pub proof fn lemma_central_pair_window(
    table: Seq<u8>,
    even: int,
    lo: int,
    hi: int,
    f0: int,
    f1: int,
    f2: int,
)
    requires
        spec_central_pair(table, even, lo, hi, f0, f1, f2) is Some,
    ensures
        ({
            let (p, q) = spec_central_pair(table, even, lo, hi, f0, f1, f2)->0;
            &&& lo < p < hi
            &&& lo < q < hi
            &&& p + q == even
            &&& pair_ok(table, even, p, f0, f1, f2)
        }),
{
    let start = first_odd_from(pair_start(even, lo, hi));
    let stop = pair_stop(even, hi);
    lemma_first_pair_from(table, even, start, stop, f0, f1, f2);
}

/// A four-prime certificate of `even` with window parameter `m`: four
/// distinct flagged entries of `table` strictly between `m` and `2 * m`,
/// none equal to `f0`, summing to `even`. The splits `even = e1 + e2` are
/// tried from `e1` the largest even number at most `even / 2` downwards, as
/// long as `e1 >= 2 * m + margin` and `e2 <= 4 * m - margin`; a split counts
/// when `e2` is within the same bounds, `e1` has a central pair and `e2` has
/// one avoiding the first. The first split that counts gives the result.
pub fn four_prime_certificate(
    table: &[u8],
    even: usize,
    m: usize,
    margin: usize,
    f0: usize,
) -> (cert: Option<[usize; 4]>)
    requires
        m >= 1,
        4 * m <= usize::MAX,
        2 * m + margin <= usize::MAX,
        margin <= 4 * m,
        2 * m <= table.len(),
    ensures
        cert is Some <==> spec_four_prime_certificate(
            table@,
            even as int,
            m as int,
            margin as int,
            f0 as int,
        ) is Some,
        cert matches Some(c) ==> spec_four_prime_certificate(
            table@,
            even as int,
            m as int,
            margin as int,
            f0 as int,
        ) == Some(as_ints(c@)),
        cert matches Some(c) ==> valid_certificate(table@, as_ints(c@), even as int, m as int) && (
        forall|i: int| 0 <= i < 4 ==> #[trigger] c@[i] != f0),
{
    let lo = m;
    let hi = 2 * m;
    let min_chunk = 2 * m + margin;
    let max_chunk = 4 * m - margin;
    let mid = even / 2;
    let mut e1 = if mid % 2 == 0 {
        mid
    } else {
        mid - 1
    };
    let ghost target = spec_four_prime_certificate(
        table@,
        even as int,
        m as int,
        margin as int,
        f0 as int,
    );
    proof {
        if target is Some {
            lemma_four_primes_valid(
                table@,
                even as int,
                first_split(even as int),
                m as int,
                min_chunk as int,
                max_chunk as int,
                f0 as int,
            );
        }
    }
    while e1 >= min_chunk && even - e1 <= max_chunk
        invariant
            e1 <= even,
            lo == m,
            hi == 2 * m,
            1 <= hi <= table.len(),
            lo < usize::MAX,
            min_chunk == 2 * m + margin,
            max_chunk == 4 * m - margin,
            target == spec_four_prime_certificate(
                table@,
                even as int,
                m as int,
                margin as int,
                f0 as int,
            ),
            target == four_primes_from(
                table@,
                even as int,
                e1 as int,
                lo as int,
                hi as int,
                min_chunk as int,
                max_chunk as int,
                f0 as int,
            ),
            target is Some ==> valid_certificate(table@, target->0, even as int, m as int) && (
            forall|i: int| 0 <= i < 4 ==> #[trigger] target->0[i] != f0),
        ensures
            target is None,
        decreases e1,
    {
        let e2 = even - e1;
        if e2 >= min_chunk && e2 <= max_chunk {
            if let Some((p1, q1)) = central_pair(table, e1, lo, hi, f0, 0, 0) {
                if let Some((p2, q2)) = central_pair(table, e2, lo, hi, f0, p1, q1) {
                    let c = [p1, q1, p2, q2];
                    proof {
                        assert(as_ints(c@) =~= seq![p1 as int, q1 as int, p2 as int, q2 as int]);
                        assert(target == Some(as_ints(c@)));
                        assert forall|i: int| 0 <= i < 4 implies #[trigger] c@[i] != f0 by {
                            assert(as_ints(c@)[i] == c@[i] as int);
                        }
                    }
                    return Some(c);
                }
            }
        }
        if e1 < 2 {
            break ;
        }
        e1 = e1 - 2;
    }
    None
}

/// A certificate that `n` is a sum of distinct primes of the window: four
/// primes for an even `n`, five (the first being a fixed prime `p0`) for an
/// odd one.
#[derive(Debug, PartialEq, Eq)]
pub enum Certificate {
    Four([usize; 4]),
    Five([usize; 5]),
}

impl Certificate {
    /// The primes of the certificate, in order.
    pub open spec fn spec_values(&self) -> Seq<usize> {
        match self {
            Certificate::Four(values) => values@,
            Certificate::Five(values) => values@,
        }
    }

    /// The primes of the certificate, in order.
    pub fn values(&self) -> (values: &[usize])
        ensures
            values@ == self.spec_values(),
    {
        match self {
            Certificate::Four(values) => values.as_slice(),
            Certificate::Five(values) => values.as_slice(),
        }
    }
}

/// The certificate of `n` with window parameter `m`: for an even `n` the
/// four-prime certificate of `n`; for an odd `n`, `p0` followed by the
/// four-prime certificate of `n - p0` that avoids `p0`.
#[verifier::opaque]
pub open spec fn spec_seed_certificate(
    table: Seq<u8>,
    n: int,
    m: int,
    margin: int,
    p0: int,
) -> Option<Seq<int>> {
    if n % 2 == 0 {
        spec_four_prime_certificate(table, n, m, margin, 0)
    } else {
        match spec_four_prime_certificate(table, n - p0, m, margin, p0) {
            Some(tail) => Some(seq![p0] + tail),
            None => None,
        }
    }
}

/// The certificate of `n` with window parameter `m`: four primes for an
/// even `n`; for an odd `n`, `p0` and four primes for `n - p0`, none equal
/// to `p0`.
pub fn seed_certificate(
    table: &[u8],
    n: usize,
    m: usize,
    margin: usize,
    p0: usize,
) -> (cert: Option<Certificate>)
    requires
        m >= 1,
        4 * m <= usize::MAX,
        2 * m + margin <= usize::MAX,
        margin <= 4 * m,
        2 * m <= table.len(),
        n % 2 == 1 ==> p0 <= n,
    ensures
        cert is Some <==> spec_seed_certificate(
            table@,
            n as int,
            m as int,
            margin as int,
            p0 as int,
        ) is Some,
        cert matches Some(c) ==> spec_seed_certificate(
            table@,
            n as int,
            m as int,
            margin as int,
            p0 as int,
        ) == Some(as_ints(c.spec_values())),
        cert matches Some(c) ==> (c is Four <==> n % 2 == 0),
        cert matches Some(c) ==> (n % 2 == 0 || p0 < table.len()) ==> forall|i: int|
            0 <= i < c.spec_values().len() ==> (#[trigger] c.spec_values()[i]) < table.len(),
{
    proof {
        reveal(spec_seed_certificate);
    }
    if n % 2 == 0 {
        return match four_prime_certificate(table, n, m, margin, 0) {
            Some(values) => {
                proof {
                    assert forall|i: int| 0 <= i < values@.len() implies (#[trigger] values@[i]) < table.len() by {
                        assert(as_ints(values@)[i] == values@[i] as int);
                    }
                }
                Some(Certificate::Four(values))
            },
            None => None,
        };
    }
    match four_prime_certificate(table, n - p0, m, margin, p0) {
        Some(tail) => {
            let values = [p0, tail[0], tail[1], tail[2], tail[3]];
            proof {
                assert(as_ints(values@) =~= seq![p0 as int] + as_ints(tail@));
                assert forall|i: int| 0 <= i < 4 implies (#[trigger] tail@[i]) < table.len() by {
                    assert(as_ints(tail@)[i] == tail@[i] as int);
                }
            }
            Some(Certificate::Five(values))
        },
        None => None,
    }
}

/// Every certificate that `seed_certificate` gives is valid: distinct
/// flagged entries strictly between `m` and `2 * m` summing to `n`, provided
/// that for an odd `n` the fixed prime `p0` is a flagged entry above `m`
/// that lies below `2 * m` or is the first flagged entry above `m` (the
/// other entries of the certificate are then flagged entries of the window,
/// so the first one above `m` lies in it too).
pub proof fn lemma_seed_certificate_valid(table: Seq<u8>, n: int, m: int, margin: int, p0: int)
    requires
        m >= 1,
        spec_seed_certificate(table, n, m, margin, p0) is Some,
        n % 2 != 0 ==> m < p0 < table.len() && table[p0] != 0 && (p0 < 2 * m || forall|j: int|
            m < j < p0 ==> table[j] == 0),
    ensures
        valid_certificate(table, spec_seed_certificate(table, n, m, margin, p0)->0, n, m),
{
    reveal(spec_seed_certificate);
    let lo = m;
    let hi = 2 * m;
    let min_chunk = 2 * m + margin;
    let max_chunk = 4 * m - margin;
    if n % 2 == 0 {
        lemma_four_primes_valid(table, n, first_split(n), m, min_chunk, max_chunk, 0);
    } else {
        lemma_four_primes_valid(table, n - p0, first_split(n - p0), m, min_chunk, max_chunk, p0);
        let tail = spec_four_prime_certificate(table, n - p0, m, margin, p0)->0;
        assert(p0 < 2 * m) by {
            if p0 >= 2 * m {
                assert(m < tail[0] < 2 * m && table[tail[0]] != 0);
            }
        }
        let c = seq![p0] + tail;
        assert(int_sum(c) == p0 + int_sum(tail)) by {
            reveal_with_fuel(int_sum, 6);
            assert(c.drop_last() =~= seq![p0] + tail.drop_last());
            assert(c.drop_last().drop_last() =~= seq![p0] + tail.drop_last().drop_last());
            assert(c.drop_last().drop_last().drop_last() =~= seq![p0] + tail.drop_last().drop_last().drop_last());
            assert(c.drop_last().drop_last().drop_last().drop_last() =~= seq![p0]);
            assert(tail.drop_last().drop_last().drop_last().drop_last() =~= Seq::<int>::empty());
            assert(seq![p0].drop_last() =~= Seq::<int>::empty());
        }
        assert forall|i: int, j: int| 0 <= i < j < c.len() implies c[i] != c[j] by {
            if i == 0 {
                assert(tail[j - 1] != p0);
            } else {
                assert(c[i] == tail[i - 1] && c[j] == tail[j - 1]);
            }
        }
        assert forall|i: int| 0 <= i < c.len() implies m < #[trigger] c[i] < 2 * m && c[i] < table.len()
            && table[c[i]] != 0 by {
            if i > 0 {
                assert(c[i] == tail[i - 1]);
            }
        }
    }
}

impl Certificate {
    /// The primes of the certificate as a JSON array.
    pub fn to_json_array(&self) -> (json: String)
        ensures
            json@ == json_array_text(self.spec_values()),
    {
        json_usize_array(self.values())
    }
}

/// Why a certificate for `n` was refused.
#[derive(Debug, PartialEq, Eq)]
pub enum CertificateError {
    /// The prime `p` occurs twice.
    RepeatedPrime { n: usize, p: usize },
    /// The entry `p` is not flagged as prime.
    NotPrime { n: usize, p: usize },
    /// The prime `p` is not strictly between `m` and `2 * m`.
    OutsideWindow { n: usize, p: usize, m: usize },
    /// The primes sum to `total` rather than `n`.
    WrongSum { n: usize, total: u128 },
}

/// The text that reports a refusal.
pub open spec fn refusal_text(e: CertificateError) -> Seq<char> {
    match e {
        CertificateError::RepeatedPrime { n, p } => "certificate for "@ + decimal(n as nat)
            + " repeats prime "@ + decimal(p as nat),
        CertificateError::NotPrime { n, p } => "certificate for "@ + decimal(n as nat)
            + " uses non-prime "@ + decimal(p as nat),
        CertificateError::OutsideWindow { n, p, m } => "certificate for "@ + decimal(n as nat)
            + " uses "@ + decimal(p as nat) + " outside ("@ + decimal(m as nat) + ", "@ + decimal(
            (2 * m) as nat,
        ) + ")"@,
        CertificateError::WrongSum { n, total } => "certificate for "@ + decimal(n as nat)
            + " sums to "@ + decimal(total as nat),
    }
}

impl CertificateError {
    /// The message that reports the refusal.
    pub fn message(&self) -> (text: String)
        ensures
            text@ == refusal_text(*self),
    {
        let mut text = String::from_str("certificate for ");
        match self {
            CertificateError::RepeatedPrime { n, p } => {
                push_decimal(&mut text, *n as u128);
                text.append(" repeats prime ");
                push_decimal(&mut text, *p as u128);
            },
            CertificateError::NotPrime { n, p } => {
                push_decimal(&mut text, *n as u128);
                text.append(" uses non-prime ");
                push_decimal(&mut text, *p as u128);
            },
            CertificateError::OutsideWindow { n, p, m } => {
                push_decimal(&mut text, *n as u128);
                text.append(" uses ");
                push_decimal(&mut text, *p as u128);
                text.append(" outside (");
                push_decimal(&mut text, *m as u128);
                text.append(", ");
                push_decimal(&mut text, 2 * (*m as u128));
                text.append(")");
            },
            CertificateError::WrongSum { n, total } => {
                push_decimal(&mut text, *n as u128);
                text.append(" sums to ");
                push_decimal(&mut text, *total);
            },
        }
        text
    }
}

/// Entry `i` of `values` passes the checks made on it: it differs from the
/// entries before it, is flagged in `table` and lies strictly between `m`
/// and `2 * m`.
pub open spec fn entry_ok(table: Seq<u8>, values: Seq<usize>, m: int, i: int) -> bool {
    &&& forall|j: int| 0 <= j < i ==> values[j] != values[i]
    &&& table[values[i] as int] != 0
    &&& m < values[i] < 2 * m
}

/// The refusal for entry `i` of `values`: the first check it fails.
pub open spec fn entry_error(table: Seq<u8>, values: Seq<usize>, n: usize, m: usize, i: int) -> CertificateError {
    if exists|j: int| 0 <= j < i && values[j] == values[i] {
        CertificateError::RepeatedPrime { n, p: values[i] }
    } else if table[values[i] as int] == 0 {
        CertificateError::NotPrime { n, p: values[i] }
    } else {
        CertificateError::OutsideWindow { n, p: values[i], m }
    }
}

/// The index of the first entry of `values`, from `i` on, that fails its
/// checks; the length of `values` when none does.
pub open spec fn first_bad_entry(table: Seq<u8>, values: Seq<usize>, m: int, i: int) -> int
    decreases values.len() - i,
{
    if i >= values.len() {
        values.len() as int
    } else if !entry_ok(table, values, m, i) {
        i
    } else {
        first_bad_entry(table, values, m, i + 1)
    }
}

/// The refusal of a certificate for `n` whose entries are `values`: the
/// first check failed by the first failing entry, or the wrong sum when
/// every entry passes.
pub open spec fn refusal(table: Seq<u8>, values: Seq<usize>, n: usize, m: usize) -> CertificateError {
    let i = first_bad_entry(table, values, m as int, 0);
    if i < values.len() {
        entry_error(table, values, n, m, i)
    } else {
        CertificateError::WrongSum { n, total: seq_sum(values) as u128 }
    }
}

/// When the entries of `[start, i)` pass and entry `i` fails (or `i` is the
/// length), the first failing entry from `start` on is `i`.
proof fn lemma_first_bad_entry(table: Seq<u8>, values: Seq<usize>, m: int, start: int, i: int)
    requires
        0 <= start <= i <= values.len(),
        forall|j: int| start <= j < i ==> #[trigger] entry_ok(table, values, m, j),
        i < values.len() ==> !entry_ok(table, values, m, i),
    ensures
        first_bad_entry(table, values, m, start) == i,
    decreases i - start,
{
    if start < i {
        assert(entry_ok(table, values, m, start));
        lemma_first_bad_entry(table, values, m, start + 1, i);
    }
}

/// Checks a certificate for `n` in the window of `m`. Entry by entry, in
/// order, each prime must differ from the ones before it, be flagged in
/// `table`, and lie strictly between `m` and `2 * m`; then the primes must
/// sum to `n`. The first failed check is reported.
pub fn assert_prime_certificate(
    cert: &Certificate,
    table: &[u8],
    n: usize,
    m: usize,
) -> (r: Result<(), CertificateError>)
    requires
        forall|i: int|
            0 <= i < cert.spec_values().len() ==> (#[trigger] cert.spec_values()[i]) < table.len(),
    ensures
        r is Ok <==> valid_certificate(table@, as_ints(cert.spec_values()), n as int, m as int),
        r is Ok <==> (forall|i: int|
            0 <= i < cert.spec_values().len() ==> #[trigger] entry_ok(
                table@,
                cert.spec_values(),
                m as int,
                i,
            )) && seq_sum(cert.spec_values()) == n,
        r matches Err(e) ==> e == refusal(table@, cert.spec_values(), n, m),
{
    let values = cert.values();
    let ghost vals = cert.spec_values();
    assert(values.len() <= 5) by {
        assert(vals.len() == 4 || vals.len() == 5);
    }
    let mut total: u128 = 0;
    let mut i: usize = 0;
    while i < values.len()
        invariant
            values@ == vals,
            vals == cert.spec_values(),
            values.len() <= 5,
            i <= values.len(),
            total == seq_sum(vals.take(i as int)),
            total <= i * 0x1_0000_0000_0000_0000,
            forall|k: int| 0 <= k < vals.len() ==> (#[trigger] vals[k]) < table.len(),
            forall|k: int| 0 <= k < i ==> #[trigger] entry_ok(table@, vals, m as int, k),
        decreases values.len() - i,
    {
        let p = values[i];
        proof {
            assert(vals.take(i + 1).drop_last() =~= vals.take(i as int));
        }
        total = total + p as u128;
        let mut j: usize = 0;
        while j < i
            invariant
                values@ == vals,
                vals == cert.spec_values(),
                j <= i < values.len(),
                forall|k: int| 0 <= k < i ==> #[trigger] entry_ok(table@, vals, m as int, k),
                p == vals[i as int],
                forall|k: int| 0 <= k < j ==> vals[k] != p,
            decreases i - j,
        {
            if values[j] == p {
                proof {
                    assert(vals[j as int] == vals[i as int]);
                    assert(!entry_ok(table@, vals, m as int, i as int));
                    assert(entry_error(table@, vals, n, m, i as int) == (
                    CertificateError::RepeatedPrime { n, p }));
                    assert(as_ints(vals)[j as int] == as_ints(vals)[i as int]);
                    lemma_error_witness(table@, vals, n, m, i as int);
                }
                return Err(CertificateError::RepeatedPrime { n, p });
            }
            j = j + 1;
        }
        if table[p] == 0 {
            proof {
                assert(!(exists|j: int| 0 <= j < i && vals[j] == vals[i as int]));
                assert(!entry_ok(table@, vals, m as int, i as int));
                assert(table@[as_ints(vals)[i as int]] == 0);
                lemma_error_witness(table@, vals, n, m, i as int);
            }
            return Err(CertificateError::NotPrime { n, p });
        }
        if !(m < p && p - m < m) {
            proof {
                assert(!(exists|j: int| 0 <= j < i && vals[j] == vals[i as int]));
                assert(!entry_ok(table@, vals, m as int, i as int));
                assert(!(m < as_ints(vals)[i as int] < 2 * m));
                lemma_error_witness(table@, vals, n, m, i as int);
            }
            return Err(CertificateError::OutsideWindow { n, p, m });
        }
        i = i + 1;
    }
    proof {
        assert(vals.take(vals.len() as int) =~= vals);
        lemma_as_ints_sum(vals);
        assert forall|a: int, b: int| 0 <= a < b < vals.len() implies as_ints(vals)[a] != as_ints(vals)[b] by {
            assert(entry_ok(table@, vals, m as int, b));
        }
        assert forall|k: int| 0 <= k < vals.len() implies m < #[trigger] as_ints(vals)[k] < 2 * m
            && as_ints(vals)[k] < table.len() && table@[as_ints(vals)[k]] != 0 by {
            assert(entry_ok(table@, vals, m as int, k));
        }
        lemma_first_bad_entry(table@, vals, m as int, 0, vals.len() as int);
    }
    if total != n as u128 {
        return Err(CertificateError::WrongSum { n, total });
    }
    Ok(())
}

/// An entry that fails its checks after entries that all pass them is the
/// one reported.
proof fn lemma_error_witness(table: Seq<u8>, vals: Seq<usize>, n: usize, m: usize, i: int)
    requires
        0 <= i < vals.len(),
        forall|k: int| 0 <= k < i ==> #[trigger] entry_ok(table, vals, m as int, k),
        !entry_ok(table, vals, m as int, i),
    ensures
        refusal(table, vals, n, m) == entry_error(table, vals, n, m, i),
        !(forall|k: int| 0 <= k < vals.len() ==> #[trigger] entry_ok(table, vals, m as int, k)),
        !valid_certificate(table, as_ints(vals), n as int, m as int),
{
    lemma_first_bad_entry(table, vals, m as int, 0, i);
    let ints = as_ints(vals);
    if exists|j: int| 0 <= j < i && vals[j] == vals[i] {
        let j = choose|j: int| 0 <= j < i && vals[j] == vals[i];
        assert(ints[j] == ints[i]);
    } else if table[vals[i] as int] == 0 {
        assert(ints[i] == vals[i] as int);
    } else {
        assert(ints[i] == vals[i] as int);
    }
}

} // verus!
