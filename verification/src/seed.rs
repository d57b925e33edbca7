use crate::bq::{first_entries, MAX_REPORTED_MISSES};
use crate::certificate::{
    assert_prime_certificate,
    Certificate,
    lemma_seed_certificate_valid,
    refusal_text,
    seed_certificate,
    spec_seed_certificate,
    valid_certificate,
    CertificateError,
};
use crate::ordered::{
    as_ints,
    int_sum,
    lemma_ordered_filter_members,
    lemma_ordered_filter_split,
    ordered_filter,
};
use crate::primes::{is_prime, is_prime_table, next_prime_above, prime_flag, prime_pred, primes_between, sieve};
use crate::representation::{is_divisor_prefix_sum, lemma_certificate_represented};
use crate::subset_sums::{is_subset_sum, lemma_members_subset_sum};
use crate::text::{decimal, json_array_text, json_usize_array};
use vstd::prelude::*;
use vstd::string::*;

verus! {

/// The window parameter `M`: the seed uses primes strictly between `M` and
/// `2 * M`.
pub const LARGE_M: usize = 20_000_000;

/// How far the even halves stay inside the window of central pairs.
pub const LARGE_MARGIN: usize = 2_000_000;

/// The lower end of the seed interval.
pub const LARGE_FIRST: usize = 105_000_000;

/// The upper end of the seed interval.
pub const LARGE_LAST: usize = 156_000_000;

/// How far past `2 * M` the prime table reaches.
pub const LARGE_SIEVE_EXTRA: usize = 1_000_000;

/// The prime table of `0..=limit`.
pub open spec fn prime_table(limit: int) -> Seq<u8> {
    Seq::new((limit + 1) as nat, |k: int| prime_flag(k))
}

/// `values` are distinct primes strictly between `m` and `2 * m` summing to
/// `n`.
pub open spec fn prime_certificate(values: Seq<int>, n: int, m: int) -> bool {
    &&& forall|i: int| 0 <= i < values.len() ==> m < #[trigger] values[i] < 2 * m && is_prime(values[i])
    &&& forall|i: int, j: int| 0 <= i < j < values.len() ==> values[i] != values[j]
    &&& int_sum(values) == n
}

/// `n` has no seed certificate.
pub open spec fn lacks_certificate(table: Seq<u8>, m: int, margin: int, p0: int) -> spec_fn(int) -> bool {
    |n: int| spec_seed_certificate(table, n, m, margin, p0) is None
}

/// `k` lacks a certificate, or its certificate is valid.
#[verifier::opaque]
pub open spec fn settled(table: Seq<u8>, k: int, m: int, margin: int, p0: int) -> bool {
    lacks_certificate(table, m, margin, p0)(k) || valid_certificate(
        table,
        spec_seed_certificate(table, k, m, margin, p0)->0,
        k,
        m,
    )
}

/// A number without a certificate, or with a valid one, is settled.
proof fn lemma_settled(table: Seq<u8>, k: int, m: int, margin: int, p0: int)
    requires
        lacks_certificate(table, m, margin, p0)(k) || valid_certificate(
            table,
            spec_seed_certificate(table, k, m, margin, p0)->0,
            k,
            m,
        ),
    ensures
        settled(table, k, m, margin, p0),
{
    reveal(settled);
}

/// `example` records the certificate of `first` and its JSON text.
#[verifier::opaque]
pub open spec fn example_recorded(
    example: Option<(usize, String)>,
    table: Seq<u8>,
    first: int,
    m: int,
    margin: int,
    p0: int,
) -> bool {
    match example {
        Some((n, text)) => n == first && exists|values: Seq<usize>|
            #[trigger] as_ints(values) == spec_seed_certificate(table, first, m, margin, p0)->0
                && text@ == json_array_text(values),
        None => false,
    }
}

/// The outcome of a successful seed check.
#[derive(Debug, PartialEq, Eq)]
pub struct LargeSeedReport {
    pub m: usize,
    pub margin: usize,
    pub first: usize,
    pub last: usize,
    pub p0: usize,
    pub next_after_window: usize,
    pub example_n: usize,
    pub example_primes: String,
}

/// Why a seed check failed.
#[derive(Debug, PartialEq, Eq)]
pub enum LargeSeedError {
    /// The prime table holds no prime above `n`.
    NoPrimeAbove { n: usize },
    /// A certificate was refused by the check. The certificates that the
    /// search builds always pass it, so this does not occur.
    Certificate(CertificateError),
    /// The first numbers of the interval without a certificate.
    Misses(Vec<usize>),
    /// The interval is narrower than the first prime after the window.
    TooShort,
}

impl LargeSeedError {
    /// The message that reports the failure.
    pub fn message(&self) -> (text: String)
        ensures
            self matches LargeSeedError::NoPrimeAbove { n } ==> text@
                == "sieve too small to find prime above "@ + decimal(n as nat),
            self matches LargeSeedError::Misses(misses) ==> text@ == "large seed misses: "@
                + json_array_text(misses@),
            self is TooShort ==> text@ == "large seed too short to extend"@,
            self matches LargeSeedError::Certificate(e) ==> text@ == refusal_text(*e),
    {
        match self {
            LargeSeedError::NoPrimeAbove { n } => {
                let mut text = String::from_str("sieve too small to find prime above ");
                crate::text::push_decimal(&mut text, *n as u128);
                text
            },
            LargeSeedError::Certificate(e) => e.message(),
            LargeSeedError::Misses(misses) => {
                let mut text = String::from_str("large seed misses: ");
                text.append(json_usize_array(misses.as_slice()).as_str());
                text
            },
            LargeSeedError::TooShort => String::from_str("large seed too short to extend"),
        }
    }
}

/// A prime table's first flagged entry above `k` is the least prime of
/// `(k, limit]`.
proof fn lemma_next_prime(table: Seq<u8>, limit: int, k: int, p: int)
    requires
        table == prime_table(limit),
        0 <= k < p <= limit,
        table[p] != 0,
        forall|j: int| k < j < p ==> table[j] == 0,
    ensures
        primes_between(k, limit).len() > 0,
        primes_between(k, limit)[0] == p,
{
    lemma_ordered_filter_members(k, limit, prime_pred());
    let list = primes_between(k, limit);
    assert(table[p] == prime_flag(p));
    assert(prime_pred()(p));
    assert(list.contains(p));
    let idx = choose|idx: int| 0 <= idx < list.len() && list[idx] == p;
    if idx > 0 {
        assert(list[0] < list[idx]);
        assert(prime_pred()(list[0]));
        assert(table[list[0]] == prime_flag(list[0]));
    }
}


/// The certificate of `n`, checked: `Ok(None)` when `n` has none,
/// `Ok(Some(c))` for a certificate that passed the check. With `p0` the
/// first prime above `m`, the check never refuses one.
fn checked_certificate(table: &[u8], n: usize, m: usize, margin: usize, p0: usize) -> (r: Result<
    Option<Certificate>,
    CertificateError,
>)
    requires
        m >= 1,
        4 * m <= usize::MAX,
        2 * m + margin <= usize::MAX,
        margin <= 4 * m,
        2 * m <= table.len(),
        m < p0 < table.len(),
        table[p0 as int] != 0,
        forall|j: int| m < j < p0 ==> table[j] == 0,
        p0 <= n,
    ensures
        r matches Ok(None) ==> spec_seed_certificate(table@, n as int, m as int, margin as int, p0 as int) is None,
        r matches Ok(Some(c)) ==> spec_seed_certificate(
            table@,
            n as int,
            m as int,
            margin as int,
            p0 as int,
        ) == Some(as_ints(c.spec_values())) && valid_certificate(
            table@,
            as_ints(c.spec_values()),
            n as int,
            m as int,
        ),
        r is Ok,
{
    match seed_certificate(table, n, m, margin, p0) {
        None => Ok(None),
        Some(cert) => {
            match assert_prime_certificate(&cert, table, n, m) {
                Err(e) => {
                    proof {
                        lemma_seed_certificate_valid(table@, n as int, m as int, margin as int, p0 as int);
                    }
                    Err(e)
                },
                Ok(()) => Ok(Some(cert)),
            }
        },
    }
}

/// The seed check: for each `n` of `[first, last]`, a certificate of four
/// (even `n`) or five (odd `n`, the first being `p0`, the least prime above
/// `m`) distinct primes strictly between `m` and `2 * m` summing to `n`,
/// each certificate checked; and the interval is at least as wide as the
/// least prime above `2 * m`, so that the interval extension can start. The
/// primes come from the prime table of `0..=sieve_limit`.
pub fn large_seed_check(m: usize, margin: usize, first: usize, last: usize, sieve_limit: usize) -> (r:
    Result<LargeSeedReport, LargeSeedError>)
    requires
        m >= 1,
        4 * m <= usize::MAX,
        2 * m + margin <= usize::MAX,
        margin <= 4 * m,
        2 * m <= sieve_limit < first <= last < usize::MAX,
    ensures
        r matches Ok(report) ==> {
            let table = prime_table(sieve_limit as int);
            &&& primes_between(m as int, sieve_limit as int).len() > 0
            &&& report.p0 == primes_between(m as int, sieve_limit as int)[0]
            &&& primes_between(2 * m, sieve_limit as int).len() > 0
            &&& report.next_after_window == primes_between(2 * m, sieve_limit as int)[0]
            &&& forall|n: int|
                first <= n <= last ==> #[trigger] spec_seed_certificate(
                    table,
                    n,
                    m as int,
                    margin as int,
                    report.p0 as int,
                ) is Some && prime_certificate(
                    spec_seed_certificate(table, n, m as int, margin as int, report.p0 as int)->0,
                    n,
                    m as int,
                )
            &&& forall|n: int|
                first <= n <= last ==> #[trigger] is_subset_sum(primes_between(m as int, 2 * m), n)
            &&& last - first + 1 >= report.next_after_window
            &&& m >= 2 ==> forall|n: int| first <= n <= last ==> #[trigger] is_divisor_prefix_sum(n + 1)
            &&& report.example_n == first
            &&& exists|values: Seq<usize>|
                #[trigger] as_ints(values) == spec_seed_certificate(
                    table,
                    first as int,
                    m as int,
                    margin as int,
                    report.p0 as int,
                )->0 && report.example_primes@ == json_array_text(values)
            &&& report.m == m && report.margin == margin && report.first == first && report.last
                == last
        },
        r matches Err(LargeSeedError::NoPrimeAbove { n }) ==> (n == m && primes_between(
            m as int,
            sieve_limit as int,
        ).len() == 0) || (n == 2 * m && primes_between(m as int, sieve_limit as int).len() > 0
            && primes_between(2 * m, sieve_limit as int).len() == 0),
        !(r matches Err(LargeSeedError::Certificate(_))),
        r matches Err(LargeSeedError::Misses(misses)) ==> {
            let p0 = primes_between(m as int, sieve_limit as int)[0];
            let table = prime_table(sieve_limit as int);
            &&& misses.len() > 0
            &&& as_ints(misses@) == first_entries(
                ordered_filter(
                    first - 1,
                    last as int,
                    lacks_certificate(table, m as int, margin as int, p0),
                ),
                MAX_REPORTED_MISSES as int,
            )
        },
        r matches Err(LargeSeedError::TooShort) ==> {
            let p0 = primes_between(m as int, sieve_limit as int)[0];
            let table = prime_table(sieve_limit as int);
            &&& ordered_filter(
                first - 1,
                last as int,
                lacks_certificate(table, m as int, margin as int, p0),
            ).len() == 0
            &&& last - first + 1 < primes_between(2 * m, sieve_limit as int)[0]
        },
{
    let table = sieve(sieve_limit);
    let ghost spec_table = prime_table(sieve_limit as int);
    proof {
        assert(table@ =~= spec_table);
    }
    let p0 = match next_prime_above(&table, m) {
        Some(p) => p,
        None => {
            proof {
                lemma_ordered_filter_members(m as int, sieve_limit as int, prime_pred());
                if primes_between(m as int, sieve_limit as int).len() > 0 {
                    let q = primes_between(m as int, sieve_limit as int)[0];
                    assert(table[q] == prime_flag(q));
                }
            }
            return Err(LargeSeedError::NoPrimeAbove { n: m });
        },
    };
    proof {
        lemma_next_prime(table@, sieve_limit as int, m as int, p0 as int);
    }
    let next_after = match next_prime_above(&table, 2 * m) {
        Some(p) => p,
        None => {
            proof {
                lemma_ordered_filter_members(2 * m, sieve_limit as int, prime_pred());
                if primes_between(2 * m, sieve_limit as int).len() > 0 {
                    let q = primes_between(2 * m, sieve_limit as int)[0];
                    assert(table[q] == prime_flag(q));
                }
            }
            return Err(LargeSeedError::NoPrimeAbove { n: 2 * m });
        },
    };
    proof {
        lemma_next_prime(table@, sieve_limit as int, 2 * m, next_after as int);
    }
    let ghost lacks = lacks_certificate(spec_table, m as int, margin as int, p0 as int);
    let mut misses: Vec<usize> = Vec::new();
    let mut example: Option<(usize, String)> = None;
    let mut n: usize = first;
    proof {
        assert(as_ints(misses@) =~= ordered_filter(first - 1, n - 1, lacks));
    }
    while n <= last
        invariant
            first <= n <= last + 1,
            last < usize::MAX,
            table@ == spec_table,
            spec_table == prime_table(sieve_limit as int),
            table.len() == sieve_limit + 1,
            m < p0 <= sieve_limit,
            table[p0 as int] != 0,
            forall|j: int| m < j < p0 ==> table[j] == 0,
            m >= 1,
            4 * m <= usize::MAX,
            2 * m + margin <= usize::MAX,
            margin <= 4 * m,
            2 * m <= sieve_limit < first,
            lacks == lacks_certificate(spec_table, m as int, margin as int, p0 as int),
            as_ints(misses@) == ordered_filter(first - 1, n - 1, lacks),
            misses.len() < MAX_REPORTED_MISSES,
            forall|k: int|
                first <= k < n ==> #[trigger] settled(spec_table, k, m as int, margin as int, p0 as int),
            n > first && misses.len() == 0 ==> example_recorded(
                example,
                spec_table,
                first as int,
                m as int,
                margin as int,
                p0 as int,
            ),
            primes_between(m as int, sieve_limit as int).len() > 0,
            primes_between(m as int, sieve_limit as int)[0] == p0,
            n == first ==> example is None,
        decreases last + 1 - n,
    {
        match checked_certificate(&table, n, m, margin, p0) {
            Ok(None) => {
                misses.push(n);
                proof {
                    assert(lacks(n as int));
                    assert(as_ints(misses@) =~= ordered_filter(first - 1, n - 1, lacks).push(n as int));
                    lemma_settled(spec_table, n as int, m as int, margin as int, p0 as int);
                }
                if misses.len() >= MAX_REPORTED_MISSES {
                    proof {
                        lemma_ordered_filter_split(first - 1, n as int, last as int, lacks);
                        let whole = ordered_filter(first - 1, last as int, lacks);
                        assert(whole.take(MAX_REPORTED_MISSES as int) =~= as_ints(misses@));
                        if whole.len() <= MAX_REPORTED_MISSES {
                            assert(whole =~= whole.take(MAX_REPORTED_MISSES as int));
                        }
                        assert(as_ints(misses@) == first_entries(whole, MAX_REPORTED_MISSES as int));
                    }
                    return Err(LargeSeedError::Misses(misses));
                }
            },
            Err(e) => {
                return Err(LargeSeedError::Certificate(e));
            },
            Ok(Some(cert)) => {
                if example.is_none() {
                    let json = cert.to_json_array();
                    example = Some((n, json));
                    proof {
                        reveal(example_recorded);
                    }
                }
                proof {
                    assert(!lacks(n as int));
                    assert(as_ints(misses@) =~= ordered_filter(first - 1, n as int, lacks));
                    lemma_settled(spec_table, n as int, m as int, margin as int, p0 as int);
                }
            },
        }
        n = n + 1;
    }
    if misses.len() > 0 {
        return Err(LargeSeedError::Misses(misses));
    }
    let width = last - first + 1;
    if width < next_after {
        return Err(LargeSeedError::TooShort);
    }
    let ghost listed = ordered_filter(first - 1, last as int, lacks);
    proof {
        lemma_ordered_filter_members(first - 1, last as int, lacks);
        assert forall|k: int|
            first <= k <= last implies #[trigger] spec_seed_certificate(
            spec_table,
            k,
            m as int,
            margin as int,
            p0 as int,
        ) is Some && prime_certificate(
            spec_seed_certificate(spec_table, k, m as int, margin as int, p0 as int)->0,
            k,
            m as int,
        ) by {
            if lacks(k) {
                assert(listed.contains(k));
            }
            assert(settled(spec_table, k, m as int, margin as int, p0 as int));
            reveal(settled);
            let v = spec_seed_certificate(spec_table, k, m as int, margin as int, p0 as int)->0;
            assert(valid_certificate(spec_table, v, k, m as int));
            assert forall|i: int| 0 <= i < v.len() implies m < #[trigger] v[i] < 2 * m && is_prime(v[i]) by {
                assert(spec_table[v[i]] == prime_flag(v[i]));
            }
        }
        lemma_ordered_filter_members(m as int, 2 * m, prime_pred());
        assert forall|k: int| first <= k <= last implies #[trigger] is_subset_sum(
            primes_between(m as int, 2 * m),
            k,
        ) by {
            let v = spec_seed_certificate(spec_table, k, m as int, margin as int, p0 as int)->0;
            let window = primes_between(m as int, 2 * m);
            assert(spec_seed_certificate(spec_table, k, m as int, margin as int, p0 as int) is Some);
            assert(window.no_duplicates()) by {
                assert forall|a: int, b: int| 0 <= a < window.len() && 0 <= b < window.len() && a != b implies window[a]
                    != window[b] by {
                    if a < b {
                        assert(window[a] < window[b]);
                    } else {
                        assert(window[b] < window[a]);
                    }
                }
            }
            assert(v.no_duplicates()) by {
                assert forall|a: int, b: int| 0 <= a < v.len() && 0 <= b < v.len() && a != b implies v[a] != v[b] by {
                    if a < b {
                        assert(v[a] != v[b]);
                    } else {
                        assert(v[b] != v[a]);
                    }
                }
            }
            assert forall|i: int| 0 <= i < v.len() implies window.contains(#[trigger] v[i]) by {
                assert(m < v[i] < 2 * m && is_prime(v[i]));
                assert(prime_pred()(v[i]));
            }
            lemma_members_subset_sum(window, v);
        }
        if m >= 2 {
            assert forall|k: int| first <= k <= last implies #[trigger] is_divisor_prefix_sum(k + 1) by {
                let v = spec_seed_certificate(spec_table, k, m as int, margin as int, p0 as int)->0;
                assert(spec_seed_certificate(spec_table, k, m as int, margin as int, p0 as int) is Some);
                lemma_certificate_represented(v, k, m as int);
            }
        }
    }
    proof {
        reveal(example_recorded);
    }
    match example {
        Some((example_n, example_primes)) => Ok(
            LargeSeedReport {
                m,
                margin,
                first,
                last,
                p0,
                next_after_window: next_after,
                example_n,
                example_primes,
            },
        ),
        None => {
            proof {
                assert(false);
            }
            Err(LargeSeedError::TooShort)
        },
    }
}

/// The seed check with `M = LARGE_M`, the margin `LARGE_MARGIN`, the
/// interval `[LARGE_FIRST, LARGE_LAST]` and the prime table up to
/// `2 * LARGE_M + LARGE_SIEVE_EXTRA`.
pub fn verify_large_seed() -> (r: Result<LargeSeedReport, LargeSeedError>)
    ensures
        r matches Ok(report) ==> {
            let table = prime_table(2 * LARGE_M + LARGE_SIEVE_EXTRA);
            &&& report.p0 == primes_between(LARGE_M as int, 2 * LARGE_M + LARGE_SIEVE_EXTRA)[0]
            &&& report.m == LARGE_M && report.margin == LARGE_MARGIN
            &&& report.first == LARGE_FIRST && report.last == LARGE_LAST
            &&& report.example_n == LARGE_FIRST
            &&& exists|values: Seq<usize>|
                #[trigger] as_ints(values) == spec_seed_certificate(
                    table,
                    LARGE_FIRST as int,
                    LARGE_M as int,
                    LARGE_MARGIN as int,
                    report.p0 as int,
                )->0 && report.example_primes@ == json_array_text(values)
        },
        r matches Ok(report) ==> forall|n: int|
            LARGE_FIRST <= n <= LARGE_LAST ==> #[trigger] spec_seed_certificate(
                prime_table(2 * LARGE_M + LARGE_SIEVE_EXTRA),
                n,
                LARGE_M as int,
                LARGE_MARGIN as int,
                report.p0 as int,
            ) is Some && prime_certificate(
                spec_seed_certificate(
                    prime_table(2 * LARGE_M + LARGE_SIEVE_EXTRA),
                    n,
                    LARGE_M as int,
                    LARGE_MARGIN as int,
                    report.p0 as int,
                )->0,
                n,
                LARGE_M as int,
            ),
        r matches Ok(report) ==> forall|n: int|
            LARGE_FIRST <= n <= LARGE_LAST ==> #[trigger] is_subset_sum(
                primes_between(LARGE_M as int, 2 * LARGE_M),
                n,
            ),
        r matches Ok(report) ==> forall|n: int|
            LARGE_FIRST <= n <= LARGE_LAST ==> #[trigger] is_divisor_prefix_sum(n + 1),
        r matches Ok(report) ==> LARGE_LAST - LARGE_FIRST + 1 >= report.next_after_window
            && report.next_after_window == primes_between(
            2 * LARGE_M,
            2 * LARGE_M + LARGE_SIEVE_EXTRA,
        )[0],
        r matches Err(LargeSeedError::NoPrimeAbove { n }) ==> (n == LARGE_M && primes_between(
            LARGE_M as int,
            2 * LARGE_M + LARGE_SIEVE_EXTRA,
        ).len() == 0) || (n == 2 * LARGE_M && primes_between(
            LARGE_M as int,
            2 * LARGE_M + LARGE_SIEVE_EXTRA,
        ).len() > 0 && primes_between(2 * LARGE_M, 2 * LARGE_M + LARGE_SIEVE_EXTRA).len() == 0),
        !(r matches Err(LargeSeedError::Certificate(_))),
        r matches Err(LargeSeedError::Misses(misses)) ==> {
            let table = prime_table(2 * LARGE_M + LARGE_SIEVE_EXTRA);
            let p0 = primes_between(LARGE_M as int, 2 * LARGE_M + LARGE_SIEVE_EXTRA)[0];
            &&& misses.len() > 0
            &&& as_ints(misses@) == first_entries(
                ordered_filter(
                    LARGE_FIRST - 1,
                    LARGE_LAST as int,
                    lacks_certificate(table, LARGE_M as int, LARGE_MARGIN as int, p0),
                ),
                MAX_REPORTED_MISSES as int,
            )
        },
        r matches Err(LargeSeedError::TooShort) ==> {
            let table = prime_table(2 * LARGE_M + LARGE_SIEVE_EXTRA);
            let p0 = primes_between(LARGE_M as int, 2 * LARGE_M + LARGE_SIEVE_EXTRA)[0];
            &&& ordered_filter(
                LARGE_FIRST - 1,
                LARGE_LAST as int,
                lacks_certificate(table, LARGE_M as int, LARGE_MARGIN as int, p0),
            ).len() == 0
            &&& LARGE_LAST - LARGE_FIRST + 1 < primes_between(
                2 * LARGE_M,
                2 * LARGE_M + LARGE_SIEVE_EXTRA,
            )[0]
        },
{
    large_seed_check(LARGE_M, LARGE_MARGIN, LARGE_FIRST, LARGE_LAST, 2 * LARGE_M + LARGE_SIEVE_EXTRA)
}

} // verus!
