# Divisor prefix sums: a verified checker

Let `d_1(m) < d_2(m) < ...` be the divisors of `m`. A positive integer `n` is
*represented* when `n = d_1(m) + ... + d_k(m)` for some `m` and `k`. The
represented integers are exactly the positive integers other than 2 and 5.
This crate holds the finite computations behind that statement, written in
Verus and proved against their contracts, together with the lemmas that tie
each computation to representations.

## What is checked

- `bq`: a search over `B <= 1000` finds, for every `6 <= n <= 10^7` except 7,
  a representation `n = sigma(B) + q * (d_1 + ... + d_k)` with `q > B` prime;
  such a sum is a divisor prefix sum of `B * q`
  (`representation::lemma_bq_rep_is_divisor_prefix_sum`).
- `window`: subset sums of the primes in `(10^4, 99 * 10^6]` cover a seed
  interval, and the interval-extension step
  (`subset_sums::lemma_interval_extension`) carries it through every later
  prime; a subset sum `N` of primes in `(M, M^2)` makes `N + 1` represented
  (`representation::lemma_window_subset_sum_represented`).
- `seed` and `certificate`: every `n` of `[105 * 10^6, 156 * 10^6]` is a sum
  of four or five distinct primes in `(2 * 10^7, 4 * 10^7)`, with each
  certificate checked.
- `bridge`: block bounds on the prime-counting function give a lower bound on
  the sum of the primes in `(2M, X]` (`bridge::lemma_lower_total_bounds_prime_sum`).
  The bounds themselves come from a floating-point estimate, so the caller
  computes them and hands them in.
  `bridge::lemma_large_bridge_represented` joins the seed and the bridge:
  taking Bertrand's postulate (consecutive primes at most double) and the
  prime-count bounds as hypotheses, every `n` from `105 * 10^6 + 1` to the
  bridge's end is represented.
- `representation`: 1, 3 and 4 are represented, 2 and 5 are not; `bq` shows
  that 7 is.
- `classification`: the ranges overlap, so up to the bridge's end the
  represented positive integers are exactly those other than 2 and 5.

The analytic inputs (Bertrand's postulate beyond the seed, the
Rosser-Schoenfeld estimate and the ternary Goldbach tail) are not proved
here.

## Layout

- `src/`: the verified library. `primes`, `divisors`, `ordered`,
  `subset_sums` and `text` hold the building blocks; the modules above hold
  the checks.
- `tests/`: tests on concrete values, run against the compiled library.
- `app/`: the command-line program (`all`, `small-bq`, `first-window`,
  `large-seed`, `large-bridge`, `tail`, and `--progress`), which prints each
  check's result as JSON. The floating-point parts (the prime-count bounds and
  the numerical margins of the tail) live there.
