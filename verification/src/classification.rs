use crate::bq::{lemma_seven_is_divisor_prefix_sum, SMALL_EXCEPTION, SMALL_FIRST, SMALL_LAST};
use crate::representation::{
    is_divisor_prefix_sum,
    lemma_one_three_four_represented,
    lemma_two_and_five_not_represented,
};
use crate::seed::LARGE_FIRST;
use crate::window::FIRST_SEED_C;
use vstd::prelude::*;

verus! {

/// The checks' ranges overlap. Given what the divisor-prefix search
/// establishes (every `n` of `[SMALL_FIRST, SMALL_LAST]` but the exception),
/// what the first prime window establishes (every `s + 1` for `s` in
/// `[FIRST_SEED_C, window_u]`, with `window_u` reaching the seed range) and
/// what the seed and the bridge establish (every `n` of
/// `[LARGE_FIRST + 1, top]`), the positive integers up to `top` that are
/// divisor prefix sums are exactly those other than 2 and 5.
pub proof fn lemma_represented_up_to(window_u: int, top: int)
    requires
        forall|n: int|
            SMALL_FIRST <= n <= SMALL_LAST && n != SMALL_EXCEPTION ==> #[trigger] is_divisor_prefix_sum(n),
        forall|s: int| FIRST_SEED_C <= s <= window_u ==> #[trigger] is_divisor_prefix_sum(s + 1),
        window_u >= LARGE_FIRST,
        forall|n: int| LARGE_FIRST + 1 <= n <= top ==> #[trigger] is_divisor_prefix_sum(n),
    ensures
        forall|n: int| 1 <= n <= top ==> (#[trigger] is_divisor_prefix_sum(n) <==> n != 2 && n != 5),
{
    lemma_one_three_four_represented();
    lemma_two_and_five_not_represented();
    lemma_seven_is_divisor_prefix_sum();
    assert forall|n: int| 1 <= n <= top implies (#[trigger] is_divisor_prefix_sum(n) <==> n != 2 && n
        != 5) by {
        if 6 <= n <= SMALL_LAST && n != 7 {
            assert(is_divisor_prefix_sum(n));
        } else if SMALL_LAST < n <= window_u + 1 {
            assert(is_divisor_prefix_sum((n - 1) + 1));
        } else if window_u + 1 < n {
            assert(is_divisor_prefix_sum(n));
        }
    }
}

} // verus!
