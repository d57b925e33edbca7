use crate::divisors::seq_sum;
use vstd::prelude::*;

verus! {

/// The entries of a sequence of machine integers taken as integers.
pub open spec fn as_ints(values: Seq<usize>) -> Seq<int> {
    values.map_values(|v: usize| v as int)
}

/// The sum of a sequence of integers.
pub open spec fn int_sum(values: Seq<int>) -> int
    decreases values.len(),
{
    if values.len() == 0 {
        0
    } else {
        int_sum(values.drop_last()) + values.last()
    }
}

/// The sum of a sequence of machine integers equals the sum of the same
/// values taken as integers.
pub proof fn lemma_as_ints_sum(values: Seq<usize>)
    ensures
        int_sum(as_ints(values)) == seq_sum(values),
    decreases values.len(),
{
    if values.len() > 0 {
        assert(as_ints(values).drop_last() =~= as_ints(values.drop_last()));
        lemma_as_ints_sum(values.drop_last());
    }
}

/// The sum of a concatenation is the sum of the sums.
pub proof fn lemma_int_sum_concat(x: Seq<int>, y: Seq<int>)
    ensures
        int_sum(x + y) == int_sum(x) + int_sum(y),
    decreases y.len(),
{
    if y.len() == 0 {
        assert(x + y =~= x);
    } else {
        assert((x + y).drop_last() =~= x + y.drop_last());
        lemma_int_sum_concat(x, y.drop_last());
    }
}

/// Scaling every entry scales the sum.
pub proof fn lemma_int_sum_scale(values: Seq<int>, c: int)
    ensures
        int_sum(values.map_values(|v: int| c * v)) == c * int_sum(values),
    decreases values.len(),
{
    if values.len() > 0 {
        assert(values.map_values(|v: int| c * v).drop_last() =~= values.drop_last().map_values(
            |v: int| c * v,
        ));
        lemma_int_sum_scale(values.drop_last(), c);
        assert(c * int_sum(values) == c * int_sum(values.drop_last()) + c * values.last()) by (nonlinear_arith)
            requires
                int_sum(values) == int_sum(values.drop_last()) + values.last(),
        ;
    }
}

/// The integers `k` with `lo < k <= hi` and `pred(k)`, in increasing order.
pub open spec fn ordered_filter(lo: int, hi: int, pred: spec_fn(int) -> bool) -> Seq<int>
    decreases hi - lo,
{
    if hi <= lo {
        Seq::empty()
    } else if pred(hi) {
        ordered_filter(lo, hi - 1, pred).push(hi)
    } else {
        ordered_filter(lo, hi - 1, pred)
    }
}

/// `s` is strictly increasing.
pub open spec fn increasing(s: Seq<int>) -> bool {
    forall|i: int, j: int| 0 <= i < j < s.len() ==> s[i] < s[j]
}

/// `s` lists exactly the integers `k` with `lo < k <= hi` and `pred(k)`
/// (in some order, possibly with repetitions).
pub open spec fn lists_exactly(s: Seq<int>, lo: int, hi: int, pred: spec_fn(int) -> bool) -> bool {
    &&& forall|i: int| 0 <= i < s.len() ==> lo < #[trigger] s[i] <= hi && pred(s[i])
    &&& forall|k: int| lo < k <= hi && pred(k) ==> #[trigger] s.contains(k)
}

/// The members of `ordered_filter(lo, hi, pred)`: increasing, and exactly
/// the integers of `(lo, hi]` that satisfy `pred`.
pub proof fn lemma_ordered_filter_members(lo: int, hi: int, pred: spec_fn(int) -> bool)
    ensures
        increasing(ordered_filter(lo, hi, pred)),
        lists_exactly(ordered_filter(lo, hi, pred), lo, hi, pred),
    decreases hi - lo,
{
    if hi > lo {
        let prev = ordered_filter(lo, hi - 1, pred);
        lemma_ordered_filter_members(lo, hi - 1, pred);
        let s = ordered_filter(lo, hi, pred);
        if pred(hi) {
            assert(s[prev.len() as int] == hi);
            assert forall|k: int| lo < k <= hi && pred(k) implies #[trigger] s.contains(k) by {
                if k < hi {
                    assert(prev.contains(k));
                    let j = choose|j: int| 0 <= j < prev.len() && prev[j] == k;
                    assert(s[j] == k);
                }
            }
        } else {
            assert forall|k: int| lo < k <= hi && pred(k) implies #[trigger] s.contains(k) by {
                assert(prev.contains(k));
            }
        }
    }
}

/// A strictly increasing sequence that lists exactly the integers of
/// `(lo, hi]` satisfying `pred` is `ordered_filter(lo, hi, pred)`.
pub proof fn lemma_ordered_filter_unique(s: Seq<int>, lo: int, hi: int, pred: spec_fn(int) -> bool)
    requires
        increasing(s),
        lists_exactly(s, lo, hi, pred),
    ensures
        s == ordered_filter(lo, hi, pred),
    decreases hi - lo,
{
    if hi <= lo {
        if s.len() > 0 {
            assert(lo < s[0] <= hi);
        }
        assert(s =~= Seq::<int>::empty());
    } else if pred(hi) {
        assert(s.contains(hi));
        let idx = choose|idx: int| 0 <= idx < s.len() && s[idx] == hi;
        if idx < s.len() - 1 {
            assert(s[idx] < s[idx + 1]);
            assert(s[idx + 1] <= hi);
        }
        let t = s.drop_last();
        assert forall|k: int| lo < k <= hi - 1 && pred(k) implies #[trigger] t.contains(k) by {
            assert(s.contains(k));
            let j = choose|j: int| 0 <= j < s.len() && s[j] == k;
            assert(j != s.len() - 1);
            assert(t[j] == k);
        }
        assert forall|i: int| 0 <= i < t.len() implies lo < #[trigger] t[i] <= hi - 1 && pred(t[i]) by {
            assert(s[i] < s[s.len() - 1]);
        }
        lemma_ordered_filter_unique(t, lo, hi - 1, pred);
        assert(s =~= t.push(hi));
    } else {
        assert forall|i: int| 0 <= i < s.len() implies lo < #[trigger] s[i] <= hi - 1 && pred(s[i]) by {
            assert(s[i] != hi);
        }
        lemma_ordered_filter_unique(s, lo, hi - 1, pred);
    }
}

/// Splitting the range `(lo, hi]` at `mid` splits the filtered list.
pub proof fn lemma_ordered_filter_split(lo: int, mid: int, hi: int, pred: spec_fn(int) -> bool)
    requires
        lo <= mid <= hi,
    ensures
        ordered_filter(lo, hi, pred) == ordered_filter(lo, mid, pred) + ordered_filter(mid, hi, pred),
    decreases hi - mid,
{
    if hi == mid {
        assert(ordered_filter(mid, hi, pred) =~= Seq::<int>::empty());
        assert(ordered_filter(lo, mid, pred) + Seq::<int>::empty() =~= ordered_filter(lo, mid, pred));
    } else {
        lemma_ordered_filter_split(lo, mid, hi - 1, pred);
        if pred(hi) {
            assert((ordered_filter(lo, mid, pred) + ordered_filter(mid, hi - 1, pred)).push(hi)
                =~= ordered_filter(lo, mid, pred) + ordered_filter(mid, hi - 1, pred).push(hi));
        }
    }
}

/// Two predicates that agree on `(lo, hi]` filter the same list.
pub proof fn lemma_ordered_filter_same(lo: int, hi: int, p1: spec_fn(int) -> bool, p2: spec_fn(int) -> bool)
    requires
        forall|k: int| lo < k <= hi ==> #[trigger] p1(k) == p2(k),
    ensures
        ordered_filter(lo, hi, p1) == ordered_filter(lo, hi, p2),
    decreases hi - lo,
{
    if hi > lo {
        lemma_ordered_filter_same(lo, hi - 1, p1, p2);
        assert(p1(hi) == p2(hi));
    }
}

} // verus!
