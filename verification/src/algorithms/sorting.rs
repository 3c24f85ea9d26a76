//! Selection sort, insertion sort, shell sort, two merge sorts and quick sort.

use crate::algorithms::indexing::{
    at, exchange, lemma_exchanged_span, lemma_middle_replaced, lemma_span_of_span,
    lemma_spans_joined, lemma_three_spans, n, reversed_into, size, span,
};
use crate::algorithms::order::total_order;
use crate::algorithms::sort_order::{
    callable, floor_of, full_runs, implements, in_runs, is_less, is_step, lemma_full_runs_end,
    lemma_full_runs_more, lemma_full_runs_same, lemma_in_runs_same, lemma_merge_left,
    lemma_merge_right, lemma_natural, lemma_pivot_joins, lemma_prefix_kept, lemma_sift_done,
    lemma_sift_step, lemma_single_runs, lemma_sorted_after_span, lemma_sorted_shift, merging,
    natural, order_of, roof_of, sorted_but, sorted_by, sorted_span, span_le, in_place,
    lemma_exchange_keeps_order, lemma_exchange_rearranged, lemma_in_place, order_kept,
    places_exchanged, rearranged, stable, stable_by,
};
use vstd::seq_lib::{lemma_multiset_commutative, to_multiset_build};
use core::cmp::Ordering;
use rand::seq::SliceRandom;
use vstd::prelude::*;

verus! {

/// Sorts `v` by choosing, for each place in turn, a least of the items
/// from there on.
pub fn selection_sort_by<T, F>(v: &mut Vec<T>, compare: F) where F: Fn(&T, &T) -> Ordering
    requires
        callable(compare),
    ensures
        final(v)@.len() == old(v)@.len(),
        final(v)@.to_multiset() == old(v)@.to_multiset(),
        forall|leq: spec_fn(T, T) -> bool| #[trigger]
            implements(compare, leq) ==> sorted_by(final(v)@, leq),
{
    let len = v.len();
    let mut i: usize = 0;
    while i < len
        invariant
            callable(compare),
            len == v@.len(),
            i <= len,
            v@.to_multiset() == old(v)@.to_multiset(),
            forall|leq: spec_fn(T, T) -> bool| #[trigger]
                implements(compare, leq) ==> sorted_span(v@, 0, n(i), leq) && span_le(
                    v@,
                    0,
                    n(i),
                    n(len),
                    leq,
                ),
        decreases len - i,
    {
        let mut min = i;
        let mut j = i + 1;
        while j < len
            invariant
                callable(compare),
                len == v@.len(),
                i <= min < j <= len,
                forall|leq: spec_fn(T, T) -> bool| #[trigger]
                    implements(compare, leq) ==> floor_of(v@, n(i), n(j), at(v@, min), leq),
            decreases len - j,
        {
            let ghost low = at(v@, min);
            if is_less(&compare, &v[j], &v[min]) {
                min = j;
            }
            proof {
                assert forall|leq: spec_fn(T, T) -> bool| #[trigger]
                    implements(compare, leq) implies floor_of(
                    v@,
                    n(i),
                    n(j) + 1,
                    at(v@, min),
                    leq,
                ) by {
                    let x = at(v@, min);
                    assert(floor_of(v@, n(i), n(j), low, leq));
                    assert(leq(at(v@, j), low) || leq(low, at(v@, j)));
                    assert(leq(x, x) || leq(x, x));
                    assert forall|k: int| n(i) <= k < n(j) + 1 implies leq(x, #[trigger] v@[k]) by {
                        if k < n(j) {
                            assert(leq(low, v@[k]));
                            if min == j {
                                assert(leq(x, low) && leq(low, v@[k]));
                            }
                        }
                    }
                }
            }
            j += 1;
        }
        let ghost before = v@;
        exchange(v, min, i);
        proof {
            assert forall|leq: spec_fn(T, T) -> bool| #[trigger]
                implements(compare, leq) implies sorted_span(v@, 0, n(i) + 1, leq) && span_le(
                v@,
                0,
                n(i) + 1,
                n(len),
                leq,
            ) by {
                let x = at(before, min);
                assert(sorted_span(before, 0, n(i), leq) && span_le(before, 0, n(i), n(len), leq));
                assert(floor_of(before, n(i), n(len), x, leq));
                assert forall|a: int, b: int| 0 <= a < b < n(i) + 1 implies leq(
                    #[trigger] v@[a],
                    #[trigger] v@[b],
                ) by {
                    assert(v@[a] == before[a]);
                    if b < n(i) {
                        assert(v@[b] == before[b]);
                    } else {
                        assert(leq(before[a], before[n(min)]));
                    }
                }
                assert forall|a: int, b: int| 0 <= a < n(i) + 1
                    && n(i) + 1 <= b < n(len) implies leq(
                    #[trigger] v@[a],
                    #[trigger] v@[b],
                ) by {
                    let old_b = if b == n(min) {
                        n(i)
                    } else {
                        b
                    };
                    assert(v@[b] == before[old_b]);
                    if a < n(i) {
                        assert(v@[a] == before[a]);
                        assert(leq(before[a], before[old_b]));
                    } else {
                        assert(leq(x, before[old_b]));
                    }
                }
            }
        }
        i += 1;
    }
}

/// Sorts `v` by the order of `T`, as `selection_sort_by` does.
pub fn selection_sort<T>(v: &mut Vec<T>) where T: Ord
    requires
        total_order::<T>(),
    ensures
        final(v)@.len() == old(v)@.len(),
        final(v)@.to_multiset() == old(v)@.to_multiset(),
        sorted_by(final(v)@, natural::<T>()),
{
    proof {
        lemma_natural::<T>();
    }
    selection_sort_by(v, order_of::<T>)
}

/// Sorts `v` by moving each item in turn down to its place among the
/// items before it. An item moves past those only that it comes strictly
/// before, so items that take the same place keep their order.
pub fn insertion_sort_by<T, F>(v: &mut Vec<T>, compare: F) where F: Fn(&T, &T) -> Ordering
    requires
        callable(compare),
        old(v)@.len() > 0,
    ensures
        final(v)@.len() == old(v)@.len(),
        final(v)@.to_multiset() == old(v)@.to_multiset(),
        forall|leq: spec_fn(T, T) -> bool| #[trigger]
            implements(compare, leq) ==> sorted_by(final(v)@, leq),
        stable_by(compare, old(v)@, final(v)@),
{
    let len = v.len();
    _insertion_sort_by(v, 0, len - 1, &compare);
}

/// Moves each item from place `lo` to place `hi` in turn down to its
/// place among the items before it, those before place `lo` too, which
/// stand in order already.
fn _insertion_sort_by<T, F>(v: &mut Vec<T>, lo: usize, hi: usize, compare: &F) where
    F: Fn(&T, &T) -> Ordering,

    requires
        callable(*compare),
        lo <= hi < old(v)@.len(),
        forall|leq: spec_fn(T, T) -> bool| #[trigger]
            implements(*compare, leq) ==> sorted_span(old(v)@, 0, n(lo), leq),
    ensures
        final(v)@.len() == old(v)@.len(),
        final(v)@.to_multiset() == old(v)@.to_multiset(),
        span(final(v)@, 0, n(hi) + 1).to_multiset() == span(old(v)@, 0, n(hi) + 1).to_multiset(),
        span(final(v)@, n(hi) + 1, size(old(v)@)) == span(
            old(v)@,
            n(hi) + 1,
            size(old(v)@),
        ),
        forall|leq: spec_fn(T, T) -> bool| #[trigger]
            implements(*compare, leq) ==> sorted_span(final(v)@, 0, n(hi) + 1, leq),
        stable_by(*compare, old(v)@, final(v)@),
{
    let len = v.len();
    let mut i = lo;
    let ghost mut from = in_place(v@.len());
    proof {
        assert forall|leq: spec_fn(T, T) -> bool| #[trigger]
            implements(*compare, leq) implies order_kept(v@, from, leq) by {
            lemma_in_place(v@, leq);
        }
        assert(rearranged(v@, v@, from));
    }
    while i <= hi
        invariant
            callable(*compare),
            lo <= i <= hi + 1,
            hi < v@.len(),
            v@.len() == len,
            len == old(v)@.len(),
            v@.to_multiset() == old(v)@.to_multiset(),
            span(v@, 0, n(hi) + 1).to_multiset() == span(old(v)@, 0, n(hi) + 1).to_multiset(),
            span(v@, n(hi) + 1, n(len)) == span(old(v)@, n(hi) + 1, n(len)),
            forall|leq: spec_fn(T, T) -> bool| #[trigger]
                implements(*compare, leq) ==> sorted_span(v@, 0, n(i), leq),
            rearranged(old(v)@, v@, from),
            forall|leq: spec_fn(T, T) -> bool| #[trigger]
                implements(*compare, leq) ==> order_kept(v@, from, leq),
        decreases hi + 1 - i,
    {
        let mut j = i;
        while j > 0
            invariant
                callable(*compare),
                j <= i <= hi,
                hi < v@.len(),
                v@.len() == len,
                v@.to_multiset() == old(v)@.to_multiset(),
                span(v@, 0, n(hi) + 1).to_multiset() == span(old(v)@, 0, n(hi) + 1).to_multiset(),
                span(v@, n(hi) + 1, n(len)) == span(old(v)@, n(hi) + 1, n(len)),
                forall|leq: spec_fn(T, T) -> bool| #[trigger]
                    implements(*compare, leq) ==> sorted_but(v@, n(i) + 1, n(j), leq),
                rearranged(old(v)@, v@, from),
                forall|leq: spec_fn(T, T) -> bool| #[trigger]
                    implements(*compare, leq) ==> order_kept(v@, from, leq),
            ensures
                forall|leq: spec_fn(T, T) -> bool| #[trigger]
                    implements(*compare, leq) ==> sorted_span(v@, 0, n(i) + 1, leq),
            decreases j,
        {
            let ghost before = v@;
            if is_less(compare, &v[j], &v[j - 1]) {
                exchange(v, j, j - 1);
                proof {
                    lemma_exchanged_span(before, 0, n(hi) + 1, n(j), n(j) - 1);
                    lemma_exchange_rearranged(old(v)@, before, v@, from, n(j));
                    assert forall|leq: spec_fn(T, T) -> bool| #[trigger]
                        implements(*compare, leq) implies order_kept(
                        v@,
                        places_exchanged(from, n(j)),
                        leq,
                    ) by {
                        lemma_exchange_keeps_order(before, v@, from, n(j), leq);
                    }
                    from = places_exchanged(from, n(j));
                    assert forall|leq: spec_fn(T, T) -> bool| #[trigger]
                        implements(*compare, leq) implies sorted_but(
                        v@,
                        n(i) + 1,
                        n(j) - 1,
                        leq,
                    ) by {
                        lemma_sift_step(before, v@, n(i) + 1, n(j), leq);
                    }
                }
            } else {
                proof {
                    assert forall|leq: spec_fn(T, T) -> bool| #[trigger]
                        implements(*compare, leq) implies sorted_span(v@, 0, n(i) + 1, leq) by {
                        lemma_sift_done(v@, n(i) + 1, n(j), leq);
                    }
                }
                break ;
            }
            j -= 1;
        }
        proof {
            assert forall|leq: spec_fn(T, T) -> bool| #[trigger]
                implements(*compare, leq) implies sorted_span(v@, 0, n(i) + 1, leq) by {
                if j == 0 {
                    assert(sorted_but(v@, n(i) + 1, 0, leq));
                }
            }
        }
        i += 1;
    }
}

/// Sorts `v` by the order of `T`, as `insertion_sort_by` does.
pub fn insertion_sort<T>(v: &mut Vec<T>) where T: Ord
    requires
        total_order::<T>(),
        old(v)@.len() > 0,
    ensures
        final(v)@.len() == old(v)@.len(),
        final(v)@.to_multiset() == old(v)@.to_multiset(),
        sorted_by(final(v)@, natural::<T>()),
        stable(old(v)@, final(v)@, natural::<T>()),
{
    proof {
        lemma_natural::<T>();
    }
    insertion_sort_by(v, order_of::<T>);
    proof {
        let from = choose|from: Seq<int>| #[trigger]
            rearranged(old(v)@, v@, from) && forall|leq: spec_fn(T, T) -> bool| #[trigger]
                implements(order_of::<T>, leq) ==> order_kept(v@, from, leq);
        assert(rearranged(old(v)@, v@, from) && order_kept(v@, from, natural::<T>()));
    }
}

/// Sorts `v` in passes with the steps ..., 40, 13, 4, 1. In a pass with
/// the step `h`, each item from place `h` on is compared with the items
/// `h`, `2h`, ... places before it, and is exchanged with the item just
/// before it wherever it comes before the one it is compared with. The
/// pass with the step 1 leaves the items in order.
pub fn shell_sort_by<T, F>(v: &mut Vec<T>, compare: F) where F: Fn(&T, &T) -> Ordering
    requires
        callable(compare),
    ensures
        final(v)@.len() == old(v)@.len(),
        final(v)@.to_multiset() == old(v)@.to_multiset(),
        forall|leq: spec_fn(T, T) -> bool| #[trigger]
            implements(compare, leq) ==> sorted_by(final(v)@, leq),
{
    let len = v.len();
    let mut h: usize = 1;
    while h < len / 3
        invariant
            h >= 1,
            is_step(n(h)),
        decreases len - h,
    {
        h = (3 * h) + 1;
    }
    while h >= 1
        invariant
            callable(compare),
            len == v@.len(),
            v@.to_multiset() == old(v)@.to_multiset(),
            h >= 1 ==> is_step(n(h)),
            h == 0 ==> forall|leq: spec_fn(T, T) -> bool| #[trigger]
                implements(compare, leq) ==> sorted_by(v@, leq),
        decreases h,
    {
        let mut i = h;
        while i < len
            invariant
                callable(compare),
                len == v@.len(),
                v@.to_multiset() == old(v)@.to_multiset(),
                1 <= h <= i,
                h == 1 ==> forall|leq: spec_fn(T, T) -> bool| #[trigger]
                    implements(compare, leq) ==> sorted_span(v@, 0, n(i), leq),
            decreases len - i,
        {
            let mut j = i;
            while j >= h
                invariant
                    callable(compare),
                    len == v@.len(),
                    v@.to_multiset() == old(v)@.to_multiset(),
                    1 <= h,
                    j <= i < len,
                    h == 1 ==> forall|leq: spec_fn(T, T) -> bool| #[trigger]
                        implements(compare, leq) ==> sorted_but(v@, n(i) + 1, n(j), leq),
                decreases j,
            {
                let ghost before = v@;
                if is_less(&compare, &v[j], &v[j - h]) {
                    exchange(v, j, j - 1);
                    proof {
                        if h == 1 {
                            assert forall|leq: spec_fn(T, T) -> bool| #[trigger]
                                implements(compare, leq) implies sorted_but(
                                v@,
                                n(i) + 1,
                                n(j) - 1,
                                leq,
                            ) by {
                                lemma_sift_step(before, v@, n(i) + 1, n(j), leq);
                            }
                        }
                    }
                } else {
                    proof {
                        if h == 1 {
                            assert forall|leq: spec_fn(T, T) -> bool| #[trigger]
                                implements(compare, leq) implies sorted_but(
                                v@,
                                n(i) + 1,
                                n(j) - 1,
                                leq,
                            ) by {
                                lemma_sift_done(v@, n(i) + 1, n(j), leq);
                            }
                        }
                    }
                }
                j -= h;
            }
            proof {
                if h == 1 {
                    assert forall|leq: spec_fn(T, T) -> bool| #[trigger]
                        implements(compare, leq) implies sorted_span(v@, 0, n(i) + 1, leq) by {
                        assert(sorted_but(v@, n(i) + 1, 0, leq));
                    }
                }
            }
            i += 1;
        }
        proof {
            if h == 1 {
                assert forall|leq: spec_fn(T, T) -> bool| #[trigger]
                    implements(compare, leq) implies sorted_by(v@, leq) by {
                    assert(sorted_span(v@, 0, n(i), leq));
                }
            }
        }
        h /= 3;
    }
}

/// Sorts `v` by the order of `T`, as `shell_sort_by` does.
pub fn shell_sort<T>(v: &mut Vec<T>) where T: Ord
    requires
        total_order::<T>(),
    ensures
        final(v)@.len() == old(v)@.len(),
        final(v)@.to_multiset() == old(v)@.to_multiset(),
        sorted_by(final(v)@, natural::<T>()),
{
    proof {
        lemma_natural::<T>();
    }
    shell_sort_by(v, order_of::<T>);
}

/// Sorts `v` by the order of `T`, as `merge_sort_by` does.
pub fn merge_sort<T>(v: &mut Vec<T>) where T: Ord
    requires
        total_order::<T>(),
        old(v)@.len() > 0,
    ensures
        final(v)@.len() == old(v)@.len(),
        final(v)@.to_multiset() == old(v)@.to_multiset(),
        sorted_by(final(v)@, natural::<T>()),
{
    proof {
        lemma_natural::<T>();
    }
    merge_sort_by(v, order_of::<T>);
}

/// Sorts `v` by halving it, sorting the halves and merging them; a part
/// of 20 items or fewer is sorted by insertion.
pub fn merge_sort_by<T, F>(v: &mut Vec<T>, compare: F) where F: Fn(&T, &T) -> Ordering
    requires
        callable(compare),
        old(v)@.len() > 0,
    ensures
        final(v)@.len() == old(v)@.len(),
        final(v)@.to_multiset() == old(v)@.to_multiset(),
        forall|leq: spec_fn(T, T) -> bool| #[trigger]
            implements(compare, leq) ==> sorted_by(final(v)@, leq),
{
    let len = v.len();
    let mut aux: Vec<Option<T>> = Vec::with_capacity(v.len());
    _merge_sort(v, &mut aux, 0, len - 1, &compare);
}

/// Brings the items of `v` up to place `hi` in order, given that those
/// before place `lo` stand in order: the part from `lo` to `hi` is
/// halved, the halves are treated in the same way, the first before the
/// second, and then merged. A part of 20 items or fewer is sorted by
/// insertion among all the items before it.
fn _merge_sort<T, F>(v: &mut Vec<T>, aux: &mut Vec<Option<T>>, lo: usize, hi: usize,
    compare: &F) where
    F: Fn(&T, &T) -> Ordering,

    requires
        callable(*compare),
        lo <= hi < old(v)@.len(),
        hi == lo ==> lo == 0,
        forall|leq: spec_fn(T, T) -> bool| #[trigger]
            implements(*compare, leq) ==> sorted_span(old(v)@, 0, n(lo), leq),
    ensures
        final(v)@.len() == old(v)@.len(),
        final(v)@.to_multiset() == old(v)@.to_multiset(),
        span(final(v)@, 0, n(hi) + 1).to_multiset() == span(old(v)@, 0, n(hi) + 1).to_multiset(),
        span(final(v)@, n(hi) + 1, size(old(v)@)) == span(old(v)@, n(hi) + 1, size(old(v)@)),
        forall|leq: spec_fn(T, T) -> bool| #[trigger]
            implements(*compare, leq) ==> sorted_span(final(v)@, 0, n(hi) + 1, leq),
    decreases hi - lo,
{
    if hi <= lo {
        return ;
    }
    let cutoff: usize = 20;
    if hi - lo < cutoff {
        _insertion_sort_by(v, lo, hi, compare);
        return ;
    }
    let ghost first = v@;
    let ghost len = size(first);
    let mid = lo + ((hi - lo) / 2);
    _merge_sort(v, aux, lo, mid, compare);
    let ghost second = v@;
    _merge_sort(v, aux, mid + 1, hi, compare);
    let ghost third = v@;
    proof {
        lemma_span_of_span(second, first, n(mid) + 1, len, n(mid) + 1, n(hi) + 1);
        lemma_span_of_span(second, first, n(mid) + 1, len, n(hi) + 1, len);
        assert(span(second, 0, n(hi) + 1).to_multiset() == span(first, 0, n(hi) + 1).to_multiset())
            by {
            lemma_spans_joined(second, first, n(mid) + 1, n(hi) + 1);
        }
    }
    if is_less(compare, &v[mid + 1], &v[mid]) {
        return ;
    }
    merge(v, aux, lo, mid, hi, compare);
    proof {
        lemma_spans_joined(v@, third, n(lo), n(hi) + 1);
        assert forall|leq: spec_fn(T, T) -> bool| #[trigger]
            implements(*compare, leq) implies sorted_span(v@, 0, n(hi) + 1, leq) by {
            assert(sorted_span(third, 0, n(hi) + 1, leq));
            lemma_sorted_after_span(third, v@, n(lo), n(hi) + 1, leq);
        }
    }
}

/// Sorts `v` by the order of `T`, as `bottom_up_merge_sort_by` does.
pub fn bottom_up_merge_sort<T>(v: &mut Vec<T>) where T: Ord
    requires
        total_order::<T>(),
    ensures
        final(v)@.len() == old(v)@.len(),
        final(v)@.to_multiset() == old(v)@.to_multiset(),
        sorted_by(final(v)@, natural::<T>()),
{
    proof {
        lemma_natural::<T>();
    }
    bottom_up_merge_sort_by(v, order_of::<T>);
}

/// Sorts `v` by merging runs of 1, 2, 4, ... items, each with the run after it.
pub fn bottom_up_merge_sort_by<T, F>(v: &mut Vec<T>, compare: F) where F: Fn(&T, &T) -> Ordering
    requires
        callable(compare),
    ensures
        final(v)@.len() == old(v)@.len(),
        final(v)@.to_multiset() == old(v)@.to_multiset(),
        forall|leq: spec_fn(T, T) -> bool| #[trigger]
            implements(compare, leq) ==> sorted_by(final(v)@, leq),
{
    let len = v.len();
    let mut aux: Vec<Option<T>> = Vec::with_capacity(len);
    let mut sz: usize = 1;
    proof {
        assert forall|leq: spec_fn(T, T) -> bool| #[trigger]
            implements(compare, leq) implies in_runs(v@, 0, n(sz), leq) by {
            lemma_single_runs(v@, 0, leq);
        }
    }
    while sz < len
        invariant_except_break
            sz >= 1,
            forall|leq: spec_fn(T, T) -> bool| #[trigger]
                implements(compare, leq) ==> in_runs(v@, 0, n(sz), leq),
        invariant
            callable(compare),
            len == v@.len(),
            v@.to_multiset() == old(v)@.to_multiset(),
        ensures
            forall|leq: spec_fn(T, T) -> bool| #[trigger]
                implements(compare, leq) ==> sorted_by(v@, leq),
        decreases len - sz,
    {
        let mut lo: usize = 0;
        while lo < len - sz
            invariant
                callable(compare),
                len == v@.len(),
                1 <= sz < len,
                lo <= len,
                v@.to_multiset() == old(v)@.to_multiset(),
                forall|leq: spec_fn(T, T) -> bool| #[trigger]
                    implements(compare, leq) ==> if lo < len {
                        full_runs(v@, 0, n(lo), n(sz) + n(sz), leq) && in_runs(
                            v@,
                            n(lo),
                            n(sz),
                            leq,
                        )
                    } else {
                        in_runs(v@, 0, n(sz) + n(sz), leq)
                    },
            decreases len - lo,
        {
            let mid = lo + sz - 1;
            let room = len - 1 - mid;
            let hi = if sz <= room {
                mid + sz
            } else {
                len - 1
            };
            let ghost before = v@;
            merge(v, &mut aux, lo, mid, hi, &compare);
            proof {
                let w = n(sz) + n(sz);
                assert forall|leq: spec_fn(T, T) -> bool| #[trigger]
                    implements(compare, leq) implies if hi + 1 < len {
                    full_runs(v@, 0, n(hi) + 1, w, leq) && in_runs(v@, n(hi) + 1, n(sz), leq)
                } else {
                    in_runs(v@, 0, w, leq)
                } by {
                    assert(full_runs(before, 0, n(lo), w, leq));
                    assert(in_runs(before, n(lo), n(sz), leq));
                    assert(in_runs(before, n(lo) + n(sz), n(sz), leq));
                    assert(sorted_span(v@, n(lo), n(hi) + 1, leq));
                    assert forall|k: int| 0 <= k < n(lo) implies before[k] == v@[k] by {
                        assert(span(before, 0, n(lo))[k] == span(v@, 0, n(lo))[k]);
                    }
                    assert forall|k: int| n(hi) + 1 <= k < n(len) implies before[k] == v@[k] by {
                        assert(span(before, n(hi) + 1, n(len))[k - n(hi) - 1] == span(
                            v@,
                            n(hi) + 1,
                            n(len),
                        )[k - n(hi) - 1]);
                    }
                    lemma_full_runs_same(before, v@, 0, n(lo), w, leq);
                    if hi + 1 < len {
                        assert(in_runs(before, n(hi) + 1, n(sz), leq));
                        lemma_in_runs_same(before, v@, n(hi) + 1, n(sz), leq);
                        lemma_full_runs_more(v@, 0, n(lo), w, leq);
                    } else {
                        lemma_full_runs_end(v@, 0, n(lo), w, leq);
                    }
                }
            }
            lo = hi + 1;
        }
        proof {
            let w = n(sz) + n(sz);
            assert forall|leq: spec_fn(T, T) -> bool| #[trigger]
                implements(compare, leq) implies in_runs(v@, 0, w, leq) by {
                if lo < len {
                    assert(in_runs(v@, n(lo), n(sz), leq));
                    lemma_full_runs_end(v@, 0, n(lo), w, leq);
                }
            }
        }
        if sz > len - sz {
            proof {
                assert forall|leq: spec_fn(T, T) -> bool| #[trigger]
                    implements(compare, leq) implies sorted_by(v@, leq) by {
                    assert(in_runs(v@, 0, n(sz) + n(sz), leq));
                }
            }
            break ;
        }
        sz = sz + sz;
    }
    proof {
        assert forall|leq: spec_fn(T, T) -> bool| #[trigger]
            implements(compare, leq) implies sorted_by(v@, leq) by {
            if sz >= len && sz >= 1 {
                if len > 0 {
                    assert(in_runs(v@, 0, n(sz), leq) ==> sorted_by(v@, leq));
                }
            }
        }
    }
}

/// Merges the run of `v` from place `lo` to place `mid` with the run
/// from place `mid + 1` to place `hi`: where both runs stand in order,
/// so do the items from `lo` to `hi` afterwards. Of two items that take
/// the same place in the order, the one of the first run comes first.
/// `aux` holds the items of the two runs while they are merged.
fn merge<T, F>(
    v: &mut Vec<T>,
    aux: &mut Vec<Option<T>>,
    lo: usize,
    mid: usize,
    hi: usize,
    compare: &F,
) where F: Fn(&T, &T) -> Ordering
    requires
        callable(*compare),
        lo <= mid < hi < old(v)@.len(),
    ensures
        final(v)@.len() == old(v)@.len(),
        final(v)@.to_multiset() == old(v)@.to_multiset(),
        span(final(v)@, 0, n(lo)) == span(old(v)@, 0, n(lo)),
        span(final(v)@, n(hi) + 1, size(old(v)@)) == span(old(v)@, n(hi) + 1, size(old(v)@)),
        span(final(v)@, n(lo), n(hi) + 1).to_multiset() == span(
            old(v)@,
            n(lo),
            n(hi) + 1,
        ).to_multiset(),
        forall|leq: spec_fn(T, T) -> bool| #[trigger]
            implements(*compare, leq) ==> (sorted_span(old(v)@, n(lo), n(mid) + 1, leq)
                && sorted_span(old(v)@, n(mid) + 1, n(hi) + 1, leq) ==> sorted_span(
                final(v)@,
                n(lo),
                n(hi) + 1,
                leq,
            )),
{
    let len = v.len();
    let ghost whole = v@;
    let ghost head = span(whole, 0, n(lo));
    let ghost s = span(whole, n(lo), n(hi) + 1);
    let ghost rest = span(whole, n(hi) + 1, n(len));
    let mut tail = v.split_off(hi + 1);
    let mut seg = v.split_off(lo);
    proof {
        assert(v@ =~= head);
        assert(seg@ =~= s);
    }
    let mut rev = reversed_into(&mut seg);
    aux.clear();
    while rev.len() > 0
        invariant
            aux@.len() + rev@.len() == s.len(),
            rev@ == s.reverse().take(size(rev@)),
            forall|k: int| 0 <= k < aux@.len() ==> aux@[k] == Some(s[k]),
        decreases rev@.len(),
    {
        let ghost before = rev@;
        let x = rev.pop().unwrap();
        aux.push(Some(x));
        proof {
            assert(x == s.reverse()[size(before) - 1]);
            assert(rev@ =~= s.reverse().take(size(rev@)));
        }
    }
    let total = hi - lo + 1;
    let cut = mid - lo + 1;
    let mut i: usize = 0;
    let mut j: usize = cut;
    let mut k: usize = 0;
    let ghost mut out: Seq<T> = Seq::empty();
    proof {
        assert(head + out =~= head);
        assert(span(s, 0, 0).to_multiset().add(span(s, n(cut), n(cut)).to_multiset())
            =~= out.to_multiset()) by {
            assert(span(s, 0, 0) =~= Seq::<T>::empty());
            assert(span(s, n(cut), n(cut)) =~= Seq::<T>::empty());
            lemma_multiset_commutative(Seq::<T>::empty(), Seq::<T>::empty());
            assert(Seq::<T>::empty() + Seq::<T>::empty() =~= Seq::<T>::empty());
        }
    }
    while k < total
        invariant
            callable(*compare),
            total == s.len(),
            aux@.len() == total,
            0 < cut < total,
            i <= cut <= j <= total,
            k == i + (j - cut),
            v@ == head + out,
            out.len() == k,
            forall|a: int| i <= a < cut ==> aux@[a] == Some(s[a]),
            forall|b: int| j <= b < total ==> aux@[b] == Some(s[b]),
            out.to_multiset() == span(s, 0, n(i)).to_multiset().add(
                span(s, n(cut), n(j)).to_multiset(),
            ),
            forall|leq: spec_fn(T, T) -> bool| #[trigger]
                implements(*compare, leq) ==> (sorted_span(s, 0, n(cut), leq) && sorted_span(
                    s,
                    n(cut),
                    size(s),
                    leq,
                ) ==> merging(out, s, n(i), n(cut), n(j), leq)),
        decreases total - k,
    {
        let from_second = if i >= cut {
            true
        } else if j >= total {
            false
        } else {
            is_less(compare, aux[j].as_ref().unwrap(), aux[i].as_ref().unwrap())
        };
        let ghost before = out;
        if from_second {
            let x = aux[j].take().unwrap();
            v.push(x);
            proof {
                out = before.push(s[n(j)]);
                assert(v@ =~= head + out);
                assert(span(s, n(cut), n(j) + 1) =~= span(s, n(cut), n(j)).push(s[n(j)]));
                to_multiset_build(span(s, n(cut), n(j)), s[n(j)]);
                to_multiset_build(before, s[n(j)]);
                assert(out.to_multiset() =~= span(s, 0, n(i)).to_multiset().add(
                    span(s, n(cut), n(j) + 1).to_multiset(),
                ));
                assert forall|leq: spec_fn(T, T) -> bool| #[trigger]
                    implements(*compare, leq) && sorted_span(s, 0, n(cut), leq) && sorted_span(
                        s,
                        n(cut),
                        size(s),
                        leq,
                    ) implies merging(out, s, n(i), n(cut), n(j) + 1, leq) by {
                    lemma_merge_right(before, s, n(i), n(cut), n(j), leq);
                }
            }
            j += 1;
        } else {
            let x = aux[i].take().unwrap();
            v.push(x);
            proof {
                out = before.push(s[n(i)]);
                assert(v@ =~= head + out);
                assert(span(s, 0, n(i) + 1) =~= span(s, 0, n(i)).push(s[n(i)]));
                to_multiset_build(span(s, 0, n(i)), s[n(i)]);
                to_multiset_build(before, s[n(i)]);
                assert(out.to_multiset() =~= span(s, 0, n(i) + 1).to_multiset().add(
                    span(s, n(cut), n(j)).to_multiset(),
                ));
                assert forall|leq: spec_fn(T, T) -> bool| #[trigger]
                    implements(*compare, leq) && sorted_span(s, 0, n(cut), leq) && sorted_span(
                        s,
                        n(cut),
                        size(s),
                        leq,
                    ) implies merging(out, s, n(i) + 1, n(cut), n(j), leq) by {
                    lemma_merge_left(before, s, n(i), n(cut), n(j), leq);
                }
            }
            i += 1;
        }
        k += 1;
    }
    v.append(&mut tail);
    proof {
        assert(v@ =~= head + out + rest);
        assert(span(s, 0, n(cut)) + span(s, n(cut), size(s)) =~= s);
        lemma_multiset_commutative(span(s, 0, n(cut)), span(s, n(cut), size(s)));
        lemma_three_spans(whole, n(lo), n(hi) + 1);
        lemma_middle_replaced(head, s, out, rest);
        assert forall|leq: spec_fn(T, T) -> bool| #[trigger]
            implements(*compare, leq) && sorted_span(whole, n(lo), n(mid) + 1, leq) && sorted_span(
                whole,
                n(mid) + 1,
                n(hi) + 1,
                leq,
            ) implies sorted_span(v@, n(lo), n(hi) + 1, leq) by {
            lemma_sorted_shift(whole, s, n(lo), 0, n(cut), leq);
            lemma_sorted_shift(whole, s, n(lo), n(cut), size(s), leq);
            lemma_sorted_shift(v@, out, n(lo), 0, size(out), leq);
        }
    }
}

/// Sorts `v` by the order of `T`, as `quick_sort_by` does.
pub fn quick_sort<T>(v: &mut Vec<T>) where T: Ord
    requires
        total_order::<T>(),
        old(v)@.len() > 0,
    ensures
        final(v)@.len() == old(v)@.len(),
        final(v)@.to_multiset() == old(v)@.to_multiset(),
        sorted_by(final(v)@, natural::<T>()),
{
    proof {
        lemma_natural::<T>();
    }
    quick_sort_by(v, order_of::<T>)
}

/// Sorts `v` by shuffling it and then, part by part, putting one item
/// between those that come at or before it and those that come at or
/// after it; a part of 20 items or fewer is sorted by insertion.
pub fn quick_sort_by<T, F>(v: &mut Vec<T>, compare: F) where F: Fn(&T, &T) -> Ordering
    requires
        callable(compare),
        old(v)@.len() > 0,
    ensures
        final(v)@.len() == old(v)@.len(),
        final(v)@.to_multiset() == old(v)@.to_multiset(),
        forall|leq: spec_fn(T, T) -> bool| #[trigger]
            implements(compare, leq) ==> sorted_by(final(v)@, leq),
{
    shuffle_vec(v);
    proof {
        v@.to_multiset_ensures();
        old(v)@.to_multiset_ensures();
    }
    let len = v.len();
    _quick_sort(v, 0, len - 1, &compare)
}

/// Brings the items of `v` up to place `hi` in order, given that those
/// before place `lo` stand in order and come at or before each item
/// from place `lo` to place `hi`.
fn _quick_sort<T, F>(v: &mut Vec<T>, lo: usize, hi: usize, compare: &F) where
    F: Fn(&T, &T) -> Ordering,

    requires
        callable(*compare),
        hi < old(v)@.len(),
        lo <= hi + 1,
        forall|leq: spec_fn(T, T) -> bool| #[trigger]
            implements(*compare, leq) ==> sorted_span(old(v)@, 0, n(lo), leq) && span_le(
                old(v)@,
                0,
                n(lo),
                n(hi) + 1,
                leq,
            ),
    ensures
        final(v)@.len() == old(v)@.len(),
        final(v)@.to_multiset() == old(v)@.to_multiset(),
        span(final(v)@, 0, n(hi) + 1).to_multiset() == span(old(v)@, 0, n(hi) + 1).to_multiset(),
        span(final(v)@, n(hi) + 1, size(old(v)@)) == span(old(v)@, n(hi) + 1, size(old(v)@)),
        forall|leq: spec_fn(T, T) -> bool| #[trigger]
            implements(*compare, leq) ==> sorted_span(final(v)@, 0, n(hi) + 1, leq),
    decreases hi + 1 - lo,
{
    if hi <= lo {
        proof {
            assert forall|leq: spec_fn(T, T) -> bool| #[trigger]
                implements(*compare, leq) implies sorted_span(v@, 0, n(hi) + 1, leq) by {
                assert(sorted_span(v@, 0, n(lo), leq) && span_le(v@, 0, n(lo), n(hi) + 1, leq));
            }
        }
        return ;
    }
    let cutoff: usize = 20;
    if hi - lo < cutoff {
        _insertion_sort_by(v, lo, hi, compare);
        return ;
    }
    let len = v.len();
    let ghost first = v@;
    let j = partition(v, lo, hi, compare);
    let ghost parted = v@;
    proof {
        lemma_spans_joined(parted, first, n(lo), n(hi) + 1);
        assert forall|leq: spec_fn(T, T) -> bool| #[trigger]
            implements(*compare, leq) implies sorted_span(parted, 0, n(lo), leq) && span_le(
            parted,
            0,
            n(lo),
            n(hi) + 1,
            leq,
        ) && roof_of(parted, 0, n(j), at(parted, j), leq) by {
            assert(sorted_span(first, 0, n(lo), leq) && span_le(first, 0, n(lo), n(hi) + 1, leq));
            lemma_prefix_kept(first, parted, n(lo), n(hi) + 1, leq);
            assert(roof_of(parted, n(lo), n(j), at(parted, j), leq));
            assert forall|k: int| 0 <= k < n(j)
                implies leq(#[trigger] parted[k], at(parted, j)) by {
                if k < n(lo) {
                    assert(leq(parted[k], parted[n(j)]));
                }
            }
        }
    }
    if lo == 0 && j == 0 {
        proof {
            assert forall|leq: spec_fn(T, T) -> bool| #[trigger]
                implements(*compare, leq) implies sorted_span(parted, 0, n(j) + 1, leq) && span_le(
                parted,
                0,
                n(j) + 1,
                n(hi) + 1,
                leq,
            ) by {
                assert(floor_of(parted, n(j) + 1, n(hi) + 1, at(parted, j), leq));
            }
        }
        _quick_sort(v, j + 1, hi, compare);
    } else {
        proof {
            assert forall|leq: spec_fn(T, T) -> bool| #[trigger]
                implements(*compare, leq) implies span_le(parted, 0, n(lo), n(j), leq) by {
                assert(span_le(parted, 0, n(lo), n(hi) + 1, leq));
            }
        }
        _quick_sort(v, lo, j - 1, compare);
        let ghost left = v@;
        proof {
            assert forall|leq: spec_fn(T, T) -> bool| #[trigger]
                implements(*compare, leq) implies sorted_span(left, 0, n(j) + 1, leq) && span_le(
                left,
                0,
                n(j) + 1,
                n(hi) + 1,
                leq,
            ) by {
                assert(floor_of(parted, n(j) + 1, n(hi) + 1, at(parted, j), leq));
                assert(roof_of(parted, 0, n(j), at(parted, j), leq));
                lemma_pivot_joins(parted, left, n(j), n(hi) + 1, leq);
            }
            lemma_span_of_span(left, parted, n(j), n(len), n(j), n(hi) + 1);
            lemma_span_of_span(left, parted, n(j), n(len), n(hi) + 1, n(len));
            lemma_spans_joined(left, parted, n(j), n(hi) + 1);
        }
        _quick_sort(v, j + 1, hi, compare);
    }
}

/// Puts the items of `v` in an order drawn at random.
///
/// Calls `SliceRandom::shuffle` of the crate rand with the generator
/// that `thread_rng` gives: the slice is shuffled in place, by
/// exchanging items, so that it holds the same items afterwards.
#[verifier::external_body]
pub fn shuffle_vec<T>(v: &mut Vec<T>)
    ensures
        final(v)@.len() == old(v)@.len(),
        final(v)@.to_multiset() == old(v)@.to_multiset(),
{
    let mut rng = rand::thread_rng();
    v.shuffle(&mut rng);
}

/// Chooses the item at place `lo` and moves the items from place `lo`
/// to place `hi` so that, around the place `j` where that item ends up,
/// those before it come at or before it and those after it at or after it.
fn partition<T, F>(v: &mut Vec<T>, lo: usize, hi: usize, compare: &F) -> (j: usize) where
    F: Fn(&T, &T) -> Ordering,

    requires
        callable(*compare),
        lo < hi < old(v)@.len(),
    ensures
        lo <= j <= hi,
        final(v)@.len() == old(v)@.len(),
        final(v)@.to_multiset() == old(v)@.to_multiset(),
        span(final(v)@, 0, n(lo)) == span(old(v)@, 0, n(lo)),
        span(final(v)@, n(hi) + 1, size(old(v)@)) == span(old(v)@, n(hi) + 1, size(old(v)@)),
        span(final(v)@, n(lo), n(hi) + 1).to_multiset() == span(
            old(v)@,
            n(lo),
            n(hi) + 1,
        ).to_multiset(),
        forall|leq: spec_fn(T, T) -> bool| #[trigger]
            implements(*compare, leq) ==> roof_of(final(v)@, n(lo), n(j), at(final(v)@, j), leq)
                && floor_of(final(v)@, n(j) + 1, n(hi) + 1, at(final(v)@, j), leq),
{
    let len = v.len();
    let ghost whole = v@;
    let ghost pivot = at(v@, lo);
    let mut i = lo;
    let mut j = hi + 1;
    loop
        invariant_except_break
            i < j,
            i < hi,
            forall|leq: spec_fn(T, T) -> bool| #[trigger]
                implements(*compare, leq) ==> roof_of(v@, n(lo) + 1, n(i) + 1, pivot, leq),
            forall|leq: spec_fn(T, T) -> bool| #[trigger]
                implements(*compare, leq) ==> floor_of(v@, n(j), n(hi) + 1, pivot, leq),
        invariant
            callable(*compare),
            len == v@.len(),
            lo < hi < len,
            lo <= i,
            lo <= j <= hi + 1,
            at(v@, lo) == pivot,
            v@.to_multiset() == whole.to_multiset(),
            span(v@, 0, n(lo)) == span(whole, 0, n(lo)),
            span(v@, n(hi) + 1, n(len)) == span(whole, n(hi) + 1, n(len)),
            span(v@, n(lo), n(hi) + 1).to_multiset() == span(whole, n(lo), n(hi) + 1).to_multiset(),
        ensures
            j <= hi,
            forall|leq: spec_fn(T, T) -> bool| #[trigger]
                implements(*compare, leq) ==> roof_of(v@, n(lo) + 1, n(j), pivot, leq) && (j == lo
                    || leq(at(v@, j), pivot)),
            forall|leq: spec_fn(T, T) -> bool| #[trigger]
                implements(*compare, leq) ==> floor_of(v@, n(j) + 1, n(hi) + 1, pivot, leq),
        decreases j - i,
    {
        let ghost i0 = i;
        let ghost j0 = j;
        i += 1;
        while is_less(compare, &v[i], &v[lo])
            invariant
                i0 < i,
                callable(*compare),
                hi < v@.len(),
                at(v@, lo) == pivot,
                lo < i <= hi,
                forall|leq: spec_fn(T, T) -> bool| #[trigger]
                    implements(*compare, leq) ==> roof_of(v@, n(lo) + 1, n(i), pivot, leq),
            ensures
                i0 < i,
                lo < i <= hi,
                forall|leq: spec_fn(T, T) -> bool| #[trigger]
                    implements(*compare, leq) ==> roof_of(v@, n(lo) + 1, n(i), pivot, leq) && (leq(
                        pivot,
                        at(v@, i),
                    ) || (i == hi && leq(at(v@, i), pivot))),
            decreases hi - i,
        {
            proof {
                assert forall|leq: spec_fn(T, T) -> bool| #[trigger]
                    implements(*compare, leq) implies roof_of(v@, n(lo) + 1, n(i) + 1, pivot, leq)
                    && leq(at(v@, i), pivot) by {
                    assert(leq(pivot, at(v@, i)) || leq(at(v@, i), pivot));
                    assert(roof_of(v@, n(lo) + 1, n(i), pivot, leq));
                }
            }
            if i == hi {
                break ;
            }
            i += 1;
        }
        j -= 1;
        while is_less(compare, &v[lo], &v[j])
            invariant
                j < j0,
                callable(*compare),
                hi < v@.len(),
                at(v@, lo) == pivot,
                lo <= j <= hi,
                forall|leq: spec_fn(T, T) -> bool| #[trigger]
                    implements(*compare, leq) ==> floor_of(v@, n(j) + 1, n(hi) + 1, pivot, leq),
            ensures
                j < j0,
                lo <= j <= hi,
                forall|leq: spec_fn(T, T) -> bool| #[trigger]
                    implements(*compare, leq) ==> floor_of(v@, n(j) + 1, n(hi) + 1, pivot, leq)
                        && (leq(at(v@, j), pivot) || j == lo),
            decreases j,
        {
            proof {
                assert forall|leq: spec_fn(T, T) -> bool| #[trigger]
                    implements(*compare, leq) implies floor_of(v@, n(j), n(hi) + 1, pivot, leq) by {
                    assert(leq(pivot, at(v@, j)) || leq(at(v@, j), pivot));
                    assert(floor_of(v@, n(j) + 1, n(hi) + 1, pivot, leq));
                }
            }
            if j == lo {
                break ;
            }
            j -= 1;
        }
        if i >= j {
            proof {
                assert forall|leq: spec_fn(T, T) -> bool| #[trigger]
                    implements(*compare, leq) implies roof_of(v@, n(lo) + 1, n(j), pivot, leq) by {
                    assert(roof_of(v@, n(lo) + 1, n(i), pivot, leq));
                }
            }
            break ;
        }
        let ghost before = v@;
        exchange(v, i, j);
        proof {
            lemma_exchanged_span(before, n(lo), n(hi) + 1, n(i), n(j));
            assert forall|leq: spec_fn(T, T) -> bool| #[trigger]
                implements(*compare, leq) implies roof_of(v@, n(lo) + 1, n(i) + 1, pivot, leq)
                && floor_of(v@, n(j), n(hi) + 1, pivot, leq) by {
                assert(roof_of(before, n(lo) + 1, n(i), pivot, leq));
                assert(floor_of(before, n(j) + 1, n(hi) + 1, pivot, leq));
                assert forall|k: int| n(lo) + 1 <= k < n(i) + 1 implies leq(
                    #[trigger] v@[k],
                    pivot,
                ) by {
                    if k < n(i) {
                        assert(leq(before[k], pivot));
                    }
                }
                assert forall|k: int| n(j) <= k < n(hi) + 1
                    implies leq(pivot, #[trigger] v@[k]) by {
                    if k > n(j) {
                        assert(leq(pivot, before[k]));
                    }
                }
            }
        }
    }
    let ghost before = v@;
    exchange(v, lo, j);
    proof {
        lemma_exchanged_span(before, n(lo), n(hi) + 1, n(lo), n(j));
        assert forall|leq: spec_fn(T, T) -> bool| #[trigger]
            implements(*compare, leq) implies roof_of(v@, n(lo), n(j), at(v@, j), leq) && floor_of(
            v@,
            n(j) + 1,
            n(hi) + 1,
            at(v@, j),
            leq,
        ) by {
            assert(roof_of(before, n(lo) + 1, n(j), pivot, leq));
            assert(floor_of(before, n(j) + 1, n(hi) + 1, pivot, leq));
            assert forall|k: int| n(lo) <= k < n(j) implies leq(#[trigger] v@[k], at(v@, j)) by {
                if k > n(lo) {
                    assert(leq(before[k], pivot));
                }
            }
            assert forall|k: int| n(j) + 1 <= k < n(hi) + 1 implies leq(
                at(v@, j),
                #[trigger] v@[k],
            ) by {
                assert(leq(pivot, before[k]));
            }
        }
    }
    j
}

} // verus!
