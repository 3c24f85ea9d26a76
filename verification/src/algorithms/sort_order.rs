//! The order that a comparison function decides, and what it means for a
//! sequence to be sorted by it.

use crate::algorithms::order::{le, lemma_order_transitive, lemma_trichotomy, total_order};
use crate::algorithms::indexing::{lemma_same_items_all, span};
use core::cmp::Ordering;
use vstd::laws_cmp::obeys_cmp_ord;
use vstd::prelude::*;
use vstd::std_specs::cmp::OrdSpec;

verus! {

/// `leq` relates any two values one way or the other, and is transitive.
pub open spec fn total_preorder<T>(leq: spec_fn(T, T) -> bool) -> bool {
    &&& forall|a: T, b: T| #[trigger] leq(a, b) || leq(b, a)
    &&& forall|a: T, b: T, c: T| #[trigger] leq(a, b) && #[trigger] leq(b, c) ==> leq(a, c)
}

/// `compare` may be called on any two values.
pub open spec fn callable<T, F: Fn(&T, &T) -> Ordering>(compare: F) -> bool {
    forall|a: T, b: T| #[trigger] call_requires(compare, (&a, &b))
}

/// `compare` decides the total preorder `leq`: whenever it answers
/// `Less` for `a` and `b`, `b` does not come at or before `a`, and
/// whenever it answers otherwise, it does.
pub open spec fn implements<T, F: Fn(&T, &T) -> Ordering>(
    compare: F,
    leq: spec_fn(T, T) -> bool,
) -> bool {
    &&& total_preorder(leq)
    &&& forall|a: T, b: T, o: Ordering| #[trigger]
        call_ensures(compare, (&a, &b), o) ==> ((o == Ordering::Less) == !leq(b, a))
}

/// The items of `s` from place `lo` up to place `hi` stand in order.
pub open spec fn sorted_span<T>(s: Seq<T>, lo: int, hi: int, leq: spec_fn(T, T) -> bool) -> bool {
    forall|i: int, j: int| lo <= i < j < hi ==> leq(#[trigger] s[i], #[trigger] s[j])
}

/// The items of `s` stand in order.
pub open spec fn sorted_by<T>(s: Seq<T>, leq: spec_fn(T, T) -> bool) -> bool {
    sorted_span(s, 0, s.len() as int, leq)
}

/// Each item of `s` from place `lo` up to place `mid` comes at or before
/// each item from place `mid` up to place `hi`.
pub open spec fn span_le<T>(
    s: Seq<T>,
    lo: int,
    mid: int,
    hi: int,
    leq: spec_fn(T, T) -> bool,
) -> bool {
    forall|i: int, j: int| lo <= i < mid && mid <= j < hi ==> leq(#[trigger] s[i], #[trigger] s[j])
}

/// `x` comes at or before each item of `s` from place `lo` up to place `hi`.
pub open spec fn floor_of<T>(s: Seq<T>, lo: int, hi: int, x: T, leq: spec_fn(T,
    T) -> bool) -> bool {
    forall|k: int| lo <= k < hi ==> leq(x, #[trigger] s[k])
}

/// Each item of `s` from place `lo` up to place `hi` comes at or before `x`.
pub open spec fn roof_of<T>(s: Seq<T>, lo: int, hi: int, x: T, leq: spec_fn(T, T) -> bool) -> bool {
    forall|k: int| lo <= k < hi ==> leq(#[trigger] s[k], x)
}

/// The items of `s` before place `hi` stand in order, but for the item
/// at place `hole`, which may come before items that stand before it.
pub open spec fn sorted_but<T>(s: Seq<T>, hi: int, hole: int, leq: spec_fn(T, T) -> bool) -> bool {
    forall|i: int, j: int| 0 <= i < j < hi && j != hole ==> leq(#[trigger] s[i], #[trigger] s[j])
}

/// Exchanging the item at the hole with a larger one before it moves
/// the hole down by one place.
pub proof fn lemma_sift_step<T>(
    before: Seq<T>,
    after: Seq<T>,
    hi: int,
    hole: int,
    leq: spec_fn(T, T) -> bool,
)
    requires
        total_preorder(leq),
        0 < hole < hi <= before.len(),
        sorted_but(before, hi, hole, leq),
        !leq(before[hole - 1], before[hole]),
        after == before.update(hole, before[hole - 1]).update(hole - 1, before[hole]),
    ensures
        sorted_but(after, hi, hole - 1, leq),
{
    let x = before[hole];
    let y = before[hole - 1];
    assert(leq(x, y) || leq(y, x));
    assert forall|i: int, j: int| 0 <= i < j < hi && j != hole - 1 implies leq(
        #[trigger] after[i],
        #[trigger] after[j],
    ) by {
        if j == hole {
            if i < hole - 1 {
                assert(leq(before[i], before[hole - 1]));
            }
        } else if j > hole {
            if i == hole {
                assert(leq(before[hole - 1], before[j]));
            } else if i == hole - 1 {
                assert(leq(before[hole], before[j]));
            } else {
                assert(leq(before[i], before[j]));
            }
        } else {
            assert(leq(before[i], before[j]));
        }
    }
}

/// Once the item at the hole does not come before the one before it,
/// all the items stand in order.
pub proof fn lemma_sift_done<T>(s: Seq<T>, hi: int, hole: int, leq: spec_fn(T, T) -> bool)
    requires
        total_preorder(leq),
        0 < hole < hi <= s.len(),
        sorted_but(s, hi, hole, leq),
        leq(s[hole - 1], s[hole]),
    ensures
        sorted_span(s, 0, hi, leq),
{
    assert forall|i: int, j: int| 0 <= i < j < hi implies leq(#[trigger] s[i], #[trigger] s[j]) by {
        if j == hole {
            if i < hole - 1 {
                assert(leq(s[i], s[hole - 1]) && leq(s[hole - 1], s[hole]));
            }
        }
    }
}

/// `h` is one of the steps 1, 4, 13, 40, ...: each is one more than
/// three times the one before it.
pub open spec fn is_step(h: int) -> bool
    decreases h,
{
    h == 1 || (h > 1 && h % 3 == 1 && is_step(h / 3))
}

/// While two runs of `s` are merged, the first from place 0 up to place
/// `cut` and the second from there on: `out` stands in order, and each
/// of its items comes at or before each item still to come, those of
/// the first run from place `i` on and those of the second from place `j` on.
pub open spec fn merging<T>(
    out: Seq<T>,
    s: Seq<T>,
    i: int,
    cut: int,
    j: int,
    leq: spec_fn(T, T) -> bool,
) -> bool {
    &&& sorted_span(out, 0, out.len() as int, leq)
    &&& forall|x: int, a: int| 0 <= x < out.len() && i <= a < cut
        ==> leq(#[trigger] out[x], #[trigger] s[a])
    &&& forall|x: int, b: int|
        0 <= x < out.len() && j <= b < s.len() ==> leq(#[trigger] out[x], #[trigger] s[b])
}

/// Taking the next item of the first run, which does not come after the
/// next item of the second, keeps the merge in order.
pub proof fn lemma_merge_left<T>(
    out: Seq<T>,
    s: Seq<T>,
    i: int,
    cut: int,
    j: int,
    leq: spec_fn(T, T) -> bool,
)
    requires
        total_preorder(leq),
        0 <= i < cut <= j <= s.len(),
        sorted_span(s, 0, cut, leq),
        sorted_span(s, cut, s.len() as int, leq),
        merging(out, s, i, cut, j, leq),
        j < s.len() ==> leq(s[i], s[j]),
    ensures
        merging(out.push(s[i]), s, i + 1, cut, j, leq),
{
    let next = out.push(s[i]);
    assert(leq(s[i], s[i]) || leq(s[i], s[i]));
    assert forall|x: int, y: int| 0 <= x < y < next.len() implies leq(
        #[trigger] next[x],
        #[trigger] next[y],
    ) by {
        if y < out.len() {
            assert(leq(out[x], out[y]));
        } else {
            assert(leq(out[x], s[i]));
        }
    }
    assert forall|x: int, a: int| 0 <= x < next.len() && i + 1 <= a < cut implies leq(
        #[trigger] next[x],
        #[trigger] s[a],
    ) by {
        if x < out.len() {
            assert(leq(out[x], s[a]));
        } else {
            assert(leq(s[i], s[a]));
        }
    }
    assert forall|x: int, b: int| 0 <= x < next.len() && j <= b < s.len() implies leq(
        #[trigger] next[x],
        #[trigger] s[b],
    ) by {
        if x < out.len() {
            assert(leq(out[x], s[b]));
        } else {
            assert(leq(s[i], s[j]));
            if b > j {
                assert(leq(s[j], s[b]));
            }
        }
    }
}

/// Taking the next item of the second run, which comes before the next
/// item of the first, keeps the merge in order.
pub proof fn lemma_merge_right<T>(
    out: Seq<T>,
    s: Seq<T>,
    i: int,
    cut: int,
    j: int,
    leq: spec_fn(T, T) -> bool,
)
    requires
        total_preorder(leq),
        0 <= i <= cut <= j < s.len(),
        sorted_span(s, 0, cut, leq),
        sorted_span(s, cut, s.len() as int, leq),
        merging(out, s, i, cut, j, leq),
        i < cut ==> !leq(s[i], s[j]),
    ensures
        merging(out.push(s[j]), s, i, cut, j + 1, leq),
{
    let next = out.push(s[j]);
    assert(leq(s[j], s[j]) || leq(s[j], s[j]));
    assert forall|x: int, y: int| 0 <= x < y < next.len() implies leq(
        #[trigger] next[x],
        #[trigger] next[y],
    ) by {
        if y < out.len() {
            assert(leq(out[x], out[y]));
        } else {
            assert(leq(out[x], s[j]));
        }
    }
    assert forall|x: int, a: int| 0 <= x < next.len() && i <= a < cut implies leq(
        #[trigger] next[x],
        #[trigger] s[a],
    ) by {
        if x < out.len() {
            assert(leq(out[x], s[a]));
        } else {
            assert(leq(s[i], s[j]) || leq(s[j], s[i]));
            if a > i {
                assert(leq(s[i], s[a]));
            }
        }
    }
    assert forall|x: int, b: int| 0 <= x < next.len() && j + 1 <= b < s.len() implies leq(
        #[trigger] next[x],
        #[trigger] s[b],
    ) by {
        if x < out.len() {
            assert(leq(out[x], s[b]));
        } else {
            assert(leq(s[j], s[b]));
        }
    }
}

/// A span of `whole` stands in order exactly when the same items do in
/// `part`, which holds the items of `whole` from place `lo` on.
pub proof fn lemma_sorted_shift<T>(
    whole: Seq<T>,
    part: Seq<T>,
    lo: int,
    a: int,
    b: int,
    leq: spec_fn(T, T) -> bool,
)
    requires
        0 <= lo,
        lo + part.len() <= whole.len(),
        part == whole.subrange(lo, lo + part.len()),
        0 <= a <= b <= part.len(),
    ensures
        sorted_span(whole, lo + a, lo + b, leq) <==> sorted_span(part, a, b, leq),
{
    if sorted_span(whole, lo + a, lo + b, leq) {
        assert forall|i: int, j: int| a <= i < j < b implies leq(
            #[trigger] part[i],
            #[trigger] part[j],
        ) by {
            assert(leq(whole[lo + i], whole[lo + j]));
        }
    }
    if sorted_span(part, a, b, leq) {
        assert forall|i: int, j: int| lo + a <= i < j < lo + b implies leq(
            #[trigger] whole[i],
            #[trigger] whole[j],
        ) by {
            assert(leq(part[i - lo], part[j - lo]));
        }
    }
}

/// Where the items before place `hi` stood in order, and those from
/// place `lo` on have changed places among themselves so that they
/// stand in order again, all the items before place `hi` stand in order.
pub proof fn lemma_sorted_after_span<T>(
    before: Seq<T>,
    after: Seq<T>,
    lo: int,
    hi: int,
    leq: spec_fn(T, T) -> bool,
)
    requires
        0 <= lo <= hi <= before.len(),
        after.len() == before.len(),
        sorted_span(before, 0, hi, leq),
        span(after, 0, lo) == span(before, 0, lo),
        span(after, lo, hi).to_multiset() == span(before, lo, hi).to_multiset(),
        sorted_span(after, lo, hi, leq),
    ensures
        sorted_span(after, 0, hi, leq),
{
    assert forall|i: int, j: int| 0 <= i < j < hi implies leq(
        #[trigger] after[i],
        #[trigger] after[j],
    ) by {
        if i < lo {
            assert(after[i] == span(after, 0, lo)[i]);
            assert(before[i] == span(before, 0, lo)[i]);
            if j < lo {
                assert(after[j] == span(after, 0, lo)[j]);
                assert(before[j] == span(before, 0, lo)[j]);
                assert(leq(before[i], before[j]));
            } else {
                let x = before[i];
                let above = |y: T| leq(x, y);
                assert forall|k: int| 0 <= k < span(before, lo, hi).len() implies above(
                    #[trigger] span(before, lo, hi)[k],
                ) by {
                    assert(leq(before[i], before[lo + k]));
                }
                lemma_same_items_all(span(before, lo, hi), span(after, lo, hi), above);
                assert(above(span(after, lo, hi)[j - lo]));
            }
        }
    }
}

/// From place `lo` on, the items of `s` stand in runs of `w` items, the
/// last run perhaps shorter, and each run stands in order.
pub open spec fn in_runs<T>(s: Seq<T>, lo: int, w: int, leq: spec_fn(T, T) -> bool) -> bool
    decreases s.len() - lo,
{
    if lo >= s.len() || w <= 0 {
        true
    } else if lo + w >= s.len() {
        sorted_span(s, lo, s.len() as int, leq)
    } else {
        sorted_span(s, lo, lo + w, leq) && in_runs(s, lo + w, w, leq)
    }
}

/// From place `a` up to place `b`, the items of `s` stand in runs of
/// `w` items each, and each run stands in order.
pub open spec fn full_runs<T>(s: Seq<T>, a: int, b: int, w: int, leq: spec_fn(T, T) -> bool) -> bool
    decreases b - a,
{
    if a >= b || w <= 0 {
        a == b
    } else {
        a + w <= b && sorted_span(s, a, a + w, leq) && full_runs(s, a + w, b, w, leq)
    }
}

/// Runs of one item each stand in order.
pub proof fn lemma_single_runs<T>(s: Seq<T>, lo: int, leq: spec_fn(T, T) -> bool)
    requires
        0 <= lo,
    ensures
        in_runs(s, lo, 1, leq),
    decreases s.len() - lo,
{
    if lo + 1 < s.len() {
        lemma_single_runs(s, lo + 1, leq);
    }
}

/// Runs from place `lo` on are runs in any sequence that holds the same
/// items from place `lo` on.
pub proof fn lemma_in_runs_same<T>(a: Seq<T>, b: Seq<T>, lo: int, w: int, leq: spec_fn(T,
    T) -> bool)
    requires
        0 <= lo,
        a.len() == b.len(),
        forall|k: int| lo <= k < a.len() ==> a[k] == b[k],
        in_runs(a, lo, w, leq),
    ensures
        in_runs(b, lo, w, leq),
    decreases a.len() - lo,
{
    if lo < a.len() && w > 0 {
        if lo + w < a.len() {
            lemma_in_runs_same(a, b, lo + w, w, leq);
        }
        let end = if lo + w <= a.len() {
            lo + w
        } else {
            a.len() as int
        };
        assert forall|i: int, j: int| lo <= i < j < end implies leq(
            #[trigger] b[i],
            #[trigger] b[j],
        ) by {
            assert(leq(a[i], a[j]));
        }
    }
}

/// Full runs up to place `to` are full runs in any sequence that holds
/// the same items before place `to`.
pub proof fn lemma_full_runs_same<T>(
    a: Seq<T>,
    b: Seq<T>,
    from: int,
    to: int,
    w: int,
    leq: spec_fn(T, T) -> bool,
)
    requires
        0 <= from,
        to <= a.len(),
        to <= b.len(),
        forall|k: int| from <= k < to ==> a[k] == b[k],
        full_runs(a, from, to, w, leq),
    ensures
        full_runs(b, from, to, w, leq),
    decreases to - from,
{
    if from < to && w > 0 {
        lemma_full_runs_same(a, b, from + w, to, w, leq);
        assert forall|i: int, j: int| from <= i < j < from + w implies leq(
            #[trigger] b[i],
            #[trigger] b[j],
        ) by {
            assert(leq(a[i], a[j]));
        }
    }
}

/// One more full run after full runs.
pub proof fn lemma_full_runs_more<T>(
    s: Seq<T>,
    from: int,
    to: int,
    w: int,
    leq: spec_fn(T, T) -> bool,
)
    requires
        0 <= from <= to,
        w > 0,
        full_runs(s, from, to, w, leq),
        sorted_span(s, to, to + w, leq),
    ensures
        full_runs(s, from, to + w, w, leq),
    decreases to - from,
{
    if from < to {
        lemma_full_runs_more(s, from + w, to, w, leq);
    } else {
        assert(full_runs(s, to + w, to + w, w, leq));
    }
}

/// Full runs followed by one last run of no more items make runs to the end.
pub proof fn lemma_full_runs_end<T>(
    s: Seq<T>,
    from: int,
    to: int,
    w: int,
    leq: spec_fn(T, T) -> bool,
)
    requires
        0 <= from <= to <= s.len(),
        w > 0,
        s.len() - to <= w,
        full_runs(s, from, to, w, leq),
        sorted_span(s, to, s.len() as int, leq),
    ensures
        in_runs(s, from, w, leq),
    decreases to - from,
{
    if from < to {
        lemma_full_runs_end(s, from + w, to, w, leq);
    }
}

/// After the items from place `lo` on have changed places among
/// themselves, those before place `lo` still stand in order and come
/// at or before each of them.
pub proof fn lemma_prefix_kept<T>(
    before: Seq<T>,
    after: Seq<T>,
    lo: int,
    hi: int,
    leq: spec_fn(T, T) -> bool,
)
    requires
        0 <= lo <= hi <= before.len(),
        after.len() == before.len(),
        sorted_span(before, 0, lo, leq),
        span_le(before, 0, lo, hi, leq),
        span(after, 0, lo) == span(before, 0, lo),
        span(after, lo, hi).to_multiset() == span(before, lo, hi).to_multiset(),
    ensures
        sorted_span(after, 0, lo, leq),
        span_le(after, 0, lo, hi, leq),
{
    assert forall|i: int| 0 <= i < lo implies after[i] == before[i] by {
        assert(after[i] == span(after, 0, lo)[i]);
        assert(before[i] == span(before, 0, lo)[i]);
    }
    assert forall|i: int, j: int| 0 <= i < j < lo implies leq(
        #[trigger] after[i],
        #[trigger] after[j],
    ) by {
        assert(leq(before[i], before[j]));
    }
    assert forall|i: int, j: int| 0 <= i < lo && lo <= j < hi implies leq(
        #[trigger] after[i],
        #[trigger] after[j],
    ) by {
        let x = before[i];
        let above = |y: T| leq(x, y);
        assert forall|k: int| 0 <= k < span(before, lo, hi).len() implies above(
            #[trigger] span(before, lo, hi)[k],
        ) by {
            assert(leq(before[i], before[lo + k]));
        }
        lemma_same_items_all(span(before, lo, hi), span(after, lo, hi), above);
        assert(above(span(after, lo, hi)[j - lo]));
    }
}

/// Once the items before the pivot at place `j` stand in order, having
/// changed places among themselves only, all the items up to the pivot
/// stand in order and come at or before each item after it up to place `hi`.
pub proof fn lemma_pivot_joins<T>(
    before: Seq<T>,
    after: Seq<T>,
    j: int,
    hi: int,
    leq: spec_fn(T, T) -> bool,
)
    requires
        total_preorder(leq),
        0 <= j < hi <= before.len(),
        after.len() == before.len(),
        roof_of(before, 0, j, before[j], leq),
        floor_of(before, j + 1, hi, before[j], leq),
        span(after, 0, j).to_multiset() == span(before, 0, j).to_multiset(),
        span(after, j, before.len() as int) == span(before, j, before.len() as int),
        sorted_span(after, 0, j, leq),
    ensures
        sorted_span(after, 0, j + 1, leq),
        span_le(after, 0, j + 1, hi, leq),
{
    let pivot = before[j];
    assert forall|k: int| j <= k < before.len() implies after[k] == before[k] by {
        assert(after[k] == span(after, j, before.len() as int)[k - j]);
        assert(before[k] == span(before, j, before.len() as int)[k - j]);
    }
    let below = |y: T| leq(y, pivot);
    assert forall|k: int| 0 <= k < span(before, 0, j).len() implies below(
        #[trigger] span(before, 0, j)[k],
    ) by {
        assert(leq(before[k], pivot));
    }
    lemma_same_items_all(span(before, 0, j), span(after, 0, j), below);
    assert forall|i: int| 0 <= i < j implies leq(after[i], pivot) by {
        assert(below(span(after, 0, j)[i]));
    }
    assert(leq(pivot, pivot) || leq(pivot, pivot));
    assert forall|a: int, b: int| 0 <= a < b < j + 1 implies leq(
        #[trigger] after[a],
        #[trigger] after[b],
    ) by {
        if b == j {
            assert(leq(after[a], pivot));
        }
    }
    assert forall|a: int, b: int| 0 <= a < j + 1 && j + 1 <= b < hi implies leq(
        #[trigger] after[a],
        #[trigger] after[b],
    ) by {
        assert(leq(pivot, before[b]));
        assert(leq(after[a], pivot));
    }
}

/// `new` holds the items of `old` in other places: the item at place
/// `i` of `new` stood at place `from[i]` of `old`, and no two items of
/// `new` stood at the same place.
pub open spec fn rearranged<T>(old: Seq<T>, new: Seq<T>, from: Seq<int>) -> bool {
    &&& new.len() == old.len()
    &&& from.len() == old.len()
    &&& forall|i: int|
        0 <= i < new.len() ==> 0 <= #[trigger] from[i] < old.len() && new[i] == old[from[i]]
    &&& forall|i: int, j: int|
        0 <= i < j < from.len() ==> #[trigger] from[i] != #[trigger] from[j]
}

/// Wherever an item of `new` does not come strictly before a later one,
/// it stood before that one already: items that take the same place in
/// the order have kept their order among themselves.
pub open spec fn order_kept<T>(new: Seq<T>, from: Seq<int>, leq: spec_fn(T, T) -> bool) -> bool {
    forall|i: int, j: int|
        0 <= i < j < new.len() && leq(new[j], new[i]) ==> #[trigger] from[i] < #[trigger] from[j]
}

/// `new` holds the items of `old`, and items that take the same place in
/// the order `leq` have kept their order among themselves.
pub open spec fn stable<T>(old: Seq<T>, new: Seq<T>, leq: spec_fn(T, T) -> bool) -> bool {
    exists|from: Seq<int>| #[trigger] rearranged(old, new, from) && order_kept(new, from, leq)
}

/// `new` holds the items of `old`, and items that take the same place in
/// whatever order `compare` decides have kept their order among themselves.
pub open spec fn stable_by<T, F: Fn(&T, &T)
    -> Ordering>(compare: F, old: Seq<T>, new: Seq<T>) -> bool {
    exists|from: Seq<int>| #[trigger]
        rearranged(old, new, from) && forall|leq: spec_fn(T, T) -> bool| #[trigger]
            implements(compare, leq) ==> order_kept(new, from, leq)
}

/// Every item stands where it stood.
pub open spec fn in_place(len: nat) -> Seq<int> {
    Seq::new(len, |i: int| i)
}

/// The places after the items at the places `j - 1` and `j` have been exchanged.
pub open spec fn places_exchanged(from: Seq<int>, j: int) -> Seq<int> {
    from.update(j, from[j - 1]).update(j - 1, from[j])
}

/// Nothing has moved yet.
pub proof fn lemma_in_place<T>(s: Seq<T>, leq: spec_fn(T, T) -> bool)
    ensures
        rearranged(s, s, in_place(s.len())),
        order_kept(s, in_place(s.len()), leq),
{
}

/// Exchanging two neighbours keeps the account of where the items stood.
pub proof fn lemma_exchange_rearranged<T>(
    old: Seq<T>,
    before: Seq<T>,
    after: Seq<T>,
    from: Seq<int>,
    j: int,
)
    requires
        rearranged(old, before, from),
        0 < j < before.len(),
        after == before.update(j, before[j - 1]).update(j - 1, before[j]),
    ensures
        rearranged(old, after, places_exchanged(from, j)),
{
    let next = places_exchanged(from, j);
    assert forall|i: int| 0 <= i < after.len() implies 0 <= #[trigger] next[i] < old.len()
        && after[i] == old[next[i]] by {
        if i == j {
            assert(from[j - 1] == from[j - 1]);
        } else if i == j - 1 {
            assert(from[j] == from[j]);
        } else {
            assert(from[i] == next[i]);
        }
    }
    assert forall|a: int, b: int| 0 <= a < b < next.len() implies #[trigger] next[a]
        != #[trigger] next[b] by {
        let pa = if a == j {
            j - 1
        } else if a == j - 1 {
            j
        } else {
            a
        };
        let pb = if b == j {
            j - 1
        } else if b == j - 1 {
            j
        } else {
            b
        };
        assert(next[a] == from[pa] && next[b] == from[pb]);
        if pa < pb {
            assert(from[pa] != from[pb]);
        } else {
            assert(from[pb] != from[pa]);
        }
    }
}

/// Exchanging two neighbours of which the second comes strictly before
/// the first keeps the order among items that take the same place.
pub proof fn lemma_exchange_keeps_order<T>(
    before: Seq<T>,
    after: Seq<T>,
    from: Seq<int>,
    j: int,
    leq: spec_fn(T, T) -> bool,
)
    requires
        total_preorder(leq),
        from.len() == before.len(),
        order_kept(before, from, leq),
        0 < j < before.len(),
        !leq(before[j - 1], before[j]),
        after == before.update(j, before[j - 1]).update(j - 1, before[j]),
    ensures
        order_kept(after, places_exchanged(from, j), leq),
{
    let next = places_exchanged(from, j);
    assert forall|a: int, b: int| 0 <= a < b < after.len() && leq(after[b], after[a])
        implies #[trigger] next[a]
        < #[trigger] next[b] by {
        let pa = if a == j {
            j - 1
        } else if a == j - 1 {
            j
        } else {
            a
        };
        let pb = if b == j {
            j - 1
        } else if b == j - 1 {
            j
        } else {
            b
        };
        assert(next[a] == from[pa] && next[b] == from[pb]);
        assert(after[a] == before[pa] && after[b] == before[pb]);
        if a == j - 1 && b == j {
            // the two that were exchanged stand strictly in order now
            assert(leq(before[j], before[j - 1]) || leq(before[j - 1], before[j]));
        } else {
            assert(pa < pb);
            assert(from[pa] < from[pb]);
        }
    }
}

/// Whether `a` comes strictly before `b`.
pub fn is_less<T, F: Fn(&T, &T) -> Ordering>(compare: &F, a: &T, b: &T) -> (r: bool)
    requires
        callable(*compare),
    ensures
        forall|leq: spec_fn(T, T) -> bool| #[trigger] implements(*compare, leq)
            ==> r == !leq(*b, *a),
{
    let o = compare(a, b);
    match o {
        Ordering::Less => true,
        _ => false,
    }
}

/// The order of `T` as a relation.
pub open spec fn natural<T: Ord>() -> spec_fn(T, T) -> bool {
    |a: T, b: T| le(a, b)
}

/// How `a` stands to `b` in the order of `T`.
pub fn order_of<T: Ord>(a: &T, b: &T) -> (o: Ordering)
    requires
        total_order::<T>(),
    ensures
        o == a.cmp_spec(b),
{
    proof {
        reveal(obeys_cmp_ord);
    }
    a.cmp(b)
}

/// Comparing by the order of `T` decides that order.
pub proof fn lemma_natural<T: Ord>()
    requires
        total_order::<T>(),
    ensures
        callable(order_of::<T>),
        implements(order_of::<T>, natural::<T>()),
{
    let leq = natural::<T>();
    assert forall|a: T, b: T| #[trigger] leq(a, b) || leq(b, a) by {
        lemma_trichotomy(a, b);
    }
    assert forall|a: T, b: T, c: T| #[trigger] leq(a, b) && #[trigger] leq(b, c) implies leq(
        a,
        c,
    ) by {
        lemma_order_transitive(a, b, c);
    }
    assert forall|a: T, b: T, o: Ordering| #[trigger]
        call_ensures(order_of::<T>, (&a, &b), o) implies ((o == Ordering::Less) == !leq(b, a)) by {
        lemma_trichotomy(a, b);
        lemma_trichotomy(b, a);
    }
}

} // verus!
