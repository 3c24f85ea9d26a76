//! Places and spans of sequences, and the exchange of two items of an array.

use vstd::prelude::*;
use vstd::seq_lib::{lemma_multiset_commutative, to_multiset_contains, to_multiset_update};

verus! {

/// The number `i` as a mathematical integer.
#[verifier::inline]
pub open spec fn n(i: usize) -> int {
    i as int
}

/// The length of `s` as a mathematical integer.
#[verifier::inline]
pub open spec fn size<T>(s: Seq<T>) -> int {
    s.len() as int
}

/// The item of `s` at place `i`.
pub open spec fn at<T>(s: Seq<T>, i: usize) -> T {
    s[i as int]
}

/// The items of `s` from place `lo` up to, not including, place `hi`.
pub open spec fn span<T>(s: Seq<T>, lo: int, hi: int) -> Seq<T> {
    s.subrange(lo, hi)
}

/// `s` with the items at the places `i` and `j` exchanged.
pub open spec fn exchanged<T>(s: Seq<T>, i: int, j: int) -> Seq<T> {
    s.update(i, s[j]).update(j, s[i])
}

/// Exchanging two items keeps the items that a sequence holds.
pub proof fn lemma_exchanged_same_items<T>(s: Seq<T>, i: int, j: int)
    requires
        0 <= i < s.len(),
        0 <= j < s.len(),
    ensures
        exchanged(s, i, j).to_multiset() == s.to_multiset(),
        exchanged(s, i, j).len() == s.len(),
{
    let step = s.update(i, s[j]);
    to_multiset_update(s, i, s[j]);
    to_multiset_update(step, j, s[i]);
    to_multiset_contains(s, s[i]);
    to_multiset_contains(s, s[j]);
    assert(s.contains(s[i]));
    assert(s.contains(s[j]));
    assert(exchanged(s, i, j).to_multiset() =~= s.to_multiset());
}

/// Exchanging two items inside a span keeps the items that the span holds.
pub proof fn lemma_exchanged_span<T>(s: Seq<T>, lo: int, hi: int, i: int, j: int)
    requires
        0 <= lo <= i < hi <= s.len(),
        lo <= j < hi,
    ensures
        span(exchanged(s, i, j), lo, hi).to_multiset() == span(s, lo, hi).to_multiset(),
        span(exchanged(s, i, j), 0, lo) == span(s, 0, lo),
        span(exchanged(s, i, j), hi, s.len() as int) == span(s, hi, s.len() as int),
{
    let part = span(s, lo, hi);
    lemma_exchanged_same_items(part, i - lo, j - lo);
    assert(span(exchanged(s, i, j), lo, hi) =~= exchanged(part, i - lo, j - lo));
    assert(span(exchanged(s, i, j), 0, lo) =~= span(s, 0, lo));
    assert(span(exchanged(s, i, j), hi, s.len() as int) =~= span(s, hi, s.len() as int));
}

/// Whatever holds of every item of a sequence holds of every item of one
/// that holds the same items.
pub proof fn lemma_same_items_all<T>(a: Seq<T>, b: Seq<T>, p: spec_fn(T) -> bool)
    requires
        a.to_multiset() == b.to_multiset(),
        forall|i: int| 0 <= i < a.len() ==> p(#[trigger] a[i]),
    ensures
        forall|i: int| 0 <= i < b.len() ==> p(#[trigger] b[i]),
{
    assert forall|i: int| 0 <= i < b.len() implies p(#[trigger] b[i]) by {
        to_multiset_contains(b, b[i]);
        to_multiset_contains(a, b[i]);
        assert(b.contains(b[i]));
        let k = choose|k: int| 0 <= k < a.len() && a[k] == b[i];
        assert(p(a[k]));
    }
}

/// Exchanges the items of `v` at the places `i` and `j`.
pub fn exchange<T>(v: &mut Vec<T>, i: usize, j: usize)
    requires
        i < old(v)@.len(),
        j < old(v)@.len(),
    ensures
        final(v)@ == exchanged(old(v)@, i as int, j as int),
        final(v)@.len() == old(v)@.len(),
        final(v)@.to_multiset() == old(v)@.to_multiset(),
{
    proof {
        lemma_exchanged_same_items(v@, i as int, j as int);
    }
    if i == j {
        proof {
            assert(v@ =~= exchanged(v@, i as int, j as int));
        }
        return ;
    }
    let (low, high) = if i < j {
        (i, j)
    } else {
        (j, i)
    };
    let (left, right) = v.as_mut_slice().split_at_mut(high);
    core::mem::swap(&mut left[low], &mut right[0]);
    proof {
        assert(v@ =~= exchanged(old(v)@, i as int, j as int));
    }
}

/// A sequence is its three spans joined, and holds the items of the three.
pub proof fn lemma_three_spans<T>(s: Seq<T>, lo: int, hi: int)
    requires
        0 <= lo <= hi <= s.len(),
    ensures
        s == span(s, 0, lo) + span(s, lo, hi) + span(s, hi, size(s)),
        s.to_multiset() == span(s, 0, lo).to_multiset().add(span(s, lo, hi).to_multiset()).add(
            span(s, hi, size(s)).to_multiset(),
        ),
{
    let a = span(s, 0, lo);
    let b = span(s, lo, hi);
    let c = span(s, hi, size(s));
    assert(s =~= a + b + c);
    lemma_multiset_commutative(a, b);
    lemma_multiset_commutative(a + b, c);
}

/// Three sequences joined hold the same items when the one in the
/// middle is replaced by one that holds the same items as it.
pub proof fn lemma_middle_replaced<T>(a: Seq<T>, b0: Seq<T>, b1: Seq<T>, c: Seq<T>)
    requires
        b0.to_multiset() == b1.to_multiset(),
    ensures
        (a + b1 + c).to_multiset() == (a + b0 + c).to_multiset(),
        (a + b1).to_multiset() == (a + b0).to_multiset(),
        b0.len() == b1.len(),
        span(a + b1 + c, 0, size(a)) == a,
        span(a + b1 + c, size(a), size(a) + size(b1)) == b1,
        span(a + b1 + c, size(a) + size(b1), size(a + b1 + c)) == c,
{
    lemma_multiset_commutative(a, b0);
    lemma_multiset_commutative(a + b0, c);
    lemma_multiset_commutative(a, b1);
    lemma_multiset_commutative(a + b1, c);
    b0.to_multiset_ensures();
    b1.to_multiset_ensures();
    assert(span(a + b1 + c, 0, size(a)) =~= a);
    assert(span(a + b1 + c, size(a), size(a) + size(b1)) =~= b1);
    assert(span(a + b1 + c, size(a) + size(b1), size(a + b1 + c)) =~= c);
}

/// Moves the items of `from` to a new array, the last first.
pub fn reversed_into<T>(from: &mut Vec<T>) -> (to: Vec<T>)
    ensures
        to@ == old(from)@.reverse(),
        final(from)@.len() == 0,
{
    let mut to: Vec<T> = Vec::new();
    let ghost all = from@;
    while from.len() > 0
        invariant
            from@ == all.take(size(all) - size(to@)),
            to@.len() <= all.len(),
            forall|k: int| 0 <= k < to@.len() ==> to@[k] == all[size(all) - 1 - k],
        decreases from@.len(),
    {
        let x = from.pop().unwrap();
        to.push(x);
        proof {
            assert(from@ =~= all.take(size(all) - size(to@)));
        }
    }
    proof {
        assert(to@ =~= all.reverse());
    }
    to
}

/// Two sequences that hold the same items up to place `mid` and the
/// same items from there up to place `hi` hold the same items up to place `hi`.
pub proof fn lemma_spans_joined<T>(a: Seq<T>, b: Seq<T>, mid: int, hi: int)
    requires
        0 <= mid <= hi <= a.len(),
        hi <= b.len(),
        span(a, 0, mid).to_multiset() == span(b, 0, mid).to_multiset(),
        span(a, mid, hi).to_multiset() == span(b, mid, hi).to_multiset(),
    ensures
        span(a, 0, hi).to_multiset() == span(b, 0, hi).to_multiset(),
{
    assert(span(a, 0, hi) =~= span(a, 0, mid) + span(a, mid, hi));
    assert(span(b, 0, hi) =~= span(b, 0, mid) + span(b, mid, hi));
    lemma_multiset_commutative(span(a, 0, mid), span(a, mid, hi));
    lemma_multiset_commutative(span(b, 0, mid), span(b, mid, hi));
}

/// A span that is the same in two sequences is the same in every part of it.
pub proof fn lemma_span_of_span<T>(a: Seq<T>, b: Seq<T>, lo: int, hi: int, from: int, to: int)
    requires
        0 <= lo <= from <= to <= hi <= a.len(),
        hi <= b.len(),
        span(a, lo, hi) == span(b, lo, hi),
    ensures
        span(a, from, to) == span(b, from, to),
{
    assert forall|k: int| from <= k < to implies a[k] == b[k] by {
        assert(span(a, lo, hi)[k - lo] == a[k]);
        assert(span(b, lo, hi)[k - lo] == b[k]);
    }
    assert(span(a, from, to) =~= span(b, from, to));
}

} // verus!
