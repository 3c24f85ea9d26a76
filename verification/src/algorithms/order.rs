//! The total order of a type, and sequences of keys in rising order.

use core::cmp::Ordering;
use vstd::laws_cmp::{
    obeys_cmp, obeys_cmp_ord, obeys_cmp_partial_ord, obeys_partial_cmp_spec_properties,
};
use vstd::laws_eq::obeys_eq_spec_properties;
use vstd::prelude::*;
use vstd::std_specs::cmp::{OrdSpec, PartialEqSpec, PartialOrdSpec};

verus! {

/// The comparisons of `T` are what their specifications say, and those
/// obey the laws of a total order.
pub open spec fn total_order<T: Ord>() -> bool {
    obeys_cmp::<T>()
}

/// `a` comes before `b`.
pub open spec fn lt<T: Ord>(a: T, b: T) -> bool {
    a.cmp_spec(&b) == Ordering::Less
}

/// `a` and `b` take the same place in the order.
pub open spec fn same<T: Ord>(a: T, b: T) -> bool {
    a.cmp_spec(&b) == Ordering::Equal
}

/// `a` does not come after `b`.
pub open spec fn le<T: Ord>(a: T, b: T) -> bool {
    !lt(b, a)
}

/// Of two values one comes before the other, or they take the same
/// place, and only one of the three holds.
pub proof fn lemma_trichotomy<T: Ord>(a: T, b: T)
    requires
        total_order::<T>(),
    ensures
        lt(a, b) || same(a, b) || lt(b, a),
        !(lt(a, b) && lt(b, a)),
        !(lt(a, b) && same(a, b)),
        same(a, b) <==> same(b, a),
        le(a, b) <==> lt(a, b) || same(a, b),
        same(a, a),
{
    reveal(obeys_cmp_ord);
    reveal(obeys_cmp_partial_ord);
    reveal(obeys_partial_cmp_spec_properties);
    reveal(obeys_eq_spec_properties);
    assert(a.partial_cmp_spec(&b) == Some(a.cmp_spec(&b)));
    assert(b.partial_cmp_spec(&a) == Some(b.cmp_spec(&a)));
    assert(a.partial_cmp_spec(&a) == Some(a.cmp_spec(&a)));
    assert(a.partial_cmp_spec(&b) == Some(Ordering::Less) <==> b.partial_cmp_spec(&a) == Some(
        Ordering::Greater,
    ));
    assert(b.partial_cmp_spec(&a) == Some(Ordering::Less) <==> a.partial_cmp_spec(&b) == Some(
        Ordering::Greater,
    ));
    assert(a.partial_cmp_spec(&b) == Some(Ordering::Equal) <==> a.eq_spec(&b));
    assert(b.partial_cmp_spec(&a) == Some(Ordering::Equal) <==> b.eq_spec(&a));
    assert(a.eq_spec(&b) <==> b.eq_spec(&a));
    assert(a.partial_cmp_spec(&a) == Some(Ordering::Less) <==> a.partial_cmp_spec(&a) == Some(
        Ordering::Greater,
    ));
}

/// Coming before is transitive, also through values that take the same place.
pub proof fn lemma_order_transitive<T: Ord>(a: T, b: T, c: T)
    requires
        total_order::<T>(),
    ensures
        lt(a, b) && lt(b, c) ==> lt(a, c),
        same(a, b) && same(b, c) ==> same(a, c),
        same(a, b) && lt(b, c) ==> lt(a, c),
        lt(a, b) && same(b, c) ==> lt(a, c),
        le(a, b) && le(b, c) ==> le(a, c),
        lt(a, b) && le(b, c) ==> lt(a, c),
        le(a, b) && lt(b, c) ==> lt(a, c),
{
    lemma_trichotomy(a, b);
    lemma_trichotomy(b, c);
    lemma_trichotomy(a, c);
    lemma_trichotomy(c, a);
    lemma_trichotomy(b, a);
    lemma_trichotomy(c, b);
    reveal(obeys_cmp_ord);
    reveal(obeys_cmp_partial_ord);
    reveal(obeys_partial_cmp_spec_properties);
    reveal(obeys_eq_spec_properties);
    assert(a.partial_cmp_spec(&b) == Some(a.cmp_spec(&b)));
    assert(b.partial_cmp_spec(&c) == Some(b.cmp_spec(&c)));
    assert(a.partial_cmp_spec(&c) == Some(a.cmp_spec(&c)));
    assert(c.partial_cmp_spec(&a) == Some(c.cmp_spec(&a)));
    assert(b.partial_cmp_spec(&a) == Some(b.cmp_spec(&a)));
    assert(c.partial_cmp_spec(&b) == Some(c.cmp_spec(&b)));
    assert(a.partial_cmp_spec(&b) == Some(Ordering::Equal) <==> a.eq_spec(&b));
    assert(b.partial_cmp_spec(&c) == Some(Ordering::Equal) <==> b.eq_spec(&c));
    assert(a.partial_cmp_spec(&c) == Some(Ordering::Equal) <==> a.eq_spec(&c));
    assert(c.partial_cmp_spec(&a) == Some(Ordering::Equal) <==> c.eq_spec(&a));
    assert(b.partial_cmp_spec(&a) == Some(Ordering::Equal) <==> b.eq_spec(&a));
    assert(c.partial_cmp_spec(&b) == Some(Ordering::Equal) <==> c.eq_spec(&b));
    if lt(a, b) && lt(b, c) {
        assert(a.partial_cmp_spec(&b) == Some(Ordering::Less) && b.partial_cmp_spec(&c) == Some(
            Ordering::Less,
        ));
        assert(a.partial_cmp_spec(&c) == Some(Ordering::Less));
    }
    if same(a, b) && same(b, c) {
        assert(a.eq_spec(&b) && b.eq_spec(&c));
        assert(a.eq_spec(&c));
    }
    if same(a, b) && lt(b, c) {
        if lt(c, a) {
            assert(b.partial_cmp_spec(&c) == Some(Ordering::Less) && c.partial_cmp_spec(&a) == Some(
                Ordering::Less,
            ));
            assert(b.partial_cmp_spec(&a) == Some(Ordering::Less));
        }
        if same(a, c) {
            assert(b.eq_spec(&a) && a.eq_spec(&c));
            assert(b.eq_spec(&c));
        }
    }
    if lt(a, b) && same(b, c) {
        if lt(c, a) {
            assert(c.partial_cmp_spec(&a) == Some(Ordering::Less) && a.partial_cmp_spec(&b) == Some(
                Ordering::Less,
            ));
            assert(c.partial_cmp_spec(&b) == Some(Ordering::Less));
        }
        if same(a, c) {
            assert(a.eq_spec(&c) && c.eq_spec(&b));
            assert(a.eq_spec(&b));
        }
    }
}

/// Whether `a` comes before `b`.
pub fn less<T: Ord>(a: &T, b: &T) -> (r: bool)
    requires
        total_order::<T>(),
    ensures
        r == lt(*a, *b),
{
    proof {
        reveal(obeys_cmp_ord);
        reveal(obeys_cmp_partial_ord);
        assert(a.partial_cmp_spec(b) == Some(a.cmp_spec(b)));
    }
    *a < *b
}

/// Where one value stands with respect to another.
pub enum Place {
    Before,
    Same,
    After,
}

/// Where `a` stands with respect to `b`.
pub fn place<T: Ord>(a: &T, b: &T) -> (p: Place)
    requires
        total_order::<T>(),
    ensures
        p is Before <==> lt(*a, *b),
        p is Same <==> same(*a, *b),
        p is After <==> lt(*b, *a),
{
    proof {
        reveal(obeys_cmp_ord);
        reveal(obeys_cmp_partial_ord);
        lemma_trichotomy(*a, *b);
        lemma_trichotomy(*b, *a);
    }
    match a.cmp(b) {
        Ordering::Less => Place::Before,
        Ordering::Equal => Place::Same,
        Ordering::Greater => Place::After,
    }
}

/// The keys of `s` stand in rising order.
pub open spec fn sorted_keys<K: Ord, V>(s: Seq<(K, V)>) -> bool {
    forall|i: int, j: int| 0 <= i < j < s.len() ==> lt(#[trigger] s[i].0, #[trigger] s[j].0)
}

/// Every key of `s` comes before `k`.
pub open spec fn keys_below<K: Ord, V>(s: Seq<(K, V)>, k: K) -> bool {
    forall|i: int| 0 <= i < s.len() ==> lt(#[trigger] s[i].0, k)
}

/// Every key of `s` comes after `k`.
pub open spec fn keys_above<K: Ord, V>(s: Seq<(K, V)>, k: K) -> bool {
    forall|i: int| 0 <= i < s.len() ==> lt(k, #[trigger] s[i].0)
}

/// Some key of `s` takes the place of `k`.
pub open spec fn has_key<K: Ord, V>(s: Seq<(K, V)>, k: K) -> bool {
    exists|i: int| 0 <= i < s.len() && same(#[trigger] s[i].0, k)
}

/// The parts of a sorted sequence split at one of its entries.
pub proof fn lemma_sorted_split<K: Ord, V>(a: Seq<(K, V)>, m: (K, V), b: Seq<(K, V)>)
    requires
        sorted_keys(a + seq![m] + b),
    ensures
        sorted_keys(a),
        sorted_keys(b),
        keys_below(a, m.0),
        keys_above(b, m.0),
{
    let s = a + seq![m] + b;
    assert forall|i: int, j: int| 0 <= i < j < a.len() implies lt(
        #[trigger] a[i].0,
        #[trigger] a[j].0,
    ) by {
        assert(s[i] == a[i] && s[j] == a[j]);
    }
    assert forall|i: int, j: int| 0 <= i < j < b.len() implies lt(
        #[trigger] b[i].0,
        #[trigger] b[j].0,
    ) by {
        assert(s[a.len() + 1 + i] == b[i] && s[a.len() + 1 + j] == b[j]);
    }
    assert forall|i: int| 0 <= i < a.len() implies lt(#[trigger] a[i].0, m.0) by {
        assert(s[i] == a[i] && s[a.len() as int] == m);
    }
    assert forall|i: int| 0 <= i < b.len() implies lt(m.0, #[trigger] b[i].0) by {
        assert(s[a.len() + 1 + i] == b[i] && s[a.len() as int] == m);
    }
}

/// Two sorted sequences around an entry that lies between them make a
/// sorted sequence.
pub proof fn lemma_sorted_join<K: Ord, V>(a: Seq<(K, V)>, m: (K, V), b: Seq<(K, V)>)
    requires
        total_order::<K>(),
        sorted_keys(a),
        sorted_keys(b),
        keys_below(a, m.0),
        keys_above(b, m.0),
    ensures
        sorted_keys(a + seq![m] + b),
{
    let s = a + seq![m] + b;
    assert forall|i: int, j: int| 0 <= i < j < s.len() implies lt(
        #[trigger] s[i].0,
        #[trigger] s[j].0,
    ) by {
        let n = a.len() as int;
        if j < n {
            assert(s[i] == a[i] && s[j] == a[j]);
        } else if j == n {
            assert(s[i] == a[i]);
        } else if i < n {
            assert(s[i] == a[i] && s[j] == b[j - n - 1]);
            lemma_order_transitive(a[i].0, m.0, b[j - n - 1].0);
        } else if i == n {
            assert(s[j] == b[j - n - 1]);
        } else {
            assert(s[i] == b[i - n - 1] && s[j] == b[j - n - 1]);
        }
    }
}

/// A key that lies on one side of `m` is not among the keys on the
/// other side of it.
pub proof fn lemma_other_side<K: Ord, V>(s: Seq<(K, V)>, m: K, k: K, below: bool)
    requires
        total_order::<K>(),
        below ==> keys_below(s, m) && lt(m, k),
        !below ==> keys_above(s, m) && lt(k, m),
    ensures
        !has_key(s, k),
{
    assert forall|i: int| 0 <= i < s.len() implies !same(#[trigger] s[i].0, k) by {
        let x = s[i].0;
        lemma_trichotomy(x, k);
        lemma_trichotomy(k, x);
        lemma_trichotomy(x, m);
        lemma_trichotomy(m, x);
        lemma_order_transitive(x, m, k);
        lemma_order_transitive(k, m, x);
    }
}

/// A key of the part on the left is a key of the whole.
pub proof fn lemma_has_key_left<K: Ord, V>(l: Seq<(K, V)>, m: (K, V), r: Seq<(K, V)>, k: K)
    requires
        has_key(l, k),
    ensures
        has_key(l + seq![m] + r, k),
{
    let i = choose|i: int| 0 <= i < l.len() && same(#[trigger] l[i].0, k);
    assert((l + seq![m] + r)[i] == l[i]);
}

/// A key of the part on the right is a key of the whole.
pub proof fn lemma_has_key_right<K: Ord, V>(l: Seq<(K, V)>, m: (K, V), r: Seq<(K, V)>, k: K)
    requires
        has_key(r, k),
    ensures
        has_key(l + seq![m] + r, k),
{
    let i = choose|i: int| 0 <= i < r.len() && same(#[trigger] r[i].0, k);
    assert((l + seq![m] + r)[l.len() + 1 + i] == r[i]);
}

/// A key that is in neither part and not between them is not in the whole.
pub proof fn lemma_no_key<K: Ord, V>(l: Seq<(K, V)>, m: (K, V), r: Seq<(K, V)>, k: K)
    requires
        !has_key(l, k),
        !has_key(r, k),
        !same(m.0, k),
    ensures
        !has_key(l + seq![m] + r, k),
{
    let all = l + seq![m] + r;
    assert forall|i: int| 0 <= i < all.len() implies !same(#[trigger] all[i].0, k) by {
        if i < l.len() {
            assert(all[i] == l[i]);
        } else if i > l.len() {
            assert(all[i] == r[i - l.len() - 1]);
        }
    }
}

/// What an insertion does to a sorted sequence that holds some key at
/// the place of `k` (nothing) or none (it adds the entry somewhere).
pub open spec fn inserted<K: Ord, V>(s0: Seq<(K, V)>, s1: Seq<(K, V)>, k: K, v: V) -> bool {
    &&& has_key(s0, k) ==> s1 == s0
    &&& !has_key(s0, k)
        ==> exists|p: int| 0 <= p <= s0.len() && s1 == #[trigger] s0.insert(p, (k, v))
}

/// An insertion below `m` into the part on the left is an insertion into the whole.
pub proof fn lemma_insert_left<K: Ord, V>(
    l0: Seq<(K, V)>,
    l1: Seq<(K, V)>,
    m: (K, V),
    r: Seq<(K, V)>,
    k: K,
    v: V,
)
    requires
        total_order::<K>(),
        sorted_keys(l0 + seq![m] + r),
        lt(k, m.0),
        sorted_keys(l1),
        inserted(l0, l1, k, v),
    ensures
        sorted_keys(l1 + seq![m] + r),
        inserted(l0 + seq![m] + r, l1 + seq![m] + r, k, v),
        l1.len() <= l0.len() + 1,
{
    lemma_sorted_split(l0, m, r);
    lemma_other_side(r, m.0, k, false);
    lemma_trichotomy(m.0, k);
    if has_key(l0, k) {
        lemma_has_key_left(l0, m, r, k);
    } else {
        lemma_no_key(l0, m, r, k);
        let p = choose|p: int| 0 <= p <= l0.len() && l1 == #[trigger] l0.insert(p, (k, v));
        assert(l1 + seq![m] + r =~= (l0 + seq![m] + r).insert(p, (k, v)));
        assert forall|i: int| 0 <= i < l1.len() implies lt(#[trigger] l1[i].0, m.0) by {
            if i < p {
                assert(l1[i] == l0[i]);
            } else if i > p {
                assert(l1[i] == l0[i - 1]);
            }
        }
        lemma_sorted_join(l1, m, r);
    }
}

/// An insertion above `m` into the part on the right is an insertion into the whole.
pub proof fn lemma_insert_right<K: Ord, V>(
    l: Seq<(K, V)>,
    m: (K, V),
    r0: Seq<(K, V)>,
    r1: Seq<(K, V)>,
    k: K,
    v: V,
)
    requires
        total_order::<K>(),
        sorted_keys(l + seq![m] + r0),
        lt(m.0, k),
        sorted_keys(r1),
        inserted(r0, r1, k, v),
    ensures
        sorted_keys(l + seq![m] + r1),
        inserted(l + seq![m] + r0, l + seq![m] + r1, k, v),
        r1.len() <= r0.len() + 1,
{
    lemma_sorted_split(l, m, r0);
    lemma_other_side(l, m.0, k, true);
    lemma_trichotomy(m.0, k);
    lemma_trichotomy(k, m.0);
    if has_key(r0, k) {
        lemma_has_key_right(l, m, r0, k);
    } else {
        lemma_no_key(l, m, r0, k);
        let p = choose|p: int| 0 <= p <= r0.len() && r1 == #[trigger] r0.insert(p, (k, v));
        assert(l + seq![m] + r1 =~= (l + seq![m] + r0).insert(l.len() + 1 + p, (k, v)));
        assert forall|i: int| 0 <= i < r1.len() implies lt(m.0, #[trigger] r1[i].0) by {
            if i < p {
                assert(r1[i] == r0[i]);
            } else if i > p {
                assert(r1[i] == r0[i - 1]);
            }
        }
        lemma_sorted_join(l, m, r1);
    }
}

/// A sequence that holds a key at the place of that of its entry `m`
/// holds `m` itself there.
pub proof fn lemma_insert_same<K: Ord, V>(l: Seq<(K, V)>, m: (K, V), r: Seq<(K, V)>, k: K, v: V)
    requires
        total_order::<K>(),
        same(k, m.0),
    ensures
        inserted(l + seq![m] + r, l + seq![m] + r, k, v),
{
    lemma_trichotomy(m.0, k);
    assert((l + seq![m] + r)[l.len() as int] == m);
}

} // verus!
