//! A hash table with separate chaining.

use crate::algorithms::linked_list_queue::LinkedQueue;
use std::collections::hash_map::DefaultHasher;
use std::hash::{Hash, Hasher};
use vstd::prelude::*;
use vstd::std_specs::{cmp::PartialEqSpec, hash::DefaultHasherAdditionalSpecFns};

verus! {

/// A table from keys to values, kept as a fixed number of chains: a key
/// lives in the chain that its hash selects.
pub struct HashTable<K, V> {
    num_chains: usize,
    chains: Vec<LinkedQueue<(Box<K>, Box<V>)>>,
}

/// The keys and values of a chain, without their boxes.
pub open spec fn unboxed<K, V>(chain: Seq<(Box<K>, Box<V>)>) -> Seq<(K, V)> {
    Seq::new(chain.len(), |j: int| (*chain[j].0, *chain[j].1))
}

/// The first place in `chain` whose key equals `key`, or the length of
/// the chain if there is none.
pub open spec fn first_match<K: PartialEq, V>(chain: Seq<(K, V)>, key: K) -> int
    decreases chain.len(),
{
    if chain.len() == 0 {
        0
    } else if key.eq_spec(&chain[0].0) {
        0
    } else {
        1 + first_match(chain.skip(1), key)
    }
}

/// The value that `chain` holds for `key`: that of the first entry whose
/// key equals it.
pub open spec fn chain_get<K: PartialEq, V>(chain: Seq<(K, V)>, key: K) -> Option<V> {
    let at = first_match(chain, key);
    if at < chain.len() {
        Some(chain[at].1)
    } else {
        None
    }
}

/// The chain after `val` has been put under `key`: in place of the value
/// of the first entry whose key equals it, or with the key in a new
/// entry at the back.
pub open spec fn chain_put<K: PartialEq, V>(chain: Seq<(K, V)>, key: K, val: V) -> Seq<(K, V)> {
    let at = first_match(chain, key);
    if at < chain.len() {
        chain.update(at, (chain[at].0, val))
    } else {
        chain.push((key, val))
    }
}

/// The first place of an equal key lies in the chain or at its end,
/// holds an equal key if it lies in the chain, and comes after no equal key.
pub proof fn lemma_first_match<K: PartialEq, V>(chain: Seq<(K, V)>, key: K)
    ensures
        0 <= first_match(chain, key) <= chain.len(),
        first_match(chain, key) < chain.len() ==> key.eq_spec(&chain[first_match(chain, key)].0),
        forall|j: int| 0 <= j < first_match(chain, key) ==> !key.eq_spec(&(#[trigger] chain[j]).0),
    decreases chain.len(),
{
    if chain.len() > 0 && !key.eq_spec(&chain[0].0) {
        let rest = chain.skip(1);
        lemma_first_match(rest, key);
        assert forall|j: int| 0 <= j < first_match(chain, key) implies !key.eq_spec(
            &(#[trigger] chain[j]).0,
        ) by {
            if j > 0 {
                assert(chain[j] == rest[j - 1]);
            }
        }
    }
}

/// The first place is the one that holds an equal key after none that does.
pub proof fn lemma_first_match_is<K: PartialEq, V>(chain: Seq<(K, V)>, key: K, at: int)
    requires
        0 <= at <= chain.len(),
        forall|j: int| 0 <= j < at ==> !key.eq_spec(&(#[trigger] chain[j]).0),
        at < chain.len() ==> key.eq_spec(&chain[at].0),
    ensures
        first_match(chain, key) == at,
{
    lemma_first_match(chain, key);
    let found = first_match(chain, key);
    if found < at {
        assert(!key.eq_spec(&chain[found].0));
    } else if found > at {
        assert(!key.eq_spec(&chain[at].0));
    }
}

impl<K, V> View for HashTable<K, V> {
    type V = Seq<Seq<(K, V)>>;

    /// The chains, each with its keys and values from the oldest entry on.
    closed spec fn view(&self) -> Seq<Seq<(K, V)>> {
        Seq::new(self.chains@.len(), |i: int| unboxed(self.chains@[i]@))
    }
}

/// Lets `key` write itself into the hasher.
///
/// Calls `Hash::hash` of the key's type, of which nothing is known here.
#[verifier::external_body]
fn feed<K: Hash>(key: &K, state: &mut DefaultHasher) {
    key.hash(state);
}

impl<K, V> HashTable<K, V> where K: Hash + Eq {
    /// The table has as many chains as it was made with, and at least one.
    pub closed spec fn wf(&self) -> bool {
        self.num_chains == self.chains@.len() && self.num_chains > 0
    }

    /// An empty table of 10000 chains.
    pub fn new() -> (t: Self)
        ensures
            t.wf(),
            t@ == Seq::new(10000, |i: int| Seq::<(K, V)>::empty()),
    {
        let num_chains: usize = 10000;
        let mut chains: Vec<LinkedQueue<(Box<K>, Box<V>)>> = Vec::with_capacity(num_chains);
        let mut i: usize = 0;
        while i < num_chains
            invariant
                i <= num_chains,
                chains@.len() == i,
                forall|j: int| 0 <= j < i ==> chains@[j]@ == Seq::<(Box<K>, Box<V>)>::empty(),
            decreases num_chains - i,
        {
            chains.insert(i, LinkedQueue::new());
            i += 1;
        }
        let t = HashTable { num_chains, chains };
        proof {
            assert forall|i: int| 0 <= i < 10000 implies t@[i] == Seq::<(K, V)>::empty() by {
                assert(unboxed(t.chains@[i]@) =~= Seq::<(K, V)>::empty());
            }
            assert(t@ =~= Seq::new(10000, |i: int| Seq::<(K, V)>::empty()));
        }
        t
    }

    /// The value under `key` in the chain that the hash of `key` selects.
    pub fn get<'a>(&'a self, key: K) -> (r: Option<&'a V>)
        requires
            self.wf(),
            K::obeys_eq_spec(),
        ensures
            exists|i: int|
                0 <= i < self@.len() && match #[trigger] chain_get(self@[i], key) {
                    Some(v) => r == Some(&v),
                    None => r is None,
                },
    {
        let i = self.hash(&key);
        self.get_in(i, key)
    }

    /// The value under `key` in chain `i`.
    pub fn get_in<'a>(&'a self, i: usize, key: K) -> (r: Option<&'a V>)
        requires
            i < self@.len(),
            K::obeys_eq_spec(),
        ensures
            match chain_get(self@[i as int], key) {
                Some(v) => r == Some(&v),
                None => r is None,
            },
    {
        let q = &self.chains[i];
        let ghost chain = unboxed(q@);
        let mut it = q.iter();
        let ghost mut at: int = 0;
        loop
            invariant
                K::obeys_eq_spec(),
                chain == unboxed(q@),
                chain == self@[i as int],
                0 <= at <= q@.len(),
                it@ == q@.skip(at),
                forall|j: int| 0 <= j < at ==> !key.eq_spec(&(#[trigger] chain[j]).0),
            decreases it@.len(),
        {
            match it.next() {
                None => {
                    proof {
                        lemma_first_match_is(chain, key, at);
                    }
                    return None;
                },
                Some(entry) => {
                    proof {
                        assert(*entry == q@[at]);
                        assert(q@.skip(at).skip(1) =~= q@.skip(at + 1));
                        assert(chain[at] == (*entry.0, *entry.1));
                    }
                    if key == *entry.0 {
                        proof {
                            lemma_first_match_is(chain, key, at);
                        }
                        return Some(&*entry.1);
                    }
                    proof {
                        at = at + 1;
                    }
                },
            }
        }
    }

    /// Puts `new_val` under `key` in the chain that the hash of `key` selects.
    pub fn put(&mut self, key: K, new_val: V)
        requires
            old(self).wf(),
            K::obeys_eq_spec(),
        ensures
            final(self).wf(),
            exists|i: int|
                0 <= i < old(self)@.len() && final(self)@ == old(self)@.update(
                    i,
                    #[trigger] chain_put(old(self)@[i], key, new_val),
                ),
    {
        let i = self.hash(&key);
        self.put_in(i, key, new_val);
    }

    /// Puts `new_val` under `key` in chain `i`.
    pub fn put_in(&mut self, i: usize, key: K, new_val: V)
        requires
            i < old(self)@.len(),
            K::obeys_eq_spec(),
        ensures
            final(self).wf() == old(self).wf(),
            final(self)@ == old(self)@.update(
                i as int,
                chain_put(old(self)@[i as int], key, new_val),
            ),
    {
        let mut rest: LinkedQueue<(Box<K>, Box<V>)> = LinkedQueue::new();
        core::mem::swap(&mut self.chains[i], &mut rest);
        let ghost chain0 = unboxed(rest@);
        let ghost mut at: int = 0;
        let mut pending: Option<V> = Some(new_val);
        loop
            invariant
                K::obeys_eq_spec(),
                i < self.chains@.len(),
                self.num_chains == old(self).num_chains,
                self.chains@.len() == old(self).chains@.len(),
                forall|j: int|
                    0 <= j < self.chains@.len() && j != i ==> self.chains@[j] == old(
                        self,
                    ).chains@[j],
                chain0 == unboxed(old(self).chains@[i as int]@),
                0 <= at <= chain0.len(),
                unboxed(rest@) == chain0.skip(at),
                pending is Some ==> pending == Some(new_val) && unboxed(self.chains@[i as int]@)
                    == chain0.take(at) && forall|j: int|
                    0 <= j < at ==> !key.eq_spec(&(#[trigger] chain0[j]).0),
                pending is None ==> first_match(chain0, key) < at && unboxed(
                    self.chains@[i as int]@,
                ) == chain_put(chain0, key, new_val).take(at),
            ensures
                at == chain0.len(),
            decreases rest@.len(),
        {
            let ghost done = unboxed(self.chains@[i as int]@);
            let ghost left = rest@;
            match rest.dequeue() {
                None => {
                    proof {
                        assert(unboxed(left).len() == 0);
                    }
                    break ;
                },
                Some(entry) => {
                    let (k, v) = entry;
                    proof {
                        assert(unboxed(left).len() == left.len());
                        assert(chain0.skip(at).len() == chain0.len() - at);
                        assert(at < chain0.len());
                        assert(unboxed(left)[0] == (*k, *v));
                        assert(chain0.skip(at)[0] == chain0[at]);
                        assert forall|j: int| 0 <= j < rest@.len() implies unboxed(rest@)[j]
                            == chain0.skip(at + 1)[j] by {
                            assert(unboxed(left)[j + 1] == chain0.skip(at)[j + 1]);
                        }
                        assert(unboxed(rest@) =~= chain0.skip(at + 1));
                    }
                    let hit = pending.is_some() && key == *k;
                    if hit {
                        let val = pending.take().unwrap();
                        self.chains[i].enqueue((k, Box::new(val)));
                        proof {
                            lemma_first_match_is(chain0, key, at);
                            let now = unboxed(self.chains@[i as int]@);
                            let target = chain_put(chain0, key, new_val);
                            assert(now =~= done.push((*k, new_val)));
                            assert(target == chain0.update(at, (chain0[at].0, new_val)));
                            assert(target.take(at + 1) =~= done.push((*k, new_val)));
                        }
                    } else {
                        self.chains[i].enqueue((k, v));
                        proof {
                            if pending is Some {
                                assert(unboxed(self.chains@[i as int]@) =~= chain0.take(at + 1));
                            } else {
                                let now = unboxed(self.chains@[i as int]@);
                                let target = chain_put(chain0, key, new_val);
                                lemma_first_match(chain0, key);
                                assert(now =~= done.push((*k, *v)));
                                assert(target[at] == chain0[at]);
                                assert(target.take(at + 1) =~= target.take(at).push(target[at]));
                            }
                        }
                    }
                    proof {
                        at = at + 1;
                    }
                },
            }
        }
        match pending {
            Some(val) => {
                proof {
                    lemma_first_match_is(chain0, key, at);
                    assert(chain0.take(at) =~= chain0);
                }
                self.chains[i].enqueue((Box::new(key), Box::new(val)));
                proof {
                    assert(unboxed(self.chains@[i as int]@) =~= chain_put(chain0, key, new_val));
                }
            },
            None => {
                proof {
                    lemma_first_match(chain0, key);
                    assert(chain_put(chain0, key, new_val).take(at) =~= chain_put(
                        chain0,
                        key,
                        new_val,
                    ));
                }
            },
        }
        proof {
            assert(self@ =~= old(self)@.update(
                i as int,
                chain_put(old(self)@[i as int], key, new_val),
            ));
        }
    }

    /// The number of the chain for `key`: the key is fed into a new
    /// hasher, and the hash that the hasher then gives selects the chain.
    /// What the key feeds into the hasher is not known here, so the
    /// chain is that of the hash of whatever the hasher holds afterwards.
    fn hash(&self, key: &K) -> (i: usize)
        requires
            self.wf(),
        ensures
            i < self@.len(),
            exists|fed: Seq<Seq<u8>>|
                i == chain_of(#[trigger] DefaultHasher::spec_finish(fed), self@.len()),
    {
        let mut s = DefaultHasher::new();
        feed(key, &mut s);
        let finished = s.finish();
        proof {
            assert(finished == DefaultHasher::spec_finish(s@));
        }
        self.chain_for(finished)
    }

    /// The number of the chain that the hash `finished` selects: the
    /// remainder of the hash by the number of chains.
    pub fn chain_for(&self, finished: u64) -> (i: usize)
        requires
            self.wf(),
        ensures
            i == chain_of(finished, self@.len()),
            i < self@.len(),
    {
        (finished % (self.num_chains as u64)) as usize
    }
}

/// The number of the chain that the hash `finished` selects among
/// `chains` chains.
pub open spec fn chain_of(finished: u64, chains: nat) -> int {
    finished as int % chains as int
}

} // verus!
