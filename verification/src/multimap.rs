//! A map from keys to sets of values.

use std::collections::{BTreeMap, BTreeSet};
use vstd::prelude::*;
use vstd::laws_cmp::obeys_cmp;
use vstd::std_specs::btree::increasing_seq;
use vstd::std_specs::iter::IteratorSpec;
use vstd::std_specs::cmp::OrdSpec;

verus! {

broadcast use vstd::std_specs::btree::group_btree_axioms;

/// The values of `T` are totally ordered by `Ord`, as ordered collections assume.
pub open spec fn totally_ordered<T: Ord>() -> bool {
    obeys_cmp::<T>()
}

proof fn lemma_unref_increasing<V: Ord>(s: Seq<&V>)
    requires
        totally_ordered::<V>(),
        increasing_seq(s),
    ensures
        increasing_seq(s.unref()),
{
    broadcast use vstd::laws_cmp::lemma_ref_obeys_cmp_spec;

    assert(obeys_cmp::<&V>());
    vstd::std_specs::btree::axiom_increasing_seq_meaning(s);
    let u = s.unref();
    vstd::std_specs::btree::axiom_increasing_seq_meaning(u);
    assert forall|i: int, j: int| 0 <= i < j < u.len() implies u[i].cmp_spec(&u[j]) is Less by {
        assert(OrdSpec::cmp_spec(&s[i], &s[j]) is Less);
    }
}

/// A map whose keys are totally ordered iterates in key order.
proof fn lemma_keys_ordered<K: Ord>()
    requires
        totally_ordered::<K>(),
    ensures
        vstd::std_specs::btree::key_obeys_cmp_spec::<K>(),
{
    broadcast use vstd::std_specs::btree::axiom_key_obeys_cmp_spec_meaning;
}

/// `a` is ordered strictly before `b`.
pub open spec fn precedes<T: Ord>(a: T, b: T) -> bool {
    a.cmp_spec(&b) is Less
}

/// `a` comes before `b` when their keys, then their values, are compared.
pub open spec fn pair_less<K: Ord, V: Ord>(a: (K, V), b: (K, V)) -> bool {
    precedes(a.0, b.0) || (a.0 == b.0 && precedes(a.1, b.1))
}

fn set_to_vec<V: Ord + Copy>(set: &BTreeSet<V>) -> (r: Vec<V>)
    requires
        totally_ordered::<V>(),
    ensures
        r@.to_set() == set@,
        r@.no_duplicates(),
        increasing_seq(r@),
{
    let mut r: Vec<V> = Vec::new();
    let ghost s0 = vstd::std_specs::btree::spec_btree_keys_iter(set).remaining();
    for v in it: set.iter()
        invariant
            it.seq() == s0,
            r@.len() == it.index(),
            forall|i: int| 0 <= i < r@.len() ==> r@[i] == *s0[i],
    {
        r.push(*v);
    }
    assert(r@.len() == s0.len());
    assert(s0.unref().take(s0.len() as int) =~= s0.unref());
    assert(r@ =~= s0.unref());
    proof {
        lemma_unref_increasing(s0);
    }
    proof {
        assert forall|i: int, j: int| 0 <= i < j < r@.len() implies r@[i] != r@[j] by {
            assert(s0[i] != s0[j]);
        }
    }
    r
}


/// A map from keys to sets of values. Each key is associated with a (possibly empty) set of
/// values.
#[derive(Clone, Debug)]
pub struct MMap<K: Ord, V: Ord> {
    map: BTreeMap<K, BTreeSet<V>>,
}

impl<K: Ord + Copy, V: Ord + Copy> MMap<K, V> {
    /// The set of values associated with `k`.
    pub closed spec fn values(&self, k: K) -> Set<V> {
        if self.map@.contains_key(k) {
            self.map@[k]@
        } else {
            Set::empty()
        }
    }

    /// The keys and values are totally ordered.
    pub open spec fn ordered() -> bool {
        totally_ordered::<K>() && totally_ordered::<V>()
    }

    /// Creates an empty map.
    pub fn new() -> (r: MMap<K, V>)
        ensures
            forall|k: K| #[trigger] r.values(k) == Set::<V>::empty(),
    {
        MMap { map: BTreeMap::new() }
    }

    /// Returns all the values associated with this key, in increasing order.
    pub fn get(&self, key: &K) -> (r: Vec<V>)
        requires
            Self::ordered(),
        ensures
            r@.to_set() == self.values(*key),
            r@.no_duplicates(),
            increasing_seq(r@),
    {
        match self.map.get(key) {
            Some(set) => set_to_vec(set),
            None => {
                let r: Vec<V> = Vec::new();
                assert(r@.to_set() =~= Set::<V>::empty());
                r
            },
        }
    }

    /// Associates `val` with `key` (in addition to the values already associated with it).
    pub fn insert(&mut self, key: K, val: V)
        requires
            Self::ordered(),
        ensures
            forall|k: K|
                #[trigger] final(self).values(k) == if k == key {
                    old(self).values(k).insert(val)
                } else {
                    old(self).values(k)
                },
    {
        let ghost old_map = self.map@;
        let mut set = match self.map.remove(&key) {
            Some(set) => set,
            None => BTreeSet::new(),
        };
        set.insert(val);
        self.map.insert(key, set);
        proof {
            assert forall|k: K| #[trigger] self.values(k) == if k == key {
                old(self).values(k).insert(val)
            } else {
                old(self).values(k)
            } by {
                if k != key {
                    assert(old_map.remove(key).contains_key(k) == old_map.contains_key(k));
                }
            }
        }
    }

    /// Removes the association between `key` and `val`, returning `true` if there was one.
    pub fn remove(&mut self, key: &K, val: &V) -> (r: bool)
        requires
            Self::ordered(),
        ensures
            r == old(self).values(*key).contains(*val),
            forall|k: K|
                #[trigger] final(self).values(k) == if k == *key {
                    old(self).values(k).remove(*val)
                } else {
                    old(self).values(k)
                },
    {
        let ghost old_map = self.map@;
        match self.map.remove(key) {
            Some(mut set) => {
                let r = set.remove(val);
                self.map.insert(*key, set);
                proof {
                    assert forall|k: K| #[trigger] self.values(k) == if k == *key {
                        old(self).values(k).remove(*val)
                    } else {
                        old(self).values(k)
                    } by {
                        if k != *key {
                            assert(old_map.remove(*key).contains_key(k) == old_map.contains_key(k));
                        }
                    }
                }
                r
            },
            None => {
                proof {
                    assert forall|k: K| #[trigger] self.values(k) == if k == *key {
                        old(self).values(k).remove(*val)
                    } else {
                        old(self).values(k)
                    } by {
                        if k == *key {
                            assert(old(self).values(k).remove(*val) =~= Set::<V>::empty());
                        }
                    }
                }
                false
            },
        }
    }

    /// Removes all the values associated with `key`.
    pub fn remove_all(&mut self, key: &K)
        requires
            Self::ordered(),
        ensures
            forall|k: K|
                #[trigger] final(self).values(k) == if k == *key {
                    Set::<V>::empty()
                } else {
                    old(self).values(k)
                },
    {
        let ghost old_map = self.map@;
        self.map.remove(key);
        proof {
            assert forall|k: K| #[trigger] self.values(k) == if k == *key {
                Set::<V>::empty()
            } else {
                old(self).values(k)
            } by {
                if k != *key {
                    assert(old_map.remove(*key).contains_key(k) == old_map.contains_key(k));
                }
            }
        }
    }

    /// Is `val` associated with `key`?
    pub fn contains(&self, key: &K, val: &V) -> (r: bool)
        requires
            Self::ordered(),
        ensures
            r == self.values(*key).contains(*val),
    {
        match self.map.get(key) {
            Some(set) => set.contains(val),
            None => false,
        }
    }

    /// Returns all the pairs `(key, value)` such that `value` is associated with `key`, in
    /// increasing order of key, then of value.
    pub fn iter(&self) -> (r: Vec<(K, V)>)
        requires
            Self::ordered(),
        ensures
            forall|k: K, v: V| r@.contains((k, v)) <==> #[trigger] self.values(k).contains(v),
            forall|p: int, q: int| 0 <= p < q < r@.len() ==> pair_less(#[trigger] r@[p], #[trigger] r@[q]),
    {
        let mut r: Vec<(K, V)> = Vec::new();
        let ghost s0 = vstd::std_specs::btree::spec_btree_map_iter(&self.map).remaining();
        proof {
            lemma_keys_ordered::<K>();
        }
        let entries = self.map.iter();
        proof {
            broadcast use vstd::std_specs::btree::axiom_increasing_seq_meaning;
            assert forall|a: int, b: int| 0 <= a < b < s0.len() implies precedes(*(#[trigger] s0[a]).0, *(#[trigger] s0[b]).0) by {
                let ks = entries.remaining().map_values(|kv: (&K, &BTreeSet<V>)| *kv.0);
                assert(ks[a] == *s0[a].0 && ks[b] == *s0[b].0);
            }
        }
        for kv in it: entries
            invariant
                Self::ordered(),
                it.seq() == s0,
                forall|a: int, b: int| 0 <= a < b < s0.len() ==> precedes(*(#[trigger] s0[a]).0, *(#[trigger] s0[b]).0),
                forall|p: int, i: int| 0 <= p < r@.len() && it.index() <= i < s0.len() ==> precedes((#[trigger] r@[p]).0, *(#[trigger] s0[i]).0),
                forall|p: int, q: int| 0 <= p < q < r@.len() ==> pair_less(#[trigger] r@[p], #[trigger] r@[q]),
                forall|k: K, v: V|
                    r@.contains((k, v)) <==> exists|i: int|
                        0 <= i < it.index() && *(#[trigger] s0[i]).0 == k && (*s0[i].1)@.contains(v),
        {
            assert(kv == it.seq()[it.index()]);
            let (k, set) = kv;
            let vals = set_to_vec(set);
            let ghost r0 = r@;
            let ghost idx = it.index();
            let ghost ks = s0.map_values(|kv: (&K, &BTreeSet<V>)| *kv.0);
            proof {
                broadcast use vstd::std_specs::btree::axiom_increasing_seq_meaning;
                assert(*k == ks[idx]);
                assert forall|a: int, b: int| 0 <= a < b < ks.len() implies precedes(#[trigger] ks[a], #[trigger] ks[b]) by {
                    assert(ks[a] == *s0[a].0 && ks[b] == *s0[b].0);
                }
                assert forall|a: int, b: int| 0 <= a < b < vals@.len() implies precedes(#[trigger] vals@[a], #[trigger] vals@[b]) by {
                }
                assert forall|p: int, i: int| 0 <= p < r0.len() && idx <= i < s0.len() implies precedes((#[trigger] r0[p]).0, *(#[trigger] s0[i]).0) by {
                    assert(r0[p] == r@[p]);
                }
            }
            let mut j: usize = 0;
            while j < vals.len()
                invariant
                    Self::ordered(),
                    0 <= j <= vals.len(),
                    0 <= idx < s0.len(),
                    ks == s0.map_values(|kv: (&K, &BTreeSet<V>)| *kv.0),
                    *k == ks[idx],
                    forall|a: int, b: int| 0 <= a < b < ks.len() ==> precedes(#[trigger] ks[a], #[trigger] ks[b]),
                    forall|a: int, b: int| 0 <= a < b < vals@.len() ==> precedes(#[trigger] vals@[a], #[trigger] vals@[b]),
                    r@ == r0 + vals@.take(j as int).map_values(|v: V| (*k, v)),
                    forall|p: int, i: int| 0 <= p < r0.len() && idx <= i < s0.len() ==> precedes((#[trigger] r0[p]).0, *(#[trigger] s0[i]).0),
                    forall|a: int, b: int| 0 <= a < b < s0.len() ==> precedes(*(#[trigger] s0[a]).0, *(#[trigger] s0[b]).0),
                    forall|p: int, q: int| 0 <= p < q < r@.len() ==> pair_less(#[trigger] r@[p], #[trigger] r@[q]),
                decreases vals.len() - j,
            {
                let ghost rb = r@;
                r.push((*k, vals[j]));
                proof {
                    assert forall|p: int, q: int| 0 <= p < q < r@.len() implies pair_less(#[trigger] r@[p], #[trigger] r@[q]) by {
                        if q == rb.len() {
                            if p < r0.len() {
                                assert(r@[p] == r0[p]);
                                assert(precedes(r0[p].0, *s0[idx].0));
                            } else {
                                let a = p - r0.len();
                                assert(r@[p] == rb[p]);
                                assert(rb[p] == (*k, vals@[a]));
                                assert(precedes(vals@[a], vals@[j as int]));
                            }
                        } else {
                            assert(r@[p] == rb[p] && r@[q] == rb[q]);
                        }
                    }
                }
                j = j + 1;
                assert(r@ =~= r0 + vals@.take(j as int).map_values(|v: V| (*k, v)));
            }
            assert(vals@.take(vals.len() as int) =~= vals@);
            proof {
                assert forall|p: int, i: int| 0 <= p < r@.len() && idx + 1 <= i < s0.len() implies precedes((#[trigger] r@[p]).0, *(#[trigger] s0[i]).0) by {
                    if p < r0.len() {
                        assert(r@[p] == r0[p]);
                    } else {
                        assert(r@[p].0 == *k);
                        assert(ks[idx] == *s0[idx].0);
                        assert(precedes(*s0[idx].0, *s0[i].0));
                    }
                }
            }
            proof {
                assert forall|kk: K, v: V|
                    r@.contains((kk, v)) <==> exists|i: int|
                        0 <= i < idx + 1 && *(#[trigger] s0[i]).0 == kk && (*s0[i].1)@.contains(v) by {
                    if r@.contains((kk, v)) {
                        let p = choose|p: int| 0 <= p < r@.len() && r@[p] == (kk, v);
                        if p >= r0.len() {
                            assert(vals@.contains(v)) by {
                                assert(vals@[p - r0.len()] == v);
                            }
                            assert(set@.contains(v));
                            assert(s0[idx] == kv);
                        } else {
                            assert(r0.contains((kk, v)));
                        }
                    }
                    if exists|i: int| 0 <= i < idx + 1 && *(#[trigger] s0[i]).0 == kk && (*s0[i].1)@.contains(v) {
                        let i = choose|i: int| 0 <= i < idx + 1 && *(#[trigger] s0[i]).0 == kk && (*s0[i].1)@.contains(v);
                        if i == idx {
                            assert(vals@.to_set().contains(v));
                            let q = choose|q: int| 0 <= q < vals@.len() && vals@[q] == v;
                            assert(r@[r0.len() + q] == (kk, v));
                        } else {
                            assert(r0.contains((kk, v)));
                            let q = choose|q: int| 0 <= q < r0.len() && r0[q] == (kk, v);
                            assert(r@[q] == (kk, v));
                        }
                    }
                }
            }
        }
        proof {
            assert forall|k: K, v: V| r@.contains((k, v)) <==> #[trigger] self.values(k).contains(v) by {
                if self.values(k).contains(v) {
                    assert(self.map@.contains_key(k));
                    assert(s0.contains((&k, &self.map@[k])));
                    let i = choose|i: int| 0 <= i < s0.len() && s0[i] == (&k, &self.map@[k]);
                    assert(*s0[i].0 == k);
                }
                if r@.contains((k, v)) {
                    let i = choose|i: int| 0 <= i < s0.len() && *(#[trigger] s0[i]).0 == k && (*s0[i].1)@.contains(v);
                    assert(self.map@.contains_key(*s0[i].0) && self.map@[*s0[i].0] == *s0[i].1);
                }
            }
        }
        r
    }
}

} // verus!
