//! Thin hash-map wrappers with a common get / insert interface: a plain map, a
//! map keyed by pairs held as a map of maps, and a map of vectors.

use vstd::prelude::*;
use std::collections::HashMap;
use std::hash::Hash;
use vstd::std_specs::hash::obeys_key_model;

verus! {

broadcast use vstd::std_specs::hash::group_hash_axioms;

/// Looks up the entry of a key, giving back a copy of it.
pub trait EasyCollGet<K, V> {
    type Target;

    fn get(&self, k: &K) -> Option<Self::Target>;
}

/// Sets the entry of a key.
pub trait EasyCollInsert<K, V> {
    type Target;

    fn insert(&mut self, k: K, v: V) -> Option<Self::Target>;
}

/// Appends to the sequence held at a key.
pub trait EasyCollAPush<K, V> {
    fn apush(&mut self, k: K, v: V);
}

/// A map.
pub struct M1<K, V>(pub HashMap<K, V>);

/// A map keyed by pairs, held as a map from the first key to maps from the second.
pub struct M2<K1, K2, V>(pub HashMap<K1, HashMap<K2, V>>);

/// A map from keys to vectors of values.
pub struct MV<K, V>(pub HashMap<K, Vec<V>>);

impl<K, V> M1<K, V> {
    /// The empty map.
    pub fn new() -> (r: Self)
        ensures
            r.0@ == Map::<K, V>::empty(),
    {
        M1(HashMap::new())
    }
}

impl<K: Hash + Eq, V: Clone> EasyCollGet<K, V> for M1<K, V> {
    type Target = V;

    fn get(&self, k: &K) -> (r: Option<V>)
        ensures
            obeys_key_model::<K>() ==> match r {
                Some(v) => self.0@.contains_key(*k) && cloned(self.0@[*k], v),
                None => !self.0@.contains_key(*k),
            },
    {
        match self.0.get(k) {
            Some(v) => Some(v.clone()),
            None => None,
        }
    }
}

impl<K: Hash + Eq, V: Clone> EasyCollInsert<K, V> for M1<K, V> {
    type Target = V;

    fn insert(&mut self, k: K, v: V) -> (r: Option<V>)
        ensures
            obeys_key_model::<K>() ==> final(self).0@ == old(self).0@.insert(k, v) && r == (if old(
                self,
            ).0@.contains_key(k) {
                Some(old(self).0@[k])
            } else {
                None
            }),
    {
        self.0.insert(k, v)
    }
}

impl<K1, K2, V> M2<K1, K2, V> {
    /// The empty map.
    pub fn new() -> (r: Self)
        ensures
            r.0@ == Map::<K1, HashMap<K2, V>>::empty(),
    {
        M2(HashMap::new())
    }
}

impl<K1: Hash + Eq, K2: Hash + Eq, V: Clone> EasyCollGet<(K1, K2), V> for M2<K1, K2, V> {
    type Target = V;

    fn get(&self, k: &(K1, K2)) -> (r: Option<V>)
        ensures
            obeys_key_model::<K1>() && obeys_key_model::<K2>() ==> match r {
                Some(v) => self.0@.contains_key(k.0) && self.0@[k.0]@.contains_key(k.1) && cloned(
                    self.0@[k.0]@[k.1],
                    v,
                ),
                None => !(self.0@.contains_key(k.0) && self.0@[k.0]@.contains_key(k.1)),
            },
    {
        let (k1, k2) = k;
        if let Some(map1) = self.0.get(k1) {
            if let Some(v) = map1.get(k2) {
                Some(v.clone())
            } else {
                None
            }
        } else {
            None
        }
    }
}

impl<K1: Hash + Eq, K2: Hash + Eq, V: Clone> EasyCollInsert<(K1, K2), V> for M2<K1, K2, V> {
    type Target = V;

    fn insert(&mut self, k: (K1, K2), v: V) -> (r: Option<V>)
        ensures
            obeys_key_model::<K1>() && obeys_key_model::<K2>() ==> {
                let inner0 = if old(self).0@.contains_key(k.0) { old(self).0@[k.0]@ } else { Map::empty() };
                &&& final(self).0@.dom() == old(self).0@.dom().insert(k.0)
                &&& forall|q: K1| q != k.0 && #[trigger] old(self).0@.contains_key(q) ==> final(self).0@[q] == old(self).0@[q]
                &&& final(self).0@[k.0]@ == inner0.insert(k.1, v)
                &&& r == (if inner0.contains_key(k.1) { Some(inner0[k.1]) } else { None })
            },
    {
        let (k1, k2) = k;
        let mut inner = match self.0.remove(&k1) {
            Some(m) => m,
            None => HashMap::new(),
        };
        let r = inner.insert(k2, v);
        self.0.insert(k1, inner);
        r
    }
}

impl<K, V> MV<K, V> {
    /// The empty map.
    pub fn new() -> (r: Self)
        ensures
            r.0@ == Map::<K, Vec<V>>::empty(),
    {
        MV(HashMap::new())
    }
}

impl<K: Hash + Eq, V: Clone> EasyCollGet<(K, usize), Vec<V>> for MV<K, V> {
    type Target = V;

    fn get(&self, k: &(K, usize)) -> (r: Option<V>)
        ensures
            obeys_key_model::<K>() ==> match r {
                Some(v) => self.0@.contains_key(k.0) && k.1 < self.0@[k.0]@.len() && cloned(
                    self.0@[k.0]@[k.1 as int],
                    v,
                ),
                None => !(self.0@.contains_key(k.0) && k.1 < self.0@[k.0]@.len()),
            },
    {
        let (k1, k2) = k;
        if let Some(v) = self.0.get(k1) {
            if *k2 < v.len() {
                Some(v[*k2].clone())
            } else {
                None
            }
        } else {
            None
        }
    }
}

impl<K: Hash + Eq, V: Clone> EasyCollGet<K, Vec<V>> for MV<K, V> {
    type Target = Vec<V>;

    fn get(&self, k: &K) -> (r: Option<Vec<V>>)
        ensures
            obeys_key_model::<K>() ==> match r {
                Some(v) => self.0@.contains_key(*k) && v@.len() == self.0@[*k]@.len() && forall|i: int|
                    0 <= i < v@.len() ==> cloned(#[trigger] self.0@[*k]@[i], v@[i]),
                None => !self.0@.contains_key(*k),
            },
    {
        match self.0.get(k) {
            Some(v) => Some(v.clone()),
            None => None,
        }
    }
}

impl<K: Hash + Eq, V: Clone> EasyCollInsert<(K, usize), V> for MV<K, V> {
    type Target = V;

    /// Sets position `k.1` of the vector at `k.0` to `v` where that position is its
    /// end (the vector growing by one); at any other position nothing changes and
    /// `None` comes back.
    fn insert(&mut self, k: (K, usize), v: V) -> (r: Option<V>)
        ensures
            obeys_key_model::<K>() ==> {
                let len0 = if old(self).0@.contains_key(k.0) { old(self).0@[k.0]@.len() } else { 0 };
                &&& final(self).0@.dom() == old(self).0@.dom().insert(k.0)
                &&& forall|q: K| q != k.0 && #[trigger] old(self).0@.contains_key(q) ==> final(self).0@[q] == old(self).0@[q]
                &&& len0 == k.1 ==> final(self).0@[k.0]@.len() == len0 + 1 && cloned(v, final(self).0@[k.0]@[k.1 as int])
                    && r == Some(v)
                &&& len0 != k.1 ==> r is None && final(self).0@[k.0]@.len() == len0
            },
    {
        let (k1, k2) = k;
        let mut ent = match self.0.remove(&k1) {
            Some(e) => e,
            None => Vec::new(),
        };
        let ghost e0 = ent@;
        if ent.len() == k2 {
            ent.push(v.clone());
            self.0.insert(k1, ent);
            Some(v)
        } else {
            self.0.insert(k1, ent);
            None
        }
    }
}

impl<K: Hash + Eq, V: Clone> EasyCollInsert<K, Vec<V>> for MV<K, V> {
    type Target = Vec<V>;

    fn insert(&mut self, k: K, v: Vec<V>) -> (r: Option<Vec<V>>)
        ensures
            obeys_key_model::<K>() ==> final(self).0@ == old(self).0@.insert(k, v) && r == (if old(
                self,
            ).0@.contains_key(k) {
                Some(old(self).0@[k])
            } else {
                None
            }),
    {
        self.0.insert(k, v)
    }
}

impl<K: Hash + Eq, V: Clone> EasyCollAPush<K, V> for MV<K, V> {
    fn apush(&mut self, k: K, v: V)
        ensures
            obeys_key_model::<K>() ==> {
                let s0 = if old(self).0@.contains_key(k) { old(self).0@[k]@ } else { Seq::empty() };
                &&& final(self).0@.dom() == old(self).0@.dom().insert(k)
                &&& forall|q: K| q != k && #[trigger] old(self).0@.contains_key(q) ==> final(self).0@[q] == old(self).0@[q]
                &&& final(self).0@[k]@ == s0.push(v)
            },
    {
        let mut ent = match self.0.remove(&k) {
            Some(e) => e,
            None => Vec::new(),
        };
        ent.push(v);
        self.0.insert(k, ent);
    }
}

} // verus!
