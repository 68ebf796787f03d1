//! A set whose items are told apart by a key computed from each item: two items
//! with one key are the same member, and inserting the second replaces the first.

use vstd::prelude::*;
use std::hash::BuildHasher;

verus! {

/// Computes the key by which a set tells its items apart.
pub trait KeyOf<T> {
    /// The key of `item`.
    spec fn spec_key(&self, item: T) -> Seq<char>;

    /// Computes the key of `item`.
    fn get_key(&self, item: &T) -> (r: String)
        ensures
            r@ == self.spec_key(*item),
    ;
}

/// The decimal digits of `x`.
pub open spec fn decimal_u64(x: u64) -> Seq<char> {
    crate::number::decimal_digits(x as nat)
}

/// The hash of `x` by a `DefaultHasher` made with `new`.
pub uninterp spec fn default_hash_u64(x: u64) -> u64;

/// The builder of `DefaultHasher`s made with `new`, which keeps no state.
#[verifier::external_type_specification]
#[verifier::external_body]
#[verifier::reject_recursive_types(H)]
pub struct ExBuildHasherDefault<H>(std::hash::BuildHasherDefault<H>);

/// `BuildHasherDefault::default`: the builder of `DefaultHasher`s with fixed
/// keys. It holds no data, so every such builder is the same.
#[verifier::external_body]
fn default_hasher_builder() -> std::hash::BuildHasherDefault<std::collections::hash_map::DefaultHasher> {
    std::hash::BuildHasherDefault::default()
}

/// `BuildHasher::hash_one`: hashes `x` with a fresh `DefaultHasher` from the
/// stateless builder `b`, so the result depends on `x` alone.
#[verifier::external_body]
fn hash_one_u64(b: &std::hash::BuildHasherDefault<std::collections::hash_map::DefaultHasher>, x: u64) -> (r: u64)
    ensures
        r == default_hash_u64(x),
{
    b.hash_one(x)
}

/// Writes `x` in decimal through `u64`'s `Display` (`ToString`), which gives
/// its decimal digits.
#[verifier::external_body]
fn u64_to_string(x: u64) -> (r: String)
    ensures
        r@ == decimal_u64(x),
{
    x.to_string()
}

/// The default key of an item: the decimal digits of its `DefaultHasher` hash.
#[derive(Clone, Copy)]
pub struct HashKey;

impl Default for HashKey {
    fn default() -> (r: Self)
        ensures
            r == HashKey,
    {
        HashKey
    }
}

impl KeyOf<u64> for HashKey {
    open spec fn spec_key(&self, item: u64) -> Seq<char> {
        decimal_u64(default_hash_u64(item))
    }

    fn get_key(&self, item: &u64) -> (r: String) {
        let b = default_hasher_builder();
        u64_to_string(hash_one_u64(&b, *item))
    }
}

/// The map from keys to items that a list of distinct-keyed entries holds.
pub open spec fn entries_map<T>(s: Seq<(String, T)>) -> Map<Seq<char>, T> {
    Map::new(
        |k: Seq<char>| exists|i: int| 0 <= i < s.len() && s[i].0@ == k,
        |k: Seq<char>| s[choose|i: int| 0 <= i < s.len() && s[i].0@ == k].1,
    )
}

/// No two entries share a key.
pub open spec fn keys_distinct<T>(s: Seq<(String, T)>) -> bool {
    forall|i: int, j: int| 0 <= i < j < s.len() ==> #[trigger] s[i].0@ != #[trigger] s[j].0@
}

/// An entry's key is the key of its item.
pub open spec fn keys_match<T, G: KeyOf<T>>(g: G, s: Seq<(String, T)>) -> bool {
    forall|i: int| 0 <= i < s.len() ==> (#[trigger] s[i]).0@ == g.spec_key(s[i].1)
}

/// The entry at `i` is what the map holds for its key.
pub proof fn lemma_entries_map_at<T>(s: Seq<(String, T)>, i: int)
    requires
        keys_distinct(s),
        0 <= i < s.len(),
    ensures
        entries_map(s).dom().contains(s[i].0@),
        entries_map(s)[s[i].0@] == s[i].1,
{
    let k = s[i].0@;
    assert(exists|j: int| 0 <= j < s.len() && s[j].0@ == k);
    let j = choose|j: int| 0 <= j < s.len() && s[j].0@ == k;
    if j != i {
        if j < i {
            assert(s[j].0@ != s[i].0@);
        } else {
            assert(s[i].0@ != s[j].0@);
        }
    }
}

/// Appending an entry with a fresh key inserts it into the map.
pub proof fn lemma_entries_map_push<T>(s: Seq<(String, T)>, e: (String, T))
    requires
        keys_distinct(s),
        !entries_map(s).dom().contains(e.0@),
    ensures
        keys_distinct(s.push(e)),
        entries_map(s.push(e)) == entries_map(s).insert(e.0@, e.1),
{
    let t = s.push(e);
    assert forall|i: int, j: int| 0 <= i < j < t.len() implies #[trigger] t[i].0@ != #[trigger] t[j].0@ by {
        if j == s.len() {
            if t[i].0@ == e.0@ {
                assert(s[i].0@ == e.0@);
            }
        } else {
            assert(s[i].0@ != s[j].0@);
        }
    }
    assert forall|k: Seq<char>| #[trigger] entries_map(t).dom().contains(k) == entries_map(s).insert(e.0@, e.1).dom().contains(k) by {
        if entries_map(s).dom().contains(k) {
            let i = choose|i: int| 0 <= i < s.len() && s[i].0@ == k;
            assert(t[i].0@ == k);
        }
        if entries_map(t).dom().contains(k) {
            let i = choose|i: int| 0 <= i < t.len() && t[i].0@ == k;
            if i < s.len() {
                assert(s[i].0@ == k);
            }
        }
        if k == e.0@ {
            assert(t[s.len() as int].0@ == k);
        }
    }
    assert forall|k: Seq<char>| entries_map(t).dom().contains(k) implies #[trigger] entries_map(t)[k] == entries_map(s).insert(e.0@, e.1)[k] by {
        let i = choose|i: int| 0 <= i < t.len() && t[i].0@ == k;
        lemma_entries_map_at(t, i);
        if i < s.len() {
            assert(s[i] == t[i]);
            lemma_entries_map_at(s, i);
        }
    }
    assert(entries_map(t) =~= entries_map(s).insert(e.0@, e.1));
}

/// Replacing the entry at `i` by one with the same key sets that key's item.
pub proof fn lemma_entries_map_update<T>(s: Seq<(String, T)>, i: int, e: (String, T))
    requires
        keys_distinct(s),
        0 <= i < s.len(),
        e.0@ == s[i].0@,
    ensures
        keys_distinct(s.update(i, e)),
        entries_map(s.update(i, e)) == entries_map(s).insert(e.0@, e.1),
{
    let t = s.update(i, e);
    assert forall|a: int, b: int| 0 <= a < b < t.len() implies #[trigger] t[a].0@ != #[trigger] t[b].0@ by {
        assert(s[a].0@ != s[b].0@);
    }
    lemma_entries_map_at(s, i);
    assert forall|k: Seq<char>| #[trigger] entries_map(t).dom().contains(k) == entries_map(s).insert(e.0@, e.1).dom().contains(k) by {
        if entries_map(s).dom().contains(k) {
            let j = choose|j: int| 0 <= j < s.len() && s[j].0@ == k;
            assert(t[j].0@ == k);
        }
        if entries_map(t).dom().contains(k) {
            let j = choose|j: int| 0 <= j < t.len() && t[j].0@ == k;
            assert(s[j].0@ == k);
        }
    }
    assert forall|k: Seq<char>| entries_map(t).dom().contains(k) implies #[trigger] entries_map(t)[k] == entries_map(s).insert(e.0@, e.1)[k] by {
        let j = choose|j: int| 0 <= j < t.len() && t[j].0@ == k;
        lemma_entries_map_at(t, j);
        if j != i {
            assert(s[j] == t[j]);
            lemma_entries_map_at(s, j);
        }
    }
    assert(entries_map(t) =~= entries_map(s).insert(e.0@, e.1));
}

/// Removing the entry at `i` removes its key from the map.
pub proof fn lemma_entries_map_remove<T>(s: Seq<(String, T)>, i: int)
    requires
        keys_distinct(s),
        0 <= i < s.len(),
    ensures
        keys_distinct(s.remove(i)),
        entries_map(s.remove(i)) == entries_map(s).remove(s[i].0@),
{
    let t = s.remove(i);
    let k0 = s[i].0@;
    assert forall|a: int, b: int| 0 <= a < b < t.len() implies #[trigger] t[a].0@ != #[trigger] t[b].0@ by {
        let a2 = if a < i { a } else { a + 1 };
        let b2 = if b < i { b } else { b + 1 };
        assert(t[a] == s[a2]);
        assert(t[b] == s[b2]);
        assert(s[a2].0@ != s[b2].0@);
    }
    assert forall|k: Seq<char>| #[trigger] entries_map(t).dom().contains(k) == entries_map(s).remove(k0).dom().contains(k) by {
        if entries_map(s).dom().contains(k) && k != k0 {
            let j = choose|j: int| 0 <= j < s.len() && s[j].0@ == k;
            if j < i {
                assert(t[j].0@ == k);
            } else {
                assert(j != i);
                assert(t[j - 1].0@ == k);
            }
        }
        if entries_map(t).dom().contains(k) {
            let j = choose|j: int| 0 <= j < t.len() && t[j].0@ == k;
            let j2 = if j < i { j } else { j + 1 };
            assert(t[j] == s[j2]);
            assert(s[j2].0@ == k);
            if k == k0 {
                if j2 < i {
                    assert(s[j2].0@ != s[i].0@);
                } else {
                    assert(s[i].0@ != s[j2].0@);
                }
            }
        }
    }
    assert forall|k: Seq<char>| entries_map(t).dom().contains(k) implies #[trigger] entries_map(t)[k] == entries_map(s).remove(k0)[k] by {
        let j = choose|j: int| 0 <= j < t.len() && t[j].0@ == k;
        lemma_entries_map_at(t, j);
        let j2 = if j < i { j } else { j + 1 };
        assert(t[j] == s[j2]);
        lemma_entries_map_at(s, j2);
    }
    assert(entries_map(t) =~= entries_map(s).remove(k0));
}

/// The map after inserting `items` one after another into `m`, each under its key.
pub open spec fn insert_all<T, G: KeyOf<T>>(g: G, m: Map<Seq<char>, T>, items: Seq<T>) -> Map<Seq<char>, T>
    decreases items.len(),
{
    if items.len() == 0 {
        m
    } else {
        insert_all(g, m, items.drop_last()).insert(g.spec_key(items.last()), items.last())
    }
}

/// A set of items told apart by the key that `get_key` computes.
pub struct CustomHashSet<T: Copy, G: KeyOf<T> + Copy> {
    get_key: G,
    entries: Vec<(String, T)>,
}

/// Hands out, one at a time, the items taken out of a set.
pub struct IteratorWrapper<T> {
    items: Vec<T>,
    pos: usize,
}

impl<T> IteratorWrapper<T> {
    /// The items still to come.
    pub closed spec fn rest(&self) -> Seq<T> {
        self.items@.subrange(self.pos as int, self.items@.len() as int)
    }

    #[verifier::type_invariant]
    spec fn well_formed(self) -> bool {
        self.pos <= self.items@.len()
    }

    /// Hands out `items` in order.
    pub fn new(items: Vec<T>) -> (r: Self)
        ensures
            r.rest() == items@,
    {
        let r = IteratorWrapper { items, pos: 0 };
        assert(r.rest() =~= r.items@);
        r
    }

    /// The next item, if any remains.
    pub fn next(&mut self) -> (r: Option<T>)
        where T: Copy
        ensures
            old(self).rest().len() == 0 ==> r is None && final(self).rest() == old(self).rest(),
            old(self).rest().len() > 0 ==> r == Some(old(self).rest()[0]) && final(self).rest()
                == old(self).rest().drop_first(),
    {
        proof {
            use_type_invariant(&*self);
        }
        if self.pos < self.items.len() {
            let x = self.items[self.pos];
            self.pos = self.pos + 1;
            proof {
                assert(self.rest() =~= old(self).rest().drop_first());
            }
            Some(x)
        } else {
            None
        }
    }
}

impl<T: Copy, G: KeyOf<T> + Copy> CustomHashSet<T, G> {
    #[verifier::type_invariant]
    spec fn well_formed(self) -> bool {
        &&& keys_distinct(self.entries@)
        &&& keys_match(self.get_key, self.entries@)
    }

    /// The items of the set by their keys.
    pub closed spec fn map(&self) -> Map<Seq<char>, T> {
        entries_map(self.entries@)
    }

    /// The key function of the set.
    pub closed spec fn key_fn(&self) -> G {
        self.get_key
    }

    /// The items of the set, in the order in which `iter` lists them.
    pub closed spec fn items(&self) -> Seq<T> {
        self.entries@.map_values(|e: (String, T)| e.1)
    }

    /// The key of `item` under this set's key function.
    pub open spec fn key(&self, item: T) -> Seq<char> {
        self.key_fn().spec_key(item)
    }

    /// The set holds an item with the key of `item`.
    pub open spec fn has(&self, item: T) -> bool {
        self.map().dom().contains(self.key(item))
    }

    /// Whether this set holding the key of an item is `held`.
    pub open spec fn keep_pred(self, held: bool) -> spec_fn(T) -> bool {
        |x: T| self.has(x) == held
    }

    /// The items of `s` whose keys this set holds (`held`) or does not hold (`!held`), in order.
    pub open spec fn keep_items(self, s: Seq<T>, held: bool) -> Seq<T> {
        s.filter(self.keep_pred(held))
    }

    /// The items of `s` that `keep_in` lets through, or all of them.
    pub open spec fn selected(s: Seq<T>, keep_in: Option<Self>, held: bool) -> Seq<T> {
        match keep_in {
            Some(o) => o.keep_items(s, held),
            None => s,
        }
    }

    /// Every item is stored under its own key, each key once; `items` lists the
    /// stored items.
    proof fn lemma_items(&self)
        requires
            self.well_formed(),
        ensures
            self.items().len() == self.map().dom().len(),
            self.map().dom().finite(),
            forall|i: int| 0 <= i < self.items().len() ==> #[trigger] self.map().dom().contains(self.key(self.items()[i]))
                && self.map()[self.key(self.items()[i])] == self.items()[i],
            forall|k: Seq<char>| #[trigger] self.map().dom().contains(k) ==> exists|i: int| 0 <= i < self.items().len() && self.key(self.items()[i]) == k,
    {
        let s = self.entries@;
        assert forall|i: int| 0 <= i < self.items().len() implies #[trigger] self.map().dom().contains(self.key(self.items()[i]))
            && self.map()[self.key(self.items()[i])] == self.items()[i] by {
            lemma_entries_map_at(s, i);
            assert(s[i].0@ == self.key(s[i].1));
        }
        assert forall|k: Seq<char>| #[trigger] self.map().dom().contains(k) implies exists|i: int| 0 <= i < self.items().len() && self.key(self.items()[i]) == k by {
            let i = choose|i: int| 0 <= i < s.len() && s[i].0@ == k;
            assert(s[i].0@ == self.key(s[i].1));
            assert(self.items()[i] == s[i].1);
        }
        lemma_entries_map_len(s);
    }

    /// Finds the entry whose key is `key`.
    fn find(&self, key: &String) -> (r: Option<usize>)
        ensures
            match r {
                Some(i) => i < self.entries@.len() && self.entries@[i as int].0@ == key@,
                None => !self.map().dom().contains(key@),
            },
    {
        let mut i: usize = 0;
        while i < self.entries.len()
            invariant
                i <= self.entries@.len(),
                forall|j: int| 0 <= j < i ==> self.entries@[j].0@ != key@,
            decreases self.entries@.len() - i,
        {
            if self.entries[i].0 == *key {
                return Some(i);
            }
            i = i + 1;
        }
        proof {
            if self.map().dom().contains(key@) {
                let j = choose|j: int| 0 <= j < self.entries@.len() && self.entries@[j].0@ == key@;
                assert(self.entries@[j].0@ != key@);
            }
        }
        None
    }

    /// The empty set with the key function given, or the default one.
    pub fn new(get_key_option: Option<G>) -> (r: Self)
        where G: Default
        ensures
            r.map() == Map::<Seq<char>, T>::empty(),
            r.items() == Seq::<T>::empty(),
            get_key_option matches Some(g) ==> r.key_fn() == g,
    {
        let get_key = match get_key_option {
            Some(g) => g,
            None => G::default(),
        };
        let r = CustomHashSet { get_key, entries: Vec::new() };
        assert(entries_map(r.entries@) =~= Map::empty());
        assert(r.items() =~= Seq::empty());
        r
    }

    /// The empty set with the key function of `self`.
    fn empty_like(&self) -> (r: Self)
        ensures
            r.map() == Map::<Seq<char>, T>::empty(),
            r.items() == Seq::<T>::empty(),
            r.key_fn() == self.key_fn(),
    {
        let r = CustomHashSet { get_key: self.get_key, entries: Vec::new() };
        assert(entries_map(r.entries@) =~= Map::empty());
        assert(r.items() =~= Seq::empty());
        r
    }

    /// Adds `value` under its key, replacing an item with that key.
    pub fn insert(&mut self, value: T)
        ensures
            final(self).map() == old(self).map().insert(old(self).key(value), value),
            final(self).key_fn() == old(self).key_fn(),
    {
        proof {
            use_type_invariant(&*self);
        }
        let key = self.get_key.get_key(&value);
        let ghost k = key@;
        let found = self.find(&key);
        let mut entries = Vec::new();
        std::mem::swap(&mut entries, &mut self.entries);
        match found {
            Some(i) => {
                proof {
                    lemma_entries_map_update(entries@, i as int, (key, value));
                }
                entries.set(i, (key, value));
            },
            None => {
                proof {
                    lemma_entries_map_push(entries@, (key, value));
                }
                entries.push((key, value));
            },
        }
        self.entries = entries;
    }

    /// Whether the set holds an item with the key of `value`.
    pub fn contains(&self, value: &T) -> (r: bool)
        ensures
            r == self.has(*value),
    {
        let key = self.get_key.get_key(value);
        self.find(&key).is_some()
    }

    /// Takes every item out of the set.
    pub fn drain(&mut self) -> (r: IteratorWrapper<T>)
        ensures
            final(self).map() == Map::<Seq<char>, T>::empty(),
            final(self).key_fn() == old(self).key_fn(),
            r.rest() == old(self).items(),
    {
        proof {
            use_type_invariant(&*self);
        }
        let mut items: Vec<T> = Vec::new();
        let mut i: usize = 0;
        while i < self.entries.len()
            invariant
                i <= self.entries@.len(),
                items@ == self.entries@.subrange(0, i as int).map_values(|e: (String, T)| e.1),
            decreases self.entries@.len() - i,
        {
            items.push(self.entries[i].1);
            i = i + 1;
            proof {
                assert(items@ =~= self.entries@.subrange(0, i as int).map_values(|e: (String, T)| e.1));
            }
        }
        proof {
            assert(self.entries@.subrange(0, self.entries@.len() as int) == self.entries@);
        }
        let mut entries = Vec::new();
        std::mem::swap(&mut entries, &mut self.entries);
        proof {
            assert(entries_map(self.entries@) =~= Map::empty());
        }
        IteratorWrapper::new(items)
    }

    /// Removes the item with the key of `value`; tells whether there was one.
    pub fn remove(&mut self, value: &T) -> (r: bool)
        ensures
            r == old(self).has(*value),
            final(self).map() == old(self).map().remove(old(self).key(*value)),
            final(self).key_fn() == old(self).key_fn(),
    {
        self.take(value).is_some()
    }

    /// Takes out the item with the key of `value`, if there is one.
    pub fn take(&mut self, value: &T) -> (r: Option<T>)
        ensures
            r == (if old(self).has(*value) { Some(old(self).map()[old(self).key(*value)]) } else { None }),
            final(self).map() == old(self).map().remove(old(self).key(*value)),
            final(self).key_fn() == old(self).key_fn(),
    {
        proof {
            use_type_invariant(&*self);
        }
        let key = self.get_key.get_key(value);
        match self.find(&key) {
            Some(i) => {
                let mut entries = Vec::new();
                std::mem::swap(&mut entries, &mut self.entries);
                proof {
                    lemma_entries_map_at(entries@, i as int);
                    lemma_entries_map_remove(entries@, i as int);
                }
                let e = entries.remove(i);
                self.entries = entries;
                Some(e.1)
            },
            None => {
                proof {
                    assert(self.map().remove(key@) =~= self.map());
                }
                None
            },
        }
    }

    /// The item with the key of `value`, if there is one.
    pub fn get(&mut self, value: &T) -> (r: Option<&T>)
        ensures
            final(self).map() == old(self).map(),
            final(self).key_fn() == old(self).key_fn(),
            r == (if old(self).has(*value) { Some(&old(self).map()[old(self).key(*value)]) } else { None }),
    {
        proof {
            use_type_invariant(&*self);
        }
        let key = self.get_key.get_key(value);
        match self.find(&key) {
            Some(i) => {
                proof {
                    lemma_entries_map_at(self.entries@, i as int);
                }
                Some(&self.entries[i].1)
            },
            None => None,
        }
    }

    /// The number of items.
    pub fn len(&self) -> (r: usize)
        ensures
            r == self.map().dom().len(),
    {
        proof {
            use_type_invariant(self);
            self.lemma_items();
        }
        self.entries.len()
    }

    /// The items, in the order in which the set keeps them.
    pub fn iter(&self) -> (r: Vec<T>)
        ensures
            r@ == self.items(),
    {
        let mut items: Vec<T> = Vec::new();
        let mut i: usize = 0;
        while i < self.entries.len()
            invariant
                i <= self.entries@.len(),
                items@ == self.entries@.subrange(0, i as int).map_values(|e: (String, T)| e.1),
            decreases self.entries@.len() - i,
        {
            items.push(self.entries[i].1);
            i = i + 1;
            proof {
                assert(items@ =~= self.entries@.subrange(0, i as int).map_values(|e: (String, T)| e.1));
            }
        }
        proof {
            assert(self.entries@.subrange(0, self.entries@.len() as int) == self.entries@);
        }
        items
    }

    /// Whether `other` holds an item with the key of each item of this set.
    pub fn is_subset(&self, other: &Self) -> (r: bool)
        ensures
            r == forall|i: int| 0 <= i < self.items().len() ==> other.has(#[trigger] self.items()[i]),
    {
        let items = self.iter();
        let mut i: usize = 0;
        while i < items.len()
            invariant
                items@ == self.items(),
                i <= items@.len(),
                forall|j: int| 0 <= j < i ==> other.has(#[trigger] self.items()[j]),
            decreases items@.len() - i,
        {
            if !other.contains(&items[i]) {
                return false;
            }
            i = i + 1;
        }
        true
    }

    /// Whether this set holds an item with the key of each item of `other`.
    pub fn is_superset(&self, other: &Self) -> (r: bool)
        ensures
            r == forall|i: int| 0 <= i < other.items().len() ==> self.has(#[trigger] other.items()[i]),
    {
        other.is_subset(self)
    }

    /// Whether the set has no item.
    pub fn is_empty(&self) -> (r: bool)
        ensures
            r == (self.map().dom().len() == 0),
    {
        self.len() == 0
    }

    /// Whether no item of this set has its key in `other`.
    pub fn is_disjoint(&self, other: &Self) -> (r: bool)
        ensures
            r == forall|i: int| 0 <= i < self.items().len() ==> !other.has(#[trigger] self.items()[i]),
    {
        let u = self.union(other);
        proof {
            use_type_invariant(&u);
            u.lemma_items();
            let f = other.keep_items(self.items(), true);
            if forall|i: int| 0 <= i < self.items().len() ==> !other.has(#[trigger] self.items()[i]) {
                assert forall|i: int| 0 <= i < self.items().len() implies !(#[trigger] other.keep_pred(true)(self.items()[i])) by {
                }
                lemma_filter_none(self.items(), other.keep_pred(true));
                assert(f.len() == 0);
                assert(f == f.drop_last().push(f.last()) || f.len() == 0);
                assert(insert_all(self.key_fn(), Map::<Seq<char>, T>::empty(), f) == Map::<Seq<char>, T>::empty());
                assert(u.map().dom() =~= Set::empty());
            } else {
                let i = choose|i: int| 0 <= i < self.items().len() && other.has(#[trigger] self.items()[i]);
                assert(other.keep_pred(true)(self.items()[i]));
                lemma_filter_contains(self.items(), other.keep_pred(true), i);
                let j = choose|j: int| 0 <= j < f.len() && f[j] == self.items()[i];
                lemma_insert_all_contains(u.key_fn(), Map::empty(), f, j);
                assert(u.map().dom().contains(self.key_fn().spec_key(f[j])));
            }
        }
        u.is_empty()
    }

    /// Inserts, one after another, the items of `items` that `keep_in` lets through.
    fn insert_each(set: &mut Self, items: &Vec<T>, keep_in: Option<&Self>, held: bool)
        ensures
            final(set).key_fn() == old(set).key_fn(),
            final(set).map() == insert_all(
                old(set).key_fn(),
                old(set).map(),
                Self::selected(items@, match keep_in { Some(o) => Some(*o), None => None }, held),
            ),
    {
        let ghost ko: Option<Self> = match keep_in { Some(o) => Some(*o), None => None };
        let ghost g = old(set).key_fn();
        let ghost m0 = old(set).map();
        let mut i: usize = 0;
        while i < items.len()
            invariant
                i <= items@.len(),
                set.key_fn() == g,
                ko == (match keep_in { Some(o) => Some(*o), None => None::<Self> }),
                set.map() == insert_all(g, m0, Self::selected(items@.subrange(0, i as int), ko, held)),
            decreases items@.len() - i,
        {
            let x = items[i];
            let keep = match keep_in {
                Some(o) => o.contains(&x) == held,
                None => true,
            };
            proof {
                let s0 = items@.subrange(0, i as int);
                let s1 = items@.subrange(0, i + 1);
                assert(s1 == s0.push(x));
                match ko {
                    Some(o) => {
                        lemma_filter_push(s0, o.keep_pred(held), x);
                    },
                    None => {},
                }
                let sel1 = Self::selected(s1, ko, held);
                let sel0 = Self::selected(s0, ko, held);
                if keep {
                    assert(sel1 == sel0.push(x));
                    assert(sel1.drop_last() == sel0);
                } else {
                    assert(sel1 == sel0);
                }
            }
            if keep {
                set.insert(x);
            }
            i = i + 1;
        }
        proof {
            assert(items@.subrange(0, items@.len() as int) == items@);
        }
    }

    /// A set with the key function of this one holding the items of this set and
    /// then those of `other`, inserted in that order.
    pub fn intersection(&self, other: &Self) -> (r: Self)
        ensures
            r.key_fn() == self.key_fn(),
            r.map() == insert_all(self.key_fn(), Map::empty(), self.items() + other.items()),
    {
        let mut new_set = self.empty_like();
        let a = self.iter();
        let b = other.iter();
        Self::insert_each(&mut new_set, &a, None, true);
        Self::insert_each(&mut new_set, &b, None, true);
        proof {
            lemma_insert_all_concat(self.key_fn(), Map::empty(), a@, b@);
        }
        new_set
    }

    /// A set with the key function of this one holding the items of this set
    /// whose keys `other` holds.
    pub fn union(&self, other: &Self) -> (r: Self)
        ensures
            r.key_fn() == self.key_fn(),
            r.map() == insert_all(self.key_fn(), Map::empty(), other.keep_items(self.items(), true)),
    {
        let mut new_set = self.empty_like();
        let a = self.iter();
        Self::insert_each(&mut new_set, &a, Some(other), true);
        new_set
    }

    /// A set with the key function of this one holding the items of this set
    /// whose keys `other` does not hold.
    pub fn difference(&self, other: &Self) -> (r: Self)
        ensures
            r.key_fn() == self.key_fn(),
            r.map() == insert_all(self.key_fn(), Map::empty(), other.keep_items(self.items(), false)),
    {
        let mut new_set = self.empty_like();
        let a = self.iter();
        Self::insert_each(&mut new_set, &a, Some(other), false);
        new_set
    }

    /// A set with the key function of this one holding the items of this set
    /// whose keys `other` does not hold, then those of `other` whose keys this
    /// set does not hold.
    pub fn symmetric_difference(&self, other: &Self) -> (r: Self)
        ensures
            r.key_fn() == self.key_fn(),
            r.map() == insert_all(
                self.key_fn(),
                Map::empty(),
                other.keep_items(self.items(), false) + self.keep_items(other.items(), false),
            ),
    {
        let mut new_set = self.empty_like();
        let a = self.iter();
        let b = other.iter();
        Self::insert_each(&mut new_set, &a, Some(other), false);
        Self::insert_each(&mut new_set, &b, Some(self), false);
        proof {
            lemma_insert_all_concat(
                self.key_fn(),
                Map::empty(),
                other.keep_items(a@, false),
                self.keep_items(b@, false),
            );
        }
        new_set
    }
}

/// A list of distinct keys has as many entries as its map has keys.
pub proof fn lemma_entries_map_len<T>(s: Seq<(String, T)>)
    requires
        keys_distinct(s),
    ensures
        entries_map(s).dom().finite(),
        entries_map(s).dom().len() == s.len(),
    decreases s.len(),
{
    if s.len() == 0 {
        assert(entries_map(s).dom() =~= Set::empty());
    } else {
        let t = s.drop_last();
        assert forall|i: int, j: int| 0 <= i < j < t.len() implies #[trigger] t[i].0@ != #[trigger] t[j].0@ by {
            assert(s[i].0@ != s[j].0@);
        }
        lemma_entries_map_len(t);
        if entries_map(t).dom().contains(s.last().0@) {
            let i = choose|i: int| 0 <= i < t.len() && t[i].0@ == s.last().0@;
            assert(s[i].0@ != s[s.len() - 1].0@);
        }
        lemma_entries_map_push(t, s.last());
        assert(t.push(s.last()) == s);
    }
}

/// Inserting two lists one after the other inserts their concatenation.
pub proof fn lemma_insert_all_concat<T, G: KeyOf<T>>(g: G, m: Map<Seq<char>, T>, a: Seq<T>, b: Seq<T>)
    ensures
        insert_all(g, insert_all(g, m, a), b) == insert_all(g, m, a + b),
    decreases b.len(),
{
    if b.len() == 0 {
        assert(a + b == a);
    } else {
        lemma_insert_all_concat(g, m, a, b.drop_last());
        assert((a + b).drop_last() == a + b.drop_last());
        assert((a + b).last() == b.last());
    }
}

/// An item of the list ends up with its key in the map.
pub proof fn lemma_insert_all_contains<T, G: KeyOf<T>>(g: G, m: Map<Seq<char>, T>, s: Seq<T>, j: int)
    requires
        0 <= j < s.len(),
    ensures
        insert_all(g, m, s).dom().contains(g.spec_key(s[j])),
    decreases s.len(),
{
    if j < s.len() - 1 {
        lemma_insert_all_contains(g, m, s.drop_last(), j);
    }
}

/// Filtering a list grown by one item.
pub proof fn lemma_filter_push<T>(s: Seq<T>, f: spec_fn(T) -> bool, x: T)
    ensures
        s.push(x).filter(f) == (if f(x) { s.filter(f).push(x) } else { s.filter(f) }),
{
    reveal(Seq::filter);
    assert(s.push(x).drop_last() == s);
}

/// A list none of whose items passes the filter filters to nothing.
pub proof fn lemma_filter_none<T>(s: Seq<T>, f: spec_fn(T) -> bool)
    requires
        forall|i: int| 0 <= i < s.len() ==> !f(#[trigger] s[i]),
    ensures
        s.filter(f).len() == 0,
    decreases s.len(),
{
    reveal(Seq::filter);
    if s.len() > 0 {
        lemma_filter_none(s.drop_last(), f);
    }
}

/// An item that passes the filter is kept.
pub proof fn lemma_filter_contains<T>(s: Seq<T>, f: spec_fn(T) -> bool, i: int)
    requires
        0 <= i < s.len(),
        f(s[i]),
    ensures
        exists|j: int| 0 <= j < s.filter(f).len() && s.filter(f)[j] == s[i],
    decreases s.len(),
{
    reveal(Seq::filter);
    if i == s.len() - 1 {
        let j = s.filter(f).len() - 1;
        assert(s.filter(f) == s.drop_last().filter(f).push(s[i]));
        assert(s.filter(f)[j] == s[i]);
    } else {
        lemma_filter_contains(s.drop_last(), f, i);
        let j = choose|j: int| 0 <= j < s.drop_last().filter(f).len() && s.drop_last().filter(f)[j] == s.drop_last()[i];
        if f(s.last()) {
            assert(s.filter(f) == s.drop_last().filter(f).push(s.last()));
            assert(s.filter(f)[j] == s[i]);
        } else {
            assert(s.filter(f) == s.drop_last().filter(f));
        }
    }
}

} // verus!
