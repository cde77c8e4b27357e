//! Sets and maps that keep the order of insertion.
//!
//! `indexmap` does the work. Each collection here holds one of its collections together with a
//! ghost model of what that holds, and the functions marked as trusted say how a call changes
//! the model.

use crate::keys;
use crate::sequences;
use indexmap::IndexMap;
use indexmap::IndexSet;
use std::hash::Hash;
use vstd::prelude::*;
use vstd::std_specs::cmp::PartialEqSpec;

verus! {

/// `indexmap::IndexSet`, as an opaque type.
#[verifier::external_type_specification]
#[verifier::external_body]
#[verifier::reject_recursive_types(T)]
#[verifier::reject_recursive_types(S)]
pub struct ExIndexSet<T, S>(IndexSet<T, S>);

/// `indexmap::IndexMap`, as an opaque type.
#[verifier::external_type_specification]
#[verifier::external_body]
#[verifier::reject_recursive_types(K)]
#[verifier::reject_recursive_types(V)]
#[verifier::reject_recursive_types(S)]
pub struct ExIndexMap<K, V, S>(IndexMap<K, V, S>);

/// A set that lists its items in the order in which they were first inserted.
#[verifier::reject_recursive_types(T)]
pub struct OrderedSet<T> {
    inner: IndexSet<T>,
    items: Ghost<Seq<T>>,
}

/// A map that lists its keys in the order in which they were first inserted.
#[verifier::reject_recursive_types(K)]
#[verifier::reject_recursive_types(V)]
pub struct OrderedMap<K, V> {
    inner: IndexMap<K, V>,
    keys: Ghost<Seq<K>>,
    values: Ghost<Map<K, V>>,
}

impl<T> View for OrderedSet<T> {
    type V = Seq<T>;

    /// The items, in order.
    closed spec fn view(&self) -> Seq<T> {
        self.items@
    }
}

impl<T> OrderedSet<T> {
    /// No item occurs twice.
    pub open spec fn wf(&self) -> bool {
        self@.no_duplicates()
    }

    /// The empty set. Trusted: `IndexSet::new` makes a set without items.
    #[verifier::external_body]
    pub(crate) fn new() -> (result: Self)
        ensures
            result@ == Seq::<T>::empty(),
    {
        OrderedSet { inner: IndexSet::new(), items: Ghost(Seq::empty()) }
    }

    /// Trusted: `IndexSet::insert` appends an item that was not there, leaves the set alone if
    /// it was, and says which of the two happened.
    #[verifier::external_body]
    pub(crate) fn insert(&mut self, value: T) -> (inserted: bool) where T: Hash + Eq + Clone
        requires
            keys::key_model::<T>(),
            old(self).wf(),
        ensures
            inserted == !old(self)@.contains(value),
            final(self)@ == if old(self)@.contains(value) {
                old(self)@
            } else {
                old(self)@.push(value)
            },
    {
        self.inner.insert(value)
    }

    /// Trusted: `IndexSet::len` is the number of items.
    #[verifier::external_body]
    pub(crate) fn len(&self) -> (length: usize)
        ensures
            length == self@.len(),
    {
        self.inner.len()
    }

    /// Trusted: `IndexSet::get_index` is the item at a position, or nothing past the end.
    #[verifier::external_body]
    pub(crate) fn get_index(&self, index: usize) -> (item: Option<&T>)
        ensures
            match item {
                Some(value) => index < self@.len() && *value == self@[index as int],
                None => index >= self@.len(),
            },
    {
        self.inner.get_index(index)
    }

    /// Trusted: the clone of an `IndexSet` has clones of its items, in the same order.
    #[verifier::external_body]
    fn cloned_items(&self) -> (result: Self) where T: Eq + Clone
        ensures
            keys::key_model::<T>() ==> result@ == self@,
    {
        OrderedSet { inner: self.inner.clone(), items: Ghost(self.items@) }
    }

    /// Trusted: `==` on `IndexSet` holds of two sets with the same items, in whatever order.
    #[verifier::external_body]
    fn same_items(&self, other: &Self) -> (same: bool) where T: Hash + Eq + Clone
        ensures
            keys::key_model::<T>() ==> same == (self@.to_set() =~= other@.to_set()),
    {
        self.inner == other.inner
    }

    /// The set of the given items.
    pub fn from_items(items: Vec<T>) -> (result: Self) where T: Hash + Eq + Clone
        requires
            keys::key_model::<T>(),
        ensures
            result@ == sequences::distinct(items@),
            result.wf(),
    {
        let mut result: OrderedSet<T> = OrderedSet::new();
        let mut i: usize = 0;
        assert(items@.take(0) =~= Seq::<T>::empty());
        while i < items.len()
            invariant
                keys::key_model::<T>(),
                0 <= i <= items@.len(),
                result@ == sequences::distinct(items@.take(i as int)),
            decreases items@.len() - i,
        {
            proof {
                sequences::lemma_distinct_no_duplicates(items@.take(i as int));
                sequences::lemma_distinct_contains(items@.take(i as int), items@[i as int]);
                assert(items@.take(i + 1) =~= items@.take(i as int).push(items@[i as int]));
                sequences::lemma_distinct_push(items@.take(i as int), items@[i as int]);
            }
            result.insert(keys::copy_key(&items[i]));
            i += 1;
        }
        proof {
            assert(items@.take(i as int) =~= items@);
            sequences::lemma_distinct_no_duplicates(items@);
        }
        result
    }
}

impl<T> Default for OrderedSet<T> {
    fn default() -> (result: Self)
        ensures
            result@ == Seq::<T>::empty(),
    {
        OrderedSet::new()
    }
}

impl<T: Eq + Clone> Clone for OrderedSet<T> {
    fn clone(&self) -> (result: Self)
        ensures
            keys::key_model::<T>() ==> result@ == self@,
    {
        self.cloned_items()
    }
}

impl<T: Hash + Eq + Clone> PartialEq for OrderedSet<T> {
    fn eq(&self, other: &Self) -> (same: bool) {
        self.same_items(other)
    }
}

impl<T: Hash + Eq + Clone> Eq for OrderedSet<T> {

}

/// Two sets are equal if they have the same items, in whatever order.
impl<T: Hash + Eq + Clone> vstd::std_specs::cmp::PartialEqSpecImpl for OrderedSet<T> {
    open spec fn obeys_eq_spec() -> bool {
        keys::key_model::<T>()
    }

    open spec fn eq_spec(&self, other: &Self) -> bool {
        self@.to_set() =~= other@.to_set()
    }
}

impl<K, V> View for OrderedMap<K, V> {
    type V = Map<K, V>;

    /// The value of each key.
    closed spec fn view(&self) -> Map<K, V> {
        self.values@
    }
}

impl<K, V> OrderedMap<K, V> {
    /// The keys, in order.
    pub closed spec fn keys(&self) -> Seq<K> {
        self.keys@
    }

    /// No key occurs twice, and exactly the listed keys have a value.
    pub open spec fn wf(&self) -> bool {
        &&& self.keys().no_duplicates()
        &&& forall|k: K| #[trigger] self@.contains_key(k) <==> self.keys().contains(k)
    }

    /// The empty map. Trusted: `IndexMap::new` makes a map without entries.
    #[verifier::external_body]
    pub(crate) fn new() -> (result: Self)
        ensures
            result.keys() == Seq::<K>::empty(),
            result@ == (Map::<K, V>::empty()),
    {
        OrderedMap {
            inner: IndexMap::new(),
            keys: Ghost(Seq::empty()),
            values: Ghost(Map::empty()),
        }
    }

    /// Trusted: `IndexMap::insert` sets the value of a key. A new key goes last, and a known key
    /// keeps its place.
    #[verifier::external_body]
    pub(crate) fn insert(&mut self, key: K, value: V) -> (previous: Option<V>) where
        K: Hash + Eq + Clone,

        requires
            keys::key_model::<K>(),
            old(self).wf(),
        ensures
            match previous {
                Some(v) => old(self)@.contains_key(key) && v == old(self)@[key],
                None => !old(self)@.contains_key(key),
            },
            final(self)@ == old(self)@.insert(key, value),
            final(self).keys() == if old(self).keys().contains(key) {
                old(self).keys()
            } else {
                old(self).keys().push(key)
            },
    {
        self.inner.insert(key, value)
    }

    /// Trusted: `IndexMap::entry` followed by `or_default` gives access to the value of a key,
    /// which is the default value of its type if the key is new. A new key goes last.
    #[verifier::external_body]
    pub(crate) fn entry_or_default(&mut self, key: K) -> (slot: &mut V) where
        K: Hash + Eq + Clone,
        V: Default,

        requires
            keys::key_model::<K>(),
            old(self).wf(),
        ensures
            if old(self)@.contains_key(key) {
                *slot == old(self)@[key]
            } else {
                call_ensures(V::default, (), *slot)
            },
            final(self)@ == old(self)@.insert(key, *final(slot)),
            final(self).keys() == if old(self).keys().contains(key) {
                old(self).keys()
            } else {
                old(self).keys().push(key)
            },
    {
        self.inner.entry(key).or_default()
    }

    /// Trusted: `IndexMap::contains_key` says whether a key has a value.
    #[verifier::external_body]
    pub(crate) fn contains_key(&self, key: &K) -> (found: bool) where K: Hash + Eq + Clone
        requires
            keys::key_model::<K>(),
            self.wf(),
        ensures
            found == self@.contains_key(*key),
    {
        self.inner.contains_key(key)
    }

    /// Trusted: `IndexMap::get` is the value of a key, if it has one.
    #[verifier::external_body]
    pub(crate) fn get(&self, key: &K) -> (value: Option<&V>) where K: Hash + Eq + Clone
        requires
            keys::key_model::<K>(),
            self.wf(),
        ensures
            match value {
                Some(v) => self@.contains_key(*key) && *v == self@[*key],
                None => !self@.contains_key(*key),
            },
    {
        self.inner.get(key)
    }

    /// Trusted: `IndexMap::get_index_of` is the position of a key, if it is there.
    #[verifier::external_body]
    pub(crate) fn get_index_of(&self, key: &K) -> (position: Option<usize>) where
        K: Hash + Eq + Clone,

        requires
            keys::key_model::<K>(),
            self.wf(),
        ensures
            match position {
                Some(i) => i < self.keys().len() && self.keys()[i as int] == *key,
                None => !self.keys().contains(*key),
            },
    {
        self.inner.get_index_of(key)
    }

    /// Trusted: `IndexMap::len` is the number of keys.
    #[verifier::external_body]
    pub(crate) fn len(&self) -> (length: usize)
        ensures
            length == self.keys().len(),
    {
        self.inner.len()
    }

    /// Trusted: `IndexMap::get_index` is the key at a position with its value, or nothing past
    /// the end.
    #[verifier::external_body]
    pub(crate) fn get_index(&self, index: usize) -> (entry: Option<(&K, &V)>)
        requires
            self.wf(),
        ensures
            match entry {
                Some((key, value)) => {
                    &&& index < self.keys().len()
                    &&& *key == self.keys()[index as int]
                    &&& *value == self@[*key]
                },
                None => index >= self.keys().len(),
            },
    {
        self.inner.get_index(index)
    }

    /// Trusted: the clone of an `IndexMap` has clones of its keys, in the same order, with clones
    /// of their values.
    #[verifier::external_body]
    fn cloned_entries(&self) -> (result: Self) where K: Eq + Clone, V: Clone
        ensures
            keys::key_model::<K>() ==> {
                &&& result.keys() == self.keys()
                &&& result@.dom() == self@.dom()
                &&& forall|k: K| #[trigger]
                    self@.contains_key(k) ==> cloned(self@[k], result@[k])
            },
    {
        OrderedMap {
            inner: self.inner.clone(),
            keys: Ghost(self.keys@),
            values: Ghost(self.values@),
        }
    }

    /// Trusted: `==` on `IndexMap` holds of two maps with the same keys, in whatever order, and
    /// with equal values for each of them.
    #[verifier::external_body]
    fn same_entries(&self, other: &Self) -> (same: bool) where K: Hash + Eq + Clone, V: PartialEq
        ensures
            keys::key_model::<K>() && V::obeys_eq_spec() ==> same == {
                &&& self@.dom() =~= other@.dom()
                &&& forall|k: K| #[trigger]
                    self@.contains_key(k) ==> self@[k].eq_spec(&other@[k])
            },
    {
        self.inner == other.inner
    }

    /// The map that results from inserting the given entries one by one.
    pub fn from_entries(entries: Vec<(K, V)>) -> (result: Self) where K: Hash + Eq + Clone
        requires
            keys::key_model::<K>(),
        ensures
            result.wf(),
            result.keys() == sequences::distinct(entries@.map_values(|e: (K, V)| e.0)),
            forall|k: K| #[trigger]
                result@.contains_key(k) ==> result@[k] == sequences::ends_of(entries@, k).last(),
    {
        let mut result: OrderedMap<K, V> = OrderedMap::new();
        let ghost all = entries@;
        let ghost first = |e: (K, V)| e.0;
        assert(all.take(0).map_values(first) =~= Seq::<K>::empty());
        for entry in iter: entries.into_iter()
            invariant
                keys::key_model::<K>(),
                first == (|e: (K, V)| e.0),
                iter.seq() == all,
                result.wf(),
                result.keys() == sequences::distinct(all.take(iter.index()).map_values(first)),
                forall|k: K| #[trigger]
                    result@.contains_key(k) ==> result@[k] == sequences::ends_of(
                        all.take(iter.index()),
                        k,
                    ).last(),
        {
            let ghost i = iter.index();
            let ghost e = all[i];
            let ghost before = all.take(i);
            proof {
                assert(entry == e);
                assert(all.take(i + 1) =~= before.push(e));
                assert(before.push(e).map_values(first) =~= before.map_values(first).push(e.0));
                sequences::lemma_distinct_push(before.map_values(first), e.0);
                sequences::lemma_distinct_contains(before.map_values(first), e.0);
                sequences::lemma_distinct_no_duplicates(before.push(e).map_values(first));
                assert forall|k: K| true implies #[trigger] sequences::ends_of(
                    before.push(e),
                    k,
                ) == if e.0 == k {
                    sequences::ends_of(before, k).push(e.1)
                } else {
                    sequences::ends_of(before, k)
                } by {
                    sequences::lemma_ends_push(before, e.0, e.1, k);
                }
                assert forall|k: K| result.keys().push(e.0).contains(k) <==> (
                result.keys().contains(k) || k == e.0) by {
                    sequences::lemma_contains_push(result.keys(), e.0, k);
                }
            }
            result.insert(entry.0, entry.1);
        }
        assert(all.take(all.len() as int) =~= all);
        result
    }
}

impl<K: Eq + Clone, V: Clone> Clone for OrderedMap<K, V> {
    fn clone(&self) -> (result: Self)
        ensures
            keys::key_model::<K>() ==> {
                &&& result.keys() == self.keys()
                &&& result@.dom() == self@.dom()
                &&& forall|k: K| #[trigger]
                    self@.contains_key(k) ==> cloned(self@[k], result@[k])
            },
    {
        self.cloned_entries()
    }
}

impl<K: Hash + Eq + Clone, V: PartialEq> PartialEq for OrderedMap<K, V> {
    fn eq(&self, other: &Self) -> (same: bool) {
        self.same_entries(other)
    }
}

impl<K: Hash + Eq + Clone, V: Eq> Eq for OrderedMap<K, V> {

}

/// Two maps are equal if they have the same keys, in whatever order, with equal values.
impl<K: Hash + Eq + Clone, V: PartialEq> vstd::std_specs::cmp::PartialEqSpecImpl for OrderedMap<K, V> {
    open spec fn obeys_eq_spec() -> bool {
        keys::key_model::<K>() && V::obeys_eq_spec()
    }

    open spec fn eq_spec(&self, other: &Self) -> bool {
        &&& self@.dom() =~= other@.dom()
        &&& forall|k: K| #[trigger] self@.contains_key(k) ==> self@[k].eq_spec(&other@[k])
    }
}

} // verus!
