use crate::assoc_map::{borrowed_as, distinct_keys, map_of, rendered_text, AssocMap};
use crate::hammer_map::{unshadowed, HammerMap, HammerMapIterator};
use std::collections::HashMap;
use std::hash::Hash;
use vstd::laws_eq::obeys_concrete_eq;
use vstd::prelude::*;
use vstd::std_specs::hash::obeys_key_model;

verus! {

/// A layered map with the same behaviour as `HammerMap`, under its own
/// name; every operation is the one of the `HammerMap` it holds.
#[derive(Debug)]
pub struct ChainMap<K, V> {
    inner: HammerMap<K, V>,
}

impl<K, V> View for ChainMap<K, V> {
    type V = Map<K, V>;

    open spec fn view(&self) -> Map<K, V> {
        self.base().union_prefer_right(self.overlay()@)
    }
}

impl<K, V> ChainMap<K, V> {
    /// The shared base table.
    pub closed spec fn base(&self) -> Map<K, V> {
        self.inner.base()
    }

    /// The overlay in front of it.
    pub closed spec fn overlay(&self) -> AssocMap<K, V> {
        self.inner.overlay()
    }

    pub closed spec fn wf(&self) -> bool {
        self.inner.wf()
    }

    /// The base table's pairs in the order in which the table hands them out.
    pub closed spec fn base_order(&self) -> Seq<(K, V)> {
        self.inner.base_order()
    }

    /// The order of a walk: the overlay's live pairs, most recent first, then
    /// the base's pairs that the overlay does not shadow, in the base's order.
    pub open spec fn walk_order(&self) -> Seq<(K, V)> {
        self.overlay().live() + unshadowed(self.base_order(), self.overlay()@)
    }

    /// A map over the given table, with an empty overlay.
    pub fn new(head: HashMap<K, V>) -> (r: Self)
        ensures
            r.wf(),
            r.base() == head@,
            r.overlay().history() == Seq::<(K, V)>::empty(),
            r@ == head@,
    {
        ChainMap { inner: HammerMap::new(head) }
    }

    /// A new handle whose overlay has `(key, value)` in front; the base is
    /// shared, and this handle is unchanged.
    pub fn insert(&self, key: K, value: V) -> (r: Self)
        requires
            self.wf(),
            self.overlay().history().len() < usize::MAX,
        ensures
            r.wf(),
            r.base() == self.base(),
            r.overlay().history() == seq![(key, value)] + self.overlay().history(),
            r@ == self@.insert(key, value),
    {
        ChainMap { inner: self.inner.insert(key, value) }
    }

    /// Inserts the pairs into the overlay one after another, so that a later
    /// pair wins over an earlier one with the same key.
    pub fn insert_many(&self, items: Vec<(K, V)>) -> (r: Self)
        requires
            self.wf(),
            self.overlay().history().len() + items@.len() <= usize::MAX,
        ensures
            r.wf(),
            r.base() == self.base(),
            r.overlay().history() == items@.reverse() + self.overlay().history(),
            r@ == self@.union_prefer_right(map_of(items@.reverse())),
    {
        ChainMap { inner: self.inner.insert_many(items) }
    }

    /// Whether neither the overlay nor the base holds a pair.
    pub fn is_empty(&self) -> (r: bool)
        requires
            self.wf(),
        ensures
            r == (self@.dom() == Set::<K>::empty()),
    {
        self.inner.is_empty()
    }
}

impl<K: Eq + Hash, V> ChainMap<K, V> {
    /// A map whose base holds the pairs, a later pair winning over an
    /// earlier one with the same key, and whose overlay is empty.
    pub fn from_vec(items: Vec<(K, V)>) -> (r: Self)
        requires
            obeys_key_model::<K>(),
        ensures
            r.wf(),
            r.overlay().history() == Seq::<(K, V)>::empty(),
            r@ == map_of(items@.reverse()),
    {
        ChainMap { inner: HammerMap::from_vec(items) }
    }

    /// The overlay's value for the key if it has one, else the base's.
    pub fn get(&self, key: &K) -> (r: Option<&V>)
        requires
            obeys_concrete_eq::<K>(),
            obeys_key_model::<K>(),
        ensures
            match r {
                Some(v) => self@.contains_key(*key) && *v == self@[*key],
                None => !self@.contains_key(*key),
            },
    {
        self.inner.get(key)
    }

    pub fn contains_key(&self, key: &K) -> (r: bool)
        requires
            obeys_concrete_eq::<K>(),
            obeys_key_model::<K>(),
        ensures
            r == self@.contains_key(*key),
    {
        self.inner.contains_key(key)
    }

    /// The value of a key that the caller knows to be present. Calling it
    /// with an absent key is a programming error, which `requires` rules
    /// out; use `get` when unsure.
    pub fn index(&self, key: &K) -> (r: &V)
        requires
            obeys_concrete_eq::<K>(),
            obeys_key_model::<K>(),
            self@.contains_key(*key),
        ensures
            *r == self@[*key],
    {
        self.inner.index(key)
    }

    /// The number of distinct keys over both layers.
    pub fn len(&self) -> (r: usize)
        requires
            obeys_concrete_eq::<K>(),
            obeys_key_model::<K>(),
        ensures
            r == self@.dom().len(),
    {
        self.inner.len()
    }

    /// The live pairs: the overlay's, most recent first, then the base's
    /// that the overlay does not shadow, each key once.
    pub fn entries(&self) -> (r: Vec<(&K, &V)>)
        requires
            obeys_concrete_eq::<K>(),
            obeys_key_model::<K>(),
        ensures
            borrowed_as(r@, self.walk_order()),
            distinct_keys(self.walk_order()),
            map_of(self.walk_order()) == self@,
    {
        self.inner.entries()
    }

    /// The live keys, in the order of a walk.
    pub fn keys(&self) -> (r: Vec<&K>)
        requires
            obeys_concrete_eq::<K>(),
            obeys_key_model::<K>(),
        ensures
            r@.len() == self.walk_order().len(),
            forall|i: int| 0 <= i < r@.len() ==> *r@[i] == self.walk_order()[i].0,
    {
        self.inner.keys()
    }

    /// The live values, in the order of a walk.
    pub fn values(&self) -> (r: Vec<&V>)
        requires
            obeys_concrete_eq::<K>(),
            obeys_key_model::<K>(),
        ensures
            r@.len() == self.walk_order().len(),
            forall|i: int| 0 <= i < r@.len() ==> *r@[i] == self.walk_order()[i].1,
    {
        self.inner.values()
    }

    /// A walk over the live pairs, in the order of `entries`.
    pub fn iter(&self) -> (r: ChainMapIterator<'_, K, V>)
        requires
            obeys_concrete_eq::<K>(),
            obeys_key_model::<K>(),
        ensures
            r.wf(),
            r@ == self.walk_order(),
    {
        ChainMapIterator { inner: self.inner.iter() }
    }
}

impl<K: Eq + Hash + std::fmt::Debug, V: std::fmt::Debug> ChainMap<K, V> {
    /// The live pairs, in the order of `entries`, each rendered by `Debug` as
    /// `key: value`, between braces and separated by a comma and a space.
    pub fn to_debug_string(&self) -> (r: String)
        requires
            obeys_concrete_eq::<K>(),
            obeys_key_model::<K>(),
        ensures
            exists|rendered: Seq<(Seq<char>, Seq<char>)>|
                #[trigger] rendered.len() == self.walk_order().len() && r@ == rendered_text(rendered),
    {
        self.inner.to_debug_string()
    }
}

/// A walk over the live pairs of a `ChainMap`.
pub struct ChainMapIterator<'a, K, V> {
    inner: HammerMapIterator<'a, K, V>,
}

impl<'a, K, V> View for ChainMapIterator<'a, K, V> {
    type V = Seq<(K, V)>;

    /// The pairs still to be handed out.
    closed spec fn view(&self) -> Seq<(K, V)> {
        self.inner@
    }
}

impl<'a, K, V> ChainMapIterator<'a, K, V> {
    pub closed spec fn wf(&self) -> bool {
        self.inner.wf()
    }

    pub fn next(&mut self) -> (r: Option<(&'a K, &'a V)>)
        requires
            old(self).wf(),
        ensures
            final(self).wf(),
            old(self)@.len() == 0 ==> r is None && final(self)@ == old(self)@,
            old(self)@.len() > 0 ==> {
                &&& r matches Some(p)
                &&& *p.0 == old(self)@[0].0
                &&& *p.1 == old(self)@[0].1
                &&& final(self)@ == old(self)@.drop_first()
            },
    {
        self.inner.next()
    }
}

impl<K, V> Clone for ChainMap<K, V> {
    /// Another handle on the same overlay and the same base.
    fn clone(&self) -> (r: Self)
        ensures
            r == *self,
    {
        ChainMap { inner: self.inner.clone() }
    }
}

impl<K, V> Default for ChainMap<K, V> {
    /// A map over an empty table.
    fn default() -> (r: Self)
        ensures
            r.wf(),
            r.overlay().history() == Seq::<(K, V)>::empty(),
            r@ == Map::<K, V>::empty(),
    {
        ChainMap { inner: HammerMap::default() }
    }
}

impl<K: Eq + Hash, V: PartialEq> PartialEq for ChainMap<K, V> {
    /// Equal when both hold the same keys with the same values, whichever
    /// layer holds them.
    fn eq(&self, other: &Self) -> (r: bool) {
        self.inner == other.inner
    }
}

impl<K: Eq + Hash, V: PartialEq> vstd::std_specs::cmp::PartialEqSpecImpl for ChainMap<K, V> {
    open spec fn obeys_eq_spec() -> bool {
        obeys_concrete_eq::<K>() && obeys_key_model::<K>() && obeys_concrete_eq::<V>()
    }

    open spec fn eq_spec(&self, other: &ChainMap<K, V>) -> bool {
        self@ == other@
    }
}

} // verus!
