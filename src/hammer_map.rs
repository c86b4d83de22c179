use crate::assoc_map::{
    borrowed_as, distinct_keys, joined, lemma_dedup, lemma_distinct_len, lemma_distinct_value,
    lemma_map_of_concat, lemma_map_of_dom, map_of, render_all, render_entries, rendered_text, texts, AssocMap,
};
use crate::list::{clone_rc, same};
use std::collections::HashMap;
use std::hash::Hash;
use std::rc::Rc;
use vstd::laws_eq::obeys_concrete_eq;
use vstd::prelude::*;
use vstd::std_specs::hash::obeys_key_model;
use vstd::std_specs::iter::IteratorSpec;

verus! {

broadcast use vstd::std_specs::hash::group_hash_axioms;

/// The pairs that borrowed pairs refer to.
pub open spec fn unborrow<K, V>(r: Seq<(&K, &V)>) -> Seq<(K, V)> {
    r.map_values(|p: (&K, &V)| (*p.0, *p.1))
}

/// A layered map: a persistent association map (the overlay) in front of a
/// table that was built once and is shared, never changed, by every handle
/// derived from it (the base). A key of the overlay shadows the base.
#[derive(Debug)]
pub struct HammerMap<K, V> {
    chain: AssocMap<K, V>,
    head: Rc<HashMap<K, V>>,
}

impl<K, V> View for HammerMap<K, V> {
    type V = Map<K, V>;

    open spec fn view(&self) -> Map<K, V> {
        self.base().union_prefer_right(self.overlay()@)
    }
}

impl<K, V> HammerMap<K, V> {
    /// The shared base table.
    pub closed spec fn base(&self) -> Map<K, V> {
        self.head@
    }

    /// The overlay in front of it.
    pub closed spec fn overlay(&self) -> AssocMap<K, V> {
        self.chain
    }

    pub closed spec fn wf(&self) -> bool {
        self.chain.wf()
    }

    /// The base table's pairs in the order in which the table hands them out.
    pub closed spec fn base_order(&self) -> Seq<(K, V)> {
        vstd::std_specs::hash::into_iter(vstd::std_specs::hash::spec_hash_map_iter(&*self.head))
    }

    /// The order of a walk: the overlay's live pairs, most recent first, then
    /// the base's pairs that the overlay does not shadow, in the base's order.
    pub open spec fn walk_order(&self) -> Seq<(K, V)> {
        self.overlay().live() + unshadowed(self.base_order(), self.overlay()@)
    }

    /// A map over the given table, with an empty overlay.
    pub fn new(head: HashMap<K, V>) -> (r: Self)
        ensures
            r.wf(),
            r.base() == head@,
            r.overlay().history() == Seq::<(K, V)>::empty(),
            r@ == head@,
    {
        let r = HammerMap { chain: AssocMap::new(), head: Rc::new(head) };
        assert(r@ =~= head@);
        r
    }

    /// A new handle whose overlay has `(key, value)` in front; the base is
    /// shared, and this handle is unchanged.
    pub fn insert(&self, key: K, value: V) -> (r: Self)
        requires
            self.wf(),
            self.overlay().history().len() < usize::MAX,
        ensures
            r.wf(),
            r.base() == self.base(),
            r.overlay().history() == seq![(key, value)] + self.overlay().history(),
            r@ == self@.insert(key, value),
    {
        let r = HammerMap { chain: self.chain.insert(key, value), head: clone_rc(&self.head) };
        assert(r@ =~= self@.insert(key, value));
        r
    }

    /// Inserts the pairs into the overlay one after another, so that a later
    /// pair wins over an earlier one with the same key.
    pub fn insert_many(&self, items: Vec<(K, V)>) -> (r: Self)
        requires
            self.wf(),
            self.overlay().history().len() + items@.len() <= usize::MAX,
        ensures
            r.wf(),
            r.base() == self.base(),
            r.overlay().history() == items@.reverse() + self.overlay().history(),
            r@ == self@.union_prefer_right(map_of(items@.reverse())),
    {
        let r = HammerMap { chain: self.chain.insert_many(items), head: clone_rc(&self.head) };
        assert(r@ =~= self@.union_prefer_right(map_of(items@.reverse())));
        r
    }

    /// Whether neither the overlay nor the base holds a pair.
    pub fn is_empty(&self) -> (r: bool)
        requires
            self.wf(),
        ensures
            r == (self@.dom() == Set::<K>::empty()),
    {
        let r = self.chain.is_empty() && self.head.is_empty();
        proof {
            if !r {
                if !(self.chain@.dom() == Set::<K>::empty()) {
                    assert(!(self.chain@.dom() =~= Set::<K>::empty()));
                    let k = choose|k: K| self.chain@.dom().contains(k);
                    assert(self@.contains_key(k));
                } else {
                    assert(!(self.head@.dom() =~= Set::<K>::empty()));
                    let k = choose|k: K| self.head@.dom().contains(k);
                    assert(self@.contains_key(k));
                }
            } else {
                assert(self@.dom() =~= Set::<K>::empty());
            }
        }
        r
    }
}

impl<K: Eq + Hash, V> HammerMap<K, V> {
    /// A map whose base holds the pairs, a later pair winning over an
    /// earlier one with the same key, and whose overlay is empty.
    pub fn from_vec(items: Vec<(K, V)>) -> (r: Self)
        requires
            obeys_key_model::<K>(),
        ensures
            r.wf(),
            r.overlay().history() == Seq::<(K, V)>::empty(),
            r@ == map_of(items@.reverse()),
    {
        let mut items = items;
        let ghost all = items@;
        let mut backwards: Vec<(K, V)> = Vec::new();
        while items.len() > 0
            invariant
                items@ + backwards@.reverse() == all,
                items@.len() + backwards@.len() == all.len(),
            decreases items.len(),
        {
            let item = items.pop().unwrap();
            proof {
                assert(seq![item].reverse() =~= seq![item]);
            }
            backwards.push(item);
            assert(items@ + backwards@.reverse() =~= all);
        }
        let mut table: HashMap<K, V> = HashMap::new();
        while backwards.len() > 0
            invariant
                obeys_key_model::<K>(),
                backwards@.len() <= all.len(),
                forall|j: int|
                    0 <= j < backwards@.len() ==> #[trigger] backwards@[j] == all[all.len() - 1 - j],
                table@ == map_of(all.subrange(0, all.len() - backwards@.len()).reverse()),
            decreases backwards.len(),
        {
            let ghost k = all.len() - backwards@.len();
            let (key, value) = backwards.pop().unwrap();
            assert((key, value) == all[k]);
            assert(all.subrange(0, k + 1).reverse() =~= seq![all[k]] + all.subrange(0, k).reverse());
            assert((seq![all[k]] + all.subrange(0, k).reverse()).drop_first() =~= all.subrange(0, k).reverse());
            table.insert(key, value);
        }
        assert(all.subrange(0, all.len() as int) =~= all);
        HammerMap::new(table)
    }
}

impl<K, V> Default for HammerMap<K, V> {
    /// A map over an empty table.
    fn default() -> (r: Self)
        ensures
            r.wf(),
            r.overlay().history() == Seq::<(K, V)>::empty(),
            r@ == Map::<K, V>::empty(),
    {
        HammerMap::new(HashMap::new())
    }
}

/// One step of an iterator, as the iterator laws describe it.
fn advance<I: Iterator>(it: &mut I) -> (r: Option<I::Item>)
    ensures
        (*old(it)).obeys_prophetic_iter_laws() ==> {
            if (*old(it)).remaining().len() > 0 {
                &&& (*final(it)).remaining() == (*old(it)).remaining().drop_first()
                &&& r == Some((*old(it)).remaining()[0])
            } else {
                &&& (*final(it)).remaining() == (*old(it)).remaining()
                &&& r is None
            }
        },
{
    it.next()
}

/// The pairs of `s`, in order, whose key `shadow` does not hold.
pub open spec fn unshadowed<K, V>(s: Seq<(K, V)>, shadow: Map<K, V>) -> Seq<(K, V)>
    decreases s.len(),
{
    if s.len() == 0 {
        Seq::empty()
    } else if shadow.contains_key(s.last().0) {
        unshadowed(s.drop_last(), shadow)
    } else {
        unshadowed(s.drop_last(), shadow).push(s.last())
    }
}

/// The keys that borrowed pairs carry.
pub open spec fn keys_of<K, V>(s: Seq<(&K, &V)>) -> Set<K> {
    Set::new(|k: K| exists|i: int| 0 <= i < s.len() && *s[i].0 == k)
}

impl<K: Eq + Hash, V> HammerMap<K, V> {
    /// The live pairs: those of the overlay, most recent first, then those of
    /// the base whose key the overlay does not hold.
    pub(crate) fn walk(&self) -> (r: Vec<(&K, &V)>)
        ensures
            obeys_concrete_eq::<K>() && obeys_key_model::<K>() ==> {
                &&& unborrow(r@) == self.walk_order()
                &&& distinct_keys(unborrow(r@))
                &&& map_of(unborrow(r@)) == self@
            },
    {
        let mut out = self.chain.live_pairs();
        let ghost live = self.chain.live();
        let ghost guard = obeys_concrete_eq::<K>() && obeys_key_model::<K>();
        proof {
            if guard {
                lemma_dedup(self.chain.history(), Set::empty());
                assert(self.chain@.remove_keys(Set::empty()) =~= self.chain@);
                assert(unborrow(out@) =~= live);
                assert(live + Seq::<(K, V)>::empty() =~= live);
                assert(self.head@.restrict(Set::empty()).union_prefer_right(self.chain@) =~= self.chain@);
            }
        }
        let total = self.head.len();
        let mut it = self.head.iter();
        let ghost rem0 = it.remaining();
        let ghost mut idx: int = 0;
        proof {
            if guard {
                assert forall|i: int, j: int| 0 <= i < j < rem0.len() implies *rem0[i].0 != *rem0[j].0 by {
                    if *rem0[i].0 == *rem0[j].0 {
                        assert(self.head@.contains_key(*rem0[i].0));
                        assert(self.head@.contains_key(*rem0[j].0));
                        assert(rem0[i] == rem0[j]);
                    }
                }
                assert(keys_of(rem0.subrange(0, 0)) =~= Set::<K>::empty());
                assert(rem0.unref() == self.base_order());
                assert(rem0.unref().subrange(0, 0) =~= Seq::<(K, V)>::empty());
            }
        }
        let mut n: usize = 0;
        while n < total
            invariant
                n <= total,
                guard ==> idx == n && total == rem0.len(),
                0 <= idx <= rem0.len(),
                it.remaining() == rem0.subrange(idx, rem0.len() as int),
                guard == (obeys_concrete_eq::<K>() && obeys_key_model::<K>()),
                guard ==> {
                    &&& live == self.chain.live()
                    &&& rem0.len() == self.head@.dom().len()
                    &&& forall|i: int| 0 <= i < rem0.len() ==> #[trigger] self.head@.contains_key(*rem0[i].0)
                        && self.head@[*rem0[i].0] == *rem0[i].1
                    &&& forall|k: K| #[trigger] self.head@.contains_key(k) ==> keys_of(rem0).contains(k)
                    &&& forall|i: int, j: int| 0 <= i < j < rem0.len() ==> *rem0[i].0 != *rem0[j].0
                    &&& rem0.unref() == self.base_order()
                    &&& unborrow(out@) == live + unshadowed(rem0.unref().subrange(0, idx), self.chain@)
                    &&& distinct_keys(unborrow(out@))
                    &&& map_of(unborrow(out@)) == self.head@.restrict(
                        keys_of(rem0.subrange(0, idx)),
                    ).union_prefer_right(self.chain@)
                },
            ensures
                guard ==> idx == rem0.len(),
                guard ==> {
                    &&& rem0.unref() == self.base_order()
                    &&& unborrow(out@) == live + unshadowed(rem0.unref().subrange(0, idx), self.chain@)
                    &&& distinct_keys(unborrow(out@))
                    &&& map_of(unborrow(out@)) == self.head@.restrict(
                        keys_of(rem0.subrange(0, idx)),
                    ).union_prefer_right(self.chain@)
                    &&& forall|k: K| #[trigger] self.head@.contains_key(k) ==> keys_of(rem0).contains(k)
                    &&& forall|i: int| 0 <= i < rem0.len() ==> #[trigger] self.head@.contains_key(*rem0[i].0)
                },
            decreases total - n,
        {
            match advance(&mut it) {
                Some((k, v)) => {
                    let shadowed = self.chain.lookup(k).is_some();
                    let ghost before = out@;
                    if !shadowed {
                        out.push((k, v));
                    }
                    proof {
                        if guard {
                            let p = keys_of(rem0.subrange(0, idx));
                            let p2 = keys_of(rem0.subrange(0, idx + 1));
                            assert(rem0[idx] == (k, v));
                            assert(p2 =~= p.insert(*k)) by {
                                assert forall|x: K| p2.contains(x) implies p.insert(*k).contains(x) by {
                                    let i = choose|i: int| 0 <= i < idx + 1 && *(#[trigger] rem0.subrange(0, idx + 1)[i]).0 == x;
                                    if i < idx {
                                        assert(rem0.subrange(0, idx)[i] == rem0[i]);
                                    }
                                }
                                assert forall|x: K| p.insert(*k).contains(x) implies p2.contains(x) by {
                                    if x == *k {
                                        assert(rem0.subrange(0, idx + 1)[idx] == rem0[idx]);
                                    } else {
                                        let i = choose|i: int| 0 <= i < idx && *(#[trigger] rem0.subrange(0, idx)[i]).0 == x;
                                        assert(rem0.subrange(0, idx + 1)[i] == rem0[i]);
                                    }
                                }
                            }
                            assert(!p.contains(*k)) by {
                                if p.contains(*k) {
                                    let i = choose|i: int| 0 <= i < idx && *(#[trigger] rem0.subrange(0, idx)[i]).0 == *k;
                                    assert(rem0.subrange(0, idx)[i] == rem0[i]);
                                }
                            }
                            if shadowed {
                                let x = rem0.unref().subrange(0, idx + 1);
                                assert(x.drop_last() =~= rem0.unref().subrange(0, idx));
                                assert(x.last() == (*k, *v));
                                assert(self.chain@.contains_key(*k));
                                assert(self.head@.restrict(p2).union_prefer_right(self.chain@)
                                    =~= self.head@.restrict(p).union_prefer_right(self.chain@));
                            } else {
                                let s0 = unborrow(before);
                                assert(unborrow(out@) =~= s0 + seq![(*k, *v)]);
                                lemma_map_of_concat(s0, seq![(*k, *v)]);
                                assert(seq![(*k, *v)].drop_first() =~= Seq::<(K, V)>::empty());
                                assert(map_of(Seq::<(K, V)>::empty()) == Map::<K, V>::empty());
                                assert(map_of(seq![(*k, *v)]) == map_of(seq![(*k, *v)].drop_first()).insert(*k, *v));
                                assert(map_of(seq![(*k, *v)]) =~= Map::<K, V>::empty().insert(*k, *v));
                                assert(self.head@.contains_key(*rem0[idx].0));
                                assert(!self.chain@.contains_key(*k));
                                assert(!map_of(s0).contains_key(*k));
                                assert(map_of(unborrow(out@)) =~= self.head@.restrict(p2).union_prefer_right(
                                    self.chain@,
                                ));
                                lemma_map_of_dom(s0);
                                assert(distinct_keys(unborrow(out@))) by {
                                    let t = unborrow(out@);
                                    assert forall|i: int, j: int| 0 <= i < j < t.len() implies t[i].0 != t[j].0 by {
                                        if j == t.len() - 1 {
                                            assert(t[i] == s0[i]);
                                        } else {
                                            assert(t[i] == s0[i] && t[j] == s0[j]);
                                        }
                                    }
                                }
                                let x = rem0.unref().subrange(0, idx + 1);
                                assert(x.drop_last() =~= rem0.unref().subrange(0, idx));
                                assert(x.last() == (*k, *v));
                                assert(unborrow(out@) =~= live + unshadowed(x, self.chain@));
                            }
                        }
                        idx = idx + 1;
                        assert(it.remaining() =~= rem0.subrange(idx, rem0.len() as int));
                    }
                    n = n + 1;
                },
                None => {
                    proof {
                        if guard {
                            assert(idx == rem0.len());
                        }
                    }
                    break;
                },
            }
        }
        proof {
            if guard {
                assert(rem0.subrange(0, idx) =~= rem0);
                assert(rem0.unref().subrange(0, idx) =~= rem0.unref());
                assert(self.head@.restrict(keys_of(rem0)) =~= self.head@);
            }
        }
        out
    }

    fn find(&self, key: &K) -> (r: Option<&V>)
        ensures
            obeys_concrete_eq::<K>() && obeys_key_model::<K>() ==> match r {
                Some(v) => self@.contains_key(*key) && *v == self@[*key],
                None => !self@.contains_key(*key),
            },
    {
        match self.chain.lookup(key) {
            Some(v) => Some(v),
            None => self.head.get(key),
        }
    }

    /// The overlay's value for the key if it has one, else the base's.
    pub fn get(&self, key: &K) -> (r: Option<&V>)
        requires
            obeys_concrete_eq::<K>(),
            obeys_key_model::<K>(),
        ensures
            match r {
                Some(v) => self@.contains_key(*key) && *v == self@[*key],
                None => !self@.contains_key(*key),
            },
    {
        self.find(key)
    }

    pub fn contains_key(&self, key: &K) -> (r: bool)
        requires
            obeys_concrete_eq::<K>(),
            obeys_key_model::<K>(),
        ensures
            r == self@.contains_key(*key),
    {
        self.find(key).is_some()
    }

    /// The value of a key that the caller knows to be present. Calling it
    /// with an absent key is a programming error, which `requires` rules
    /// out; use `get` when unsure.
    pub fn index(&self, key: &K) -> (r: &V)
        requires
            obeys_concrete_eq::<K>(),
            obeys_key_model::<K>(),
            self@.contains_key(*key),
        ensures
            *r == self@[*key],
    {
        self.find(key).unwrap()
    }

    /// The number of distinct keys over both layers.
    pub fn len(&self) -> (r: usize)
        requires
            obeys_concrete_eq::<K>(),
            obeys_key_model::<K>(),
        ensures
            r == self@.dom().len(),
    {
        let all = self.walk();
        proof {
            lemma_distinct_len(unborrow(all@));
        }
        all.len()
    }

    /// The live pairs: the overlay's, most recent first, then the base's
    /// that the overlay does not shadow, each key once.
    pub fn entries(&self) -> (r: Vec<(&K, &V)>)
        requires
            obeys_concrete_eq::<K>(),
            obeys_key_model::<K>(),
        ensures
            borrowed_as(r@, self.walk_order()),
            distinct_keys(self.walk_order()),
            map_of(self.walk_order()) == self@,
    {
        self.walk()
    }

    /// The live keys, in the order of `entries`.
    pub fn keys(&self) -> (r: Vec<&K>)
        requires
            obeys_concrete_eq::<K>(),
            obeys_key_model::<K>(),
        ensures
            r@.len() == self.walk_order().len(),
            forall|i: int| 0 <= i < r@.len() ==> *r@[i] == self.walk_order()[i].0,
    {
        let all = self.walk();
        let mut out: Vec<&K> = Vec::new();
        let mut i: usize = 0;
        while i < all.len()
            invariant
                i <= all@.len(),
                out@.len() == i,
                forall|j: int| 0 <= j < i ==> *out@[j] == *all@[j].0,
            decreases all@.len() - i,
        {
            out.push(all[i].0);
            i = i + 1;
        }
        assert(unborrow(all@).len() == out@.len());
        assert(forall|j: int| 0 <= j < out@.len() ==> unborrow(all@)[j] == (*all@[j].0, *all@[j].1));
        out
    }

    /// The live values, in the order of `entries`.
    pub fn values(&self) -> (r: Vec<&V>)
        requires
            obeys_concrete_eq::<K>(),
            obeys_key_model::<K>(),
        ensures
            r@.len() == self.walk_order().len(),
            forall|i: int| 0 <= i < r@.len() ==> *r@[i] == self.walk_order()[i].1,
    {
        let all = self.walk();
        let mut out: Vec<&V> = Vec::new();
        let mut i: usize = 0;
        while i < all.len()
            invariant
                i <= all@.len(),
                out@.len() == i,
                forall|j: int| 0 <= j < i ==> *out@[j] == *all@[j].1,
            decreases all@.len() - i,
        {
            out.push(all[i].1);
            i = i + 1;
        }
        assert(unborrow(all@).len() == out@.len());
        assert(forall|j: int| 0 <= j < out@.len() ==> unborrow(all@)[j] == (*all@[j].0, *all@[j].1));
        out
    }

    /// A walk over the live pairs, in the order of `entries`.
    pub fn iter(&self) -> (r: HammerMapIterator<'_, K, V>)
        requires
            obeys_concrete_eq::<K>(),
            obeys_key_model::<K>(),
        ensures
            r.wf(),
            r@ == self.walk_order(),
    {
        let all = self.walk();
        let r = HammerMapIterator { pairs: all, index: 0 };
        assert(r@ =~= unborrow(all@));
        r
    }
}

/// A walk over the live pairs of a layered map.
pub struct HammerMapIterator<'a, K, V> {
    pairs: Vec<(&'a K, &'a V)>,
    index: usize,
}

impl<'a, K, V> View for HammerMapIterator<'a, K, V> {
    type V = Seq<(K, V)>;

    /// The pairs still to be handed out.
    closed spec fn view(&self) -> Seq<(K, V)> {
        unborrow(self.pairs@).subrange(self.index as int, self.pairs@.len() as int)
    }
}

impl<'a, K, V> HammerMapIterator<'a, K, V> {
    pub closed spec fn wf(&self) -> bool {
        self.index <= self.pairs@.len()
    }

    pub fn next(&mut self) -> (r: Option<(&'a K, &'a V)>)
        requires
            old(self).wf(),
        ensures
            final(self).wf(),
            old(self)@.len() == 0 ==> r is None && final(self)@ == old(self)@,
            old(self)@.len() > 0 ==> {
                &&& r matches Some(p)
                &&& *p.0 == old(self)@[0].0
                &&& *p.1 == old(self)@[0].1
                &&& final(self)@ == old(self)@.drop_first()
            },
    {
        if self.index < self.pairs.len() {
            let p = self.pairs[self.index];
            assert(unborrow(self.pairs@)[self.index as int] == (*p.0, *p.1));
            self.index = self.index + 1;
            assert(self@ =~= old(self)@.drop_first());
            Some(p)
        } else {
            None
        }
    }
}

impl<K, V> Clone for HammerMap<K, V> {
    /// Another handle on the same overlay and the same base.
    fn clone(&self) -> (r: Self)
        ensures
            r == *self,
    {
        HammerMap { chain: self.chain.clone(), head: clone_rc(&self.head) }
    }
}

impl<K: Eq + Hash, V: PartialEq> PartialEq for HammerMap<K, V> {
    /// Equal when both hold the same keys with the same values, whichever
    /// layer holds them: the walks have the same length and every pair of
    /// the other's walk is found in this map, through its overlay and its
    /// base table (no table of borrowed keys is built: vstd's hash-table
    /// model does not cover references to an arbitrary key type).
    fn eq(&self, other: &Self) -> (r: bool) {
        let mine = self.walk();
        let theirs = other.walk();
        let ghost guard = obeys_concrete_eq::<K>() && obeys_key_model::<K>()
            && obeys_concrete_eq::<V>();
        let ghost t = unborrow(theirs@);
        proof {
            if guard {
                lemma_distinct_len(unborrow(mine@));
                lemma_distinct_len(t);
            }
        }
        if mine.len() != theirs.len() {
            return false;
        }
        let mut i: usize = 0;
        while i < theirs.len()
            invariant
                i <= theirs@.len(),
                t == unborrow(theirs@),
                guard == (obeys_concrete_eq::<K>() && obeys_key_model::<K>()
                    && obeys_concrete_eq::<V>()),
                guard ==> {
                    &&& distinct_keys(t)
                    &&& map_of(t) == other@
                    &&& forall|j: int|
                        0 <= j < i ==> #[trigger] self@.contains_key(t[j].0) && self@[t[j].0]
                            == t[j].1
                },
            decreases theirs@.len() - i,
        {
            let (k, v) = theirs[i];
            match self.find(k) {
                Some(w) => {
                    if !same(w, v) {
                        proof {
                            if guard {
                                lemma_distinct_value(t, i as int);
                            }
                        }
                        return false;
                    }
                    proof {
                        if guard {
                            let j = i as int;
                            assert(*k == t[j].0 && *v == t[j].1);
                            assert(self@.contains_key(t[j].0));
                            assert(forall|j: int|
                                0 <= j < i + 1 ==> #[trigger] self@.contains_key(t[j].0)
                                    && self@[t[j].0] == t[j].1);
                        }
                    }
                },
                None => {
                    proof {
                        if guard {
                            lemma_distinct_value(t, i as int);
                        }
                    }
                    return false;
                },
            }
            i = i + 1;
        }
        proof {
            if guard {
                lemma_map_of_dom(t);
                assert(other@.dom().subset_of(self@.dom())) by {
                    assert forall|k: K| other@.contains_key(k) implies self@.contains_key(k) by {
                        let j = choose|j: int| 0 <= j < t.len() && t[j].0 == k;
                        assert(self@.contains_key(t[j].0));
                    }
                }
                vstd::set_lib::lemma_subset_equality(other@.dom(), self@.dom());
                assert forall|k: K| other@.contains_key(k) implies self@[k] == other@[k] by {
                    let j = choose|j: int| 0 <= j < t.len() && t[j].0 == k;
                    assert(self@.contains_key(t[j].0));
                    lemma_distinct_value(t, j);
                }
                assert(self@ =~= other@);
            }
        }
        true
    }
}

impl<K: Eq + Hash, V: PartialEq> vstd::std_specs::cmp::PartialEqSpecImpl for HammerMap<K, V> {
    open spec fn obeys_eq_spec() -> bool {
        obeys_concrete_eq::<K>() && obeys_key_model::<K>() && obeys_concrete_eq::<V>()
    }

    open spec fn eq_spec(&self, other: &HammerMap<K, V>) -> bool {
        self@ == other@
    }
}

impl<K: Eq + Hash + std::fmt::Debug, V: std::fmt::Debug> HammerMap<K, V> {
    /// The live pairs, in the order of `entries`, each key and value rendered
    /// by its `Debug` impl and laid out by `render_entries`.
    pub fn to_debug_string(&self) -> (r: String)
        requires
            obeys_concrete_eq::<K>(),
            obeys_key_model::<K>(),
        ensures
            exists|rendered: Seq<(Seq<char>, Seq<char>)>|
                #[trigger] rendered.len() == self.walk_order().len() && r@ == rendered_text(rendered),
    {
        let all = self.walk();
        let rendered = render_all(&all);
        let r = render_entries(rendered);
        assert(texts(rendered@).len() == self.walk_order().len());
        r
    }
}

/// A map made over a base that maps `k` to `v1` reads `v1` for `k`; once `k`
/// is inserted with `v2`, the overlay shadows the base and `k` reads `v2`.
pub proof fn lemma_overlay_shadows_base<K, V>(m: HammerMap<K, V>, k: K, v1: V, v2: V)
    requires
        m.base() == map![k => v1],
        m.overlay().history() == Seq::<(K, V)>::empty(),
    ensures
        m@.contains_key(k),
        m@[k] == v1,
        m@.insert(k, v2).contains_key(k),
        m@.insert(k, v2)[k] == v2,
{
    assert(m.overlay()@ == Map::<K, V>::empty());
}

} // verus!
