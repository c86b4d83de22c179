use crate::list::{same, List, ListIterator};
use vstd::laws_eq::obeys_concrete_eq;
use vstd::prelude::*;
use vstd::string::StringExecFns;

verus! {

/// The map that a most-recent-first sequence of pairs stands for: the first
/// pair with a given key decides its value.
pub open spec fn map_of<K, V>(s: Seq<(K, V)>) -> Map<K, V>
    decreases s.len(),
{
    if s.len() == 0 {
        Map::empty()
    } else {
        map_of(s.drop_first()).insert(s[0].0, s[0].1)
    }
}

/// The pairs of `s` in order, leaving out each pair whose key is in `seen`
/// or has already occurred earlier in `s`.
pub open spec fn dedup<K, V>(s: Seq<(K, V)>, seen: Set<K>) -> Seq<(K, V)>
    decreases s.len(),
{
    if s.len() == 0 {
        Seq::empty()
    } else if seen.contains(s[0].0) {
        dedup(s.drop_first(), seen)
    } else {
        seq![s[0]] + dedup(s.drop_first(), seen.insert(s[0].0))
    }
}

/// No key occurs twice.
pub open spec fn distinct_keys<K, V>(s: Seq<(K, V)>) -> bool {
    forall|i: int, j: int| 0 <= i < j < s.len() ==> s[i].0 != s[j].0
}

/// A key is in the map exactly when some pair carries it.
pub proof fn lemma_map_of_dom<K, V>(s: Seq<(K, V)>)
    ensures
        map_of(s).dom().finite(),
        forall|k: K| #[trigger]
            map_of(s).contains_key(k) <==> exists|i: int| 0 <= i < s.len() && s[i].0 == k,
    decreases s.len(),
{
    if s.len() > 0 {
        let rest = s.drop_first();
        lemma_map_of_dom(rest);
        assert forall|k: K| #[trigger]
            map_of(s).contains_key(k) <==> exists|i: int| 0 <= i < s.len() && s[i].0 == k by {
            if map_of(rest).contains_key(k) {
                let i = choose|i: int| 0 <= i < rest.len() && rest[i].0 == k;
                assert(s[i + 1].0 == k);
            }
            if exists|i: int| 0 <= i < s.len() && s[i].0 == k {
                let i = choose|i: int| 0 <= i < s.len() && s[i].0 == k;
                if i > 0 {
                    assert(rest[i - 1].0 == k);
                }
            }
        }
    }
}

/// Leaving out repeated keys, and the keys of `seen`, keeps the map except
/// for `seen`, and what is left has distinct keys.
pub proof fn lemma_dedup<K, V>(s: Seq<(K, V)>, seen: Set<K>)
    ensures
        distinct_keys(dedup(s, seen)),
        forall|i: int| 0 <= i < dedup(s, seen).len() ==> !seen.contains(#[trigger] dedup(s, seen)[i].0),
        map_of(dedup(s, seen)) == map_of(s).remove_keys(seen),
        dedup(s, seen).len() <= s.len(),
    decreases s.len(),
{
    if s.len() == 0 {
        assert(map_of(s).remove_keys(seen) =~= map_of(dedup(s, seen)));
    } else {
        let rest = s.drop_first();
        let k = s[0].0;
        if seen.contains(k) {
            lemma_dedup(rest, seen);
            assert(map_of(s).remove_keys(seen) =~= map_of(rest).remove_keys(seen));
        } else {
            let seen2 = seen.insert(k);
            lemma_dedup(rest, seen2);
            let d = dedup(rest, seen2);
            let t = dedup(s, seen);
            assert(t.drop_first() =~= d);
            assert(map_of(t) =~= map_of(s).remove_keys(seen));
            assert forall|i: int, j: int| 0 <= i < j < t.len() implies t[i].0 != t[j].0 by {
                if i > 0 {
                    assert(t[i] == d[i - 1]);
                }
                assert(t[j] == d[j - 1]);
                assert(!seen2.contains(d[j - 1].0));
            }
            assert forall|i: int| 0 <= i < t.len() implies !seen.contains(#[trigger] t[i].0) by {
                if i > 0 {
                    assert(t[i] == d[i - 1]);
                    assert(!seen2.contains(d[i - 1].0));
                }
            }
        }
    }
}

/// With distinct keys, the map has one key per pair.
pub proof fn lemma_distinct_len<K, V>(t: Seq<(K, V)>)
    requires
        distinct_keys(t),
    ensures
        map_of(t).dom().finite(),
        map_of(t).dom().len() == t.len(),
    decreases t.len(),
{
    lemma_map_of_dom(t);
    if t.len() > 0 {
        let rest = t.drop_first();
        assert(distinct_keys(rest)) by {
            assert forall|i: int, j: int| 0 <= i < j < rest.len() implies rest[i].0 != rest[j].0 by {
                assert(rest[i] == t[i + 1] && rest[j] == t[j + 1]);
            }
        }
        lemma_distinct_len(rest);
        lemma_map_of_dom(rest);
        if map_of(rest).contains_key(t[0].0) {
            let i = choose|i: int| 0 <= i < rest.len() && rest[i].0 == t[0].0;
            assert(t[i + 1].0 == t[0].0);
        }
    }
}

/// With distinct keys, each pair gives its key's value.
pub proof fn lemma_distinct_value<K, V>(t: Seq<(K, V)>, j: int)
    requires
        distinct_keys(t),
        0 <= j < t.len(),
    ensures
        map_of(t).contains_key(t[j].0),
        map_of(t)[t[j].0] == t[j].1,
    decreases t.len(),
{
    if j > 0 {
        let rest = t.drop_first();
        assert(distinct_keys(rest)) by {
            assert forall|a: int, b: int| 0 <= a < b < rest.len() implies rest[a].0 != rest[b].0 by {
                assert(rest[a] == t[a + 1] && rest[b] == t[b + 1]);
            }
        }
        assert(rest[j - 1] == t[j]);
        lemma_distinct_value(rest, j - 1);
    }
}

/// Pairs in front take precedence over the pairs behind them.
pub proof fn lemma_map_of_concat<K, V>(a: Seq<(K, V)>, b: Seq<(K, V)>)
    ensures
        map_of(a + b) == map_of(b).union_prefer_right(map_of(a)),
    decreases a.len(),
{
    if a.len() == 0 {
        assert(a + b =~= b);
        assert(map_of(b).union_prefer_right(map_of(a)) =~= map_of(b));
    } else {
        lemma_map_of_concat(a.drop_first(), b);
        assert((a + b).drop_first() =~= a.drop_first() + b);
        assert(map_of(a + b) =~= map_of(b).union_prefer_right(map_of(a)));
    }
}

/// The keys that a list of borrowed keys refers to.
pub open spec fn seen_keys<K>(v: Seq<&K>) -> Set<K> {
    Set::new(|k: K| exists|i: int| 0 <= i < v.len() && *v[i] == k)
}

// The keys seen so far are held as a list of borrowed keys scanned with `==`,
// not a `HashSet<&K>`: vstd's hash-table model holds only for key types with
// `obeys_key_model`, which it gives to primitive types and boxes, not to
// references to an arbitrary key type, so a hash set here would prove nothing.
fn seen_contains<K: PartialEq>(seen: &Vec<&K>, key: &K) -> (r: bool)
    ensures
        obeys_concrete_eq::<K>() ==> r == seen_keys(seen@).contains(*key),
{
    let mut i: usize = 0;
    while i < seen.len()
        invariant
            i <= seen@.len(),
            obeys_concrete_eq::<K>() ==> forall|j: int| 0 <= j < i ==> *seen@[j] != *key,
        decreases seen@.len() - i,
    {
        if same(seen[i], key) {
            return true;
        }
        i = i + 1;
    }
    false
}

/// A walk over the live pairs of a map, most recent first: a pair is handed
/// out unless a pair with the same key came before it.
pub struct MapIterator<'a, K, V> {
    items: ListIterator<'a, (K, V)>,
    seen: Vec<&'a K>,
}

impl<'a, K, V> View for MapIterator<'a, K, V> {
    type V = Seq<(K, V)>;

    /// The pairs still to be handed out.
    closed spec fn view(&self) -> Seq<(K, V)> {
        dedup(self.items@, seen_keys(self.seen@))
    }
}

impl<'a, K, V> MapIterator<'a, K, V> {
    /// How many pairs of the underlying list are still to be read.
    pub closed spec fn unread(&self) -> nat {
        self.items@.len()
    }
}

impl<'a, K: PartialEq, V> MapIterator<'a, K, V> {
    /// Hands out the next live pair. The contract holds where `==` on keys
    /// is plain equality.
    pub fn next(&mut self) -> (r: Option<(&'a K, &'a V)>)
        ensures
            r is Some ==> final(self).unread() < old(self).unread(),
            obeys_concrete_eq::<K>() ==> {
                &&& old(self)@.len() == 0 ==> r is None
                &&& old(self)@.len() > 0 ==> {
                    &&& r matches Some(p)
                    &&& *p.0 == old(self)@[0].0
                    &&& *p.1 == old(self)@[0].1
                    &&& final(self)@ == old(self)@.drop_first()
                }
            },
    {
        loop
            invariant
                obeys_concrete_eq::<K>() ==> self@ == old(self)@,
                self.unread() <= old(self).unread(),
            decreases self.items@.len(),
        {
            match self.items.next() {
                Some(pair) => {
                    let key = &pair.0;
                    if seen_contains(&self.seen, key) {
                        continue;
                    }
                    let ghost old_seen = self.seen@;
                    self.seen.push(key);
                    proof {
                        assert(seen_keys(self.seen@) =~= seen_keys(old_seen).insert(*key)) by {
                            assert(*self.seen@[old_seen.len() as int] == *key);
                            assert forall|k: K| seen_keys(old_seen).contains(k) implies seen_keys(
                                self.seen@,
                            ).contains(k) by {
                                let i = choose|i: int| 0 <= i < old_seen.len() && *old_seen[i] == k;
                                assert(self.seen@[i] == old_seen[i]);
                            }
                            assert forall|k: K| seen_keys(self.seen@).contains(k) implies (
                            seen_keys(old_seen).contains(k) || k == *key) by {
                                let i = choose|i: int| 0 <= i < self.seen@.len() && *self.seen@[i] == k;
                                if i < old_seen.len() {
                                    assert(self.seen@[i] == old_seen[i]);
                                }
                            }
                        }
                    }
                    return Some((key, &pair.1));
                },
                None => {
                    return None;
                },
            }
        }
    }
}

/// A persistent association map: a persistent list of key/value pairs,
/// most recent first. Inserting prepends a pair and never removes one; the
/// first pair with a key decides its value.
#[derive(Debug)]
pub struct AssocMap<K, V> {
    pairs: List<(K, V)>,
}

impl<K, V> View for AssocMap<K, V> {
    type V = Map<K, V>;

    open spec fn view(&self) -> Map<K, V> {
        map_of(self.history())
    }
}

/// The pairs of a live walk, borrowed.
pub open spec fn borrowed_as<K, V>(r: Seq<(&K, &V)>, s: Seq<(K, V)>) -> bool {
    &&& r.len() == s.len()
    &&& forall|i: int| 0 <= i < s.len() ==> *r[i].0 == s[i].0 && *r[i].1 == s[i].1
}

impl<K, V> AssocMap<K, V> {
    /// Every pair inserted so far, most recent first, shadowed ones included.
    pub closed spec fn history(&self) -> Seq<(K, V)> {
        self.pairs@
    }

    pub closed spec fn wf(&self) -> bool {
        self.pairs.wf()
    }

    /// The live pairs in the order a walk hands them out: one per key, most
    /// recent first.
    pub open spec fn live(&self) -> Seq<(K, V)> {
        dedup(self.history(), Set::empty())
    }

    pub fn new() -> (r: Self)
        ensures
            r.wf(),
            r.history() == Seq::<(K, V)>::empty(),
            r@ == Map::<K, V>::empty(),
    {
        AssocMap { pairs: List::new() }
    }

    /// A new handle with `(key, value)` in front; this handle is unchanged.
    pub fn insert(&self, key: K, value: V) -> (r: Self)
        requires
            self.wf(),
            self.history().len() < usize::MAX,
        ensures
            r.wf(),
            r.history() == seq![(key, value)] + self.history(),
            r@ == self@.insert(key, value),
    {
        let r = AssocMap { pairs: self.pairs.push_front((key, value)) };
        assert(r.history().drop_first() =~= self.history());
        r
    }

    /// Inserts the pairs one after another, so that a later pair wins over
    /// an earlier one with the same key.
    pub fn insert_many(&self, items: Vec<(K, V)>) -> (r: Self)
        requires
            self.wf(),
            self.history().len() + items@.len() <= usize::MAX,
        ensures
            r.wf(),
            r.history() == items@.reverse() + self.history(),
            r@ == self@.union_prefer_right(map_of(items@.reverse())),
    {
        let r = AssocMap { pairs: self.pairs.push_front_many(items) };
        proof {
            lemma_map_of_concat(items@.reverse(), self.history());
        }
        r
    }

    /// The map built by inserting the pairs in order into an empty map.
    pub fn from_vec(items: Vec<(K, V)>) -> (r: Self)
        ensures
            r.wf(),
            r.history() == items@.reverse(),
            r@ == map_of(items@.reverse()),
    {
        let _count = items.len();
        let r = AssocMap::new().insert_many(items);
        assert(r.history() =~= items@.reverse());
        r
    }

    /// Whether no pair was ever inserted, which is when the map is empty.
    pub fn is_empty(&self) -> (r: bool)
        requires
            self.wf(),
        ensures
            r == (self@.dom() == Set::<K>::empty()),
    {
        proof {
            lemma_map_of_dom(self.history());
            if self.history().len() > 0 {
                assert(self@.contains_key(self.history()[0].0));
            } else {
                assert(self@.dom() =~= Set::<K>::empty());
            }
        }
        self.pairs.is_empty()
    }

    /// A fresh walk over the live pairs.
    pub fn iter(&self) -> (r: MapIterator<'_, K, V>)
        ensures
            r@ == self.live(),
    {
        let r = MapIterator { items: self.pairs.iter(), seen: Vec::new() };
        assert(seen_keys(r.seen@) =~= Set::<K>::empty());
        r
    }
}

impl<K: PartialEq, V> AssocMap<K, V> {
    pub(crate) fn lookup(&self, key: &K) -> (r: Option<&V>)
        ensures
            obeys_concrete_eq::<K>() ==> match r {
                Some(v) => self@.contains_key(*key) && *v == self@[*key],
                None => !self@.contains_key(*key),
            },
    {
        let mut it = self.pairs.iter();
        loop
            invariant
                obeys_concrete_eq::<K>() ==> (self@.contains_key(*key) == map_of(
                    it@,
                ).contains_key(*key) && (self@.contains_key(*key) ==> self@[*key] == map_of(
                    it@,
                )[*key])),
            decreases it@.len(),
        {
            match it.next() {
                Some(pair) => {
                    if same(&pair.0, key) {
                        return Some(&pair.1);
                    }
                },
                None => {
                    return None;
                },
            }
        }
    }

    pub(crate) fn live_pairs(&self) -> (r: Vec<(&K, &V)>)
        ensures
            obeys_concrete_eq::<K>() ==> borrowed_as(r@, self.live()),
    {
        let mut it = self.iter();
        let mut out: Vec<(&K, &V)> = Vec::new();
        let ghost all = self.live();
        proof {
            lemma_dedup(self.history(), Set::empty());
        }
        loop
            invariant
                all == self.live(),
                obeys_concrete_eq::<K>() ==> {
                    &&& out@.len() + it@.len() == all.len()
                    &&& borrowed_as(out@, all.subrange(0, out@.len() as int))
                    &&& it@ == all.subrange(out@.len() as int, all.len() as int)
                },
            decreases it.unread(),
        {
            let ghost before = it@;
            match it.next() {
                Some(p) => {
                    out.push(p);
                },
                None => {
                    proof {
                        if obeys_concrete_eq::<K>() {
                            assert(before.len() == 0);
                            assert(all.subrange(0, all.len() as int) =~= all);
                        }
                    }
                    return out;
                },
            }
        }
    }

    /// The value of the most recent pair with this key.
    pub fn get(&self, key: &K) -> (r: Option<&V>)
        requires
            obeys_concrete_eq::<K>(),
        ensures
            match r {
                Some(v) => self@.contains_key(*key) && *v == self@[*key],
                None => !self@.contains_key(*key),
            },
    {
        self.lookup(key)
    }

    pub fn contains_key(&self, key: &K) -> (r: bool)
        requires
            obeys_concrete_eq::<K>(),
        ensures
            r == self@.contains_key(*key),
    {
        self.lookup(key).is_some()
    }

    /// The value of a key that the caller knows to be present. Calling it
    /// with an absent key is a programming error, which `requires` rules
    /// out; use `get` when unsure.
    pub fn index(&self, key: &K) -> (r: &V)
        requires
            obeys_concrete_eq::<K>(),
            self@.contains_key(*key),
        ensures
            *r == self@[*key],
    {
        self.lookup(key).unwrap()
    }

    /// The number of distinct keys: the length of a walk, which hands out each
    /// key once (counted without a hash set, for the reason given at
    /// `seen_contains`).
    pub fn len(&self) -> (r: usize)
        requires
            obeys_concrete_eq::<K>(),
        ensures
            r == self@.dom().len(),
    {
        let live = self.live_pairs();
        proof {
            lemma_dedup(self.history(), Set::empty());
            lemma_distinct_len(self.live());
            assert(self@.remove_keys(Set::empty()) =~= self@);
        }
        live.len()
    }

    /// The live pairs, most recent first.
    pub fn entries(&self) -> (r: Vec<(&K, &V)>)
        requires
            obeys_concrete_eq::<K>(),
        ensures
            borrowed_as(r@, self.live()),
    {
        self.live_pairs()
    }

    /// The live keys, most recent first.
    pub fn keys(&self) -> (r: Vec<&K>)
        requires
            obeys_concrete_eq::<K>(),
        ensures
            r@.len() == self.live().len(),
            forall|i: int| 0 <= i < r@.len() ==> *r@[i] == self.live()[i].0,
    {
        let live = self.live_pairs();
        let mut out: Vec<&K> = Vec::new();
        let mut i: usize = 0;
        while i < live.len()
            invariant
                borrowed_as(live@, self.live()),
                i <= live@.len(),
                out@.len() == i,
                forall|j: int| 0 <= j < i ==> *out@[j] == self.live()[j].0,
            decreases live@.len() - i,
        {
            out.push(live[i].0);
            i = i + 1;
        }
        out
    }

    /// The values of the live pairs, most recent first.
    pub fn values(&self) -> (r: Vec<&V>)
        requires
            obeys_concrete_eq::<K>(),
        ensures
            r@.len() == self.live().len(),
            forall|i: int| 0 <= i < r@.len() ==> *r@[i] == self.live()[i].1,
    {
        let live = self.live_pairs();
        let mut out: Vec<&V> = Vec::new();
        let mut i: usize = 0;
        while i < live.len()
            invariant
                borrowed_as(live@, self.live()),
                i <= live@.len(),
                out@.len() == i,
                forall|j: int| 0 <= j < i ==> *out@[j] == self.live()[j].1,
            decreases live@.len() - i,
        {
            out.push(live[i].1);
            i = i + 1;
        }
        out
    }
}

/// Relies on the `Debug` impl of the value's type to render it as text.
#[verifier::external_body]
pub(crate) fn render_value<T: std::fmt::Debug>(x: &T) -> String {
    format!("{:?}", x)
}

/// The pieces one after another, with a comma and a space between two.
pub open spec fn joined(pieces: Seq<Seq<char>>) -> Seq<char>
    decreases pieces.len(),
{
    if pieces.len() == 0 {
        Seq::empty()
    } else if pieces.len() == 1 {
        pieces[0]
    } else {
        joined(pieces.drop_last()) + seq![',', ' '] + pieces.last()
    }
}

/// The text of rendered pairs: each pair as `key: value`, the pairs between
/// braces and separated by a comma and a space.
pub open spec fn rendered_text(rendered: Seq<(Seq<char>, Seq<char>)>) -> Seq<char> {
    seq!['{'] + joined(rendered.map_values(|p: (Seq<char>, Seq<char>)| p.0 + seq![':', ' '] + p.1))
        + seq!['}']
}

/// The characters of each rendered key and value.
pub open spec fn texts(v: Seq<(String, String)>) -> Seq<(Seq<char>, Seq<char>)> {
    v.map_values(|p: (String, String)| (p.0@, p.1@))
}

/// Lays out already rendered keys and values, in the given order, as
/// `{key: value, key: value}`.
pub fn render_entries(rendered: Vec<(String, String)>) -> (r: String)
    ensures
        r@ == rendered_text(texts(rendered@)),
{
    let ghost all = texts(rendered@);
    let ghost piece = |p: (Seq<char>, Seq<char>)| p.0 + seq![':', ' '] + p.1;
    proof {
        reveal_strlit("{");
        reveal_strlit("}");
        reveal_strlit(", ");
        reveal_strlit(": ");
    }
    let mut out = String::from_str("{");
    let mut i: usize = 0;
    assert(all.subrange(0, 0).map_values(piece) =~= Seq::<Seq<char>>::empty());
    while i < rendered.len()
        invariant
            i <= rendered@.len(),
            all == texts(rendered@),
            piece == (|p: (Seq<char>, Seq<char>)| p.0 + seq![':', ' '] + p.1),
            out@ == seq!['{'] + joined(all.subrange(0, i as int).map_values(piece)),
            ", "@ == seq![',', ' '],
            ": "@ == seq![':', ' '],
            "}"@ == seq!['}'],
        decreases rendered@.len() - i,
    {
        let ghost before = all.subrange(0, i as int).map_values(piece);
        if i > 0 {
            out.append(", ");
        }
        out.append(rendered[i].0.as_str());
        out.append(": ");
        out.append(rendered[i].1.as_str());
        proof {
            let after = all.subrange(0, i + 1).map_values(piece);
            assert(all[i as int] == (rendered@[i as int].0@, rendered@[i as int].1@));
            assert(after.drop_last() =~= before);
            assert(after.last() == piece(all[i as int]));
            assert(out@ =~= seq!['{'] + joined(after));
        }
        i = i + 1;
    }
    out.append("}");
    assert(all.subrange(0, all.len() as int) =~= all);
    out
}

impl<K: PartialEq + std::fmt::Debug, V: std::fmt::Debug> AssocMap<K, V> {
    /// The live pairs, most recent first, each key and value rendered by its
    /// `Debug` impl and laid out by `render_entries`.
    pub fn to_debug_string(&self) -> (r: String)
        requires
            obeys_concrete_eq::<K>(),
        ensures
            exists|rendered: Seq<(Seq<char>, Seq<char>)>|
                #[trigger] rendered.len() == self.live().len() && r@ == rendered_text(rendered),
    {
        let all = self.live_pairs();
        let rendered = render_all(&all);
        let r = render_entries(rendered);
        proof {
            if obeys_concrete_eq::<K>() {
                assert(texts(rendered@).len() == self.live().len());
            }
        }
        r
    }
}

/// Each borrowed pair's key and value rendered by their `Debug` impls, in
/// order.
pub(crate) fn render_all<K: std::fmt::Debug, V: std::fmt::Debug>(all: &Vec<(&K, &V)>) -> (r: Vec<
    (String, String),
>)
    ensures
        r@.len() == all@.len(),
{
    let mut out: Vec<(String, String)> = Vec::new();
    let mut i: usize = 0;
    while i < all.len()
        invariant
            i <= all@.len(),
            out@.len() == i,
        decreases all@.len() - i,
    {
        out.push((render_value(all[i].0), render_value(all[i].1)));
        i = i + 1;
    }
    out
}

impl<K, V> Clone for AssocMap<K, V> {
    /// Another handle on the same pairs.
    fn clone(&self) -> (r: Self)
        ensures
            r == *self,
    {
        AssocMap { pairs: self.pairs.clone() }
    }
}

impl<K, V> Default for AssocMap<K, V> {
    fn default() -> (r: Self)
        ensures
            r.wf(),
            r.history() == Seq::<(K, V)>::empty(),
            r@ == Map::<K, V>::empty(),
    {
        AssocMap::new()
    }
}

impl<K: PartialEq, V: PartialEq> PartialEq for AssocMap<K, V> {
    /// Equal when both hold the same keys with the same values, however
    /// they were built: the walks have the same length and every pair of
    /// the other's walk is found in this map. The lookup goes through this
    /// map's own pairs rather than a `HashMap` built from them, for the
    /// reason given at `seen_contains`.
    fn eq(&self, other: &Self) -> (r: bool) {
        let mine = self.live_pairs();
        let theirs = other.live_pairs();
        proof {
            if obeys_concrete_eq::<K>() {
                lemma_dedup(self.history(), Set::empty());
                lemma_dedup(other.history(), Set::empty());
                lemma_distinct_len(self.live());
                lemma_distinct_len(other.live());
                assert(self@.remove_keys(Set::empty()) =~= self@);
                assert(other@.remove_keys(Set::empty()) =~= other@);
            }
        }
        if mine.len() != theirs.len() {
            return false;
        }
        let mut i: usize = 0;
        while i < theirs.len()
            invariant
                i <= theirs@.len(),
                obeys_concrete_eq::<K>() && obeys_concrete_eq::<V>() ==> {
                    &&& borrowed_as(theirs@, other.live())
                    &&& distinct_keys(other.live())
                    &&& map_of(other.live()) == other@
                    &&& forall|j: int|
                        0 <= j < i ==> #[trigger] self@.contains_key(other.live()[j].0)
                            && self@[other.live()[j].0] == other.live()[j].1
                },
            decreases theirs@.len() - i,
        {
            let (k, v) = theirs[i];
            match self.lookup(k) {
                Some(w) => {
                    if !same(w, v) {
                        proof {
                            if obeys_concrete_eq::<K>() && obeys_concrete_eq::<V>() {
                                lemma_distinct_value(other.live(), i as int);
                            }
                        }
                        return false;
                    }
                    proof {
                        if obeys_concrete_eq::<K>() && obeys_concrete_eq::<V>() {
                            let j = i as int;
                            assert(*k == other.live()[j].0 && *v == other.live()[j].1);
                            assert(self@.contains_key(other.live()[j].0));
                            assert(forall|j: int|
                                0 <= j < i + 1 ==> #[trigger] self@.contains_key(other.live()[j].0)
                                    && self@[other.live()[j].0] == other.live()[j].1);
                        }
                    }
                },
                None => {
                    proof {
                        if obeys_concrete_eq::<K>() && obeys_concrete_eq::<V>() {
                            lemma_distinct_value(other.live(), i as int);
                        }
                    }
                    return false;
                },
            }
            i = i + 1;
        }
        proof {
            if obeys_concrete_eq::<K>() && obeys_concrete_eq::<V>() {
                lemma_map_of_dom(other.live());
                assert(other@.dom().subset_of(self@.dom())) by {
                    assert forall|k: K| other@.contains_key(k) implies self@.contains_key(k) by {
                        let j = choose|j: int| 0 <= j < other.live().len() && other.live()[j].0 == k;
                        assert(self@.contains_key(other.live()[j].0));
                    }
                }
                vstd::set_lib::lemma_subset_equality(other@.dom(), self@.dom());
                assert forall|k: K| other@.contains_key(k) implies self@[k] == other@[k] by {
                    let j = choose|j: int| 0 <= j < other.live().len() && other.live()[j].0 == k;
                    assert(self@.contains_key(other.live()[j].0));
                    lemma_distinct_value(other.live(), j);
                }
                assert(self@ =~= other@);
            }
        }
        true
    }
}

impl<K: PartialEq, V: PartialEq> vstd::std_specs::cmp::PartialEqSpecImpl for AssocMap<K, V> {
    open spec fn obeys_eq_spec() -> bool {
        obeys_concrete_eq::<K>() && obeys_concrete_eq::<V>()
    }

    open spec fn eq_spec(&self, other: &AssocMap<K, V>) -> bool {
        self@ == other@
    }
}

/// The map built by inserting the pairs one after another into `m`.
pub open spec fn fold_insert<K, V>(m: Map<K, V>, items: Seq<(K, V)>) -> Map<K, V>
    decreases items.len(),
{
    if items.len() == 0 {
        m
    } else {
        fold_insert(m.insert(items[0].0, items[0].1), items.drop_first())
    }
}

/// Folding `insert` over pairs is the same as laying the pairs, latest
/// first, over the map.
pub proof fn lemma_fold_insert<K, V>(m: Map<K, V>, items: Seq<(K, V)>)
    ensures
        fold_insert(m, items) == m.union_prefer_right(map_of(items.reverse())),
    decreases items.len(),
{
    if items.len() == 0 {
        assert(items.reverse() =~= Seq::<(K, V)>::empty());
        assert(m.union_prefer_right(Map::empty()) =~= m);
    } else {
        let rest = items.drop_first();
        let p = items[0];
        lemma_fold_insert(m.insert(p.0, p.1), rest);
        assert(items.reverse() =~= rest.reverse() + seq![p]);
        lemma_map_of_concat(rest.reverse(), seq![p]);
        assert(seq![p].drop_first() =~= Seq::<(K, V)>::empty());
        assert(map_of(seq![p]) == map_of(seq![p].drop_first()).insert(p.0, p.1));
        assert(m.union_prefer_right(map_of(items.reverse())) =~= m.insert(p.0, p.1).union_prefer_right(
            map_of(rest.reverse()),
        ));
    }
}

/// Inserting under two different keys: each key keeps its own value.
pub proof fn lemma_independent_inserts<K, V>(m: AssocMap<K, V>, k1: K, v1: V, k2: K, v2: V)
    requires
        k1 != k2,
    ensures
        m@.insert(k1, v1).insert(k2, v2).contains_key(k1),
        m@.insert(k1, v1).insert(k2, v2)[k1] == v1,
        m@.insert(k1, v1).insert(k2, v2).contains_key(k2),
        m@.insert(k1, v1).insert(k2, v2)[k2] == v2,
{
}

/// Inserting the same pair twice counts the key once, as inserting it once
/// does.
pub proof fn lemma_insert_twice_len<K, V>(m: AssocMap<K, V>, k: K, v: V)
    ensures
        m@.insert(k, v).insert(k, v).dom().len() == m@.insert(k, v).dom().len(),
{
    assert(m@.insert(k, v).insert(k, v) =~= m@.insert(k, v));
}

/// The most recent insertion under a key wins.
pub proof fn lemma_overwrite<K, V>(m: AssocMap<K, V>, k: K, v1: V, v2: V)
    ensures
        m@.insert(k, v1).insert(k, v2).contains_key(k),
        m@.insert(k, v1).insert(k, v2)[k] == v2,
{
}

/// Inserting pairs with distinct keys into an empty map gives one key per
/// pair.
pub proof fn lemma_distinct_inserts_len<K, V>(items: Seq<(K, V)>)
    requires
        distinct_keys(items),
    ensures
        Map::<K, V>::empty().union_prefer_right(map_of(items.reverse())).dom().len() == items.len(),
{
    let r = items.reverse();
    assert(distinct_keys(r)) by {
        assert forall|i: int, j: int| 0 <= i < j < r.len() implies r[i].0 != r[j].0 by {
            assert(r[i] == items[items.len() - 1 - i] && r[j] == items[items.len() - 1 - j]);
        }
    }
    lemma_distinct_len(r);
    assert(Map::<K, V>::empty().union_prefer_right(map_of(r)) =~= map_of(r));
}

/// Inserting pairs that all carry one key into an empty map gives one key.
pub proof fn lemma_same_key_inserts_len<K, V>(items: Seq<(K, V)>, k: K)
    requires
        items.len() > 0,
        forall|i: int| 0 <= i < items.len() ==> #[trigger] items[i].0 == k,
    ensures
        Map::<K, V>::empty().union_prefer_right(map_of(items.reverse())).dom().len() == 1,
{
    let r = items.reverse();
    lemma_map_of_dom(r);
    assert(r[0].0 == items[items.len() - 1].0);
    assert(map_of(r).dom() =~= set![k]) by {
        assert forall|x: K| map_of(r).contains_key(x) implies x == k by {
            let i = choose|i: int| 0 <= i < r.len() && r[i].0 == x;
            assert(r[i] == items[items.len() - 1 - i]);
        }
    }
    assert(Map::<K, V>::empty().union_prefer_right(map_of(r)) =~= map_of(r));
}

/// Building a map from pairs and walking it hands out each key once, with
/// the same values as folding `insert` over the pairs in order.
pub proof fn lemma_build_then_walk<K, V>(items: Seq<(K, V)>)
    ensures
        distinct_keys(dedup(items.reverse(), Set::empty())),
        map_of(dedup(items.reverse(), Set::empty())) == fold_insert(Map::empty(), items),
{
    lemma_dedup(items.reverse(), Set::empty());
    lemma_fold_insert(Map::empty(), items);
    assert(map_of(items.reverse()).remove_keys(Set::empty()) =~= Map::<K, V>::empty().union_prefer_right(
        map_of(items.reverse()),
    ));
}

/// Two maps whose walks hand out the same keys with the same values are
/// equal, whatever their histories.
pub proof fn lemma_equal_by_contents<K, V>(a: AssocMap<K, V>, b: AssocMap<K, V>)
    requires
        map_of(a.live()) == map_of(b.live()),
    ensures
        a@ == b@,
{
    lemma_dedup(a.history(), Set::empty());
    lemma_dedup(b.history(), Set::empty());
    assert(a@.remove_keys(Set::empty()) =~= a@);
    assert(b@.remove_keys(Set::empty()) =~= b@);
}

/// Deriving a map by insertion leaves the older handle's pairs untouched:
/// they are the tail of the new handle's pairs, so reading the older handle
/// gives what it gave before.
pub proof fn lemma_insert_keeps_older<K, V>(m: AssocMap<K, V>, k: K, v: V)
    ensures
        (seq![(k, v)] + m.history()).drop_first() == m.history(),
        map_of(m.history()) == m@,
{
    assert((seq![(k, v)] + m.history()).drop_first() =~= m.history());
}

} // verus!
