//! Finite maps kept as association lists with distinct keys.
//!
//! Keys are compared by their views, so a map keyed by `String` is a map
//! from character sequences.
use vstd::prelude::*;
use crate::effects::EffectVarId;
use crate::ty::TypeVarId;

verus! {

/// A key whose equality test agrees with equality of views.
pub trait MapKey: View + Sized {
    fn key_eq(&self, other: &Self) -> (r: bool)
        ensures
            r == (self@ == other@);

    fn key_clone(&self) -> (r: Self)
        ensures
            r@ == self@;
}

impl MapKey for String {
    fn key_eq(&self, other: &Self) -> (r: bool) {
        *self == *other
    }

    fn key_clone(&self) -> (r: Self) {
        self.clone()
    }
}

impl View for TypeVarId {
    type V = u32;

    open spec fn view(&self) -> u32 {
        self.0
    }
}

impl MapKey for TypeVarId {
    fn key_eq(&self, other: &Self) -> (r: bool) {
        self.0 == other.0
    }

    fn key_clone(&self) -> (r: Self) {
        *self
    }
}

impl View for EffectVarId {
    type V = u32;

    open spec fn view(&self) -> u32 {
        self.0
    }
}

impl MapKey for EffectVarId {
    fn key_eq(&self, other: &Self) -> (r: bool) {
        self.0 == other.0
    }

    fn key_clone(&self) -> (r: Self) {
        *self
    }
}

/// Whether no two entries share a key view.
pub open spec fn distinct_keys<K: View, V>(s: Seq<(K, V)>) -> bool {
    forall|i: int, j: int|
        0 <= i < s.len() && 0 <= j < s.len() && i != j ==> #[trigger] s[i].0@ != #[trigger] s[j].0@
}

/// Whether some entry has key view `k`.
pub open spec fn has_key<K: View, V>(s: Seq<(K, V)>, k: K::V) -> bool {
    exists|i: int| 0 <= i < s.len() && #[trigger] s[i].0@ == k
}

/// The position of the entry with key view `k`.
pub open spec fn key_pos<K: View, V>(s: Seq<(K, V)>, k: K::V) -> int {
    choose|i: int| 0 <= i < s.len() && #[trigger] s[i].0@ == k
}

/// The map that an association list stands for.
pub open spec fn entries_map<K: View, V>(s: Seq<(K, V)>) -> Map<K::V, V> {
    Map::new(|k: K::V| has_key(s, k), |k: K::V| s[key_pos(s, k)].1)
}

/// An association list with distinct keys.
#[derive(Debug)]
pub struct AssocMap<K: MapKey, V> {
    entries: Vec<(K, V)>,
}

impl<K: MapKey, V> View for AssocMap<K, V> {
    type V = Map<K::V, V>;

    closed spec fn view(&self) -> Map<K::V, V> {
        entries_map(self.entries@)
    }
}

/// In an association list with distinct keys, the entry at `i` is what the
/// map holds for its key.
pub proof fn lemma_entry_in_map<K: View, V>(s: Seq<(K, V)>, i: int)
    requires
        distinct_keys(s),
        0 <= i < s.len(),
    ensures
        entries_map(s).contains_key(s[i].0@),
        entries_map(s)[s[i].0@] == s[i].1,
        key_pos(s, s[i].0@) == i,
{
    assert(has_key(s, s[i].0@));
    let p = key_pos(s, s[i].0@);
    assert(s[p].0@ == s[i].0@);
}

impl<K: MapKey, V> AssocMap<K, V> {
    #[verifier::type_invariant]
    spec fn inv(self) -> bool {
        distinct_keys(self.entries@)
    }

    /// The entries in insertion order.
    pub closed spec fn entries(&self) -> Seq<(K, V)> {
        self.entries@
    }

    /// An empty map.
    pub fn new() -> (r: Self)
        ensures
            r@ == Map::<K::V, V>::empty(),
            r.entries().len() == 0,
    {
        let r = AssocMap { entries: Vec::new() };
        assert(r@ =~= Map::<K::V, V>::empty());
        r
    }

    /// Number of entries.
    pub fn len(&self) -> (r: usize)
        ensures
            r == self.entries().len(),
            r == self@.dom().len(),
            self@.dom().finite(),
            distinct_keys(self.entries()),
            forall|k: K::V| #[trigger] self@.contains_key(k) ==> has_key(self.entries(), k),
            forall|i: int|
                0 <= i < self.entries().len() ==> #[trigger] self@.contains_key(
                    self.entries()[i].0@,
                ) && self@[self.entries()[i].0@] == self.entries()[i].1,
    {
        proof {
            use_type_invariant(self);
            lemma_map_size(self.entries@);
            assert forall|i: int| 0 <= i < self.entries@.len() implies #[trigger] self@.contains_key(
                self.entries@[i].0@,
            ) && self@[self.entries@[i].0@] == self.entries@[i].1 by {
                lemma_entry_in_map(self.entries@, i);
            }
        }
        self.entries.len()
    }

    /// The position of key `k`, if present.
    fn find(&self, k: &K) -> (r: Option<usize>)
        ensures
            r is None <==> !self@.contains_key(k@),
            r matches Some(i) ==> i < self.entries@.len() && self.entries@[i as int].0@ == k@,
    {
        proof {
            use_type_invariant(self);
        }
        let mut i: usize = 0;
        while i < self.entries.len()
            invariant
                i <= self.entries@.len(),
                forall|j: int| 0 <= j < i ==> self.entries@[j].0@ != k@,
            decreases self.entries@.len() - i,
        {
            if self.entries[i].0.key_eq(k) {
                return Some(i);
            }
            i = i + 1;
        }
        None
    }

    /// Whether key `k` is present.
    pub fn contains_key(&self, k: &K) -> (r: bool)
        ensures
            r == self@.contains_key(k@),
    {
        self.find(k).is_some()
    }

    /// The value stored under key `k`, if any.
    pub fn get(&self, k: &K) -> (r: Option<&V>)
        ensures
            r is Some <==> self@.contains_key(k@),
            r matches Some(v) ==> *v == self@[k@],
    {
        proof {
            use_type_invariant(self);
        }
        match self.find(k) {
            Some(i) => {
                proof {
                    lemma_entry_in_map(self.entries@, i as int);
                }
                Some(&self.entries[i].1)
            },
            None => None,
        }
    }

    /// The key and value of the entry at position `i`.
    pub fn entry(&self, i: usize) -> (r: (&K, &V))
        requires
            i < self.entries().len(),
        ensures
            *r.0 == self.entries()[i as int].0,
            *r.1 == self.entries()[i as int].1,
            self@.contains_key(r.0@),
            self@[r.0@] == *r.1,
    {
        proof {
            use_type_invariant(self);
            lemma_entry_in_map(self.entries@, i as int);
        }
        (&self.entries[i].0, &self.entries[i].1)
    }

    /// Stores `v` under `k`, replacing any earlier value.
    pub fn insert(&mut self, k: K, v: V)
        ensures
            final(self)@ == old(self)@.insert(k@, v),
    {
        proof {
            use_type_invariant(&*self);
        }
        let ghost old_s = self.entries@;
        let ghost kv = k@;
        match self.find(&k) {
            Some(i) => {
                proof {
                    lemma_entry_in_map(old_s, i as int);
                }
                let mut es: Vec<(K, V)> = Vec::new();
                std::mem::swap(&mut es, &mut self.entries);
                es.set(i, (k, v));
                self.entries = es;
                proof {
                    let s = self.entries@;
                    assert(s == old_s.update(i as int, s[i as int]));
                    assert(distinct_keys(s)) by {
                        assert forall|a: int, b: int|
                            0 <= a < s.len() && 0 <= b < s.len() && a != b implies #[trigger] s[a].0@
                            != #[trigger] s[b].0@ by {
                            if a != i && b != i {
                                assert(s[a] == old_s[a] && s[b] == old_s[b]);
                            } else if a == i {
                                assert(s[b] == old_s[b]);
                                assert(old_s[b].0@ != old_s[i as int].0@);
                            } else {
                                assert(s[a] == old_s[a]);
                                assert(old_s[a].0@ != old_s[i as int].0@);
                            }
                        }
                    }
                    assert forall|key: K::V| #[trigger] has_key(s, key) == has_key(old_s, key) by {
                        if has_key(old_s, key) {
                            let p = key_pos(old_s, key);
                            assert(s[p].0@ == key);
                        }
                        if has_key(s, key) {
                            let p = key_pos(s, key);
                            assert(old_s[p].0@ == key);
                        }
                    }
                    assert forall|key: K::V| has_key(s, key) implies entries_map(s)[key]
                        == insert_map_value_of(old_s, key, kv, v) by {
                        let p = key_pos(s, key);
                        if key != kv {
                            let q = key_pos(old_s, key);
                            assert(old_s[q].0@ == key);
                            assert(s[q].0@ == key);
                            assert(p == q);
                        } else {
                            lemma_entry_in_map(s, i as int);
                        }
                    }
                    assert(entries_map(s) =~= entries_map(old_s).insert(kv, v));
                }
            },
            None => {
                let mut es: Vec<(K, V)> = Vec::new();
                std::mem::swap(&mut es, &mut self.entries);
                es.push((k, v));
                self.entries = es;
                proof {
                    let s = self.entries@;
                    let n = old_s.len() as int;
                    assert(s == old_s.push(s[n]));
                    assert forall|a: int| 0 <= a < n implies #[trigger] old_s[a].0@ != kv by {
                        assert(!has_key(old_s, kv));
                    }
                    assert(distinct_keys(s)) by {
                        assert forall|a: int, b: int|
                            0 <= a < s.len() && 0 <= b < s.len() && a != b implies #[trigger] s[a].0@
                            != #[trigger] s[b].0@ by {
                            if a < n && b < n {
                                assert(s[a] == old_s[a] && s[b] == old_s[b]);
                            } else if a == n {
                                assert(s[b] == old_s[b]);
                            } else {
                                assert(s[a] == old_s[a]);
                            }
                        }
                    }
                    assert forall|key: K::V| #[trigger] has_key(s, key) == (has_key(old_s, key) || key
                        == kv) by {
                        if has_key(old_s, key) {
                            let p = key_pos(old_s, key);
                            assert(s[p].0@ == key);
                        }
                        if key == kv {
                            assert(s[n].0@ == key);
                        }
                        if has_key(s, key) && key != kv {
                            let p = key_pos(s, key);
                            assert(p < n);
                            assert(old_s[p].0@ == key);
                        }
                    }
                    assert forall|key: K::V| has_key(s, key) implies entries_map(s)[key]
                        == insert_map_value_of(old_s, key, kv, v) by {
                        let p = key_pos(s, key);
                        if key != kv {
                            let q = key_pos(old_s, key);
                            assert(old_s[q].0@ == key);
                            assert(s[q].0@ == key);
                            lemma_entry_in_map(s, q);
                        } else {
                            lemma_entry_in_map(s, n);
                        }
                    }
                    assert(entries_map(s) =~= entries_map(old_s).insert(kv, v));
                }
            },
        }
    }
}

/// An association list stands for a map with finitely many keys.
pub proof fn lemma_entries_finite<K: View, V>(s: Seq<(K, V)>)
    ensures
        entries_map(s).dom().finite(),
    decreases s.len(),
{
    if s.len() == 0 {
        assert(entries_map(s).dom() =~= Set::empty());
    } else {
        let t = s.drop_last();
        lemma_entries_finite(t);
        let bigger = entries_map(t).dom().insert(s.last().0@);
        assert forall|k: K::V| #[trigger] entries_map(s).dom().contains(k) implies bigger.contains(k) by {
            let p = key_pos(s, k);
            if p < s.len() - 1 {
                assert(t[p].0@ == k);
                assert(has_key(t, k));
            }
        }
        vstd::set_lib::lemma_set_subset_finite(bigger, entries_map(s).dom());
    }
}

impl<K: MapKey, V> AssocMap<K, V> {
    /// The map has finitely many keys.
    pub proof fn lemma_view_finite(&self)
        ensures
            self@.dom().finite(),
    {
        lemma_entries_finite(self.entries@);
    }
}

/// What a map updated at `kv` holds at `key`.
pub open spec fn insert_map_value_of<K: View, V>(s: Seq<(K, V)>, key: K::V, kv: K::V, v: V) -> V {
    if key == kv { v } else { entries_map(s)[key] }
}

/// An association list with distinct keys stands for a map with as many keys
/// as entries.
pub proof fn lemma_map_size<K: View, V>(s: Seq<(K, V)>)
    requires
        distinct_keys(s),
    ensures
        entries_map(s).dom().finite(),
        entries_map(s).dom().len() == s.len(),
    decreases s.len(),
{
    let m = entries_map(s);
    if s.len() == 0 {
        assert(m.dom() =~= Set::empty());
    } else {
        let t = s.drop_last();
        assert(distinct_keys(t)) by {
            assert forall|a: int, b: int|
                0 <= a < t.len() && 0 <= b < t.len() && a != b implies #[trigger] t[a].0@
                != #[trigger] t[b].0@ by {
                assert(t[a] == s[a] && t[b] == s[b]);
            }
        }
        lemma_map_size(t);
        let last = s.last().0@;
        assert forall|k: K::V| #[trigger] m.dom().contains(k) == (entries_map(t).dom().contains(k)
            || k == last) by {
            if has_key(t, k) {
                let p = key_pos(t, k);
                assert(s[p].0@ == k);
            }
            if k == last {
                assert(s[s.len() - 1].0@ == k);
            }
            if has_key(s, k) && k != last {
                let p = key_pos(s, k);
                assert(p < s.len() - 1);
                assert(t[p].0@ == k);
            }
        }
        assert(m.dom() =~= entries_map(t).dom().insert(last));
        assert(!entries_map(t).dom().contains(last)) by {
            if has_key(t, last) {
                let p = key_pos(t, last);
                assert(s[p].0@ == last);
                assert(p != s.len() - 1);
            }
        }
    }
}

impl<K: MapKey, V: Clone> Clone for AssocMap<K, V> {
    /// A copy of the map: the same keys, each value cloned.
    fn clone(&self) -> (r: Self)
        ensures
            r@.dom() == self@.dom(),
    {
        proof {
            use_type_invariant(self);
        }
        let mut entries: Vec<(K, V)> = Vec::new();
        let mut i: usize = 0;
        while i < self.entries.len()
            invariant
                i <= self.entries@.len(),
                entries@.len() == i,
                distinct_keys(self.entries@),
                forall|j: int| 0 <= j < i ==> (#[trigger] entries@[j]).0@ == self.entries@[j].0@,
            decreases self.entries@.len() - i,
        {
            let k = self.entries[i].0.key_clone();
            let v = self.entries[i].1.clone();
            entries.push((k, v));
            i = i + 1;
        }
        assert(distinct_keys(entries@)) by {
            assert forall|a: int, b: int| 0 <= a < entries@.len() && 0 <= b < entries@.len() && a != b implies #[trigger] entries@[a].0@
                != #[trigger] entries@[b].0@ by {
                assert(self.entries@[a].0@ != self.entries@[b].0@);
            }
        }
        let r = AssocMap { entries };
        assert forall|k: K::V| r@.contains_key(k) <==> self@.contains_key(k) by {
            if has_key(r.entries@, k) {
                let j = choose|j: int| 0 <= j < r.entries@.len() && #[trigger] r.entries@[j].0@ == k;
                assert(self.entries@[j].0@ == k);
            }
            if has_key(self.entries@, k) {
                let j = choose|j: int| 0 <= j < self.entries@.len() && #[trigger] self.entries@[j].0@ == k;
                assert(r.entries@[j].0@ == k);
            }
        }
        assert(r@.dom() =~= self@.dom());
        r
    }
}

} // verus!
