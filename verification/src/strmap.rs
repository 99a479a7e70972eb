//! An ordered map from strings to values.
//!
//! The map keeps its entries in insertion order; inserting a key that is
//! already present replaces its value in place.  Its view is the sequence of
//! `(key, value)` pairs, with pairwise distinct keys.
use vstd::prelude::*;

verus! {

/// The keys of `s` are pairwise distinct.
pub open spec fn keys_distinct<K, V>(s: Seq<(K, V)>) -> bool {
    forall|i: int, j: int| 0 <= i < s.len() && 0 <= j < s.len() && i != j ==> s[i].0 != s[j].0
}

/// `k` is the key of some entry of `s`.
pub open spec fn has_key<K, V>(s: Seq<(K, V)>, k: K) -> bool {
    exists|i: int| 0 <= i < s.len() && s[i].0 == k
}

/// The position of the entry with key `k` (meaningful when `has_key(s, k)`).
pub open spec fn key_position<K, V>(s: Seq<(K, V)>, k: K) -> int {
    choose|i: int| 0 <= i < s.len() && s[i].0 == k
}

/// The value stored under `k` (meaningful when `has_key(s, k)`).
pub open spec fn value_of<K, V>(s: Seq<(K, V)>, k: K) -> V {
    s[key_position(s, k)].1
}

/// Inserting `(k, v)`: the entry with key `k` gets value `v` in place, or the
/// pair is appended when `k` is new.
pub open spec fn assoc_insert<K, V>(s: Seq<(K, V)>, k: K, v: V) -> Seq<(K, V)> {
    if has_key(s, k) {
        s.update(key_position(s, k), (k, v))
    } else {
        s.push((k, v))
    }
}

/// In a sequence with distinct keys, a key found at `i` is found only there.
pub proof fn lemma_position_unique<K, V>(s: Seq<(K, V)>, k: K, i: int)
    requires
        keys_distinct(s),
        0 <= i < s.len(),
        s[i].0 == k,
    ensures
        has_key(s, k),
        key_position(s, k) == i,
        value_of(s, k) == s[i].1,
{
}

/// Inserting keeps the keys distinct, and the inserted value is then found
/// under its key; every other key keeps its value.
pub proof fn lemma_insert_properties<K, V>(s: Seq<(K, V)>, k: K, v: V)
    requires
        keys_distinct(s),
    ensures
        keys_distinct(assoc_insert(s, k, v)),
        has_key(assoc_insert(s, k, v), k),
        value_of(assoc_insert(s, k, v), k) == v,
        assoc_insert(s, k, v).len() == if has_key(s, k) { s.len() } else { s.len() + 1 },
        forall|k2: K|
            k2 != k ==> (has_key(assoc_insert(s, k, v), k2) == has_key(s, k2)),
        forall|k2: K|
            k2 != k && has_key(s, k2) ==> value_of(assoc_insert(s, k, v), k2) == value_of(s, k2),
{
    let t = assoc_insert(s, k, v);
    if has_key(s, k) {
        let p = key_position(s, k);
        lemma_position_unique(t, k, p);
        assert forall|k2: K| k2 != k implies has_key(t, k2) == has_key(s, k2) by {
            if has_key(s, k2) {
                let q = key_position(s, k2);
                assert(t[q].0 == k2);
            }
            if has_key(t, k2) {
                let q = key_position(t, k2);
                assert(s[q].0 == k2);
            }
        }
        assert forall|k2: K| k2 != k && has_key(s, k2) implies value_of(t, k2) == value_of(s, k2) by {
            let q = key_position(s, k2);
            assert(q != p);
            lemma_position_unique(t, k2, q);
        }
    } else {
        lemma_position_unique(t, k, s.len() as int);
        assert forall|k2: K| k2 != k implies has_key(t, k2) == has_key(s, k2) by {
            if has_key(s, k2) {
                let q = key_position(s, k2);
                assert(t[q].0 == k2);
            }
            if has_key(t, k2) {
                let q = key_position(t, k2);
                assert(s[q].0 == k2);
            }
        }
        assert forall|k2: K| k2 != k && has_key(s, k2) implies value_of(t, k2) == value_of(s, k2) by {
            let q = key_position(s, k2);
            lemma_position_unique(t, k2, q);
        }
    }
}

/// A map from strings to values that remembers the order in which keys first
/// arrived.
pub struct StrMap<V> {
    pub(crate) entries: Vec<(String, V)>,
}

impl<V> StrMap<V> {
    /// The entries, in order, with keys and values as stored.
    pub closed spec fn entries(&self) -> Seq<(String, V)> {
        self.entries@
    }

    /// The entries with each key taken by its characters.
    pub open spec fn pairs(&self) -> Seq<(Seq<char>, V)> {
        self.entries().map_values(|e: (String, V)| (e.0@, e.1))
    }

    /// The map's invariant: no key occurs twice.
    #[verifier::type_invariant]
    pub closed spec fn keys_are_distinct(&self) -> bool {
        keys_distinct(self.pairs())
    }

    /// What the invariant states: no key occurs twice.
    pub proof fn lemma_keys_distinct(&self)
        requires
            self.keys_are_distinct(),
        ensures
            keys_distinct(self.pairs()),
    {
    }

    /// Each value held by a map is smaller than the map (for recursion over
    /// nested structures).
    pub proof fn lemma_value_decreases(m: StrMap<V>, i: int)
        requires
            0 <= i < m.pairs().len(),
        ensures
            decreases_to!(m => m.pairs()[i].1),
    {
        assert(decreases_to!(m.entries => m.entries@[i]));
    }

    /// An empty map.
    pub fn new() -> (m: Self)
        ensures
            m.pairs() == Seq::<(Seq<char>, V)>::empty(),
    {
        let m = StrMap { entries: Vec::new() };
        assert(m.pairs() =~= Seq::<(Seq<char>, V)>::empty());
        m
    }

    /// The number of entries.
    pub fn len(&self) -> (n: usize)
        ensures
            n == self.pairs().len(),
    {
        self.entries.len()
    }

    /// Whether the map has no entries.
    pub fn is_empty(&self) -> (b: bool)
        ensures
            b == (self.pairs().len() == 0),
    {
        self.entries.len() == 0
    }

    /// The key of the `i`-th entry.
    pub fn key_at(&self, i: usize) -> (k: &String)
        requires
            i < self.pairs().len(),
        ensures
            k@ == self.pairs()[i as int].0,
    {
        &self.entries[i].0
    }

    /// The value of the `i`-th entry.
    pub fn value_at(&self, i: usize) -> (v: &V)
        requires
            i < self.pairs().len(),
        ensures
            *v == self.pairs()[i as int].1,
    {
        &self.entries[i].1
    }

    /// The position of `key`, if some entry has it.
    pub fn position_of(&self, key: &String) -> (r: Option<usize>)
        ensures
            r is Some <==> has_key(self.pairs(), key@),
            r matches Some(i) ==> i < self.pairs().len() && self.pairs()[i as int].0 == key@
                && key_position(self.pairs(), key@) == i,
    {
        proof {
            use_type_invariant(self);
        }
        let mut i: usize = 0;
        while i < self.entries.len()
            invariant
                i <= self.entries@.len(),
                keys_distinct(self.pairs()),
                forall|j: int| 0 <= j < i ==> self.pairs()[j].0 != key@,
            decreases self.entries@.len() - i,
        {
            if self.entries[i].0 == *key {
                proof {
                    lemma_position_unique(self.pairs(), key@, i as int);
                }
                return Some(i);
            }
            i = i + 1;
        }
        None
    }

    /// The value stored under `key`, if any.
    pub fn get(&self, key: &String) -> (r: Option<&V>)
        ensures
            r is Some <==> has_key(self.pairs(), key@),
            r matches Some(v) ==> *v == value_of(self.pairs(), key@),
    {
        match self.position_of(key) {
            Some(i) => Some(&self.entries[i].1),
            None => None,
        }
    }

    /// Whether some entry has `key`.
    pub fn contains_key(&self, key: &String) -> (b: bool)
        ensures
            b == has_key(self.pairs(), key@),
    {
        self.position_of(key).is_some()
    }

    /// Stores `value` under `key`, replacing and returning the value held
    /// there before, if any.
    pub fn insert(&mut self, key: String, value: V) -> (old_value: Option<V>)
        ensures
            final(self).pairs() == assoc_insert(old(self).pairs(), key@, value),
            old_value is Some <==> has_key(old(self).pairs(), key@),
            old_value matches Some(v) ==> v == value_of(old(self).pairs(), key@),
    {
        proof {
            use_type_invariant(&*self);
        }
        let ghost old_pairs = self.pairs();
        let ghost kv = key@;
        match self.position_of(&key) {
            Some(i) => {
                let mut entries: Vec<(String, V)> = Vec::new();
                std::mem::swap(&mut entries, &mut self.entries);
                let ghost before = entries@;
                let old_entry = entries.remove(i);
                entries.insert(i, (key, value));
                assert(entries@ =~= before.update(i as int, entries@[i as int]));
                proof {
                    assert(entries@.map_values(|e: (String, V)| (e.0@, e.1)) =~= assoc_insert(
                        old_pairs,
                        kv,
                        value,
                    ));
                    lemma_insert_properties(old_pairs, kv, value);
                }
                self.entries = entries;
                Some(old_entry.1)
            },
            None => {
                let mut entries: Vec<(String, V)> = Vec::new();
                std::mem::swap(&mut entries, &mut self.entries);
                let ghost before = entries@;
                entries.push((key, value));
                proof {
                    assert(entries@.map_values(|e: (String, V)| (e.0@, e.1)) =~= assoc_insert(
                        old_pairs,
                        kv,
                        value,
                    ));
                    lemma_insert_properties(old_pairs, kv, value);
                }
                self.entries = entries;
                None
            },
        }
    }
}

} // verus!
