//! An insertion-ordered map from strings to strings: block properties and item data.
use vstd::prelude::*;

use crate::text::str_eq;

verus! {

/// Key/value pairs of a map, in the order the map holds them.
pub type Pairs = Seq<(Seq<char>, Seq<char>)>;

/// Index of the first pair whose key is `k`, or `-1`.
pub open spec fn first_index<V>(s: Seq<(Seq<char>, V)>, k: Seq<char>) -> int
    decreases s.len(),
{
    if s.len() == 0 {
        -1
    } else {
        let p = first_index(s.drop_last(), k);
        if p >= 0 {
            p
        } else if s.last().0 == k {
            s.len() - 1
        } else {
            -1
        }
    }
}

/// The value stored under `k`.
pub open spec fn lookup<V>(s: Seq<(Seq<char>, V)>, k: Seq<char>) -> Option<V> {
    let i = first_index(s, k);
    if i >= 0 {
        Some(s[i].1)
    } else {
        None
    }
}

/// No key occurs twice.
pub open spec fn keys_unique<V>(s: Seq<(Seq<char>, V)>) -> bool {
    forall|i: int, j: int| 0 <= i < j < s.len() ==> s[i].0 != s[j].0
}

/// What `insert(k, v)` makes of `s`: the value of an existing key is replaced in
/// place, a new key is appended.
pub open spec fn insert_pairs<V>(s: Seq<(Seq<char>, V)>, k: Seq<char>, v: V) -> Seq<(Seq<char>, V)> {
    let i = first_index(s, k);
    if i >= 0 {
        s.update(i, (k, v))
    } else {
        s.push((k, v))
    }
}

pub proof fn lemma_first_index<V>(s: Seq<(Seq<char>, V)>, k: Seq<char>)
    ensures
        -1 <= first_index(s, k) < s.len(),
        first_index(s, k) >= 0 ==> s[first_index(s, k)].0 == k,
        forall|j: int| 0 <= j < s.len() && (first_index(s, k) < 0 || j < first_index(s, k)) ==> s[j].0 != k,
    decreases s.len(),
{
    if s.len() > 0 {
        let t = s.drop_last();
        lemma_first_index(t, k);
        assert forall|j: int| 0 <= j < t.len() implies t[j] == s[j] by {}
    }
}

pub proof fn lemma_first_index_push<V>(s: Seq<(Seq<char>, V)>, k: Seq<char>, p: (Seq<char>, V))
    ensures
        first_index(s.push(p), k) == if first_index(s, k) >= 0 {
            first_index(s, k)
        } else if p.0 == k {
            s.len() as int
        } else {
            -1
        },
{
    assert(s.push(p).drop_last() == s);
}

/// A map from strings to strings that keeps its keys in insertion order.
#[derive(Clone, Debug, PartialEq, Eq)]
pub struct StringMap {
    entries: Vec<(String, String)>,
}

impl View for StringMap {
    type V = Pairs;

    closed spec fn view(&self) -> Pairs {
        self.entries@.map_values(|e: (String, String)| (e.0@, e.1@))
    }
}

impl StringMap {
    /// An empty map.
    pub fn new() -> (r: Self)
        ensures
            r@ == Seq::<(Seq<char>, Seq<char>)>::empty(),
    {
        StringMap { entries: Vec::new() }
    }

    /// Number of entries.
    pub fn len(&self) -> (r: usize)
        ensures
            r == self@.len(),
    {
        self.entries.len()
    }

    /// Whether the map has no entries.
    pub fn is_empty(&self) -> (r: bool)
        ensures
            r == (self@.len() == 0),
    {
        self.entries.len() == 0
    }

    /// The key of entry `i`.
    pub fn key_at(&self, i: usize) -> (r: &String)
        requires
            i < self@.len(),
        ensures
            r@ == self@[i as int].0,
    {
        &self.entries[i].0
    }

    /// The value of entry `i`.
    pub fn value_at(&self, i: usize) -> (r: &String)
        requires
            i < self@.len(),
        ensures
            r@ == self@[i as int].1,
    {
        &self.entries[i].1
    }

    /// Position of the entry with key `key`, if any.
    pub fn position(&self, key: &str) -> (r: Option<usize>)
        ensures
            r is Some <==> first_index(self@, key@) >= 0,
            r matches Some(i) ==> i == first_index(self@, key@) && i < self@.len(),
    {
        proof {
            lemma_first_index(self@, key@);
        }
        let mut i: usize = 0;
        while i < self.entries.len()
            invariant
                i <= self.entries.len(),
                forall|j: int| 0 <= j < i ==> self@[j].0 != key@,
                self@.len() == self.entries.len(),
                -1 <= first_index(self@, key@) < self@.len(),
                first_index(self@, key@) >= 0 ==> self@[first_index(self@, key@)].0 == key@,
                forall|j: int| 0 <= j < self@.len() && (first_index(self@, key@) < 0 || j < first_index(self@, key@)) ==> self@[j].0 != key@,
            decreases self.entries.len() - i,
        {
            assert(self@[i as int].0 == self.entries@[i as int].0@);
            if str_eq(self.entries[i].0.as_str(), key) {
                return Some(i);
            }
            i = i + 1;
        }
        assert(first_index(self@, key@) < 0);
        None
    }

    /// The value stored under `key`.
    pub fn get(&self, key: &str) -> (r: Option<&String>)
        ensures
            r is Some <==> lookup(self@, key@) is Some,
            r matches Some(v) ==> lookup(self@, key@) == Some(v@),
    {
        match self.position(key) {
            Some(i) => Some(&self.entries[i].1),
            None => None,
        }
    }

    /// Whether `key` has a value.
    pub fn contains_key(&self, key: &str) -> (r: bool)
        ensures
            r == (lookup(self@, key@) is Some),
    {
        self.position(key).is_some()
    }

    /// Stores `value` under `key`, returning the value it replaces.
    pub fn insert(&mut self, key: String, value: String) -> (r: Option<String>)
        ensures
            final(self)@ == insert_pairs(old(self)@, key@, value@),
            r is Some <==> lookup(old(self)@, key@) is Some,
            r matches Some(v) ==> lookup(old(self)@, key@) == Some(v@),
    {
        match self.position(key.as_str()) {
            Some(i) => {
                let ghost before = self@;
                let old_value = self.entries[i].1.clone();
                self.entries.set(i, (key, value));
                assert(self@ =~= before.update(i as int, (key@, value@)));
                Some(old_value)
            },
            None => {
                let ghost before = self@;
                self.entries.push((key, value));
                assert(self@ =~= before.push((key@, value@)));
                None
            },
        }
    }

    /// The keys, in order.
    pub fn keys(&self) -> (r: Vec<String>)
        ensures
            r.len() == self@.len(),
            forall|i: int| 0 <= i < r.len() ==> #[trigger] r[i]@ == self@[i].0,
    {
        let mut r: Vec<String> = Vec::new();
        let mut i: usize = 0;
        while i < self.entries.len()
            invariant
                i <= self.entries.len(),
                r.len() == i,
                forall|j: int| 0 <= j < i ==> #[trigger] r[j]@ == self@[j].0,
            decreases self.entries.len() - i,
        {
            r.push(self.entries[i].0.clone());
            i = i + 1;
        }
        r
    }

    /// A copy holding the same entries.
    pub fn duplicate(&self) -> (r: Self)
        ensures
            r@ == self@,
    {
        let mut entries: Vec<(String, String)> = Vec::new();
        let mut i: usize = 0;
        while i < self.entries.len()
            invariant
                i <= self.entries.len(),
                entries@.map_values(|e: (String, String)| (e.0@, e.1@)) == self@.take(i as int),
            decreases self.entries.len() - i,
        {
            let e = (self.entries[i].0.clone(), self.entries[i].1.clone());
            let ghost before = entries@;
            entries.push(e);
            assert(entries@ == before.push(e));
            assert(self@.take(i + 1) == self@.take(i as int).push(self@[i as int]));
            i = i + 1;
            assert(entries@.map_values(|e: (String, String)| (e.0@, e.1@)) =~= self@.take(i as int));
        }
        assert(self@.take(self@.len() as int) == self@);
        StringMap { entries }
    }
}

/// Inserting a key and then reading it back gives the value inserted.
pub proof fn law_get_after_insert<V>(s: Seq<(Seq<char>, V)>, k: Seq<char>, v: V, k2: Seq<char>)
    ensures
        lookup(insert_pairs(s, k, v), k) == Some(v),
        k2 != k ==> lookup(insert_pairs(s, k, v), k2) == lookup(s, k2),
{
    lemma_first_index(s, k);
    lemma_first_index(s, k2);
    let t = insert_pairs(s, k, v);
    lemma_first_index(t, k);
    lemma_first_index(t, k2);
    if first_index(s, k) < 0 {
        lemma_first_index_push(s, k, (k, v));
        lemma_first_index_push(s, k2, (k, v));
    } else {
        let i = first_index(s, k);
        assert(t[i].0 == k);
        if first_index(t, k) != i {
            assert(first_index(t, k) < i);
            assert(t[first_index(t, k)] == s[first_index(t, k)]);
        }
        if k2 != k {
            let a = first_index(s, k2);
            let b = first_index(t, k2);
            if a >= 0 {
                assert(t[a] == s[a]);
                if b != a {
                    assert(b < a);
                    assert(t[b] == s[b]);
                }
            } else {
                if b >= 0 {
                    assert(t[b] == s[b]);
                }
            }
        }
    }
}

/// Inserting keeps keys unique.
pub proof fn law_insert_keeps_keys_unique<V>(s: Seq<(Seq<char>, V)>, k: Seq<char>, v: V)
    requires
        keys_unique(s),
    ensures
        keys_unique(insert_pairs(s, k, v)),
{
    lemma_first_index(s, k);
}


impl Default for StringMap {
    fn default() -> (r: Self)
        ensures
            r@ == Seq::<(Seq<char>, Seq<char>)>::empty(),
    {
        StringMap::new()
    }
}

} // verus!
