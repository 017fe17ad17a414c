//! An insertion-ordered string-to-string map, used for the raw fields of an
//! event and for configuration tables.

use vstd::prelude::*;
use crate::text::{first_where, lemma_first_where, lemma_first_where_unique, str_eq};

verus! {

/// The entries of a map, as key/value pairs in insertion order.
pub type Entries = Seq<(Seq<char>, Seq<char>)>;

/// The predicate "this entry has key `k`".
pub open spec fn has_key(k: Seq<char>) -> spec_fn((Seq<char>, Seq<char>)) -> bool {
    |e: (Seq<char>, Seq<char>)| e.0 == k
}

/// Position of the entry with key `k`, or `s.len()` when there is none.
pub open spec fn key_index(s: Entries, k: Seq<char>) -> int {
    first_where(s, has_key(k))
}

/// The value stored under `k`.
pub open spec fn lookup(s: Entries, k: Seq<char>) -> Option<Seq<char>> {
    let i = key_index(s, k);
    if 0 <= i < s.len() {
        Some(s[i].1)
    } else {
        None
    }
}

/// The entries after storing `v` under `k`: an existing entry keeps its
/// place and takes the new value; a new key goes at the end.
pub open spec fn insert_entry(s: Entries, k: Seq<char>, v: Seq<char>) -> Entries {
    let i = key_index(s, k);
    if 0 <= i < s.len() {
        s.update(i, (k, v))
    } else {
        s.push((k, v))
    }
}

/// No key occurs twice.
pub open spec fn distinct_keys(s: Entries) -> bool {
    forall|i: int, j: int| 0 <= i < j < s.len() ==> s[i].0 != s[j].0
}

/// The entries built by storing each pair of `pairs` in turn, from `s`.
pub open spec fn insert_all(s: Entries, pairs: Entries) -> Entries
    decreases pairs.len(),
{
    if pairs.len() == 0 {
        s
    } else {
        insert_all(insert_entry(s, pairs[0].0, pairs[0].1), pairs.drop_first())
    }
}

/// Read after write: once `v` is stored under `k`, looking `k` up gives
/// `v`, and every other key gives what it gave before.
pub proof fn law_lookup_after_insert(s: Entries, k: Seq<char>, v: Seq<char>)
    ensures
        lookup(insert_entry(s, k, v), k) == Some(v),
        forall|k2: Seq<char>| k2 != k ==> lookup(insert_entry(s, k, v), k2) == #[trigger] lookup(s, k2),
{
    lemma_first_where(s, has_key(k));
    let t = insert_entry(s, k, v);
    let i = key_index(s, k);
    assert forall|j: int| 0 <= j < i implies !has_key(k)(#[trigger] t[j]) by {
        assert(t[j] == s[j]);
    }
    lemma_first_where_unique(t, has_key(k), i);
    assert forall|k2: Seq<char>| k2 != k implies lookup(t, k2) == #[trigger] lookup(s, k2) by {
        lemma_first_where(s, has_key(k2));
        let i2 = key_index(s, k2);
        assert forall|j: int| 0 <= j < i2 implies !has_key(k2)(#[trigger] t[j]) by {
            if j == i && i < s.len() {
                assert(t[j].0 == k);
            } else {
                assert(t[j] == s[j]);
            }
        }
        if i2 < s.len() {
            if i2 == i {
                assert(s[i2].0 == k2);
                assert(s[i].0 == k);
            }
            assert(t[i2] == s[i2]);
            lemma_first_where_unique(t, has_key(k2), i2);
        } else {
            if i == s.len() {
                assert(t[s.len() as int].0 == k);
            }
            lemma_first_where_unique(t, has_key(k2), t.len() as int);
        }
    }
}

/// Storing a value never makes a key occur twice: a map built by inserts
/// from an empty one holds each key once.
pub proof fn law_insert_keeps_keys_distinct(s: Entries, k: Seq<char>, v: Seq<char>)
    requires
        distinct_keys(s),
    ensures
        distinct_keys(insert_entry(s, k, v)),
{
    lemma_first_where(s, has_key(k));
    let t = insert_entry(s, k, v);
    assert forall|i: int, j: int| 0 <= i < j < t.len() implies t[i].0 != t[j].0 by {
        if j == s.len() {
            assert(!has_key(k)(s[i]));
        }
    }
}

/// Storing a batch of pairs with distinct keys: a key of the batch reads
/// as its value in the batch, any other key as before.
pub proof fn lemma_insert_all_lookup(s: Entries, pairs: Entries, k: Seq<char>)
    requires
        distinct_keys(pairs),
    ensures
        lookup(insert_all(s, pairs), k) == match lookup(pairs, k) {
            Some(v) => Some(v),
            None => lookup(s, k),
        },
    decreases pairs.len(),
{
    if pairs.len() > 0 {
        let rest = pairs.drop_first();
        let s1 = insert_entry(s, pairs[0].0, pairs[0].1);
        assert forall|i: int, j: int| 0 <= i < j < rest.len() implies rest[i].0 != rest[j].0 by {
            assert(rest[i] == pairs[i + 1] && rest[j] == pairs[j + 1]);
        }
        lemma_insert_all_lookup(s1, rest, k);
        law_lookup_after_insert(s, pairs[0].0, pairs[0].1);
        lemma_first_where(rest, has_key(k));
        let f = first_where(rest, has_key(k));
        if pairs[0].0 == k && f < rest.len() {
            assert(rest[f] == pairs[f + 1]);
        }
        if f < rest.len() {
            assert(rest[f] == pairs[f + 1]);
        }
    }
}

/// Storing one more pair at the end of a batch.
pub proof fn lemma_insert_all_push(s: Entries, pairs: Entries, e: (Seq<char>, Seq<char>))
    ensures
        insert_all(s, pairs.push(e)) == insert_entry(
            insert_all(s, pairs),
            e.0,
            e.1,
        ),
    decreases pairs.len(),
{
    if pairs.len() > 0 {
        let s2 = insert_entry(s, pairs[0].0, pairs[0].1);
        lemma_insert_all_push(s2, pairs.drop_first(), e);
        assert(pairs.push(e).drop_first() =~= pairs.drop_first().push(e));
        assert(pairs.push(e)[0] == pairs[0]);
        assert(pairs.push(e).len() > 0);
    } else {
        assert(pairs.push(e).drop_first() =~= Seq::<(Seq<char>, Seq<char>)>::empty());
        assert(pairs.push(e)[0] == e);
        let x = insert_entry(s, e.0, e.1);
        assert(insert_all(x, Seq::<(Seq<char>, Seq<char>)>::empty()) == x);
        assert(insert_all(s, pairs) == s);
    }
}


/// A map from strings to strings that keeps its entries in insertion order.
#[derive(Clone, Debug)]
pub struct FieldMap {
    entries: Vec<(String, String)>,
}

impl View for FieldMap {
    type V = Entries;

    closed spec fn view(&self) -> Entries {
        self.entries@.map_values(|e: (String, String)| (e.0@, e.1@))
    }
}

impl FieldMap {
    /// An empty map.
    pub fn new() -> (r: FieldMap)
        ensures
            r@ == Seq::<(Seq<char>, Seq<char>)>::empty(),
    {
        let r = FieldMap { entries: Vec::new() };
        assert(r@ =~= Seq::<(Seq<char>, Seq<char>)>::empty());
        r
    }

    /// The number of entries.
    pub fn len(&self) -> (r: usize)
        ensures
            r == self@.len(),
    {
        self.entries.len()
    }

    /// The key of the `i`-th entry.
    pub fn key_at(&self, i: usize) -> (r: &String)
        requires
            i < self@.len(),
        ensures
            r@ == self@[i as int].0,
    {
        &self.entries[i].0
    }

    /// The value of the `i`-th entry.
    pub fn value_at(&self, i: usize) -> (r: &String)
        requires
            i < self@.len(),
        ensures
            r@ == self@[i as int].1,
    {
        &self.entries[i].1
    }

    /// Position of the entry whose key is `key`, or the number of entries.
    pub fn position(&self, key: &str) -> (r: usize)
        ensures
            r as int == key_index(self@, key@),
    {
        let mut i: usize = 0;
        while i < self.entries.len()
            invariant
                i <= self@.len(),
                self@.len() == self.entries@.len(),
                forall|j: int| 0 <= j < i ==> !has_key(key@)(#[trigger] self@[j]),
            decreases self.entries.len() - i,
        {
            if str_eq(self.entries[i].0.as_str(), key) {
                proof {
                    assert(self@[i as int].0 == self.entries@[i as int].0@);
                    lemma_first_where_unique(self@, has_key(key@), i as int);
                }
                return i;
            }
            assert(self@[i as int].0 == self.entries@[i as int].0@);
            i = i + 1;
        }
        proof {
            lemma_first_where_unique(self@, has_key(key@), i as int);
        }
        i
    }

    /// The value stored under `key`.
    pub fn get(&self, key: &str) -> (r: Option<&String>)
        ensures
            match r {
                Some(v) => lookup(self@, key@) == Some(v@),
                None => lookup(self@, key@) is None,
            },
    {
        let i = self.position(key);
        if i < self.entries.len() {
            Some(&self.entries[i].1)
        } else {
            None
        }
    }

    /// Whether some entry has key `key`.
    pub fn contains_key(&self, key: &str) -> (r: bool)
        ensures
            r == (lookup(self@, key@) is Some),
    {
        self.position(key) < self.entries.len()
    }

    /// Stores `value` under `key`, replacing the value of an existing entry
    /// in place or adding a new entry at the end.
    pub fn insert(&mut self, key: String, value: String)
        ensures
            final(self)@ == insert_entry(old(self)@, key@, value@),
    {
        let i = self.position(key.as_str());
        let ghost k = key@;
        let ghost v = value@;
        if i < self.entries.len() {
            self.entries.set(i, (key, value));
            assert(self@ =~= old(self)@.update(i as int, (k, v)));
        } else {
            self.entries.push((key, value));
            assert(self@ =~= old(self)@.push((k, v)));
        }
    }
}

} // verus!
