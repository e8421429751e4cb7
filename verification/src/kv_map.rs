//! Tables of KV3 values: an `IndexMap` from keys to entries, which keeps its
//! keys in insertion order.
use indexmap::IndexMap;
use vstd::prelude::*;

use crate::{KvEntryValue, KvMapEntry, KvValue};

verus! {

/// A table's entries in order. The `IndexMap` is held privately: what it holds
/// is known to proofs through `kv_map_contents` only.
#[verifier::external_body]
#[derive(Debug, PartialEq)]
pub struct KvMap {
    entries: IndexMap<String, KvMapEntry>,
}

/// The key-entry pairs that a table holds, in the `IndexMap`'s order.
pub uninterp spec fn kv_map_contents(m: KvMap) -> Seq<(Seq<char>, KvEntryValue)>;

impl View for KvMap {
    type V = Seq<(Seq<char>, KvEntryValue)>;

    open spec fn view(&self) -> Seq<(Seq<char>, KvEntryValue)> {
        kv_map_contents(*self)
    }
}

/// No key occurs twice.
pub open spec fn keys_distinct(m: Seq<(Seq<char>, KvEntryValue)>) -> bool {
    forall|i: int, j: int| 0 <= i < j < m.len() ==> #[trigger] m[i].0 != #[trigger] m[j].0
}

/// No table in `v`, at any depth, holds a key twice.
pub open spec fn all_keys_distinct(v: KvValue) -> bool
    decreases v,
{
    match v {
        KvValue::Table(es) => keys_distinct(es) && forall|i: int|
            0 <= i < es.len() ==> all_keys_distinct(#[trigger] es[i].1.value),
        KvValue::Array(items) => forall|i: int|
            0 <= i < items.len() ==> all_keys_distinct(#[trigger] items[i]),
        _ => true,
    }
}

pub open spec fn has_key(m: Seq<(Seq<char>, KvEntryValue)>, k: Seq<char>) -> bool {
    exists|i: int| 0 <= i < m.len() && #[trigger] m[i].0 == k
}

/// The first position of key `k` in `m` (the only one where keys are distinct).
pub open spec fn key_index(m: Seq<(Seq<char>, KvEntryValue)>, k: Seq<char>) -> int {
    choose|i: int|
        0 <= i < m.len() && #[trigger] m[i].0 == k && forall|j: int| 0 <= j < i ==> m[j].0 != k
}

/// `m` after inserting `v` under `k`: a key already present keeps its place
/// and gets the new entry; a new key goes last.
pub open spec fn map_inserted(
    m: Seq<(Seq<char>, KvEntryValue)>,
    k: Seq<char>,
    v: KvEntryValue,
) -> Seq<(Seq<char>, KvEntryValue)> {
    if has_key(m, k) {
        m.update(key_index(m, k), (k, v))
    } else {
        m.push((k, v))
    }
}

/// Where keys are distinct, the key at position `i` has its first position at `i`.
pub proof fn lemma_key_index(m: Seq<(Seq<char>, KvEntryValue)>, i: int)
    requires
        keys_distinct(m),
        0 <= i < m.len(),
    ensures
        has_key(m, m[i].0),
        key_index(m, m[i].0) == i,
{
    let k = m[i].0;
    assert(0 <= i < m.len() && m[i].0 == k && forall|j: int| 0 <= j < i ==> m[j].0 != k);
    let c = key_index(m, k);
    assert(0 <= c < m.len() && m[c].0 == k);
    if c != i {
        if c < i {
            assert(m[c].0 != m[i].0);
        } else {
            assert(m[i].0 != m[c].0);
        }
    }
}

/// Reading a table after an insert: the key is there with the new entry, keys
/// stay distinct, the table grows by one exactly when the key is new (the new
/// key going last), and every other entry keeps its place.
pub proof fn lemma_insert_then_read(
    m: Seq<(Seq<char>, KvEntryValue)>,
    k: Seq<char>,
    v: KvEntryValue,
)
    requires
        keys_distinct(m),
    ensures
        keys_distinct(map_inserted(m, k, v)),
        has_key(map_inserted(m, k, v), k),
        map_inserted(m, k, v)[key_index(map_inserted(m, k, v), k)] == (k, v),
        map_inserted(m, k, v).len() == if has_key(m, k) {
            m.len()
        } else {
            m.len() + 1
        },
        !has_key(m, k) ==> map_inserted(m, k, v)[m.len() as int] == (k, v),
        forall|i: int| 0 <= i < m.len() && m[i].0 != k ==> #[trigger] map_inserted(m, k, v)[i] == m[i],
{
    let r = map_inserted(m, k, v);
    if has_key(m, k) {
        let w = choose|i: int| 0 <= i < m.len() && #[trigger] m[i].0 == k;
        lemma_key_index(m, w);
        let c = key_index(m, k);
        assert(c == w);
        assert(r == m.update(c, (k, v)));
        assert(keys_distinct(r)) by {
            assert forall|i: int, j: int| 0 <= i < j < r.len() implies #[trigger] r[i].0 != #[trigger] r[j].0 by {
                assert(r[i].0 == m[i].0 && r[j].0 == m[j].0);
            }
        }
        assert(r[c].0 == k);
        lemma_key_index(r, c);
    } else {
        assert(r == m.push((k, v)));
        assert(keys_distinct(r)) by {
            assert forall|i: int, j: int| 0 <= i < j < r.len() implies #[trigger] r[i].0 != #[trigger] r[j].0 by {
                if j == m.len() {
                    assert(r[i] == m[i]);
                } else {
                    assert(r[i] == m[i] && r[j] == m[j]);
                }
            }
        }
        lemma_key_index(r, m.len() as int);
    }
}

/// `IndexMap::new`: a table with no entries.
#[verifier::external_body]
fn index_map_new() -> (m: KvMap)
    ensures
        kv_map_contents(m) == Seq::<(Seq<char>, KvEntryValue)>::empty(),
{
    KvMap { entries: IndexMap::new() }
}

/// `IndexMap::len`: the number of entries.
#[verifier::external_body]
fn index_map_len(m: &KvMap) -> (n: usize)
    ensures
        n == kv_map_contents(*m).len(),
{
    m.entries.len()
}

/// `IndexMap::contains_key`: whether some entry has key `k`.
#[verifier::external_body]
fn index_map_contains_key(m: &KvMap, k: &str) -> (b: bool)
    ensures
        b == has_key(kv_map_contents(*m), k@),
{
    m.entries.contains_key(k)
}

/// `IndexMap::insert`: a present key keeps its place and gets the new entry,
/// the old one being returned; a new key goes last. Keys stay distinct.
#[verifier::external_body]
fn index_map_insert(m: &mut KvMap, k: String, v: KvMapEntry) -> (r: Option<KvMapEntry>)
    ensures
        kv_map_contents(*final(m)) == map_inserted(kv_map_contents(*old(m)), k@, v@),
        keys_distinct(kv_map_contents(*old(m))) ==> keys_distinct(kv_map_contents(*final(m))),
        r is Some <==> has_key(kv_map_contents(*old(m)), k@),
        r matches Some(e) ==> e@ == kv_map_contents(*old(m))[key_index(
            kv_map_contents(*old(m)),
            k@,
        )].1,
{
    m.entries.insert(k, v)
}

/// `IndexMap::get_index`: the key and entry at position `i`, if there is one.
/// An `IndexMap` holds no key twice, so the key given stands at no other position.
#[verifier::external_body]
fn index_map_get_index(m: &KvMap, i: usize) -> (r: Option<(&String, &KvMapEntry)>)
    ensures
        r is Some <==> i < kv_map_contents(*m).len(),
        r matches Some((k, e)) ==> k@ == kv_map_contents(*m)[i as int].0 && e@ == kv_map_contents(
            *m,
        )[i as int].1,
        r matches Some((k, e)) ==> forall|j: int|
            0 <= j < kv_map_contents(*m).len() && j != i ==> kv_map_contents(*m)[j].0 != k@,
{
    m.entries.get_index(i)
}

impl Clone for KvMap {
    /// `IndexMap::clone`: a table with the same entries, cloned, in the same order.
    #[verifier::external_body]
    fn clone(&self) -> (r: KvMap)
        ensures
            kv_map_contents(r) == kv_map_contents(*self),
    {
        KvMap { entries: self.entries.clone() }
    }
}

impl KvMap {
    /// A table with no entries.
    pub fn new() -> (m: KvMap)
        ensures
            m@ == Seq::<(Seq<char>, KvEntryValue)>::empty(),
    {
        index_map_new()
    }

    /// The number of entries.
    pub fn len(&self) -> (n: usize)
        ensures
            n == self@.len(),
    {
        index_map_len(self)
    }

    /// Whether some entry has key `k`.
    pub fn contains_key(&self, k: &str) -> (b: bool)
        ensures
            b == has_key(self@, k@),
    {
        index_map_contains_key(self, k)
    }

    /// Puts `v` under `k`: a present key keeps its place and gets the new entry,
    /// the old one being returned; a new key goes last.
    pub fn insert(&mut self, k: String, v: KvMapEntry) -> (r: Option<KvMapEntry>)
        ensures
            final(self)@ == map_inserted(old(self)@, k@, v@),
            keys_distinct(old(self)@) ==> keys_distinct(final(self)@),
            r is Some <==> has_key(old(self)@, k@),
            r matches Some(e) ==> e@ == old(self)@[key_index(old(self)@, k@)].1,
    {
        index_map_insert(self, k, v)
    }

    /// The key and entry at position `i`, if there is one.
    pub fn get_index(&self, i: usize) -> (r: Option<(&String, &KvMapEntry)>)
        ensures
            r is Some <==> i < self@.len(),
            r matches Some((k, e)) ==> k@ == self@[i as int].0 && e@ == self@[i as int].1,
            r matches Some((k, e)) ==> forall|j: int|
                0 <= j < self@.len() && j != i ==> self@[j].0 != k@,
    {
        index_map_get_index(self, i)
    }
}

}
