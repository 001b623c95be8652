//! The in-memory store: a table of keys to frames and a table of keys to
//! hashes of fields to frames, both held in `dashmap::DashMap`s.
use vstd::prelude::*;
use dashmap::DashMap;
use crate::frame::{Frame, RespFrame};

verus! {

#[verifier::external_type_specification]
#[verifier::external_body]
#[verifier::reject_recursive_types(K)]
#[verifier::reject_recursive_types(V)]
#[verifier::reject_recursive_types(S)]
pub struct ExDashMap<K, V, S>(dashmap::DashMap<K, V, S>);

/// What a table of keys to frames holds.
pub uninterp spec fn table_entries(m: DashMap<String, RespFrame>) -> Map<Seq<char>, Frame>;

/// What a table of keys to hashes holds: each hash as a map of fields to frames.
pub uninterp spec fn hash_entries(m: DashMap<String, DashMap<String, RespFrame>>) -> Map<
    Seq<char>,
    Map<Seq<char>, Frame>,
>;

/// The pairs as values.
pub open spec fn entry_pairs(pairs: Seq<(String, RespFrame)>) -> Seq<(Seq<char>, Frame)> {
    pairs.map_values(|p: (String, RespFrame)| (p.0@, p.1@))
}

/// The pairs hold each entry of `t` exactly once, in some order.
pub open spec fn lists_fields(ps: Seq<(Seq<char>, Frame)>, t: Map<Seq<char>, Frame>) -> bool {
    &&& forall|i: int| 0 <= i < ps.len() ==> t.contains_key((#[trigger] ps[i]).0) && t[ps[i].0] == ps[i].1
    &&& forall|i: int, j: int| 0 <= i < j < ps.len() ==> (#[trigger] ps[i]).0 != (#[trigger] ps[j]).0
    &&& forall|k: Seq<char>| #[trigger] t.contains_key(k) ==> exists|i: int| 0 <= i < ps.len() && (#[trigger] ps[i]).0 == k
}

/// The pairs hold each entry of `t` exactly once, in some order.
pub open spec fn lists_entries(pairs: Seq<(String, RespFrame)>, t: Map<Seq<char>, Frame>) -> bool {
    lists_fields(entry_pairs(pairs), t)
}

/// The hash of `key`, or an empty one where there is none.
pub open spec fn hash_or_empty(h: Map<Seq<char>, Map<Seq<char>, Frame>>, key: Seq<char>) -> Map<Seq<char>, Frame> {
    if h.contains_key(key) {
        h[key]
    } else {
        Map::empty()
    }
}

/// Relies on `DashMap::new`: a new map is empty.
#[verifier::external_body]
fn new_table() -> (r: DashMap<String, RespFrame>)
    ensures
        forall|k: Seq<char>| !table_entries(r).contains_key(k),
{
    DashMap::new()
}

/// Relies on `DashMap::new`: a new map is empty.
#[verifier::external_body]
fn new_hash_table() -> (r: DashMap<String, DashMap<String, RespFrame>>)
    ensures
        forall|k: Seq<char>| !hash_entries(r).contains_key(k),
{
    DashMap::new()
}

/// Relies on `DashMap::get`: the value stored under `key`, if any (copied
/// out while the entry is held).
#[verifier::external_body]
fn table_get(m: &DashMap<String, RespFrame>, key: &str) -> (r: Option<RespFrame>)
    ensures
        r is Some <==> table_entries(*m).contains_key(key@),
        r is Some ==> r->0@ == table_entries(*m)[key@],
{
    m.get(key).map(|e| e.value().copy_frame())
}

/// Relies on `DashMap::insert`: `key` now holds `value`, the other keys are
/// unchanged.
#[verifier::external_body]
fn table_insert(m: &mut DashMap<String, RespFrame>, key: String, value: RespFrame)
    ensures
        table_entries(*final(m)) == table_entries(*old(m)).insert(key@, value@),
{
    m.insert(key, value);
}

/// Relies on `DashMap::contains_key`.
#[verifier::external_body]
fn hash_contains(m: &DashMap<String, DashMap<String, RespFrame>>, key: &str) -> (r: bool)
    ensures
        r == hash_entries(*m).contains_key(key@),
{
    m.contains_key(key)
}

/// Relies on `DashMap::get`, on the table and then on the hash it finds:
/// the value of `field` in the hash of `key`, if both are there.
#[verifier::external_body]
fn hash_get(m: &DashMap<String, DashMap<String, RespFrame>>, key: &str, field: &str) -> (r: Option<RespFrame>)
    ensures
        r is Some <==> hash_or_empty(hash_entries(*m), key@).contains_key(field@),
        r is Some ==> r->0@ == hash_or_empty(hash_entries(*m), key@)[field@],
{
    let hash = m.get(key)?;
    let entry = hash.value().get(field)?;
    Some(entry.value().copy_frame())
}

/// Relies on `DashMap::entry(..).or_default()` and `DashMap::insert`: the
/// hash of `key` is made empty where there was none, atomically, and then
/// `field` is set in it while the entry is held.
#[verifier::external_body]
fn hash_insert(m: &mut DashMap<String, DashMap<String, RespFrame>>, key: String, field: String, value: RespFrame)
    ensures
        hash_entries(*final(m)) == hash_entries(*old(m)).insert(
            key@,
            hash_or_empty(hash_entries(*old(m)), key@).insert(field@, value@),
        ),
{
    m.entry(key).or_default().insert(field, value);
}

/// Relies on `DashMap::get` and `DashMap::iter`: the fields of the hash of
/// `key` with their values, each once, in the order the map walks them.
#[verifier::external_body]
fn hash_pairs(m: &DashMap<String, DashMap<String, RespFrame>>, key: &str) -> (r: Option<Vec<(String, RespFrame)>>)
    ensures
        r is Some <==> hash_entries(*m).contains_key(key@),
        r is Some ==> lists_entries(r->0@, hash_entries(*m)[key@]),
{
    let hash = m.get(key)?;
    Some(hash.value().iter().map(|e| copy_entry(e.key(), e.value())).collect())
}

/// A copy of a field and its value.
fn copy_entry(field: &String, value: &RespFrame) -> (r: (String, RespFrame))
    ensures
        r.0@ == field@,
        r.1@ == value@,
{
    (field.clone(), value.copy_frame())
}

/// The two tables of the store.
pub struct BackendInner {
    pub map: DashMap<String, RespFrame>,
    pub hmap: DashMap<String, DashMap<String, RespFrame>>,
}

impl BackendInner {
    fn new() -> (r: BackendInner)
        ensures
            forall|k: Seq<char>| !table_entries(r.map).contains_key(k),
            forall|k: Seq<char>| !hash_entries(r.hmap).contains_key(k),
    {
        BackendInner { map: new_table(), hmap: new_hash_table() }
    }
}

/// The store that commands run against.
pub struct Backend {
    inner: BackendInner,
}

impl Backend {
    /// The key/value table.
    pub closed spec fn kv(&self) -> Map<Seq<char>, Frame> {
        table_entries(self.inner.map)
    }

    /// The table of hashes.
    pub closed spec fn hkv(&self) -> Map<Seq<char>, Map<Seq<char>, Frame>> {
        hash_entries(self.inner.hmap)
    }

    /// An empty store.
    pub fn new() -> (r: Backend)
        ensures
            forall|k: Seq<char>| !r.kv().contains_key(k),
            forall|k: Seq<char>| !r.hkv().contains_key(k),
    {
        Backend { inner: BackendInner::new() }
    }

    /// The frame stored under `key`.
    pub fn get(&self, key: &str) -> (r: Option<RespFrame>)
        ensures
            r is Some <==> self.kv().contains_key(key@),
            r is Some ==> r->0@ == self.kv()[key@],
    {
        table_get(&self.inner.map, key)
    }

    /// Stores `value` under `key`, replacing what was there.
    pub fn set(&mut self, key: &str, value: RespFrame)
        ensures
            final(self).kv() == old(self).kv().insert(key@, value@),
            final(self).hkv() == old(self).hkv(),
    {
        table_insert(&mut self.inner.map, key.to_owned(), value);
    }

    /// The frame stored under `field` in the hash of `key`.
    pub fn hget(&self, key: &str, field: &str) -> (r: Option<RespFrame>)
        ensures
            r is Some <==> hash_or_empty(self.hkv(), key@).contains_key(field@),
            r is Some ==> r->0@ == hash_or_empty(self.hkv(), key@)[field@],
    {
        hash_get(&self.inner.hmap, key, field)
    }

    /// Stores `value` under `field` in the hash of `key`, making the hash
    /// where there is none.
    pub fn hset(&mut self, key: &str, field: &str, value: RespFrame)
        ensures
            final(self).hkv() == old(self).hkv().insert(
                key@,
                hash_or_empty(old(self).hkv(), key@).insert(field@, value@),
            ),
            final(self).kv() == old(self).kv(),
    {
        hash_insert(&mut self.inner.hmap, key.to_owned(), field.to_owned(), value);
    }

    /// The fields of the hash of `key` with their values, in some order.
    pub fn hgetall(&self, key: &str) -> (r: Option<Vec<(String, RespFrame)>>)
        ensures
            r is Some <==> self.hkv().contains_key(key@),
            r is Some ==> lists_entries(r->0@, self.hkv()[key@]),
    {
        hash_pairs(&self.inner.hmap, key)
    }

    /// Whether there is a hash under `key`.
    pub fn has_hash(&self, key: &str) -> (r: bool)
        ensures
            r == self.hkv().contains_key(key@),
    {
        hash_contains(&self.inner.hmap, key)
    }
}

} // verus!
