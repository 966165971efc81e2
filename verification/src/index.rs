//! The in-memory index: an ordered map from keys to record offsets.
//!
//! The index is `crossbeam_skiplist::SkipMap`, the lock-free ordered map
//! that lets point lookups proceed concurrently with writes when a store
//! handle is shared across threads.  The store's proofs see it through the
//! declarations below: `index_entries` names what the map holds, and each
//! operation the store uses is a small trusted wrapper whose contract
//! states what the crate's source shows over that name.

use vstd::prelude::*;

verus! {

#[verifier::external_type_specification]
#[verifier::external_body]
#[verifier::reject_recursive_types(K)]
#[verifier::reject_recursive_types(V)]
pub struct ExSkipMap<K, V>(crossbeam_skiplist::SkipMap<K, V>);

/// The index map: keys to offset triples `(segment id, start, end)`.
pub type IndexMap = crossbeam_skiplist::SkipMap<String, (u32, u64, u64)>;

/// What the index holds: each key mapped to its offset triple
/// `(segment id, start, end)`.
pub uninterp spec fn index_entries(m: IndexMap) -> Map<Seq<char>, (u32, u64, u64)>;

/// Relies on `crossbeam_skiplist::SkipMap::new`: the new map is empty.
#[verifier::external_body]
pub fn index_new() -> (m: IndexMap)
    ensures
        ({
            let es = index_entries(m);
            es == Map::<Seq<char>, (u32, u64, u64)>::empty()
        }),
{
    crossbeam_skiplist::SkipMap::new()
}

/// Relies on `crossbeam_skiplist::SkipMap::get` and `Entry::value`: `get`
/// returns the entry holding the key's value, if the key is present.
#[verifier::external_body]
pub fn index_get(m: &IndexMap, key: &String) -> (r: Option<(u32, u64, u64)>)
    ensures
        r == if index_entries(*m).dom().contains(key@) {
            Some(index_entries(*m)[key@])
        } else {
            None::<(u32, u64, u64)>
        },
{
    match m.get(key) {
        Some(e) => Some(*e.value()),
        None => None,
    }
}

/// Relies on `crossbeam_skiplist::SkipMap::insert`: the pair is inserted,
/// and an existing entry with an equal key is removed first.
#[verifier::external_body]
pub fn index_insert(m: &mut IndexMap, key: String, off: (u32, u64, u64))
    ensures
        index_entries(*final(m)) == index_entries(*old(m)).insert(key@, off),
{
    m.insert(key, off);
}

/// Relies on `crossbeam_skiplist::SkipMap::remove` and `Entry::value`:
/// `remove` takes the key's entry out of the map and hands it back.
#[verifier::external_body]
pub fn index_remove(m: &mut IndexMap, key: &String) -> (r: Option<(u32, u64, u64)>)
    ensures
        index_entries(*final(m)) == index_entries(*old(m)).remove(key@),
        r == if index_entries(*old(m)).dom().contains(key@) {
            Some(index_entries(*old(m))[key@])
        } else {
            None::<(u32, u64, u64)>
        },
{
    match m.remove(key) {
        Some(e) => Some(*e.value()),
        None => None,
    }
}

/// Relies on `crossbeam_skiplist::SkipMap::iter` and `Entry::{key, value}`:
/// iteration visits exactly the map's entries, each key once.
#[verifier::external_body]
pub fn index_entries_vec(m: &IndexMap) -> (r: Vec<(String, (u32, u64, u64))>)
    ensures
        forall|i: int|
            0 <= i < r@.len() ==> index_entries(*m).dom().contains((#[trigger] r@[i]).0@)
                && index_entries(*m)[r@[i].0@] == r@[i].1,
        forall|i: int, j: int| 0 <= i < j < r@.len() ==> (#[trigger] r@[i]).0@ != (#[trigger] r@[j]).0@,
        forall|k: Seq<char>|
            #[trigger] index_entries(*m).dom().contains(k) ==> exists|i: int|
                0 <= i < r@.len() && (#[trigger] r@[i]).0@ == k,
{
    let mut r = Vec::new();
    for e in m.iter() {
        r.push((e.key().clone(), *e.value()));
    }
    r
}

} // verus!
