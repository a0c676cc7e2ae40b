//! The in-memory index: a concurrent ordered map from key to the position
//! of the record holding its current value.
//!
//! The map itself is `crossbeam_skiplist::SkipMap`, which supports lock-free
//! reads beside a single writer.  Its contents are named by the
//! uninterpreted function [`index_model`], and each operation used by the
//! store is wrapped with a contract over that name.  The store owns its
//! map exclusively (mutating wrappers take it `&mut`), so no concurrent
//! mutation can interleave with the contracts stated here.

use vstd::prelude::*;

use crossbeam_skiplist::SkipMap;

use crate::command::CommandPos;

verus! {

#[verifier::external_type_specification]
#[verifier::external_body]
#[verifier::reject_recursive_types(K)]
#[verifier::reject_recursive_types(V)]
pub struct ExSkipMap<K, V>(SkipMap<K, V>);

/// The index: keys to positions of their current `Set` records.
pub type Index = SkipMap<String, CommandPos>;

/// The contents of an index with no entries.
pub open spec fn empty_index_model() -> Map<Seq<char>, CommandPos> {
    Map::empty()
}

/// Relies on `SkipMap::new`: a fresh map holds no entry.
#[verifier::external_body]
pub fn index_new() -> (r: Index)
    ensures
        index_model(r) == empty_index_model(),
{
    SkipMap::new()
}

/// The bindings held by the index.  Uninterpreted; it stands for the
/// entries of the skip map.
pub uninterp spec fn index_model(m: SkipMap<String, CommandPos>) -> Map<Seq<char>, CommandPos>;


/// Relies on `SkipMap::get`: a present key yields its value, an absent key
/// yields nothing.
#[verifier::external_body]
pub fn index_get(m: &SkipMap<String, CommandPos>, key: &String) -> (r: Option<CommandPos>)
    ensures
        r == if index_model(*m).contains_key(key@) {
            Some(index_model(*m)[key@])
        } else {
            None::<CommandPos>
        },
{
    match m.get(key) {
        Some(entry) => Some(*entry.value()),
        None => None,
    }
}

/// Relies on `SkipMap::contains_key`.
#[verifier::external_body]
pub fn index_contains(m: &SkipMap<String, CommandPos>, key: &String) -> (r: bool)
    ensures
        r == index_model(*m).contains_key(key@),
{
    m.contains_key(key)
}

/// Relies on `SkipMap::insert`: the new binding replaces any old one under
/// the same key and leaves every other binding alone.
#[verifier::external_body]
pub fn index_insert(m: &mut SkipMap<String, CommandPos>, key: String, pos: CommandPos)
    ensures
        index_model(*final(m)) == index_model(*old(m)).insert(key@, pos),
{
    m.insert(key, pos);
}

/// Relies on `SkipMap::remove`: the binding under the key, if any, is taken
/// out and handed back.
#[verifier::external_body]
pub fn index_remove(m: &mut SkipMap<String, CommandPos>, key: &String) -> (r: Option<CommandPos>)
    ensures
        index_model(*final(m)) == index_model(*old(m)).remove(key@),
        r == if index_model(*old(m)).contains_key(key@) {
            Some(index_model(*old(m))[key@])
        } else {
            None::<CommandPos>
        },
{
    match m.remove(key) {
        Some(entry) => Some(*entry.value()),
        None => None,
    }
}

/// Relies on `SkipMap::iter`: every binding is listed exactly once, keys
/// unrepeated.
#[verifier::external_body]
pub fn index_entries(m: &SkipMap<String, CommandPos>) -> (r: Vec<(String, CommandPos)>)
    ensures
        forall|i: int|
            0 <= i < r@.len() ==> index_model(*m).contains_key((#[trigger] r@[i]).0@)
                && index_model(*m)[r@[i].0@] == r@[i].1,
        forall|k: Seq<char>|
            index_model(*m).contains_key(k) ==> exists|i: int|
                0 <= i < r@.len() && (#[trigger] r@[i]).0@ == k,
        forall|i: int, j: int|
            0 <= i < j < r@.len() ==> (#[trigger] r@[i]).0@ != (#[trigger] r@[j]).0@,
{
    let mut out: Vec<(String, CommandPos)> = Vec::new();
    for entry in m.iter() {
        out.push((entry.key().clone(), *entry.value()));
    }
    out
}

} // verus!
