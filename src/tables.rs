//! Lookup tables of the diff engine, kept in `ahash` hash maps.

use vstd::prelude::*;
use ahash::HashMapExt;
use crate::hash::{ContentHash, HashAlgorithm};

verus! {

#[verifier::external_type_specification]
#[verifier::external_body]
pub struct ExAhashRandomState(ahash::RandomState);

/// Paths mapped to positions in a file list.
pub type PathTable = ahash::HashMap<String, usize>;

/// Fingerprints mapped to the positions of the files that have them.
pub type HashTable = ahash::HashMap<ContentHash, Vec<usize>>;

/// What a path table maps each path to.
pub uninterp spec fn path_entries(m: PathTable) -> Map<Seq<char>, usize>;

/// What a hash table maps each fingerprint to.
pub uninterp spec fn hash_entries(m: HashTable) -> Map<(HashAlgorithm, Seq<u8>), Seq<usize>>;

pub open spec fn no_paths() -> Map<Seq<char>, usize> {
    Map::empty()
}

pub open spec fn no_hashes() -> Map<(HashAlgorithm, Seq<u8>), Seq<usize>> {
    Map::empty()
}

/// Relies on `ahash::HashMapExt::with_capacity`: an empty map.
#[verifier::external_body]
pub(crate) fn new_path_table(capacity: usize) -> (r: PathTable)
    ensures
        path_entries(r) == no_paths(),
{
    <PathTable as HashMapExt>::with_capacity(capacity)
}

/// Relies on `HashMap::insert`: the key now maps to the value, other keys
/// keep theirs. Keys are compared by their characters.
#[verifier::external_body]
pub(crate) fn insert_path(m: &mut PathTable, k: String, v: usize)
    ensures
        path_entries(*final(m)) == path_entries(*old(m)).insert(k@, v),
{
    m.insert(k, v);
}

/// Relies on `HashMap::get`: the value stored under the key, if any.
#[verifier::external_body]
pub(crate) fn lookup_path(m: &PathTable, k: &String) -> (r: Option<usize>)
    ensures
        r == (if path_entries(*m).contains_key(k@) {
            Some(path_entries(*m)[k@])
        } else {
            None::<usize>
        }),
{
    m.get(k).copied()
}

/// Relies on `ahash::HashMapExt::with_capacity`: an empty map.
#[verifier::external_body]
pub(crate) fn new_hash_table(capacity: usize) -> (r: HashTable)
    ensures
        hash_entries(r) == no_hashes(),
{
    <HashTable as HashMapExt>::with_capacity(capacity)
}

/// Relies on `HashMap::insert`: the key now maps to the value, other keys
/// keep theirs. Keys are compared with `ContentHash`'s `==`.
#[verifier::external_body]
pub(crate) fn insert_hash(m: &mut HashTable, k: ContentHash, v: Vec<usize>)
    ensures
        hash_entries(*final(m)) == hash_entries(*old(m)).insert(k@, v@),
{
    m.insert(k, v);
}

/// Relies on `HashMap::remove`: takes the value stored under the key out of
/// the map, if any.
#[verifier::external_body]
pub(crate) fn take_hash(m: &mut HashTable, k: &ContentHash) -> (r: Option<Vec<usize>>)
    ensures
        hash_entries(*final(m)) == hash_entries(*old(m)).remove(k@),
        match r {
            Some(v) => hash_entries(*old(m)).contains_key(k@) && v@ == hash_entries(*old(m))[k@],
            None => !hash_entries(*old(m)).contains_key(k@),
        },
{
    m.remove(k)
}

/// Relies on `HashMap::get`: the value stored under the key, if any.
#[verifier::external_body]
pub(crate) fn lookup_hash<'a>(m: &'a HashTable, k: &ContentHash) -> (r: Option<&'a Vec<usize>>)
    ensures
        match r {
            Some(v) => hash_entries(*m).contains_key(k@) && v@ == hash_entries(*m)[k@],
            None => !hash_entries(*m).contains_key(k@),
        },
{
    m.get(k)
}

} // verus!
