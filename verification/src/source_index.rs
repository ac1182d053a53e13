//! The map from files to their indexes in a bundle.
use crate::text::texts;
use dashmap::DashMap;
use vstd::prelude::*;

verus! {

/// `dashmap::DashMap`: a hash map.
#[verifier::external_type_specification]
#[verifier::external_body]
#[verifier::reject_recursive_types(K)]
#[verifier::reject_recursive_types(V)]
#[verifier::reject_recursive_types(S)]
pub struct ExDashMap<K, V, S>(dashmap::DashMap<K, V, S>);

/// What a map from the components of paths to indexes holds.
pub uninterp spec fn index_entries(map: DashMap<Vec<String>, u32>) -> Map<Seq<Seq<char>>, u32>;

/// `dashmap::DashMap::new`: a map that holds nothing.
#[verifier::external_body]
pub(crate) fn new_index() -> (r: DashMap<Vec<String>, u32>)
    ensures
        index_entries(r) == (Map::<Seq<Seq<char>>, u32>::empty()),
{
    DashMap::new()
}

/// `dashmap::DashMap::get`: the value that a key has in the map, if it has one.
#[verifier::external_body]
pub(crate) fn index_get(map: &DashMap<Vec<String>, u32>, key: &Vec<String>) -> (r: Option<u32>)
    ensures
        r == (if index_entries(*map).contains_key(texts(key@)) {
            Some(index_entries(*map)[texts(key@)])
        } else {
            None
        }),
{
    map.get(key).map(|entry| *entry.value())
}

/// `dashmap::DashMap::insert`: gives a key a value, in place of the one that it had.
#[verifier::external_body]
pub(crate) fn index_insert(map: &mut DashMap<Vec<String>, u32>, key: Vec<String>, value: u32)
    ensures
        index_entries(*final(map)) == index_entries(*old(map)).insert(texts(key@), value),
{
    map.insert(key, value);
}

} // verus!
