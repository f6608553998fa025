//! The concurrent ordered maps of crossbeam-skiplist, as this library uses
//! them. Each wrapper below makes one call into `SkipMap` and states what
//! the crate's documentation and source promise of it, over a name for the
//! map's contents. The wrappers take the map by `&mut` where the call
//! changes it, so that the contents before and after are those of one
//! exclusive owner.

use crate::local_cache::is_superseded_by;
use crate::local_cache::CacheEntry;
use crate::node_view::NodeView;
use crossbeam_skiplist::SkipMap;
use std::sync::Arc;
use vstd::prelude::*;

verus! {

#[verifier::external_type_specification]
#[verifier::external_body]
#[verifier::reject_recursive_types(K)]
#[verifier::reject_recursive_types(V)]
pub struct ExSkipMap<K, V>(SkipMap<K, V>);

/// What a map of cache entries holds, keyed by the characters of the key.
pub uninterp spec fn cache_entries(m: SkipMap<String, Arc<CacheEntry>>) -> Map<
    Seq<char>,
    CacheEntry,
>;

/// Relies on `SkipMap::new`: a new map is empty.
#[verifier::external_body]
pub(crate) fn new_cache_map() -> (r: SkipMap<String, Arc<CacheEntry>>)
    ensures
        cache_entries(r).dom().is_empty(),
{
    SkipMap::new()
}

/// Relies on `SkipMap::get`: the entry stored under the key, if there is one.
#[verifier::external_body]
pub(crate) fn cache_map_get(m: &SkipMap<String, Arc<CacheEntry>>, key: &str) -> (r: Option<
    Arc<CacheEntry>,
>)
    ensures
        r is Some <==> cache_entries(*m).contains_key(key@),
        r matches Some(e) ==> *e == cache_entries(*m)[key@],
{
    match m.get(key) {
        Some(entry) => Some(Arc::clone(entry.value())),
        None => None,
    }
}

/// Relies on `SkipMap::compare_insert`: a missing key is inserted; an
/// existing entry is replaced iff it is older than the new one, and is
/// otherwise left in place.
#[verifier::external_body]
pub(crate) fn cache_map_insert_if_newer(
    m: &mut SkipMap<String, Arc<CacheEntry>>,
    key: String,
    value: Arc<CacheEntry>,
)
    ensures
        cache_entries(*final(m)) == if cache_entries(*old(m)).contains_key(key@) && !(
        cache_entries(*old(m))[key@].this_update_micros < value.this_update_micros) {
            cache_entries(*old(m))
        } else {
            cache_entries(*old(m)).insert(key@, *value)
        },
{
    let this_update_micros = value.this_update_micros;
    m.compare_insert(key, value, |incumbent| is_superseded_by(incumbent, this_update_micros));
}

/// Relies on `SkipMap::remove`: the key is absent afterwards.
#[verifier::external_body]
pub(crate) fn cache_map_remove(m: &mut SkipMap<String, Arc<CacheEntry>>, key: &str)
    ensures
        cache_entries(*final(m)) == cache_entries(*old(m)).remove(key@),
{
    m.remove(key);
}

/// Relies on `SkipMap::iter`: it yields every entry of the map once.
#[verifier::external_body]
pub(crate) fn cache_map_entries(m: &SkipMap<String, Arc<CacheEntry>>) -> (r: Vec<
    (String, Arc<CacheEntry>),
>)
    ensures
        forall|i: int|
            0 <= i < r@.len() ==> #[trigger] cache_entries(*m).contains_key(r@[i].0@) && *r@[i].1
                == cache_entries(*m)[r@[i].0@],
        forall|i: int, j: int| 0 <= i < j < r@.len() ==> r@[i].0@ != r@[j].0@,
        forall|k: Seq<char>| #[trigger]
            cache_entries(*m).contains_key(k) ==> exists|i: int| 0 <= i < r@.len() && r@[i].0@ == k,
{
    m.iter().map(|entry| (entry.key().clone(), Arc::clone(entry.value()))).collect()
}

/// What a map of per-origin views holds, keyed by origin node id.
pub uninterp spec fn node_views(m: SkipMap<u64, Arc<NodeView>>) -> Map<u64, NodeView>;

/// Relies on `SkipMap::new`: a new map is empty.
#[verifier::external_body]
pub(crate) fn new_node_view_map() -> (r: SkipMap<u64, Arc<NodeView>>)
    ensures
        node_views(r).dom().is_empty(),
{
    SkipMap::new()
}

/// Relies on `SkipMap::get`: the view stored under the id, if there is one.
#[verifier::external_body]
pub(crate) fn node_view_map_get(m: &SkipMap<u64, Arc<NodeView>>, node_id: u64) -> (r: Option<
    Arc<NodeView>,
>)
    ensures
        r is Some <==> node_views(*m).contains_key(node_id),
        r matches Some(v) ==> *v == node_views(*m)[node_id],
{
    match m.get(&node_id) {
        Some(entry) => Some(Arc::clone(entry.value())),
        None => None,
    }
}

/// Relies on `SkipMap::insert`: the id maps to the new view afterwards,
/// replacing any view it had.
#[verifier::external_body]
pub(crate) fn node_view_map_insert(m: &mut SkipMap<u64, Arc<NodeView>>, node_id: u64, view: Arc<NodeView>)
    ensures
        node_views(*final(m)) == node_views(*old(m)).insert(node_id, *view),
{
    m.insert(node_id, view);
}

/// Relies on `SkipMap::iter`: it yields every entry of the map once.
#[verifier::external_body]
pub(crate) fn node_view_map_entries(m: &SkipMap<u64, Arc<NodeView>>) -> (r: Vec<(u64, Arc<NodeView>)>)
    ensures
        forall|i: int|
            0 <= i < r@.len() ==> #[trigger] node_views(*m).contains_key(r@[i].0) && *r@[i].1
                == node_views(*m)[r@[i].0],
        forall|i: int, j: int| 0 <= i < j < r@.len() ==> r@[i].0 != r@[j].0,
        forall|k: u64| #[trigger]
            node_views(*m).contains_key(k) ==> exists|i: int| 0 <= i < r@.len() && r@[i].0 == k,
{
    m.iter().map(|entry| (*entry.key(), Arc::clone(entry.value()))).collect()
}

/// What a map of last-seen times holds, keyed by node ordinal.
pub uninterp spec fn last_seen_times(m: SkipMap<u32, u64>) -> Map<u32, u64>;

/// Relies on `SkipMap::new`: a new map is empty.
#[verifier::external_body]
pub(crate) fn new_last_seen_map() -> (r: SkipMap<u32, u64>)
    ensures
        last_seen_times(r).dom().is_empty(),
{
    SkipMap::new()
}

/// Relies on `SkipMap::get`: the time stored under the ordinal, if any.
#[verifier::external_body]
pub(crate) fn last_seen_map_get(m: &SkipMap<u32, u64>, ordinal: u32) -> (r: Option<u64>)
    ensures
        r is Some <==> last_seen_times(*m).contains_key(ordinal),
        r matches Some(t) ==> t == last_seen_times(*m)[ordinal],
{
    match m.get(&ordinal) {
        Some(entry) => Some(*entry.value()),
        None => None,
    }
}

/// Relies on `SkipMap::insert`: the ordinal maps to the new time
/// afterwards, replacing any time it had.
#[verifier::external_body]
pub(crate) fn last_seen_map_insert(m: &mut SkipMap<u32, u64>, ordinal: u32, micros: u64)
    ensures
        last_seen_times(*final(m)) == last_seen_times(*old(m)).insert(ordinal, micros),
{
    m.insert(ordinal, micros);
}

/// Relies on `SkipMap::remove`: the ordinal is absent afterwards.
#[verifier::external_body]
pub(crate) fn last_seen_map_remove(m: &mut SkipMap<u32, u64>, ordinal: u32)
    ensures
        last_seen_times(*final(m)) == last_seen_times(*old(m)).remove(ordinal),
{
    m.remove(&ordinal);
}

/// Relies on `SkipMap::iter`: it yields every entry of the map once.
#[verifier::external_body]
pub(crate) fn last_seen_map_entries(m: &SkipMap<u32, u64>) -> (r: Vec<(u32, u64)>)
    ensures
        forall|i: int|
            0 <= i < r@.len() ==> #[trigger] last_seen_times(*m).contains_key(r@[i].0) && r@[i].1
                == last_seen_times(*m)[r@[i].0],
        forall|i: int, j: int| 0 <= i < j < r@.len() ==> r@[i].0 != r@[j].0,
        forall|k: u32| #[trigger]
            last_seen_times(*m).contains_key(k) ==> exists|i: int| 0 <= i < r@.len() && r@[i].0 == k,
{
    m.iter().map(|entry| (*entry.key(), *entry.value())).collect()
}

} // verus!
