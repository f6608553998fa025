//! The local store of cache entries: last writer wins, expired entries are
//! never returned.

use crate::error::ClachelessError;
use crate::error::ClachelessErrorKind;
use crate::skipmap::cache_entries;
use crate::skipmap::cache_map_entries;
use crate::skipmap::cache_map_get;
use crate::skipmap::cache_map_insert_if_newer;
use crate::skipmap::cache_map_remove;
use crate::skipmap::new_cache_map;
use crate::sort::lemma_no_duplicates_from_counts;
use crate::sort::sort_by_first;
use crossbeam_skiplist::SkipMap;
use std::collections::HashMap;
use std::sync::Arc;
use vstd::prelude::*;
use vstd::string::StringExecFns;

verus! {

broadcast use vstd::seq_lib::group_to_multiset_ensures;

/// An immutable cache entry.
pub struct CacheEntry {
    /// Time the entry was first received at one of the cluster nodes.
    pub this_update_micros: u64,
    /// Node where the entry was first received.
    pub origin_node_id: u64,
    /// The sequence number of the entry on the node where it was first
    /// received.
    pub origin_node_update_seq: u64,
    /// Expiry time of the entry in epoch microseconds.
    pub expires_micros: u64,
    /// Raw bytes of the cached object.
    pub object_bytes: Arc<Vec<u8>>,
}

/// A cache entry together with the key it is stored under.
pub struct CacheEntryAndKey {
    /// Lookup key of the entry.
    pub key: String,
    pub ce: Arc<CacheEntry>,
}

/// What an entry holds, as plain values.
pub struct EntryModel {
    pub bytes: Seq<u8>,
    pub this_update_micros: u64,
    pub origin_node_id: u64,
    pub origin_node_update_seq: u64,
    pub expires_micros: u64,
}

pub open spec fn entry_model(e: CacheEntry) -> EntryModel {
    EntryModel {
        bytes: e.object_bytes@,
        this_update_micros: e.this_update_micros,
        origin_node_id: e.origin_node_id,
        origin_node_update_seq: e.origin_node_update_seq,
        expires_micros: e.expires_micros,
    }
}

/// The store after a put of `e` under `k`: the new entry is kept iff there
/// is none under `k` or the one there is strictly older.
pub open spec fn put_model(m: Map<Seq<char>, EntryModel>, k: Seq<char>, e: EntryModel) -> Map<
    Seq<char>,
    EntryModel,
> {
    if !m.contains_key(k) || m[k].this_update_micros < e.this_update_micros {
        m.insert(k, e)
    } else {
        m
    }
}

/// The entry under `k` that a read at time `now` may return: present and
/// not yet expired.
pub open spec fn get_model(m: Map<Seq<char>, EntryModel>, k: Seq<char>, now: u64) -> Option<
    EntryModel,
> {
    if m.contains_key(k) && m[k].expires_micros > now {
        Some(m[k])
    } else {
        None
    }
}

/// The store after removing what expired before `now`.
pub open spec fn purge_model(m: Map<Seq<char>, EntryModel>, now: u64) -> Map<
    Seq<char>,
    EntryModel,
> {
    m.restrict(m.dom().filter(|k: Seq<char>| !(m[k].expires_micros < now)))
}

/// An entry that a peer with the given baselines lacks: its origin is
/// listed, it was written after the baseline listed for that origin, and it
/// has not expired at `now`.
pub open spec fn wanted_for_transfer(e: EntryModel, baselines: Map<u64, u64>, now: u64) -> bool {
    &&& baselines.contains_key(e.origin_node_id)
    &&& e.this_update_micros > baselines[e.origin_node_id]
    &&& e.expires_micros > now
}

/// Of two writes to one key, the one with the later timestamp is what a
/// read returns afterwards, in whichever order the two were applied (as
/// long as no entry at least as recent as the later write was there before,
/// and it has not expired at the time of the read).
pub proof fn lemma_later_write_wins(
    m: Map<Seq<char>, EntryModel>,
    k: Seq<char>,
    e1: EntryModel,
    e2: EntryModel,
    now: u64,
)
    requires
        e1.this_update_micros < e2.this_update_micros,
        !m.contains_key(k) || m[k].this_update_micros < e2.this_update_micros,
        e2.expires_micros > now,
    ensures
        get_model(put_model(put_model(m, k, e1), k, e2), k, now) == Some(e2),
        get_model(put_model(put_model(m, k, e2), k, e1), k, now) == Some(e2),
{
}

/// Once an entry's expiry time is reached it is not returned, whether or
/// not it has been purged.
pub proof fn lemma_expired_entry_not_returned(m: Map<Seq<char>, EntryModel>, k: Seq<char>, now: u64)
    requires
        m.contains_key(k),
        m[k].expires_micros <= now,
    ensures
        get_model(m, k, now) is None,
{
}

/// Applying the same put a second time changes nothing.
pub proof fn lemma_redelivered_put_is_no_op(
    m: Map<Seq<char>, EntryModel>,
    k: Seq<char>,
    e: EntryModel,
)
    ensures
        put_model(put_model(m, k, e), k, e) == put_model(m, k, e),
{
}

/// `r` holds every entry of `m` that a peer with the given baselines lacks
/// (see `wanted_for_transfer`), each once, ordered by the sequence number at
/// their origin.
pub open spec fn is_transfer_batch(
    r: Seq<CacheEntryAndKey>,
    m: Map<Seq<char>, EntryModel>,
    baselines: Map<u64, u64>,
    now: u64,
) -> bool {
    &&& forall|i: int|
        0 <= i < r.len() ==> #[trigger] m.contains_key(r[i].key@) && entry_model(*r[i].ce)
            == m[r[i].key@] && wanted_for_transfer(m[r[i].key@], baselines, now)
    &&& forall|k: Seq<char>|
        #[trigger] m.contains_key(k) && wanted_for_transfer(m[k], baselines, now) ==> exists|i: int|
            0 <= i < r.len() && r[i].key@ == k
    &&& forall|i: int, j: int| 0 <= i < j < r.len() ==> r[i].key@ != r[j].key@
    &&& forall|i: int, j: int|
        0 <= i < j < r.len() ==> r[i].ce.origin_node_update_seq <= r[j].ce.origin_node_update_seq
}

/// Whether an incumbent entry gives way to one written at
/// `this_update_micros`.
pub fn is_superseded_by(incumbent: &Arc<CacheEntry>, this_update_micros: u64) -> (r: bool)
    ensures
        r == (incumbent.this_update_micros < this_update_micros),
{
    incumbent.this_update_micros < this_update_micros
}

/// The local store of cache entries.
pub struct LocalCache {
    cache: SkipMap<String, Arc<CacheEntry>>,
}

impl View for LocalCache {
    type V = Map<Seq<char>, EntryModel>;

    closed spec fn view(&self) -> Map<Seq<char>, EntryModel> {
        cache_entries(self.cache).map_values(|e: CacheEntry| entry_model(e))
    }
}

impl LocalCache {
    /// Return an empty store.
    pub fn new() -> (r: Self)
        ensures
            r@ == Map::<Seq<char>, EntryModel>::empty(),
    {
        let r = LocalCache { cache: new_cache_map() };
        assert(r@ =~= Map::<Seq<char>, EntryModel>::empty());
        r
    }

    /// Get the bytes of the entry under `cache_key`, if it has not expired
    /// at `now_micros`.
    pub fn get(&self, cache_key: &str, now_micros: u64) -> (r: Result<
        Arc<Vec<u8>>,
        ClachelessError,
    >)
        ensures
            r is Ok <==> get_model(self@, cache_key@, now_micros) is Some,
            r matches Ok(b) ==> b@ == self@[cache_key@].bytes,
            r matches Err(e) ==> e.kind == ClachelessErrorKind::NotFound,
    {
        match cache_map_get(&self.cache, cache_key) {
            Some(entry) => {
                if entry.expires_micros > now_micros {
                    return Ok(Arc::clone(&entry.object_bytes));
                }
            },
            None => {},
        }
        let msg = String::from_str("No entry for ").concat(cache_key).concat(".");
        Err(ClachelessErrorKind::NotFound.error_with_msg(msg.as_str()))
    }

    /// Store an entry under `cache_key` unless the entry already there was
    /// written at the same time or later.
    pub fn put(
        &mut self,
        cache_key: String,
        cache_value: Vec<u8>,
        this_update_micros: u64,
        origin_node_id: u64,
        origin_node_update_seq: u64,
        expires_micros: u64,
    ) -> (r: Result<(), ClachelessError>)
        ensures
            r is Ok,
            final(self)@ == put_model(
                old(self)@,
                cache_key@,
                (EntryModel {
                    bytes: cache_value@,
                    this_update_micros,
                    origin_node_id,
                    origin_node_update_seq,
                    expires_micros,
                }),
            ),
    {
        let ghost k = cache_key@;
        let entry = Arc::new(
            CacheEntry {
                this_update_micros,
                origin_node_id,
                origin_node_update_seq,
                expires_micros,
                object_bytes: Arc::new(cache_value),
            },
        );
        cache_map_insert_if_newer(&mut self.cache, cache_key, entry);
        assert(self@ =~= put_model(
            old(self)@,
            k,
            (EntryModel {
                bytes: entry.object_bytes@,
                this_update_micros,
                origin_node_id,
                origin_node_update_seq,
                expires_micros,
            }),
        ));
        Ok(())
    }

    /// Remove every entry that expired before `now_micros`; return how many
    /// were removed.
    pub fn purge_expired(&mut self, now_micros: u64) -> (count: usize)
        ensures
            final(self)@ == purge_model(old(self)@, now_micros),
            count == 0 <==> final(self)@ == old(self)@,
    {
        let entries = cache_map_entries(&self.cache);
        let ghost before = cache_entries(self.cache);
        let mut count: usize = 0;
        let mut i: usize = 0;
        while i < entries.len()
            invariant
                i <= entries.len(),
                forall|j: int|
                    0 <= j < entries@.len() ==> #[trigger] before.contains_key(entries@[j].0@)
                        && *entries@[j].1 == before[entries@[j].0@],
                forall|a: int, b: int|
                    0 <= a < b < entries@.len() ==> entries@[a].0@ != entries@[b].0@,
                forall|k: Seq<char>| #[trigger]
                    before.contains_key(k) ==> exists|j: int|
                        0 <= j < entries@.len() && entries@[j].0@ == k,
                forall|k: Seq<char>| #[trigger]
                    cache_entries(self.cache).contains_key(k) <==> before.contains_key(k) && !(
                    exists|j: int|
                        0 <= j < i && entries@[j].0@ == k && before[k].expires_micros < now_micros),
                forall|k: Seq<char>|
                    #[trigger] cache_entries(self.cache).contains_key(k) ==> cache_entries(
                        self.cache,
                    )[k] == before[k],
                count <= i,
                count == 0 <==> !(exists|j: int|
                    0 <= j < i && #[trigger] entries@[j].1.expires_micros < now_micros),
            decreases entries.len() - i,
        {
            let (key, entry) = (&entries[i].0, &entries[i].1);
            if entry.expires_micros < now_micros {
                cache_map_remove(&mut self.cache, key.as_str());
                count = count + 1;
            }
            i = i + 1;
        }
        proof {
            assert(self@ =~= purge_model(old(self)@, now_micros));
            if count == 0 {
                assert(self@ =~= old(self)@);
            } else {
                let j = choose|j: int|
                    0 <= j < i && #[trigger] entries@[j].1.expires_micros < now_micros;
                let k = entries@[j].0@;
                assert(old(self)@.contains_key(k));
                assert(!self@.contains_key(k));
            }
        }
        count
    }

    /// Every entry that a peer with the given baselines lacks (see
    /// `wanted_for_transfer`), each once, ordered by the sequence number at
    /// their origin.
    pub fn iter(&self, data_origin_id_and_baseline: &HashMap<u64, u64>, now_micros: u64) -> (r: Vec<
        CacheEntryAndKey,
    >)
        ensures
            is_transfer_batch(r@, self@, data_origin_id_and_baseline@, now_micros),
    {
        let entries = cache_map_entries(&self.cache);
        let ghost m = cache_entries(self.cache);
        let ghost baselines = data_origin_id_and_baseline@;
        let mut picked: Vec<(u64, usize)> = Vec::new();
        let mut i: usize = 0;
        while i < entries.len()
            invariant
                i <= entries.len(),
                baselines == data_origin_id_and_baseline@,
                forall|a: int|
                    0 <= a < picked@.len() ==> {
                        let idx = #[trigger] picked@[a].1 as int;
                        &&& idx < i
                        &&& wanted_for_transfer(entry_model(*entries@[idx].1), baselines, now_micros)
                        &&& picked@[a].0 == entries@[idx].1.origin_node_update_seq
                    },
                forall|a: int, b: int| 0 <= a < b < picked@.len() ==> picked@[a].1 < picked@[b].1,
                forall|j: int|
                    0 <= j < i && wanted_for_transfer(
                        entry_model(*#[trigger] entries@[j].1),
                        baselines,
                        now_micros,
                    ) ==> picked@.contains((entries@[j].1.origin_node_update_seq, j as usize)),
            decreases entries.len() - i,
        {
            let entry = &entries[i].1;
            let ghost before = picked@;
            match data_origin_id_and_baseline.get(&entry.origin_node_id) {
                Some(baseline) => {
                    if entry.this_update_micros > *baseline && entry.expires_micros > now_micros {
                        picked.push((entry.origin_node_update_seq, i));
                        proof {
                            assert forall|j: int|
                                0 <= j < i + 1 && wanted_for_transfer(
                                    entry_model(*#[trigger] entries@[j].1),
                                    baselines,
                                    now_micros,
                                ) implies picked@.contains(
                                (entries@[j].1.origin_node_update_seq, j as usize),
                            ) by {
                                if j == i {
                                    assert(picked@[picked@.len() - 1] == (
                                    entries@[j].1.origin_node_update_seq,
                                    j as usize,
                                    ));
                                } else {
                                    let a = choose|a: int|
                                        0 <= a < before.len() && before[a] == (
                                        entries@[j].1.origin_node_update_seq,
                                        j as usize,
                                        );
                                    assert(picked@[a] == before[a]);
                                }
                            }
                        }
                    }
                },
                None => {},
            }
            i = i + 1;
        }
        let ghost unsorted = picked@;
        proof {
            assert(unsorted.no_duplicates()) by {
                assert forall|a: int, b: int|
                    0 <= a < unsorted.len() && 0 <= b < unsorted.len() && a != b implies unsorted[a]
                    != unsorted[b] by {
                    if a < b {
                        assert(unsorted[a].1 < unsorted[b].1);
                    } else {
                        assert(unsorted[b].1 < unsorted[a].1);
                    }
                }
            }
            unsorted.lemma_multiset_has_no_duplicates();
        }
        let sorted = sort_by_first(picked);
        proof {
            assert forall|x: (u64, usize)| sorted@.to_multiset().count(x) <= 1 by {
                if unsorted.to_multiset().count(x) > 0 {
                    assert(unsorted.contains(x));
                }
            }
            lemma_no_duplicates_from_counts(sorted@);
        }
        let mut r: Vec<CacheEntryAndKey> = Vec::new();
        let mut k: usize = 0;
        while k < sorted.len()
            invariant
                k <= sorted.len(),
                r@.len() == k,
                sorted@.to_multiset() == unsorted.to_multiset(),
                sorted@.no_duplicates(),
                crate::sort::sorted_by_first(sorted@),
                forall|a: int|
                    0 <= a < unsorted.len() ==> {
                        let idx = #[trigger] unsorted[a].1 as int;
                        &&& idx < entries@.len()
                        &&& wanted_for_transfer(entry_model(*entries@[idx].1), baselines, now_micros)
                        &&& unsorted[a].0 == entries@[idx].1.origin_node_update_seq
                    },
                forall|a: int|
                    #![trigger r@[a]]
                    0 <= a < k ==> r@[a].key@
                        == entries@[sorted@[a].1 as int].0@ && *r@[a].ce == *entries@[sorted@[a].1 as int].1
                        && sorted@[a].0 == entries@[sorted@[a].1 as int].1.origin_node_update_seq,
            decreases sorted.len() - k,
        {
            let idx = sorted[k].1;
            proof {
                let x = sorted@[k as int];
                assert(sorted@.contains(x));
                assert(sorted@.to_multiset().count(x) > 0);
                assert(unsorted.to_multiset().count(x) > 0);
                assert(unsorted.contains(x));
                let a = choose|a: int| 0 <= a < unsorted.len() && unsorted[a] == x;
                assert(unsorted[a].1 == idx);
                assert((idx as int) < entries@.len());
                assert(sorted@[k as int].0 == entries@[idx as int].1.origin_node_update_seq);
            }
            let ghost before = r@;
            r.push(CacheEntryAndKey { key: entries[idx].0.clone(), ce: Arc::clone(&entries[idx].1) });
            proof {
                assert(r@[k as int].key@ == entries@[idx as int].0@);
                assert(*r@[k as int].ce == *entries@[idx as int].1);
                assert forall|b: int| 0 <= b < k implies #[trigger] r@[b] == before[b] by {}
                assert forall|a: int|
                    #![trigger r@[a]]
                    0 <= a < k + 1 implies r@[a].key@
                        == entries@[sorted@[a].1 as int].0@ && *r@[a].ce == *entries@[sorted@[a].1 as int].1
                        && sorted@[a].0 == entries@[sorted@[a].1 as int].1.origin_node_update_seq by {
                    if a < k {
                        assert(r@[a] == before[a]);
                    }
                }
            }
            k = k + 1;
        }
        proof {
            assert forall|i: int|
                0 <= i < r@.len() implies #[trigger] self@.contains_key(r@[i].key@) && entry_model(
                *r@[i].ce,
            ) == self@[r@[i].key@] && wanted_for_transfer(
                self@[r@[i].key@],
                data_origin_id_and_baseline@,
                now_micros,
            ) by {
                let x = sorted@[i];
                assert(sorted@.contains(x));
                assert(sorted@.to_multiset().count(x) > 0);
                assert(unsorted.to_multiset().count(x) > 0);
                assert(unsorted.contains(x));
                let a = choose|a: int| 0 <= a < unsorted.len() && unsorted[a] == x;
                let idx = x.1 as int;
                assert(unsorted[a].1 as int == idx);
                assert(m.contains_key(entries@[idx].0@));
            }
            assert forall|key: Seq<char>|
                #[trigger] self@.contains_key(key) && wanted_for_transfer(
                    self@[key],
                    data_origin_id_and_baseline@,
                    now_micros,
                ) implies exists|i: int| 0 <= i < r@.len() && r@[i].key@ == key by {
                assert(m.contains_key(key));
                let j = choose|j: int| 0 <= j < entries@.len() && entries@[j].0@ == key;
                assert(wanted_for_transfer(entry_model(*entries@[j].1), baselines, now_micros));
                let x = (entries@[j].1.origin_node_update_seq, j as usize);
                assert(unsorted.contains(x));
                assert(unsorted.to_multiset().count(x) > 0);
                assert(sorted@.to_multiset().count(x) > 0);
                assert(sorted@.contains(x));
                let i = choose|i: int| 0 <= i < sorted@.len() && sorted@[i] == x;
                assert(r@[i].key@ == key);
            }
            assert forall|i: int, j: int| 0 <= i < j < r@.len() implies r@[i].key@ != r@[j].key@ by {
                let ii = sorted@[i].1 as int;
                let jj = sorted@[j].1 as int;
                assert(sorted@.contains(sorted@[i]));
                assert(sorted@.to_multiset().count(sorted@[i]) > 0);
                assert(unsorted.contains(sorted@[i]));
                let ai = choose|a: int| 0 <= a < unsorted.len() && unsorted[a] == sorted@[i];
                assert(unsorted[ai].1 as int == ii);
                assert(sorted@.contains(sorted@[j]));
                assert(sorted@.to_multiset().count(sorted@[j]) > 0);
                assert(unsorted.contains(sorted@[j]));
                let aj = choose|a: int| 0 <= a < unsorted.len() && unsorted[a] == sorted@[j];
                assert(unsorted[aj].1 as int == jj);
                assert(r@[i].key@ == entries@[ii].0@);
                assert(r@[j].key@ == entries@[jj].0@);
                if ii != jj {
                    if ii < jj {
                        assert(entries@[ii].0@ != entries@[jj].0@);
                    } else {
                        assert(entries@[jj].0@ != entries@[ii].0@);
                    }
                } else {
                    assert(sorted@[i] != sorted@[j]);
                }
            }
            assert forall|i: int, j: int|
                0 <= i < j < r@.len() implies r@[i].ce.origin_node_update_seq
                <= r@[j].ce.origin_node_update_seq by {}
        }
        r
    }
}

} // verus!
