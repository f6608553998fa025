//! The replica: identity, membership, and what it does on each local write,
//! inbound update, pushed state view and transfer request. Sending and
//! timing are left to the caller, which hands in the current time and
//! sends what these functions return.

use crate::cluster_view::observed;
use crate::cluster_view::ClusterStateView;
use crate::error::ClachelessError;
use crate::error::ClachelessErrorKind;
use crate::local_cache::entry_model;
use crate::local_cache::get_model;
use crate::local_cache::is_transfer_batch;
use crate::local_cache::purge_model;
use crate::local_cache::put_model;
use crate::local_cache::CacheEntry;
use crate::local_cache::CacheEntryAndKey;
use crate::local_cache::EntryModel;
use crate::local_cache::LocalCache;
use crate::skipmap::last_seen_map_entries;
use crate::skipmap::last_seen_map_get;
use crate::skipmap::last_seen_map_insert;
use crate::skipmap::last_seen_map_remove;
use crate::skipmap::last_seen_times;
use crate::skipmap::new_last_seen_map;
use crate::util::after_last;
use crate::util::chars_of;
use crate::util::decimal_chars;
use crate::util::decimal_digits;
use crate::util::first_index;
use crate::util::last_index;
use crate::util::parse_unsigned;
use crate::util::parse_unsigned_from;
use crate::util::push_chars;
use crate::util::replace_first;
use crossbeam_skiplist::SkipMap;
use std::collections::HashMap;
use std::sync::Arc;
use vstd::prelude::*;
use vstd::string::StringExecFns;
use vstd::string::StringSliceAdditionalSpecFns;
use vstd::utf8::decode_utf8;
use vstd::utf8::valid_utf8;

verus! {

/// Interval between two pushes of the state view to every peer.
pub const STATE_BROADCAST_INTERVAL_MICROS: u64 = 2_000_000;

/// Margin on top of the broadcast interval before a peer counts as gone.
pub const ALIVE_MARGIN_MICROS: u64 = 500_000;

/// Age of the last push from a peer beyond which it no longer counts as
/// alive.
pub const MAX_AGE_BEFORE_IGNORED_MICROS: u64 = STATE_BROADCAST_INTERVAL_MICROS
    + ALIVE_MARGIN_MICROS;

/// Port used when the address template names none that can be read.
pub const DEFAULT_PORT: u16 = 9000;

/// A peer last seen at `last_seen` is alive at `now`.
pub open spec fn is_alive(last_seen: u64, now: u64) -> bool {
    now - last_seen <= MAX_AGE_BEFORE_IGNORED_MICROS
}

/// The node id of a replica started at `now_micros` in slot `ordinal`: the
/// low 32 bits of the start time in seconds, then the ordinal.
pub open spec fn node_id_for(now_micros: u64, ordinal: u32) -> u64 {
    (((now_micros / 1_000_000) as nat % 0x1_0000_0000) * 0x1_0000_0000 + ordinal) as u64
}

/// The port named after the last `:` of an address template, or
/// `DEFAULT_PORT`.
pub open spec fn template_port(template: Seq<char>) -> u16 {
    match after_last(template, ':') {
        Some(t) => match parse_unsigned(t, u16::MAX as nat) {
            Some(p) => p as u16,
            None => DEFAULT_PORT,
        },
        None => DEFAULT_PORT,
    }
}

/// Relies on `String::from_utf8`: the bytes are taken as text iff they are
/// valid UTF-8.
#[verifier::external_body]
fn utf8_string(bytes: Vec<u8>) -> (r: Option<String>)
    ensures
        r is Some <==> valid_utf8(bytes@),
        r matches Some(s) ==> s@ == decode_utf8(bytes@),
{
    String::from_utf8(bytes).ok()
}

/// A copy of the bytes of a slice.
fn bytes_of(b: &[u8]) -> (r: Vec<u8>)
    ensures
        r@ == b@,
{
    let mut r: Vec<u8> = Vec::new();
    let mut i: usize = 0;
    while i < b.len()
        invariant
            i <= b.len(),
            r@ == b@.subrange(0, i as int),
        decreases b.len() - i,
    {
        r.push(b[i]);
        i = i + 1;
        assert(r@ =~= b@.subrange(0, i as int));
    }
    r
}

/// What a pushed state view leads to.
pub struct StateViewOutcome {
    /// The sender was alive before this push.
    pub was_known: bool,
    /// What to ask the sender to transfer: origin node id to local baseline.
    /// Empty when nothing is missing.
    pub gap: HashMap<u64, u64>,
}

/// A replica of the distributed cache.
pub struct DistributedCache {
    address_template: String,
    local_node_ordinal: u32,
    cache_item_ttl_micros: u64,
    local_node_id: u64,
    known_node_ordinals_with_last_seen: SkipMap<u32, u64>,
    local_cache: LocalCache,
    cluster_view: ClusterStateView,
}

impl DistributedCache {
    pub closed spec fn template(&self) -> Seq<char> {
        self.address_template@
    }

    pub closed spec fn ordinal(&self) -> u32 {
        self.local_node_ordinal
    }

    pub closed spec fn ttl(&self) -> u64 {
        self.cache_item_ttl_micros
    }

    pub closed spec fn node_id(&self) -> u64 {
        self.local_node_id
    }

    /// When each peer ordinal last pushed its state view.
    pub closed spec fn last_seen(&self) -> Map<u32, u64> {
        last_seen_times(self.known_node_ordinals_with_last_seen)
    }

    /// The local store.
    pub closed spec fn cache(&self) -> Map<Seq<char>, EntryModel> {
        self.local_cache@
    }

    /// The cluster state view.
    pub closed spec fn cluster(&self) -> ClusterStateView {
        self.cluster_view
    }

    pub closed spec fn wf(&self) -> bool {
        &&& self.cluster_view.wf()
        &&& self.cluster_view.local_node_id() == self.local_node_id
    }

    /// Some peer ordinal is alive at `now`.
    pub open spec fn has_alive_peer(&self, now: u64) -> bool {
        exists|o: u32| #[trigger]
            self.last_seen().contains_key(o) && is_alive(self.last_seen()[o], now)
    }

    /// Return a new replica in slot `local_node_ordinal`, started at
    /// `now_micros`.
    pub fn new(
        address_template: &str,
        local_node_ordinal: u32,
        cache_item_ttl_micros: u64,
        now_micros: u64,
    ) -> (r: Self)
        ensures
            r.wf(),
            r.template() == address_template@,
            r.ordinal() == local_node_ordinal,
            r.ttl() == cache_item_ttl_micros,
            r.node_id() == node_id_for(now_micros, local_node_ordinal),
            r.last_seen().dom().is_empty(),
            r.cache().dom().is_empty(),
            r.cluster().views().dom().is_empty(),
            r.cluster().local().spec_current() == 0,
    {
        let now_seconds = now_micros / 1_000_000;
        let ordinal = local_node_ordinal as u64;
        let local_node_id = (now_seconds & 0xffff_ffff) << 32u64 | ordinal;
        proof {
            assert(((now_seconds & 0xffff_ffff) << 32u64 | ordinal) == (now_seconds % 0x1_0000_0000)
                * 0x1_0000_0000 + ordinal) by (bit_vector)
                requires
                    ordinal < 0x1_0000_0000,
            ;
        }
        DistributedCache {
            address_template: String::from_str(address_template),
            local_node_ordinal,
            cache_item_ttl_micros,
            local_node_id,
            known_node_ordinals_with_last_seen: new_last_seen_map(),
            local_cache: LocalCache::new(),
            cluster_view: ClusterStateView::new(local_node_id),
        }
    }

    /// The node id of this replica.
    pub fn local_node_id(&self) -> (r: u64)
        ensures
            r == self.node_id(),
    {
        self.local_node_id
    }

    /// The ordinal of this replica.
    pub fn local_node_ordinal(&self) -> (r: u32)
        ensures
            r == self.ordinal(),
    {
        self.local_node_ordinal
    }

    /// The time-to-live given to local writes, in microseconds.
    pub fn cache_item_ttl_micros(&self) -> (r: u64)
        ensures
            r == self.ttl(),
    {
        self.cache_item_ttl_micros
    }

    /// The state view to push to peers: see `ClusterStateView::state_view`.
    pub fn cluster_view_as_map(&self) -> (r: HashMap<u64, u64>)
        ensures
            r@ == self.cluster().state_view(),
    {
        self.cluster_view.as_map()
    }

    /// Remove every entry that expired before `now_micros`; return how many
    /// were removed (zero iff the store is unchanged).
    pub fn purge_expired(&mut self, now_micros: u64) -> (count: usize)
        requires
            old(self).wf(),
        ensures
            final(self).wf(),
            final(self).template() == old(self).template(),
            final(self).ordinal() == old(self).ordinal(),
            final(self).ttl() == old(self).ttl(),
            final(self).node_id() == old(self).node_id(),
            final(self).last_seen() == old(self).last_seen(),
            final(self).cluster() == old(self).cluster(),
            final(self).cache() == purge_model(old(self).cache(), now_micros),
            count == 0 <==> final(self).cache() == old(self).cache(),
    {
        self.local_cache.purge_expired(now_micros)
    }

    /// Whether a local write can still be given a sequence number.
    pub fn can_number_local_write(&self) -> (r: bool)
        ensures
            r == (self.cluster().local().spec_current() < u64::MAX),
    {
        self.cluster_view.local_current() < u64::MAX
    }

    /// The address of the replica in slot `node_ordinal`: the template with
    /// its first `ORDINAL` replaced by the ordinal in decimal.
    pub fn get_address_for_node_ordinal(&self, node_ordinal: u32) -> (r: String)
        ensures
            r@ == replace_first(self.template(), "ORDINAL"@, decimal_digits(node_ordinal as nat)),
    {
        let t = chars_of(self.address_template.as_str());
        let pat = chars_of("ORDINAL");
        proof {
            reveal_strlit("ORDINAL");
        }
        let mut r = String::new();
        match first_index(&t, &pat) {
            Some(i) => {
                let digits = decimal_chars(node_ordinal as u64);
                push_chars(&mut r, &t, 0, i);
                push_chars(&mut r, &digits, 0, digits.len());
                push_chars(&mut r, &t, i + pat.len(), t.len());
                proof {
                    assert(digits@.subrange(0, digits@.len() as int) =~= digits@);
                    assert(pat@.len() == 7);
                    assert(r@ =~= t@.subrange(0, i as int) + digits@ + t@.subrange(
                        i + pat@.len(),
                        t@.len() as int,
                    ));
                }
            },
            None => {
                push_chars(&mut r, &t, 0, t.len());
                proof {
                    assert(t@.subrange(0, t@.len() as int) =~= t@);
                    assert(r@ =~= t@);
                }
            },
        }
        r
    }

    /// The port to serve peers on: the number after the last `:` of the
    /// address template, or `DEFAULT_PORT`.
    pub fn get_address_template_port(&self) -> (r: u16)
        ensures
            r == template_port(self.template()),
    {
        let t = chars_of(self.address_template.as_str());
        match last_index(&t, ':') {
            Some(i) => {
                assert(i < t.len());
                let start = i + 1;
                match parse_unsigned_from(&t, start, u16::MAX as u64) {
                    Some(p) => p as u16,
                    None => DEFAULT_PORT,
                }
            },
            None => DEFAULT_PORT,
        }
    }

    /// The highest ordinal that is alive at `now_micros`, or the local
    /// ordinal when none is.
    pub fn get_highest_known_node_ordinal(&self, now_micros: u64) -> (r: u32)
        ensures
            self.has_alive_peer(now_micros) ==> self.last_seen().contains_key(r) && is_alive(
                self.last_seen()[r],
                now_micros,
            ) && forall|o: u32| #[trigger]
                self.last_seen().contains_key(o) && is_alive(self.last_seen()[o], now_micros) ==> o
                    <= r,
            !self.has_alive_peer(now_micros) ==> r == self.ordinal(),
    {
        let entries = last_seen_map_entries(&self.known_node_ordinals_with_last_seen);
        let ghost m = last_seen_times(self.known_node_ordinals_with_last_seen);
        proof {
            assert forall|j: int|
                0 <= j < entries@.len() implies #[trigger] m.contains_key(entries@[j].0)
                && entries@[j].1 == m[entries@[j].0] by {
                assert(last_seen_times(self.known_node_ordinals_with_last_seen).contains_key(
                    entries@[j].0,
                ));
            }
        }
        let mut best: Option<u32> = None;
        let mut i: usize = 0;
        while i < entries.len()
            invariant
                i <= entries.len(),
                m == self.last_seen(),
                forall|j: int|
                    0 <= j < entries@.len() ==> #[trigger] m.contains_key(entries@[j].0)
                        && entries@[j].1 == m[entries@[j].0],
                forall|k: u32| #[trigger]
                    m.contains_key(k) ==> exists|j: int| 0 <= j < entries@.len() && entries@[j].0 == k,
                best matches Some(b) ==> m.contains_key(b) && is_alive(m[b], now_micros),
                forall|j: int|
                    0 <= j < i && is_alive(#[trigger] entries@[j].1, now_micros) ==> (best matches Some(
                        b,
                    ) && entries@[j].0 <= b),
            decreases entries.len() - i,
        {
            let (ordinal, last_seen) = entries[i];
            proof {
                assert(m.contains_key(entries@[i as int].0));
            }
            if now_micros < last_seen || now_micros - last_seen <= MAX_AGE_BEFORE_IGNORED_MICROS {
                match best {
                    Some(b) => {
                        if ordinal > b {
                            best = Some(ordinal);
                        }
                    },
                    None => {
                        best = Some(ordinal);
                    },
                }
            }
            i = i + 1;
        }
        proof {
            assert forall|o: u32| #[trigger]
                m.contains_key(o) && is_alive(m[o], now_micros) implies (best matches Some(b) && o
                <= b) by {
                let j = choose|j: int| 0 <= j < entries@.len() && entries@[j].0 == o;
                assert(is_alive(entries@[j].1, now_micros));
            }
        }
        match best {
            Some(b) => b,
            None => self.local_node_ordinal,
        }
    }

    /// The ordinals to send to at `now_micros`: every ordinal from zero up
    /// to the highest known one, other than the local one, ascending.
    pub fn peer_ordinals(&self, now_micros: u64) -> (r: Vec<u32>)
        ensures
            forall|o: u32|
                #![trigger r@.contains(o)]
                r@.contains(o) <==> o <= self.spec_highest(now_micros) && o != self.ordinal(),
            forall|i: int, j: int| 0 <= i < j < r@.len() ==> r@[i] < r@[j],
    {
        let highest = self.get_highest_known_node_ordinal(now_micros);
        proof {
            self.lemma_spec_highest(now_micros, highest);
        }
        let mut r: Vec<u32> = Vec::new();
        let mut o: u64 = 0;
        while o <= highest as u64
            invariant
                o <= highest as u64 + 1,
                highest == self.spec_highest(now_micros),
                forall|x: u32|
                    #![trigger r@.contains(x)]
                    r@.contains(x) <==> x < o && x != self.ordinal(),
                forall|i: int| 0 <= i < r@.len() ==> r@[i] < o,
                forall|i: int, j: int| 0 <= i < j < r@.len() ==> r@[i] < r@[j],
            decreases highest as u64 + 1 - o,
        {
            let ordinal = o as u32;
            if ordinal != self.local_node_ordinal {
                let ghost before = r@;
                r.push(ordinal);
                proof {
                    assert forall|x: u32|
                        #![trigger r@.contains(x)]
                        r@.contains(x) <==> x < o + 1 && x != self.ordinal() by {
                        if x == ordinal {
                            assert(r@[r@.len() - 1] == x);
                        } else if r@.contains(x) {
                            let k = choose|k: int| 0 <= k < r@.len() && r@[k] == x;
                            assert(before[k] == x);
                            assert(before.contains(x));
                        } else if x < o && x != self.ordinal() {
                            assert(before.contains(x));
                            let k = choose|k: int| 0 <= k < before.len() && before[k] == x;
                            assert(r@[k] == x);
                        }
                    }
                }
            } else {
                proof {
                    assert forall|x: u32|
                        #![trigger r@.contains(x)]
                        r@.contains(x) <==> x < o + 1 && x != self.ordinal() by {}
                }
            }
            o = o + 1;
        }
        r
    }

    /// The highest ordinal that is alive at `now`, or the local ordinal when
    /// none is.
    pub open spec fn spec_highest(&self, now: u64) -> u32 {
        if self.has_alive_peer(now) {
            choose|o: u32|
                #![trigger self.last_seen().contains_key(o)]
                self.last_seen().contains_key(o) && is_alive(self.last_seen()[o], now) && forall|
                    p: u32,
                | #[trigger]
                    self.last_seen().contains_key(p) && is_alive(self.last_seen()[p], now) ==> p
                        <= o
        } else {
            self.ordinal()
        }
    }

    proof fn lemma_spec_highest(&self, now: u64, h: u32)
        requires
            self.has_alive_peer(now) ==> self.last_seen().contains_key(h) && is_alive(
                self.last_seen()[h],
                now,
            ) && forall|o: u32| #[trigger]
                self.last_seen().contains_key(o) && is_alive(self.last_seen()[o], now) ==> o <= h,
            !self.has_alive_peer(now) ==> h == self.ordinal(),
        ensures
            h == self.spec_highest(now),
    {
        if self.has_alive_peer(now) {
            let c = self.spec_highest(now);
            assert(c <= h && h <= c);
        }
    }

    /// Identity, settings, store and cluster view are the same in `self`
    /// and `other`.
    pub open spec fn same_data(&self, other: &Self) -> bool {
        &&& self.template() == other.template()
        &&& self.ordinal() == other.ordinal()
        &&& self.ttl() == other.ttl()
        &&& self.node_id() == other.node_id()
        &&& self.cache() == other.cache()
        &&& self.cluster() == other.cluster()
    }

    /// Forget every peer that is no longer alive at `now_micros`; return the
    /// ordinals forgotten.
    pub fn remove_expired_other_nodes(&mut self, now_micros: u64) -> (r: Vec<u32>)
        requires
            old(self).wf(),
        ensures
            final(self).wf(),
            final(self).same_data(old(self)),
            final(self).last_seen() == old(self).last_seen().restrict(
                old(self).last_seen().dom().filter(|o: u32| is_alive(old(self).last_seen()[o], now_micros)),
            ),
            forall|o: u32|
                #![trigger r@.contains(o)]
                r@.contains(o) <==> old(self).last_seen().contains_key(o) && !is_alive(
                    old(self).last_seen()[o],
                    now_micros,
                ),
    {
        let entries = last_seen_map_entries(&self.known_node_ordinals_with_last_seen);
        let ghost before = last_seen_times(self.known_node_ordinals_with_last_seen);
        proof {
            assert forall|j: int|
                0 <= j < entries@.len() implies #[trigger] before.contains_key(entries@[j].0)
                && entries@[j].1 == before[entries@[j].0] by {
                assert(last_seen_times(self.known_node_ordinals_with_last_seen).contains_key(
                    entries@[j].0,
                ));
            }
        }
        let mut removed: Vec<u32> = Vec::new();
        let mut i: usize = 0;
        while i < entries.len()
            invariant
                i <= entries.len(),
                self.wf(),
                self.same_data(old(self)),
                before == old(self).last_seen(),
                forall|j: int|
                    0 <= j < entries@.len() ==> #[trigger] before.contains_key(entries@[j].0)
                        && entries@[j].1 == before[entries@[j].0],
                forall|a: int, b: int|
                    0 <= a < b < entries@.len() ==> entries@[a].0 != entries@[b].0,
                forall|k: u32| #[trigger]
                    before.contains_key(k) ==> exists|j: int|
                        0 <= j < entries@.len() && entries@[j].0 == k,
                forall|k: u32| #[trigger]
                    self.last_seen().contains_key(k) <==> before.contains_key(k) && !(exists|j: int|
                        0 <= j < i && entries@[j].0 == k && !is_alive(before[k], now_micros)),
                forall|k: u32| #[trigger]
                    self.last_seen().contains_key(k) ==> self.last_seen()[k] == before[k],
                forall|k: u32|
                    #![trigger removed@.contains(k)]
                    removed@.contains(k) <==> (exists|j: int|
                        0 <= j < i && entries@[j].0 == k && !is_alive(before[k], now_micros)),
            decreases entries.len() - i,
        {
            let (ordinal, last_seen) = entries[i];
            proof {
                assert(before.contains_key(entries@[i as int].0));
            }
            if !(now_micros < last_seen || now_micros - last_seen <= MAX_AGE_BEFORE_IGNORED_MICROS) {
                let ghost was = removed@;
                let ghost prev = self.last_seen();
                last_seen_map_remove(&mut self.known_node_ordinals_with_last_seen, ordinal);
                proof {
                    assert forall|k: u32| k != ordinal implies #[trigger] self.last_seen().contains_key(k)
                        == prev.contains_key(k) && (prev.contains_key(k) ==> self.last_seen()[k]
                        == prev[k]) by {}
                    assert(!self.last_seen().contains_key(ordinal));
                }
                removed.push(ordinal);
                proof {
                    assert forall|k: u32|
                        #![trigger removed@.contains(k)]
                        removed@.contains(k) <==> (exists|j: int|
                            0 <= j < i + 1 && entries@[j].0 == k && !is_alive(before[k], now_micros)) by {
                        if k == ordinal {
                            assert(removed@[removed@.len() - 1] == k);
                            assert(entries@[i as int].0 == k);
                        } else {
                            if removed@.contains(k) {
                                let x = choose|x: int| 0 <= x < removed@.len() && removed@[x] == k;
                                assert(was[x] == k);
                                assert(was.contains(k));
                            }
                            if was.contains(k) {
                                let x = choose|x: int| 0 <= x < was.len() && was[x] == k;
                                assert(removed@[x] == k);
                            }
                            if exists|j: int|
                                0 <= j < i + 1 && entries@[j].0 == k && !is_alive(before[k], now_micros) {
                                let j = choose|j: int|
                                    0 <= j < i + 1 && entries@[j].0 == k && !is_alive(before[k], now_micros);
                                assert(j != i);
                            }
                        }
                    }
                    assert forall|k: u32| #[trigger]
                        self.last_seen().contains_key(k) <==> before.contains_key(k) && !(exists|j: int|
                            0 <= j < i + 1 && entries@[j].0 == k && !is_alive(before[k], now_micros)) by {
                        if k == ordinal {
                            assert(entries@[i as int].0 == k);
                        } else if exists|j: int|
                            0 <= j < i + 1 && entries@[j].0 == k && !is_alive(before[k], now_micros) {
                            let j = choose|j: int|
                                0 <= j < i + 1 && entries@[j].0 == k && !is_alive(before[k], now_micros);
                            assert(j != i);
                        }
                    }
                }
            } else {
                proof {
                    assert(is_alive(before[ordinal], now_micros));
                    assert forall|k: u32|
                        #![trigger removed@.contains(k)]
                        removed@.contains(k) <==> (exists|j: int|
                            0 <= j < i + 1 && entries@[j].0 == k && !is_alive(before[k], now_micros)) by {
                        if exists|j: int|
                            0 <= j < i + 1 && entries@[j].0 == k && !is_alive(before[k], now_micros) {
                            let j = choose|j: int|
                                0 <= j < i + 1 && entries@[j].0 == k && !is_alive(before[k], now_micros);
                            assert(j != i);
                        }
                    }
                    assert forall|k: u32| #[trigger]
                        self.last_seen().contains_key(k) <==> before.contains_key(k) && !(exists|j: int|
                            0 <= j < i + 1 && entries@[j].0 == k && !is_alive(before[k], now_micros)) by {
                        if exists|j: int|
                            0 <= j < i + 1 && entries@[j].0 == k && !is_alive(before[k], now_micros) {
                            let j = choose|j: int|
                                0 <= j < i + 1 && entries@[j].0 == k && !is_alive(before[k], now_micros);
                            assert(j != i);
                        }
                    }
                }
            }
            i = i + 1;
        }
        proof {
            assert forall|k: u32|
                #![trigger removed@.contains(k)]
                removed@.contains(k) <==> before.contains_key(k) && !is_alive(before[k], now_micros) by {
                if before.contains_key(k) {
                    let j = choose|j: int| 0 <= j < entries@.len() && entries@[j].0 == k;
                }
            }
            assert(self.last_seen() =~= before.restrict(
                before.dom().filter(|o: u32| is_alive(before[o], now_micros)),
            )) by {
                assert forall|k: u32| #[trigger] self.last_seen().contains_key(k) <==> before.contains_key(k)
                    && is_alive(before[k], now_micros) by {
                    if before.contains_key(k) {
                        let j = choose|j: int| 0 <= j < entries@.len() && entries@[j].0 == k;
                    }
                }
            }
        }
        removed
    }

    /// Take in a state view pushed by the replica in slot `sender_ordinal`
    /// at `now_micros`: record the sender as seen now, and return whether it
    /// was alive before, and the gap to ask it to transfer.
    pub fn on_state_view(&mut self, sender_ordinal: u32, view: &HashMap<u64, u64>, now_micros: u64) -> (r:
        StateViewOutcome)
        requires
            old(self).wf(),
        ensures
            final(self).wf(),
            final(self).same_data(old(self)),
            final(self).last_seen() == old(self).last_seen().insert(sender_ordinal, now_micros),
            r.was_known == (old(self).last_seen().contains_key(sender_ordinal) && is_alive(
                old(self).last_seen()[sender_ordinal],
                now_micros,
            )),
            r.gap@ == old(self).cluster().gap(view@),
    {
        let was_known = match last_seen_map_get(&self.known_node_ordinals_with_last_seen, sender_ordinal) {
            Some(last_seen) => now_micros < last_seen || now_micros - last_seen
                <= MAX_AGE_BEFORE_IGNORED_MICROS,
            None => false,
        };
        last_seen_map_insert(&mut self.known_node_ordinals_with_last_seen, sender_ordinal, now_micros);
        let gap = self.cluster_view.get_out_of_sync_node_id_and_baselines(view);
        StateViewOutcome { was_known, gap }
    }

    /// The entries to send to a peer that holds the given baselines: see
    /// `is_transfer_batch`.
    pub fn transfer_state(&self, data_origin_id_and_baseline: &HashMap<u64, u64>, now_micros: u64) -> (r:
        Vec<CacheEntryAndKey>)
        ensures
            is_transfer_batch(r@, self.cache(), data_origin_id_and_baseline@, now_micros),
    {
        self.local_cache.iter(data_origin_id_and_baseline, now_micros)
    }

    /// Store an entry received from a peer, as it was written at its origin,
    /// and record its sequence number in the cluster view.
    pub fn put_raw_from_remote_origin(
        &mut self,
        cache_key: String,
        cache_value: Vec<u8>,
        this_update_micros: u64,
        expires_micros: u64,
        origin_node_id: u64,
        origin_node_update_seq: u64,
    ) -> (r: Result<(), ClachelessError>)
        requires
            old(self).wf(),
        ensures
            r is Ok,
            final(self).wf(),
            final(self).template() == old(self).template(),
            final(self).ordinal() == old(self).ordinal(),
            final(self).ttl() == old(self).ttl(),
            final(self).node_id() == old(self).node_id(),
            final(self).last_seen() == old(self).last_seen(),
            final(self).cache() == put_model(
                old(self).cache(),
                cache_key@,
                (EntryModel {
                    bytes: cache_value@,
                    this_update_micros,
                    origin_node_id,
                    origin_node_update_seq,
                    expires_micros,
                }),
            ),
            observed(old(self).cluster(), final(self).cluster(), origin_node_id, origin_node_update_seq),
    {
        let r = self.local_cache.put(
            cache_key,
            cache_value,
            this_update_micros,
            origin_node_id,
            origin_node_update_seq,
            expires_micros,
        );
        self.cluster_view.on_recieved_cache_entry_from_other(origin_node_id, origin_node_update_seq);
        r
    }

    /// The entry that a local write of `bytes` at `now` stores.
    pub open spec fn local_entry(&self, bytes: Seq<u8>, now: u64) -> EntryModel {
        EntryModel {
            bytes,
            this_update_micros: now,
            origin_node_id: self.node_id(),
            origin_node_update_seq: (self.cluster().local().spec_current() + 1) as u64,
            expires_micros: (now + self.ttl()) as u64,
        }
    }

    /// Accept a write from a client at `now_micros`: number it, store it,
    /// and return it as it is to be sent to every peer.
    pub fn put_bytes(&mut self, cache_key: &str, cache_value: &[u8], now_micros: u64) -> (r: Result<
        CacheEntryAndKey,
        ClachelessError,
    >)
        requires
            old(self).wf(),
            old(self).cluster().local().spec_current() < u64::MAX,
            now_micros + old(self).ttl() <= u64::MAX,
        ensures
            final(self).wf(),
            final(self).template() == old(self).template(),
            final(self).ordinal() == old(self).ordinal(),
            final(self).ttl() == old(self).ttl(),
            final(self).node_id() == old(self).node_id(),
            final(self).last_seen() == old(self).last_seen(),
            final(self).cluster().views() == old(self).cluster().views(),
            final(self).cluster().local_node_id() == old(self).cluster().local_node_id(),
            final(self).cluster().local().spec_current() == old(self).cluster().local().spec_current()
                + 1,
            final(self).cache() == put_model(
                old(self).cache(),
                cache_key@,
                old(self).local_entry(cache_value@, now_micros),
            ),
            r matches Ok(u) && u.key@ == cache_key@ && entry_model(*u.ce) == old(self).local_entry(
                cache_value@,
                now_micros,
            ),
    {
        let update_seq = self.cluster_view.next_local_update_seq();
        let expires = now_micros + self.cache_item_ttl_micros;
        let update = CacheEntryAndKey {
            key: String::from_str(cache_key),
            ce: Arc::new(
                CacheEntry {
                    this_update_micros: now_micros,
                    origin_node_id: self.local_node_id,
                    origin_node_update_seq: update_seq,
                    expires_micros: expires,
                    object_bytes: Arc::new(bytes_of(cache_value)),
                },
            ),
        };
        let _ = self.local_cache.put(
            String::from_str(cache_key),
            bytes_of(cache_value),
            now_micros,
            self.local_node_id,
            update_seq,
            expires,
        );
        Ok(update)
    }

    /// Accept a text value written by a client: see `put_bytes`.
    pub fn put_string(&mut self, cache_key: &str, cache_value: &str, now_micros: u64) -> (r: Result<
        CacheEntryAndKey,
        ClachelessError,
    >)
        requires
            old(self).wf(),
            old(self).cluster().local().spec_current() < u64::MAX,
            now_micros + old(self).ttl() <= u64::MAX,
        ensures
            final(self).wf(),
            final(self).template() == old(self).template(),
            final(self).ordinal() == old(self).ordinal(),
            final(self).ttl() == old(self).ttl(),
            final(self).node_id() == old(self).node_id(),
            final(self).last_seen() == old(self).last_seen(),
            final(self).cluster().views() == old(self).cluster().views(),
            final(self).cluster().local_node_id() == old(self).cluster().local_node_id(),
            final(self).cluster().local().spec_current() == old(self).cluster().local().spec_current()
                + 1,
            final(self).cache() == put_model(
                old(self).cache(),
                cache_key@,
                old(self).local_entry(cache_value.spec_bytes(), now_micros),
            ),
            r matches Ok(u) && u.key@ == cache_key@ && entry_model(*u.ce) == old(self).local_entry(
                cache_value.spec_bytes(),
                now_micros,
            ),
    {
        self.put_bytes(cache_key, cache_value.as_bytes(), now_micros)
    }

    /// Read the bytes stored under `cache_key`, unless they expired at
    /// `now_micros`. Never asks a peer.
    pub fn get_bytes(&self, cache_key: &str, now_micros: u64) -> (r: Result<
        Arc<Vec<u8>>,
        ClachelessError,
    >)
        ensures
            r is Ok <==> get_model(self.cache(), cache_key@, now_micros) is Some,
            r matches Ok(b) ==> b@ == self.cache()[cache_key@].bytes,
            r matches Err(e) ==> e.kind == ClachelessErrorKind::NotFound,
    {
        self.local_cache.get(cache_key, now_micros)
    }

    /// Read the text stored under `cache_key`, unless it expired at
    /// `now_micros`: `NotFound` if there is no such entry, `Malformed` if
    /// its bytes are not UTF-8.
    pub fn get_string(&self, cache_key: &str, now_micros: u64) -> (r: Result<
        String,
        ClachelessError,
    >)
        ensures
            match get_model(self.cache(), cache_key@, now_micros) {
                None => (r matches Err(e) && e.kind == ClachelessErrorKind::NotFound),
                Some(e) => if valid_utf8(e.bytes) {
                    (r matches Ok(s) && s@ == decode_utf8(e.bytes))
                } else {
                    (r matches Err(err) && err.kind == ClachelessErrorKind::Malformed)
                },
            },
    {
        match self.get_bytes(cache_key, now_micros) {
            Ok(bytes) => match utf8_string(bytes_of(bytes.as_slice())) {
                Some(text) => Ok(text),
                None => {
                    let msg = String::from_str("Entry for ").concat(cache_key).concat(
                        " was not an UTF-8 string.",
                    );
                    Err(ClachelessErrorKind::Malformed.error_with_msg(msg.as_str()))
                },
            },
            Err(e) => Err(e),
        }
    }
}

} // verus!
