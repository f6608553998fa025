//! The local replica's summary of what it holds from every origin.

use crate::local_sequence::LocalSequence;
use crate::node_view::is_largest_received_prefix;
use crate::node_view::received_up_to;
use crate::node_view::NodeView;
use crate::skipmap::new_node_view_map;
use crate::skipmap::node_view_map_entries;
use crate::skipmap::node_view_map_get;
use crate::skipmap::node_view_map_insert;
use crate::skipmap::node_views;
use crossbeam_skiplist::SkipMap;
use std::collections::HashMap;
use std::sync::Arc;
use vstd::prelude::*;
use vstd::std_specs::hash::spec_hash_map_iter;
use vstd::std_specs::iter::IteratorSpec;

verus! {

broadcast use vstd::std_specs::hash::group_hash_axioms;

/// `after` is `before` once the update with sequence number `update_seq`
/// from origin `node_id` was received: that origin's view (a new one on
/// first sight) records it, with its baseline advanced as far as the
/// received numbers reach without a gap; all else is unchanged.
pub open spec fn observed(
    before: ClusterStateView,
    after: ClusterStateView,
    node_id: u64,
    update_seq: u64,
) -> bool {
    &&& after.wf()
    &&& after.local() == before.local()
    &&& after.views().dom() == before.views().dom().insert(node_id)
    &&& forall|id: u64|
        id != node_id && #[trigger] before.views().contains_key(id) ==> after.views()[id]
            == before.views()[id]
    &&& after.views()[node_id].supplied() == (if before.views().contains_key(node_id) {
        before.views()[node_id].supplied()
    } else {
        Set::<u64>::empty()
    }).insert(update_seq)
    &&& is_largest_received_prefix(
        after.views()[node_id].supplied(),
        after.views()[node_id].baseline(),
    )
    &&& after.views()[node_id].baseline() <= after.views()[node_id].latest()
}

/// The local sequence and one `NodeView` for every remote origin the
/// replica has received data from.
pub struct ClusterStateView {
    local_sequence: LocalSequence,
    other_nodes_update_seqs: SkipMap<u64, Arc<NodeView>>,
}

impl ClusterStateView {
    /// The local sequence.
    pub closed spec fn local(&self) -> LocalSequence {
        self.local_sequence
    }

    /// The view of every remote origin, by origin node id.
    pub closed spec fn views(&self) -> Map<u64, NodeView> {
        node_views(self.other_nodes_update_seqs)
    }

    /// Every view is well formed.
    pub open spec fn wf(&self) -> bool {
        forall|id: u64| #[trigger] self.views().contains_key(id) ==> self.views()[id].wf()
    }

    /// The local node id.
    pub open spec fn local_node_id(&self) -> u64 {
        self.local().spec_node_id()
    }

    /// The local baseline for an origin: zero where there is no view yet.
    pub open spec fn local_baseline(&self, id: u64) -> u64 {
        if self.views().contains_key(id) {
            self.views()[id].baseline()
        } else {
            0
        }
    }

    /// The state view: the baseline of every remote origin, and the local
    /// node's last sequence number once it has issued one (a remote view
    /// under the same id takes precedence).
    pub open spec fn state_view(&self) -> Map<u64, u64> {
        let remote = self.views().map_values(|v: NodeView| v.baseline());
        if self.local().spec_current() > 0 && !remote.contains_key(self.local_node_id()) {
            remote.insert(self.local_node_id(), self.local().spec_current())
        } else {
            remote
        }
    }

    /// The gap towards a pushed view: every origin other than the local
    /// node whose pushed baseline exceeds the local one, mapped to the local
    /// baseline.
    pub open spec fn gap(&self, pushed: Map<u64, u64>) -> Map<u64, u64> {
        Map::new(
            |id: u64|
                pushed.contains_key(id) && id != self.local_node_id() && self.local_baseline(id)
                    < pushed[id],
            |id: u64| self.local_baseline(id),
        )
    }

    /// Return a view that knows of no origin yet.
    pub fn new(local_node_id: u64) -> (r: Self)
        ensures
            r.wf(),
            r.local_node_id() == local_node_id,
            r.local().spec_current() == 0,
            r.views() == Map::<u64, NodeView>::empty(),
    {
        let r = ClusterStateView {
            local_sequence: LocalSequence::new(local_node_id),
            other_nodes_update_seqs: new_node_view_map(),
        };
        assert(r.views() =~= Map::<u64, NodeView>::empty());
        r
    }

    /// Return the next sequence number for a write accepted locally.
    pub fn next_local_update_seq(&mut self) -> (r: u64)
        requires
            old(self).local().spec_current() < u64::MAX,
        ensures
            r == old(self).local().spec_current() + 1,
            final(self).local().spec_current() == r,
            final(self).local_node_id() == old(self).local_node_id(),
            final(self).views() == old(self).views(),
    {
        self.local_sequence.generate_next()
    }

    /// The local sequence number last issued (zero if none).
    pub fn local_current(&self) -> (r: u64)
        ensures
            r == self.local().spec_current(),
    {
        self.local_sequence.current()
    }

    /// Return the state view as a map from origin node id to baseline.
    pub fn as_map(&self) -> (r: HashMap<u64, u64>)
        ensures
            r@ == self.state_view(),
    {
        let mut r: HashMap<u64, u64> = HashMap::new();
        let has_local = self.local_sequence.has_been_pulled();
        let local_id = self.local_sequence.node_id();
        if has_local {
            r.insert(local_id, self.local_sequence.current());
        }
        let entries = node_view_map_entries(&self.other_nodes_update_seqs);
        let ghost views = self.views();
        let mut i: usize = 0;
        while i < entries.len()
            invariant
                i <= entries.len(),
                views == self.views(),
                has_local == (self.local().spec_current() > 0),
                local_id == self.local_node_id(),
                forall|j: int|
                    0 <= j < entries@.len() ==> #[trigger] views.contains_key(entries@[j].0)
                        && *entries@[j].1 == views[entries@[j].0],
                forall|k: u64| #[trigger]
                    views.contains_key(k) ==> exists|j: int|
                        0 <= j < entries@.len() && entries@[j].0 == k,
                forall|id: u64| #[trigger]
                    r@.contains_key(id) <==> ((has_local && id == local_id) || exists|j: int|
                        0 <= j < i && entries@[j].0 == id),
                forall|id: u64| #[trigger]
                    r@.contains_key(id) ==> r@[id] == if exists|j: int|
                        0 <= j < i && entries@[j].0 == id {
                        views[id].baseline()
                    } else {
                        self.local().spec_current()
                    },
            decreases entries.len() - i,
        {
            let id = entries[i].0;
            let baseline = entries[i].1.get_baseline_sequence();
            r.insert(id, baseline);
            proof {
                assert(entries@[i as int].0 == id);
                assert(views.contains_key(entries@[i as int].0));
                assert(baseline == views[id].baseline());
                assert forall|x: u64| #[trigger]
                    r@.contains_key(x) <==> ((has_local && x == local_id) || exists|j: int|
                        0 <= j < i + 1 && entries@[j].0 == x) by {
                    if x == id {
                        assert(entries@[i as int].0 == x);
                    } else if exists|j: int| 0 <= j < i + 1 && entries@[j].0 == x {
                        let j = choose|j: int| 0 <= j < i + 1 && entries@[j].0 == x;
                        assert(j != i);
                    }
                }
                assert forall|x: u64| #[trigger]
                    r@.contains_key(x) implies r@[x] == if exists|j: int|
                        0 <= j < i + 1 && entries@[j].0 == x {
                        views[x].baseline()
                    } else {
                        self.local().spec_current()
                    } by {
                    if x == id {
                        assert(entries@[i as int].0 == x);
                    } else if exists|j: int| 0 <= j < i + 1 && entries@[j].0 == x {
                        let j = choose|j: int| 0 <= j < i + 1 && entries@[j].0 == x;
                        assert(j != i);
                    }
                }
            }
            i = i + 1;
        }
        proof {
            assert(r@ =~= self.state_view());
        }
        r
    }

    /// Compare a pushed view with the local one and return the gap: every
    /// origin, other than the local node, for which the pushed baseline is
    /// higher than the local baseline, mapped to the local baseline.
    pub fn get_out_of_sync_node_id_and_baselines(&self, view: &HashMap<u64, u64>) -> (r: HashMap<
        u64,
        u64,
    >)
        ensures
            r@ == self.gap(view@),
    {
        let mut r: HashMap<u64, u64> = HashMap::new();
        let local_id = self.local_sequence.node_id();
        let ghost g = self.gap(view@);
        let ghost s = spec_hash_map_iter(view).remaining();
        let ghost mut seen: int = 0;
        for pair in it: view.iter()
            invariant
                local_id == self.local_node_id(),
                g == self.gap(view@),
                s == spec_hash_map_iter(view).remaining(),
                it.seq() == s,
                seen == it.index(),
                forall|id: u64| #[trigger]
                    r@.contains_key(id) ==> g.contains_key(id) && r@[id] == g[id],
                forall|j: int|
                    0 <= j < seen && g.contains_key(*(#[trigger] s[j]).0) ==> r@.contains_key(
                        *s[j].0,
                    ),
        {
            let (node_id, baseline_seq) = pair;
            if *node_id != local_id {
                let other_baseline = match node_view_map_get(&self.other_nodes_update_seqs, *node_id) {
                    Some(node_view) => node_view.get_baseline_sequence(),
                    None => 0,
                };
                if other_baseline < *baseline_seq {
                    r.insert(*node_id, other_baseline);
                }
            }
            proof {
                seen = seen + 1;
            }
        }
        proof {
            assert forall|id: u64| #[trigger] g.contains_key(id) implies r@.contains_key(id) by {
                assert(s.contains((&id, &view@[id])));
                let j = choose|j: int| 0 <= j < s.len() && s[j] == (&id, &view@[id]);
                assert(*s[j].0 == id);
            }
            assert(r@ =~= g);
        }
        r
    }

    /// Record that the update with sequence number `update_seq` from origin
    /// `node_id` was received, creating the origin's view on first sight.
    /// Returns `false` iff updates from that origin are missing, that is
    /// iff the update was not the next in sequence.
    pub fn on_recieved_cache_entry_from_other(&mut self, node_id: u64, update_seq: u64) -> (r: bool)
        requires
            old(self).wf(),
        ensures
            observed(*old(self), *final(self), node_id, update_seq),
            r == (old(self).local_baseline(node_id) < u64::MAX && update_seq == old(self).local_baseline(node_id) + 1),
    {
        let mut view = match node_view_map_get(&self.other_nodes_update_seqs, node_id) {
            Some(existing) => {
                proof {
                    assert(self.views().contains_key(node_id));
                }
                existing.duplicate()
            },
            None => NodeView::new(),
        };
        let r = view.update(update_seq);
        node_view_map_insert(&mut self.other_nodes_update_seqs, node_id, Arc::new(view));
        proof {
            assert(self.views().dom() =~= old(self).views().dom().insert(node_id));
        }
        r
    }
}

/// The gap towards any pushed view leaves out the local node, and every
/// origin whose local baseline is at least the pushed one.
pub proof fn lemma_gap_excludes_local_and_caught_up(s: ClusterStateView, pushed: Map<u64, u64>)
    ensures
        !s.gap(pushed).contains_key(s.local_node_id()),
        forall|id: u64|
            pushed.contains_key(id) && s.local_baseline(id) >= pushed[id] ==> !#[trigger] s.gap(
                pushed,
            ).contains_key(id),
{
}

/// Feeding a replica's own state view back to it yields an empty gap.
pub proof fn lemma_own_state_view_has_no_gap(s: ClusterStateView)
    ensures
        s.gap(s.state_view()).dom().is_empty(),
{
    let v = s.state_view();
    assert forall|id: u64| !#[trigger] s.gap(v).contains_key(id) by {
        if v.contains_key(id) && id != s.local_node_id() {
            assert(s.views().contains_key(id));
            assert(v[id] == s.local_baseline(id));
        }
    }
    assert(s.gap(v).dom() =~= Set::<u64>::empty());
}

/// Receiving the same sequence number from an origin a second time
/// changes neither what was received from it nor its baseline.
pub proof fn lemma_repeated_observation_changes_nothing(
    a: ClusterStateView,
    b: ClusterStateView,
    c: ClusterStateView,
    node_id: u64,
    update_seq: u64,
)
    requires
        observed(a, b, node_id, update_seq),
        observed(b, c, node_id, update_seq),
    ensures
        c.views()[node_id].supplied() == b.views()[node_id].supplied(),
        c.views()[node_id].baseline() == b.views()[node_id].baseline(),
        c.state_view() == b.state_view(),
{
    let sb = b.views()[node_id].supplied();
    let sc = c.views()[node_id].supplied();
    assert(sc =~= sb);
    let bb = b.views()[node_id].baseline();
    let bc = c.views()[node_id].baseline();
    assert(received_up_to(sb, bc));
    assert(received_up_to(sb, bb));
    assert(bb <= bc && bc <= bb);
    let rb = b.views().map_values(|v: NodeView| v.baseline());
    let rc = c.views().map_values(|v: NodeView| v.baseline());
    assert(rc =~= rb) by {
        assert forall|id: u64| #[trigger] rc.contains_key(id) implies rc[id] == rb[id] by {
            if id != node_id {
                assert(b.views().contains_key(id));
            }
        }
    }
    assert(c.state_view() =~= b.state_view());
}

} // verus!
