//! The local replica's write counter.

use vstd::prelude::*;

verus! {

/// Monotonic counter of writes accepted by the local replica, paired with
/// the replica's node id.
pub struct LocalSequence {
    node_id: u64,
    seq: u64,
}

impl LocalSequence {
    /// The node id this counter belongs to.
    pub closed spec fn spec_node_id(&self) -> u64 {
        self.node_id
    }

    /// The last value handed out, or zero when none was.
    pub closed spec fn spec_current(&self) -> u64 {
        self.seq
    }

    /// Every value handed out so far: they are dense, starting at one.
    pub open spec fn issued(&self) -> Set<u64> {
        Set::new(|x: u64| 1 <= x <= self.spec_current())
    }

    /// Return a new counter that has handed out nothing.
    pub fn new(local_node_id: u64) -> (r: Self)
        ensures
            r.spec_node_id() == local_node_id,
            r.spec_current() == 0,
    {
        LocalSequence { node_id: local_node_id, seq: 0 }
    }

    /// Return the local node id.
    pub fn node_id(&self) -> (r: u64)
        ensures
            r == self.spec_node_id(),
    {
        self.node_id
    }

    /// Return `true` if this counter has handed out any value.
    pub fn has_been_pulled(&self) -> (r: bool)
        ensures
            r == (self.spec_current() > 0),
    {
        self.seq > 0
    }

    /// Return the last value handed out (zero if none).
    pub fn current(&self) -> (r: u64)
        ensures
            r == self.spec_current(),
    {
        self.seq
    }

    /// Return a fresh value, greater than every value handed out before.
    pub fn generate_next(&mut self) -> (r: u64)
        requires
            old(self).spec_current() < u64::MAX,
        ensures
            r == old(self).spec_current() + 1,
            final(self).spec_current() == r,
            final(self).spec_node_id() == old(self).spec_node_id(),
            forall|x: u64| old(self).issued().contains(x) ==> x < r,
            !old(self).issued().contains(r),
            final(self).issued() == old(self).issued().insert(r),
    {
        self.seq = self.seq + 1;
        let r = self.seq;
        assert(self.issued() =~= old(self).issued().insert(r));
        r
    }
}

} // verus!
