//! What the local replica has received from one remote origin.

use vstd::prelude::*;

verus! {

/// Every sequence number from one up to `b` is in `s`.
pub open spec fn received_up_to(s: Set<u64>, b: u64) -> bool {
    forall|i: u64| 1 <= i <= b ==> #[trigger] s.contains(i)
}

/// `b` is the largest number such that every sequence number from one up
/// to `b` is in `s`.
pub open spec fn is_largest_received_prefix(s: Set<u64>, b: u64) -> bool {
    &&& received_up_to(s, b)
    &&& forall|c: u64| #[trigger] received_up_to(s, c) ==> c <= b
}

/// Delivery state for one remote origin: the baseline (every sequence
/// number up to it has been received), the highest sequence number
/// observed, and the numbers received above the baseline.
pub struct NodeView {
    baseline_seq: u64,
    latest_seq: u64,
    pending: Vec<u64>,
    supplied: Ghost<Set<u64>>,
}

/// Whether `x` occurs in `v`.
fn holds_value(v: &Vec<u64>, x: u64) -> (r: bool)
    ensures
        r == v@.contains(x),
{
    let mut i: usize = 0;
    while i < v.len()
        invariant
            i <= v.len(),
            forall|j: int| 0 <= j < i ==> v@[j] != x,
        decreases v.len() - i,
    {
        if v[i] == x {
            return true;
        }
        i = i + 1;
    }
    false
}

impl NodeView {
    /// The baseline sequence number.
    pub closed spec fn baseline(&self) -> u64 {
        self.baseline_seq
    }

    /// The highest sequence number observed.
    pub closed spec fn latest(&self) -> u64 {
        self.latest_seq
    }

    /// Every sequence number supplied so far.
    pub closed spec fn supplied(&self) -> Set<u64> {
        self.supplied@
    }

    /// The internal invariant.
    pub closed spec fn wf(&self) -> bool {
        &&& received_up_to(self.supplied@, self.baseline_seq)
        &&& self.baseline_seq < u64::MAX ==> !self.supplied@.contains(
            (self.baseline_seq + 1) as u64,
        )
        &&& forall|x: u64| #[trigger]
            self.pending@.contains(x) <==> (self.supplied@.contains(x) && x > self.baseline_seq)
        &&& self.pending@.no_duplicates()
        &&& forall|x: u64| #[trigger] self.supplied@.contains(x) ==> x <= self.latest_seq
        &&& self.baseline_seq <= self.latest_seq
    }

    proof fn lemma_largest_prefix(&self)
        requires
            self.wf(),
        ensures
            is_largest_received_prefix(self.supplied(), self.baseline()),
    {
        assert forall|c: u64| #[trigger] received_up_to(self.supplied@, c) implies c
            <= self.baseline_seq by {
            if c > self.baseline_seq {
                assert(self.supplied@.contains((self.baseline_seq + 1) as u64));
            }
        }
    }

    /// Return a view of an origin from which nothing was received.
    pub fn new() -> (r: Self)
        ensures
            r.wf(),
            r.baseline() == 0,
            r.latest() == 0,
            r.supplied() == Set::<u64>::empty(),
    {
        NodeView {
            baseline_seq: 0,
            latest_seq: 0,
            pending: Vec::new(),
            supplied: Ghost(Set::empty()),
        }
    }

    /// Return a copy of this view.
    pub fn duplicate(&self) -> (r: Self)
        requires
            self.wf(),
        ensures
            r.wf(),
            r.baseline() == self.baseline(),
            r.latest() == self.latest(),
            r.supplied() == self.supplied(),
    {
        let pending = self.pending.clone();
        assert(pending@ =~= self.pending@);
        NodeView {
            baseline_seq: self.baseline_seq,
            latest_seq: self.latest_seq,
            pending,
            supplied: Ghost(self.supplied@),
        }
    }

    /// Get the baseline sequence number: every update up to it has been
    /// received.
    pub fn get_baseline_sequence(&self) -> (r: u64)
        ensures
            r == self.baseline(),
    {
        self.baseline_seq
    }

    /// Get the highest sequence number observed.
    pub fn get_latest_sequence(&self) -> (r: u64)
        ensures
            r == self.latest(),
    {
        self.latest_seq
    }

    /// Record that the update with sequence number `new_sequence` was
    /// received. Returns `true` iff it was the next one in sequence, that is
    /// iff the baseline advanced to it. Sequence numbers received out of
    /// order are kept, so that the baseline advances over them once the
    /// gap before them is filled.
    pub fn update(&mut self, new_sequence: u64) -> (r: bool)
        requires
            old(self).wf(),
        ensures
            final(self).wf(),
            r == (old(self).baseline() < u64::MAX && new_sequence == old(self).baseline() + 1),
            final(self).supplied() == old(self).supplied().insert(new_sequence),
            final(self).latest() == if new_sequence > old(self).latest() {
                new_sequence
            } else {
                old(self).latest()
            },
            final(self).baseline() <= final(self).latest(),
            is_largest_received_prefix(final(self).supplied(), final(self).baseline()),
    {
        let ghost old_supplied = self.supplied@;
        let in_sequence = self.baseline_seq < u64::MAX && self.baseline_seq + 1 == new_sequence;
        if new_sequence > self.latest_seq {
            self.latest_seq = new_sequence;
        }
        self.supplied = Ghost(self.supplied@.insert(new_sequence));
        let ghost latest_now = self.latest_seq;
        if in_sequence {
            self.baseline_seq = new_sequence;
            while self.baseline_seq < u64::MAX && holds_value(&self.pending, self.baseline_seq + 1)
                invariant
                    received_up_to(self.supplied@, self.baseline_seq),
                    forall|x: u64| #[trigger]
                        self.pending@.contains(x) ==> self.supplied@.contains(x),
                    forall|x: u64| #[trigger]
                        self.supplied@.contains(x) && x > self.baseline_seq ==> self.pending@.contains(x)
                            || x == new_sequence,
                    self.baseline_seq >= new_sequence,
                    forall|x: u64| #[trigger] self.supplied@.contains(x) ==> x <= self.latest_seq,
                    self.baseline_seq <= self.latest_seq,
                    self.pending == old(self).pending,
                    self.supplied@ == old(self).supplied@.insert(new_sequence),
                    self.latest_seq == latest_now,
                decreases u64::MAX - self.baseline_seq,
            {
                assert(self.supplied@.contains((self.baseline_seq + 1) as u64));
                self.baseline_seq = self.baseline_seq + 1;
            }
            let mut kept: Vec<u64> = Vec::new();
            let mut i: usize = 0;
            while i < self.pending.len()
                invariant
                    i <= self.pending.len(),
                    kept@.no_duplicates(),
                    forall|x: u64| #[trigger]
                        kept@.contains(x) <==> (exists|j: int|
                            0 <= j < i && self.pending@[j] == x && x > self.baseline_seq),
                    old(self).pending@.no_duplicates(),
                    self.pending@ == old(self).pending@,
                decreases self.pending.len() - i,
            {
                let x = self.pending[i];
                if x > self.baseline_seq {
                    proof {
                        assert forall|j: int| 0 <= j < i implies self.pending@[j] != x by {
                            assert(self.pending@[j] != self.pending@[i as int]);
                        }
                        assert(!kept@.contains(x));
                    }
                    let ghost before = kept@;
                    kept.push(x);
                    proof {
                        assert forall|y: u64| #[trigger]
                            kept@.contains(y) <==> (exists|j: int|
                                0 <= j < i + 1 && self.pending@[j] == y && y > self.baseline_seq) by {
                            if kept@.contains(y) && y != x {
                                assert(before.contains(y)) by {
                                    let k = choose|k: int| 0 <= k < kept@.len() && kept@[k] == y;
                                    assert(before[k] == y);
                                }
                            }
                            if y == x {
                                assert(kept@[kept@.len() - 1] == y);
                            }
                            if exists|j: int|
                                0 <= j < i + 1 && self.pending@[j] == y && y > self.baseline_seq {
                                if y != x {
                                    assert(before.contains(y));
                                    let k = choose|k: int|
                                        0 <= k < before.len() && before[k] == y;
                                    assert(kept@[k] == y);
                                }
                            }
                        }
                    }
                } else {
                    proof {
                        assert forall|y: u64| #[trigger]
                            kept@.contains(y) <==> (exists|j: int|
                                0 <= j < i + 1 && self.pending@[j] == y && y > self.baseline_seq) by {
                            if exists|j: int|
                                0 <= j < i + 1 && self.pending@[j] == y && y > self.baseline_seq {
                                let j = choose|j: int|
                                    0 <= j < i + 1 && self.pending@[j] == y && y > self.baseline_seq;
                                assert(j != i);
                            }
                        }
                    }
                }
                i = i + 1;
            }
            self.pending = kept;
            proof {
                assert forall|x: u64| #[trigger]
                    self.pending@.contains(x) <==> (self.supplied@.contains(x) && x
                        > self.baseline_seq) by {
                    if self.supplied@.contains(x) && x > self.baseline_seq {
                        assert(old(self).pending@.contains(x));
                        let j = choose|j: int|
                            0 <= j < old(self).pending@.len() && old(self).pending@[j] == x;
                        assert(old(self).pending@[j] == x);
                    }
                    if self.pending@.contains(x) {
                        let j = choose|j: int|
                            0 <= j < old(self).pending@.len() && old(self).pending@[j] == x
                                && x > self.baseline_seq;
                        assert(old(self).pending@.contains(x));
                    }
                }
            }
        } else if new_sequence > self.baseline_seq && !holds_value(&self.pending, new_sequence) {
            self.pending.push(new_sequence);
            proof {
                assert forall|x: u64| #[trigger]
                    self.pending@.contains(x) <==> (self.supplied@.contains(x) && x
                        > self.baseline_seq) by {
                    if x == new_sequence {
                        assert(self.pending@[self.pending@.len() - 1] == x);
                    } else if self.pending@.contains(x) {
                        let k = choose|k: int| 0 <= k < self.pending@.len() && self.pending@[k] == x;
                        assert(old(self).pending@[k] == x);
                        assert(old(self).pending@.contains(x));
                    } else if old(self).pending@.contains(x) {
                        let k = choose|k: int|
                            0 <= k < old(self).pending@.len() && old(self).pending@[k] == x;
                        assert(self.pending@[k] == x);
                    }
                }
            }
        }
        proof {
            self.lemma_largest_prefix();
        }
        in_sequence
    }
}

} // verus!
