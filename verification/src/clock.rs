//! Peer identities, operation ids and logical clocks.

use vstd::prelude::*;

verus! {

/// Identifier of a replica.
#[derive(Debug, Clone, Copy, PartialEq, Eq, Structural, PartialOrd, Ord, Hash)]
pub struct PeerId(pub u64);

impl PeerId {
    /// Wraps a raw value.
    pub fn from_u64(raw: u64) -> (p: PeerId)
        ensures
            p.0 == raw,
    {
        PeerId(raw)
    }

    /// The raw value.
    pub fn as_u64(self) -> (raw: u64)
        ensures
            raw == self.0,
    {
        self.0
    }
}

/// Globally unique id of an operation: the Lamport timestamp at which a
/// peer issued it, and that peer.
#[derive(Debug, Clone, Copy, PartialEq, Eq, Structural, PartialOrd, Ord, Hash)]
pub struct OperationId {
    /// Lamport timestamp.
    pub lamport: u64,
    /// Issuing peer.
    pub peer: PeerId,
}

impl OperationId {
    /// Creates an operation id.
    pub fn new(lamport: u64, peer: PeerId) -> (id: OperationId)
        ensures
            id.lamport == lamport,
            id.peer == peer,
    {
        OperationId { lamport, peer }
    }
}

/// A Lamport clock.
#[derive(Debug, Clone, Copy, PartialEq, Eq, Structural)]
pub struct LamportClock {
    /// Current time.
    pub time: u64,
}

impl LamportClock {
    /// A clock starting at `time`.
    pub fn new(time: u64) -> (c: LamportClock)
        ensures
            c.time == time,
    {
        LamportClock { time }
    }

    /// Current time.
    pub fn get(&self) -> (t: u64)
        ensures
            t == self.time,
    {
        self.time
    }

    /// Advances the clock by one and returns the new time (saturating at
    /// `u64::MAX`).
    pub fn tick(&mut self) -> (t: u64)
        ensures
            t == final(self).time,
            final(self).time == (if old(self).time < u64::MAX { old(self).time + 1 } else { u64::MAX as int }),
    {
        if self.time < u64::MAX {
            self.time = self.time + 1;
        }
        self.time
    }

    /// Observes a remote timestamp: the clock becomes the larger of the two.
    pub fn observe(&mut self, remote: u64)
        ensures
            final(self).time == (if remote > old(self).time { remote } else { old(self).time }),
    {
        if remote > self.time {
            self.time = remote;
        }
    }
}

/// The count a vector clock holds for `peer` (0 when absent).
pub open spec fn vc_count(entries: Seq<(PeerId, u64)>, peer: PeerId) -> nat
    decreases entries.len(),
{
    if entries.len() == 0 {
        0
    } else if entries.last().0 == peer {
        entries.last().1 as nat
    } else {
        vc_count(entries.drop_last(), peer)
    }
}

/// No peer occurs twice.
pub open spec fn vc_distinct(entries: Seq<(PeerId, u64)>) -> bool {
    forall|i: int, j: int| 0 <= i < j < entries.len() ==> entries[i].0 != entries[j].0
}

/// A vector clock: one counter per peer.
#[derive(Debug, PartialEq, Eq, Default)]
pub struct VectorClock {
    entries: Vec<(PeerId, u64)>,
}

impl View for VectorClock {
    type V = Seq<(PeerId, u64)>;

    /// The entries, one per peer that has a counter.
    closed spec fn view(&self) -> Seq<(PeerId, u64)> {
        self.entries@
    }
}

impl VectorClock {
    /// Every clock lists each peer at most once.
    #[verifier::type_invariant]
    closed spec fn distinct_peers(self) -> bool {
        vc_distinct(self.entries@)
    }

    /// The counter of `peer`.
    pub open spec fn count(&self, peer: PeerId) -> nat {
        vc_count(self@, peer)
    }

    /// The clock's well-formedness: no peer listed twice.
    pub open spec fn wf(&self) -> bool {
        vc_distinct(self@)
    }

    /// `self` is dominated by `other`: every counter is at most the other's.
    pub open spec fn le(&self, other: &VectorClock) -> bool {
        forall|p: PeerId| #[trigger] self.count(p) <= other.count(p)
    }

    /// Neither clock dominates the other.
    pub open spec fn concurrent_with(&self, other: &VectorClock) -> bool {
        !self.le(other) && !other.le(self)
    }

    /// The empty clock.
    pub fn new() -> (c: VectorClock)
        ensures
            c.wf(),
            forall|p: PeerId| #[trigger] c.count(p) == 0,
    {
        VectorClock { entries: Vec::new() }
    }

    /// Position of `peer` in the entry list.
    fn find(&self, peer: PeerId) -> (r: Option<usize>)
        ensures
            match r {
                Some(i) => i < self.entries@.len() && self.entries@[i as int].0 == peer
                    && self.count(peer) == self.entries@[i as int].1,
                None => (forall|i: int| 0 <= i < self.entries@.len() ==> self.entries@[i].0 != peer)
                    && self.count(peer) == 0,
            },
    {
        proof { use_type_invariant(self); }
        let mut i: usize = 0;
        while i < self.entries.len()
            invariant
                self.wf(),
                i <= self.entries@.len(),
                forall|k: int| 0 <= k < i ==> self.entries@[k].0 != peer,
            decreases self.entries@.len() - i,
        {
            if self.entries[i].0 == peer {
                proof { lemma_vc_count_at(self.entries@, i as int); }
                return Some(i);
            }
            i = i + 1;
        }
        proof { lemma_vc_count_absent(self.entries@, peer); }
        None
    }

    /// The counter of `peer`.
    pub fn get(&self, peer: PeerId) -> (c: u64)
        ensures
            c == self.count(peer),
    {
        match self.find(peer) {
            Some(i) => self.entries[i].1,
            None => 0,
        }
    }

    /// Sets the counter of `peer` to `value`.
    fn put(&mut self, peer: PeerId, value: u64)
        ensures
            final(self).count(peer) == value,
            forall|q: PeerId| q != peer ==> #[trigger] final(self).count(q) == old(self).count(q),
    {
        proof { use_type_invariant(&*self); }
        let ghost before = self.entries@;
        let pos = self.find(peer);
        let mut entries: Vec<(PeerId, u64)> = Vec::new();
        std::mem::swap(&mut entries, &mut self.entries);
        match pos {
            Some(i) => {
                entries.set(i, (peer, value));
                proof {
                    lemma_vc_count_at(entries@, i as int);
                    assert forall|q: PeerId| q != peer implies #[trigger] vc_count(entries@, q)
                        == vc_count(before, q) by {
                        lemma_vc_count_update(before, i as int, value, q);
                    }
                    assert(vc_distinct(entries@)) by {
                        assert forall|a: int, b: int| 0 <= a < b < entries@.len() implies entries@[a].0 != entries@[b].0 by {
                            assert(entries@[a].0 == before[a].0 && entries@[b].0 == before[b].0);
                        }
                    }
                }
            }
            None => {
                entries.push((peer, value));
                proof {
                    assert(entries@.drop_last() =~= before);
                    assert forall|q: PeerId| q != peer implies #[trigger] vc_count(entries@, q)
                        == vc_count(before, q) by {}
                }
            }
        }
        self.entries = entries;
    }

    /// Increments the counter of `peer` (saturating at `u64::MAX`).
    pub fn increment(&mut self, peer: PeerId)
        ensures
            final(self).count(peer) == (if old(self).count(peer) < u64::MAX {
                old(self).count(peer) + 1
            } else {
                u64::MAX as nat
            }),
            forall|q: PeerId| q != peer ==> #[trigger] final(self).count(q) == old(self).count(q),
    {
        let c = self.get(peer);
        let n = if c < u64::MAX { c + 1 } else { c };
        self.put(peer, n);
    }

    /// Records that `peer` has reached `counter`: the entry becomes the
    /// larger of the two.
    pub fn witness(&mut self, peer: PeerId, counter: u64)
        ensures
            final(self).count(peer) == (if counter > old(self).count(peer) {
                counter as nat
            } else {
                old(self).count(peer)
            }),
            forall|q: PeerId| q != peer ==> #[trigger] final(self).count(q) == old(self).count(q),
    {
        let c = self.get(peer);
        if counter > c {
            self.put(peer, counter);
        }
    }

    /// Pointwise maximum with `other`.
    pub fn merge(&mut self, other: &VectorClock)
        ensures
            forall|q: PeerId| #[trigger] final(self).count(q) == (if other.count(q) > old(self).count(q) {
                other.count(q)
            } else {
                old(self).count(q)
            }),
    {
        proof { use_type_invariant(other); }
        let ghost orig = *self;
        let mut i: usize = 0;
        while i < other.entries.len()
            invariant
                other.wf(),
                i <= other.entries@.len(),
                forall|q: PeerId| #[trigger] self.count(q) == (if (exists|k: int| 0 <= k < i && other.entries@[k].0 == q) && other.count(q) > orig.count(q) {
                    other.count(q)
                } else {
                    orig.count(q)
                }),
            decreases other.entries@.len() - i,
        {
            let (p, c) = other.entries[i];
            proof { lemma_vc_count_at(other.entries@, i as int); }
            let ghost mid = *self;
            self.witness(p, c);
            proof {
                assert forall|q: PeerId| #[trigger] self.count(q) == (if (exists|k: int| 0 <= k < i + 1 && other.entries@[k].0 == q) && other.count(q) > orig.count(q) {
                    other.count(q)
                } else {
                    orig.count(q)
                }) by {
                    if q == p {
                        assert(other.entries@[i as int].0 == q);
                        if !(exists|k: int| 0 <= k < i && other.entries@[k].0 == q) {
                            assert(mid.count(q) == orig.count(q));
                        } else {
                            let k = choose|k: int| 0 <= k < i && other.entries@[k].0 == q;
                            assert(other.entries@[k].0 == other.entries@[i as int].0);
                        }
                    } else {
                        if exists|k: int| 0 <= k < i + 1 && other.entries@[k].0 == q {
                            let k = choose|k: int| 0 <= k < i + 1 && other.entries@[k].0 == q;
                            assert(k != i);
                        }
                    }
                }
            }
            i = i + 1;
        }
        proof {
            assert forall|q: PeerId| #[trigger] self.count(q) == (if other.count(q) > orig.count(q) {
                other.count(q)
            } else {
                orig.count(q)
            }) by {
                if !(exists|k: int| 0 <= k < other.entries@.len() && other.entries@[k].0 == q) {
                    lemma_vc_count_absent(other.entries@, q);
                }
            }
        }
    }

    /// `self` is dominated by `other`.
    pub fn dominated_by(&self, other: &VectorClock) -> (r: bool)
        ensures
            r == self.le(other),
    {
        proof { use_type_invariant(self); use_type_invariant(other); }
        let mut i: usize = 0;
        while i < self.entries.len()
            invariant
                self.wf(),
                other.wf(),
                i <= self.entries@.len(),
                forall|k: int| 0 <= k < i ==> self.entries@[k].1 <= other.count(self.entries@[k].0),
            decreases self.entries@.len() - i,
        {
            let (p, c) = self.entries[i];
            if c > other.get(p) {
                proof {
                    lemma_vc_count_at(self.entries@, i as int);
                    assert(self.count(p) > other.count(p));
                }
                return false;
            }
            i = i + 1;
        }
        proof {
            assert forall|p: PeerId| #[trigger] self.count(p) <= other.count(p) by {
                if exists|k: int| 0 <= k < self.entries@.len() && self.entries@[k].0 == p {
                    let k = choose|k: int| 0 <= k < self.entries@.len() && self.entries@[k].0 == p;
                    lemma_vc_count_at(self.entries@, k);
                } else {
                    lemma_vc_count_absent(self.entries@, p);
                }
            }
        }
        true
    }

    /// Neither clock happened before the other.
    pub fn is_concurrent(&self, other: &VectorClock) -> (r: bool)
        ensures
            r == self.concurrent_with(other),
    {
        !self.dominated_by(other) && !other.dominated_by(self)
    }

    /// An independent copy of the clock.
    pub fn duplicate(&self) -> (c: VectorClock)
        ensures
            c@ == self@,
    {
        proof { use_type_invariant(self); }
        let mut entries: Vec<(PeerId, u64)> = Vec::new();
        let mut i: usize = 0;
        while i < self.entries.len()
            invariant
                i <= self.entries@.len(),
                entries@ == self.entries@.subrange(0, i as int),
            decreases self.entries@.len() - i,
        {
            entries.push(self.entries[i]);
            i = i + 1;
            proof { assert(entries@ =~= self.entries@.subrange(0, i as int)); }
        }
        proof { assert(entries@ =~= self.entries@); }
        VectorClock { entries }
    }
}

impl Clone for VectorClock {
    /// An independent copy of the clock.
    fn clone(&self) -> (c: VectorClock)
        ensures
            c@ == self@,
    {
        self.duplicate()
    }
}

proof fn lemma_vc_count_at(s: Seq<(PeerId, u64)>, i: int)
    requires
        vc_distinct(s),
        0 <= i < s.len(),
    ensures
        vc_count(s, s[i].0) == s[i].1,
    decreases s.len(),
{
    if i != s.len() - 1 {
        assert(s.drop_last()[i] == s[i]);
        lemma_vc_count_at(s.drop_last(), i);
    }
}

proof fn lemma_vc_count_absent(s: Seq<(PeerId, u64)>, p: PeerId)
    requires
        forall|i: int| 0 <= i < s.len() ==> s[i].0 != p,
    ensures
        vc_count(s, p) == 0,
    decreases s.len(),
{
    if s.len() > 0 {
        lemma_vc_count_absent(s.drop_last(), p);
    }
}

proof fn lemma_vc_count_update(s: Seq<(PeerId, u64)>, i: int, v: u64, q: PeerId)
    requires
        vc_distinct(s),
        0 <= i < s.len(),
        q != s[i].0,
    ensures
        vc_distinct(s.update(i, (s[i].0, v))),
        vc_count(s.update(i, (s[i].0, v)), q) == vc_count(s, q),
    decreases s.len(),
{
    let t = s.update(i, (s[i].0, v));
    if i == s.len() - 1 {
        assert(t.drop_last() =~= s.drop_last());
    } else {
        assert(t.drop_last() =~= s.drop_last().update(i, (s[i].0, v)));
        lemma_vc_count_update(s.drop_last(), i, v, q);
    }
}

} // verus!
