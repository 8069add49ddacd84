//! Session replay: plays a recorded operation log back into a replica, all
//! at once or up to a point in time, through the same path a peer's edits
//! take ([`TimelineCrdt::apply_remote`]).
//!
//! Pacing playback at the recorded wall-clock rhythm is left to the caller:
//! [`SessionRecording::replay_plan`] gives each operation to apply with the
//! capture-time gap since the previous one.

use vstd::prelude::*;
use crate::operation::{TaggedOperation, seqs_same, lemma_same_equiv};
use crate::timeline_crdt::{TimelineCrdt, replays, sort_ops, stably_sorted};

verus! {

/// A recorded operation log, sorted into replay order (capture time; equal
/// times keep their recorded order).
#[derive(Debug, Clone, Default)]
pub struct SessionRecording {
    ops: Vec<TaggedOperation>,
}

/// The operations of `ops` captured at or before `cutoff` (all of them
/// when there is no cutoff), in order.
pub open spec fn captured_by(ops: Seq<TaggedOperation>, cutoff: Option<u64>) -> Seq<TaggedOperation> {
    match cutoff {
        Some(c) => ops.filter(|o: TaggedOperation| o.timestamp <= c),
        None => ops,
    }
}

/// The capture-time gap of each operation of `ops` to the one before it
/// (0 for the first, and when time ran backwards).
pub open spec fn gap_before(ops: Seq<TaggedOperation>, i: int) -> u64 {
    if i == 0 || ops[i].timestamp < ops[i - 1].timestamp { 0 } else { (ops[i].timestamp - ops[i - 1].timestamp) as u64 }
}

impl SessionRecording {
    /// The recorded operations, in replay order.
    pub closed spec fn ops(&self) -> Seq<TaggedOperation> {
        self.ops@
    }

    /// Wraps a recorded operation log, sorting it stably by capture time.
    pub fn new(ops: Vec<TaggedOperation>) -> (r: SessionRecording)
        ensures
            stably_sorted(ops@, r.ops(), true),
    {
        SessionRecording { ops: sort_ops(ops, true) }
    }

    /// Number of recorded operations.
    pub fn len(&self) -> (n: usize)
        ensures
            n == self.ops().len(),
    {
        self.ops.len()
    }

    /// True when nothing is recorded.
    pub fn is_empty(&self) -> (b: bool)
        ensures
            b == (self.ops().len() == 0),
    {
        self.ops.len() == 0
    }

    /// The recorded operations, in replay order.
    pub fn operations(&self) -> (r: &[TaggedOperation])
        ensures
            r@ == self.ops(),
    {
        self.ops.as_slice()
    }

    /// The capture times of the first and last operation, if any.
    pub fn time_range(&self) -> (r: Option<(u64, u64)>)
        ensures
            self.ops().len() == 0 ==> r is None,
            self.ops().len() > 0 ==> r == Some((self.ops()[0].timestamp, self.ops().last().timestamp)),
    {
        if self.ops.len() == 0 {
            None
        } else {
            Some((self.ops[0].timestamp, self.ops[self.ops.len() - 1].timestamp))
        }
    }

    /// The operations captured at or before `cutoff` (all when `None`),
    /// in replay order.
    fn selected(&self, cutoff: Option<u64>) -> (r: Vec<TaggedOperation>)
        ensures
            seqs_same(r@, captured_by(self.ops(), cutoff)),
    {
        let ghost pred = |o: TaggedOperation| o.timestamp <= cutoff->0;
        let mut r: Vec<TaggedOperation> = Vec::new();
        let mut i: usize = 0;
        proof {
            reveal(Seq::filter);
            assert(self.ops@.take(0) =~= Seq::<TaggedOperation>::empty());
        }
        while i < self.ops.len()
            invariant
                i <= self.ops@.len(),
                pred == (|o: TaggedOperation| o.timestamp <= cutoff->0),
                seqs_same(r@, match cutoff { Some(c) => self.ops@.take(i as int).filter(pred), None => self.ops@.take(i as int) }),
            decreases self.ops@.len() - i,
        {
            let op = &self.ops[i];
            let wanted = match cutoff {
                Some(c) => op.timestamp <= c,
                None => true,
            };
            proof {
                reveal(Seq::filter);
                assert(self.ops@.take(i + 1).drop_last() =~= self.ops@.take(i as int));
                assert(self.ops@.take(i + 1) =~= self.ops@.take(i as int).push(self.ops@[i as int]));
            }
            if wanted {
                let ghost before = r@;
                r.push(op.duplicate());
                proof {
                    assert forall|k: int| 0 <= k < r@.len() implies (#[trigger] r@[k]).same(
                        (match cutoff { Some(c) => self.ops@.take(i + 1).filter(pred), None => self.ops@.take(i + 1) })[k]) by {
                        if k < before.len() {
                            assert(r@[k] == before[k]);
                        }
                    }
                }
            }
            i = i + 1;
        }
        proof {
            assert(self.ops@.take(i as int) =~= self.ops@);
            if let Some(c) = cutoff {
                assert(pred == (|o: TaggedOperation| o.timestamp <= c));
            }
        }
        r
    }

    /// Receives the selected operations into `crdt`, in replay order.
    fn replay_selected(&self, crdt: &mut TimelineCrdt, cutoff: Option<u64>)
        requires
            old(crdt).wf(),
        ensures
            final(crdt).wf(),
            exists|t: Seq<TaggedOperation>| seqs_same(t, captured_by(self.ops(), cutoff))
                && replays(old(crdt).model(), t, final(crdt).model()),
    {
        let ops = self.selected(cutoff);
        let ghost t = ops@;
        let ghost m0 = crdt.model();
        crdt.receive_all(ops);
        proof {
            assert(seqs_same(t, captured_by(self.ops(), cutoff)) && replays(m0, t, crdt.model()));
        }
    }

    /// Replays every recorded operation into `crdt`, at once. Operations a
    /// replica has already seen are skipped by `apply_remote` itself.
    pub fn replay_all(&self, crdt: &mut TimelineCrdt)
        requires
            old(crdt).wf(),
        ensures
            final(crdt).wf(),
            exists|t: Seq<TaggedOperation>| seqs_same(t, self.ops()) && replays(old(crdt).model(), t, final(crdt).model()),
    {
        self.replay_selected(crdt, None);
    }

    /// Replays only the operations captured at or before `cutoff` — what
    /// the session looked like at that point in time.
    pub fn replay_until(&self, crdt: &mut TimelineCrdt, cutoff: u64)
        requires
            old(crdt).wf(),
        ensures
            final(crdt).wf(),
            exists|t: Seq<TaggedOperation>| seqs_same(t, captured_by(self.ops(), Some(cutoff)))
                && replays(old(crdt).model(), t, final(crdt).model()),
    {
        self.replay_selected(crdt, Some(cutoff));
    }

    /// The playback plan for the operations captured at or before `cutoff`
    /// (all when `None`): for each, in replay order, its position in the
    /// recording and the capture-time gap in nanoseconds since the previous
    /// selected operation (0 for the first, and when time ran backwards).
    pub fn replay_plan(&self, cutoff: Option<u64>) -> (r: Vec<(usize, u64)>)
        ensures
            r@.len() == captured_by(self.ops(), cutoff).len(),
            forall|k: int| 0 <= k < r@.len() ==> (#[trigger] r@[k]).0 < self.ops().len()
                && self.ops()[r@[k].0 as int].same(captured_by(self.ops(), cutoff)[k])
                && r@[k].1 == gap_before(captured_by(self.ops(), cutoff), k),
    {
        let ghost pred = |o: TaggedOperation| o.timestamp <= cutoff->0;
        let ghost sel = captured_by(self.ops(), cutoff);
        let mut r: Vec<(usize, u64)> = Vec::new();
        let mut previous: Option<u64> = None;
        let mut i: usize = 0;
        proof {
            reveal(Seq::filter);
            assert(self.ops@.take(0) =~= Seq::<TaggedOperation>::empty());
            lemma_same_equiv(self.ops@[0], self.ops@[0], self.ops@[0]);
        }
        while i < self.ops.len()
            invariant
                i <= self.ops@.len(),
                pred == (|o: TaggedOperation| o.timestamp <= cutoff->0),
                sel == captured_by(self.ops(), cutoff),
                ({
                    let pre = match cutoff { Some(c) => self.ops@.take(i as int).filter(pred), None => self.ops@.take(i as int) };
                    &&& r@.len() == pre.len()
                    &&& forall|k: int| 0 <= k < r@.len() ==> (#[trigger] r@[k]).0 < i
                        && self.ops@[r@[k].0 as int] == pre[k]
                        && r@[k].1 == gap_before(pre, k)
                    &&& previous == (if pre.len() == 0 { None } else { Some(pre.last().timestamp) })
                }),
            decreases self.ops@.len() - i,
        {
            let ghost pre = match cutoff { Some(c) => self.ops@.take(i as int).filter(pred), None => self.ops@.take(i as int) };
            let t = self.ops[i].timestamp;
            let wanted = match cutoff {
                Some(c) => t <= c,
                None => true,
            };
            proof {
                reveal(Seq::filter);
                assert(self.ops@.take(i + 1).drop_last() =~= self.ops@.take(i as int));
                assert(self.ops@.take(i + 1) =~= self.ops@.take(i as int).push(self.ops@[i as int]));
            }
            if wanted {
                let gap = match previous {
                    Some(p) => if t < p { 0 } else { t - p },
                    None => 0,
                };
                r.push((i, gap));
                previous = Some(t);
                proof {
                    let pre2 = match cutoff { Some(c) => self.ops@.take(i + 1).filter(pred), None => self.ops@.take(i + 1) };
                    assert(pre2 =~= pre.push(self.ops@[i as int]));
                    assert forall|k: int| 0 <= k < r@.len() implies (#[trigger] r@[k]).0 < i + 1
                        && self.ops@[r@[k].0 as int] == pre2[k] && r@[k].1 == gap_before(pre2, k) by {
                        if k < pre.len() {
                            assert(pre2[k] == pre[k]);
                            if k > 0 {
                                assert(pre2[k - 1] == pre[k - 1]);
                            }
                        }
                    }
                }
            } else {
                proof {
                    let pre2 = match cutoff { Some(c) => self.ops@.take(i + 1).filter(pred), None => self.ops@.take(i + 1) };
                    assert(pre2 =~= pre);
                }
            }
            i = i + 1;
        }
        proof {
            assert(self.ops@.take(i as int) =~= self.ops@);
            if let Some(c) = cutoff {
                assert(pred == (|o: TaggedOperation| o.timestamp <= c));
            }
            assert forall|k: int| 0 <= k < r@.len() implies (#[trigger] r@[k]).0 < self.ops().len()
                && self.ops()[r@[k].0 as int].same(sel[k]) && r@[k].1 == gap_before(sel, k) by {
                lemma_same_equiv(sel[k], sel[k], sel[k]);
            }
        }
        r
    }
}

/// Selecting by capture time keeps a time-ordered log time-ordered, and
/// keeps exactly the operations captured at or before the cutoff.
proof fn lemma_captured_sorted(ops: Seq<TaggedOperation>, c: u64)
    requires
        forall|a: int, b: int| 0 <= a < b < ops.len() ==> (#[trigger] ops[a]).timestamp <= (#[trigger] ops[b]).timestamp,
    ensures
        forall|a: int, b: int| 0 <= a < b < captured_by(ops, Some(c)).len()
            ==> (#[trigger] captured_by(ops, Some(c))[a]).timestamp <= (#[trigger] captured_by(ops, Some(c))[b]).timestamp,
        forall|k: int| 0 <= k < captured_by(ops, Some(c)).len()
            ==> (#[trigger] captured_by(ops, Some(c))[k]).timestamp <= c && ops.contains(captured_by(ops, Some(c))[k]),
        forall|i: int| 0 <= i < ops.len() && (#[trigger] ops[i]).timestamp <= c ==> captured_by(ops, Some(c)).contains(ops[i]),
    decreases ops.len(),
{
    reveal(Seq::filter);
    let pred = |o: TaggedOperation| o.timestamp <= c;
    if ops.len() > 0 {
        let o1 = ops.drop_last();
        assert forall|a: int, b: int| 0 <= a < b < o1.len() implies (#[trigger] o1[a]).timestamp <= (#[trigger] o1[b]).timestamp by {
            assert(o1[a] == ops[a] && o1[b] == ops[b]);
        }
        lemma_captured_sorted(o1, c);
        let f1 = o1.filter(pred);
        let f = ops.filter(pred);
        assert(captured_by(o1, Some(c)) == f1);
        assert(captured_by(ops, Some(c)) == f);
        let last = ops.last();
        assert(last == ops[ops.len() - 1]);
        assert forall|k: int| 0 <= k < f1.len() implies (#[trigger] f1[k]).timestamp <= last.timestamp by {
            let j = choose|j: int| 0 <= j < o1.len() && o1[j] == f1[k];
            assert(o1[j] == ops[j]);
        }
        assert forall|k: int| 0 <= k < f.len() implies (#[trigger] f[k]).timestamp <= c && ops.contains(f[k]) by {
            if k < f1.len() {
                assert(f[k] == f1[k]);
                let j = choose|j: int| 0 <= j < o1.len() && o1[j] == f1[k];
                assert(ops[j] == o1[j]);
            } else {
                assert(f[k] == last);
            }
        }
        assert forall|a: int, b: int| 0 <= a < b < f.len() implies (#[trigger] f[a]).timestamp <= (#[trigger] f[b]).timestamp by {
            if b < f1.len() {
                assert(f[a] == f1[a] && f[b] == f1[b]);
            } else {
                assert(f[a] == f1[a] && f[b] == last);
            }
        }
        assert forall|i: int| 0 <= i < ops.len() && (#[trigger] ops[i]).timestamp <= c implies f.contains(ops[i]) by {
            if i < o1.len() {
                assert(o1[i] == ops[i]);
                assert(f1.contains(ops[i]));
                let k = choose|k: int| 0 <= k < f1.len() && f1[k] == ops[i];
                if pred(last) {
                    assert(f[k] == f1[k]);
                }
            } else {
                assert(f[f.len() - 1] == last);
            }
        }
    }
}

/// Law of replay pacing: for a recording in capture-time order (as
/// [`SessionRecording::new`] sorts it, see
/// [`crate::timeline_crdt::lemma_sorted_order`]), a replay up to `cutoff`
/// plays exactly the operations captured at or before it, in capture-time
/// order, each after a pause equal to its capture time minus that of the
/// operation played before it (no pause for the first).
pub proof fn lemma_replay_paced(ops: Seq<TaggedOperation>, cutoff: u64)
    requires
        forall|a: int, b: int| 0 <= a < b < ops.len() ==> (#[trigger] ops[a]).timestamp <= (#[trigger] ops[b]).timestamp,
    ensures
        ({
            let sel = captured_by(ops, Some(cutoff));
            &&& forall|k: int| 0 <= k < sel.len() ==> (#[trigger] sel[k]).timestamp <= cutoff && ops.contains(sel[k])
            &&& forall|i: int| 0 <= i < ops.len() && (#[trigger] ops[i]).timestamp <= cutoff ==> sel.contains(ops[i])
            &&& sel.len() > 0 ==> gap_before(sel, 0) == 0
            &&& forall|k: int| 0 < k < sel.len() ==> sel[k - 1].timestamp <= sel[k].timestamp
                && #[trigger] gap_before(sel, k) == sel[k].timestamp - sel[k - 1].timestamp
        }),
{
    lemma_captured_sorted(ops, cutoff);
    let sel = captured_by(ops, Some(cutoff));
    assert forall|k: int| 0 < k < sel.len() implies sel[k - 1].timestamp <= sel[k].timestamp
        && #[trigger] gap_before(sel, k) == sel[k].timestamp - sel[k - 1].timestamp by {
        assert(sel[k - 1].timestamp <= sel[k].timestamp);
    }
}

} // verus!
