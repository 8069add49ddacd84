//! Message reliability: operation acknowledgments and bounded resend.

use vstd::prelude::*;
use crate::clock::{OperationId, PeerId};
use crate::operation::{TaggedOperation, seqs_same};
use crate::table::{table_distinct, table_map, lemma_table_get, lemma_table_dom, lemma_table_push, lemma_table_update,
    lemma_table_remove, lemma_table_len};

verus! {

/// A broadcast operation awaiting acknowledgment.
#[derive(Debug)]
pub struct PendingEntry {
    /// The operation.
    pub op: TaggedOperation,
    /// When it was last sent (unix ms).
    pub last_sent_ms: u64,
    /// How many times it has been sent.
    pub attempts: u32,
}

/// Tracks operations awaiting acknowledgments and resends the ones that go
/// unacknowledged, up to a budget; duplicate delivery is always safe.
#[derive(Debug)]
pub struct ReliabilityManager {
    pending: Vec<(OperationId, PendingEntry)>,
    ack_timeout_ms: u64,
    max_resends: u32,
    acked_peers: Vec<(OperationId, Vec<PeerId>)>,
}

/// `now - then`, or 0 when `then` is later.
pub open spec fn elapsed(now: u64, then: u64) -> u64 {
    if now >= then { (now - then) as u64 } else { 0 }
}

/// The entry after a resend check at `now`: kept unchanged while its ack
/// has not timed out, dropped once the resend budget is spent, else sent
/// again (one more attempt, saturating).
pub open spec fn entry_after(e: PendingEntry, now: u64, timeout: u64, max: u32) -> Option<PendingEntry> {
    if elapsed(now, e.last_sent_ms) < timeout {
        Some(e)
    } else if e.attempts > max {
        None
    } else {
        Some(PendingEntry {
            op: e.op,
            last_sent_ms: now,
            attempts: if e.attempts < u32::MAX { (e.attempts + 1) as u32 } else { u32::MAX },
        })
    }
}

/// The pending entries after a resend check at `now`.
pub open spec fn pending_after(s: Seq<(OperationId, PendingEntry)>, now: u64, timeout: u64, max: u32)
    -> Seq<(OperationId, PendingEntry)>
    decreases s.len(),
{
    if s.len() == 0 {
        s
    } else {
        let rest = pending_after(s.drop_last(), now, timeout, max);
        match entry_after(s.last().1, now, timeout, max) {
            Some(e) => rest.push((s.last().0, e)),
            None => rest,
        }
    }
}

/// The operations a resend check at `now` sends again, in order.
pub open spec fn resent(s: Seq<(OperationId, PendingEntry)>, now: u64, timeout: u64, max: u32) -> Seq<TaggedOperation>
    decreases s.len(),
{
    if s.len() == 0 {
        Seq::empty()
    } else {
        let rest = resent(s.drop_last(), now, timeout, max);
        let e = s.last().1;
        if elapsed(now, e.last_sent_ms) >= timeout && e.attempts <= max { rest.push(e.op) } else { rest }
    }
}

/// Position of `id` in a table keyed by operation id.
fn find_id<V>(t: &Vec<(OperationId, V)>, id: OperationId) -> (r: Option<usize>)
    requires
        table_distinct(t@),
    ensures
        match r {
            Some(i) => i < t@.len() && t@[i as int].0 == id && table_map(t@).contains_key(id)
                && table_map(t@)[id] == t@[i as int].1,
            None => !table_map(t@).contains_key(id),
        },
{
    let mut i: usize = 0;
    while i < t.len()
        invariant
            i <= t@.len(),
            forall|j: int| 0 <= j < i ==> t@[j].0 != id,
        decreases t@.len() - i,
    {
        if t[i].0 == id {
            proof { lemma_table_get(t@, i as int); }
            return Some(i);
        }
        i = i + 1;
    }
    proof { lemma_table_dom(t@, id); }
    None
}

impl ReliabilityManager {
    /// The operations awaiting acks, keyed by id, in tracking order.
    pub closed spec fn entries(&self) -> Seq<(OperationId, PendingEntry)> {
        self.pending@
    }

    /// The operations awaiting acks, by id.
    pub closed spec fn awaiting(&self) -> Map<OperationId, PendingEntry> {
        table_map(self.pending@)
    }

    /// The peers that acknowledged each operation, by id.
    pub closed spec fn acks(&self) -> Map<OperationId, Vec<PeerId>> {
        table_map(self.acked_peers@)
    }

    /// The ack timeout in milliseconds.
    pub closed spec fn timeout(&self) -> u64 {
        self.ack_timeout_ms
    }

    /// The resend budget.
    pub closed spec fn budget(&self) -> u32 {
        self.max_resends
    }

    /// Internal consistency: each operation tracked once.
    pub closed spec fn wf(&self) -> bool {
        &&& table_distinct(self.pending@)
        &&& table_distinct(self.acked_peers@)
    }

    /// Creates a manager with the given ack timeout (ms) and resend budget.
    pub fn new(ack_timeout_ms: u64, max_resends: u32) -> (m: ReliabilityManager)
        ensures
            m.wf(),
            m.entries().len() == 0,
            m.acks() == Map::<OperationId, Vec<PeerId>>::empty(),
            m.timeout() == ack_timeout_ms,
            m.budget() == max_resends,
    {
        ReliabilityManager { pending: Vec::new(), ack_timeout_ms, max_resends, acked_peers: Vec::new() }
    }

    /// Starts tracking a broadcast operation sent at `now_ms` (replacing
    /// any entry for the same id).
    pub fn track(&mut self, op: TaggedOperation, now_ms: u64)
        requires
            old(self).wf(),
        ensures
            final(self).wf(),
            final(self).awaiting() == old(self).awaiting().insert(op.op_id,
                PendingEntry { op, last_sent_ms: now_ms, attempts: 1 }),
            final(self).acks() == old(self).acks(),
            final(self).timeout() == old(self).timeout(),
            final(self).budget() == old(self).budget(),
    {
        let id = op.op_id;
        let entry = PendingEntry { op, last_sent_ms: now_ms, attempts: 1 };
        let ghost e = entry;
        let ghost s = self.pending@;
        match find_id(&self.pending, id) {
            Some(i) => {
                self.pending.set(i, (id, entry));
                proof {
                    lemma_table_update(s, i as int, e);
                    assert(self.pending@ =~= s.update(i as int, (s[i as int].0, e)));
                }
            },
            None => {
                self.pending.push((id, entry));
                proof { lemma_table_push(s, id, e); }
            },
        }
    }

    /// Records an ack of `op_id` from `from`. Returns `true` when this was
    /// the first ack and the operation was awaiting one; later acks only
    /// add their peer to the operation's ack list.
    pub fn on_ack(&mut self, op_id: &OperationId, from: PeerId) -> (first: bool)
        requires
            old(self).wf(),
        ensures
            final(self).wf(),
            old(self).acks().contains_key(*op_id) ==> {
                &&& !first
                &&& final(self).awaiting() == old(self).awaiting()
                &&& final(self).acks().dom() == old(self).acks().dom()
                &&& final(self).acks()[*op_id]@ == (if old(self).acks()[*op_id]@.contains(from) {
                    old(self).acks()[*op_id]@
                } else {
                    old(self).acks()[*op_id]@.push(from)
                })
                &&& forall|k: OperationId| k != *op_id && #[trigger] old(self).acks().contains_key(k)
                    ==> final(self).acks()[k] == old(self).acks()[k]
            },
            !old(self).acks().contains_key(*op_id) ==> {
                &&& first == old(self).awaiting().contains_key(*op_id)
                &&& final(self).awaiting() == old(self).awaiting().remove(*op_id)
                &&& final(self).acks().dom() == old(self).acks().dom().insert(*op_id)
                &&& final(self).acks()[*op_id]@ == seq![from]
                &&& forall|k: OperationId| k != *op_id && #[trigger] old(self).acks().contains_key(k)
                    ==> final(self).acks()[k] == old(self).acks()[k]
            },
            final(self).timeout() == old(self).timeout(),
            final(self).budget() == old(self).budget(),
    {
        let ghost a = self.acked_peers@;
        match find_id(&self.acked_peers, *op_id) {
            Some(i) => {
                let mut peers: Vec<PeerId> = Vec::new();
                std::mem::swap(&mut peers, &mut self.acked_peers[i].1);
                let mut seen = false;
                let mut k: usize = 0;
                while k < peers.len()
                    invariant
                        k <= peers@.len(),
                        seen == (exists|j: int| 0 <= j < k && peers@[j] == from),
                    decreases peers@.len() - k,
                {
                    if peers[k] == from {
                        seen = true;
                    }
                    k = k + 1;
                }
                let ghost before = peers@;
                if !seen {
                    peers.push(from);
                }
                let ghost pv = peers;
                self.acked_peers.set(i, (*op_id, peers));
                proof {
                    lemma_table_update(a, i as int, pv);
                    assert(self.acked_peers@ =~= a.update(i as int, (a[i as int].0, pv)));
                    assert(seen == before.contains(from));
                }
                false
            },
            None => {
                let mut peers: Vec<PeerId> = Vec::new();
                peers.push(from);
                let ghost pv = peers;
                self.acked_peers.push((*op_id, peers));
                proof { lemma_table_push(a, *op_id, pv); }
                let ghost s = self.pending@;
                match find_id(&self.pending, *op_id) {
                    Some(j) => {
                        self.pending.remove(j);
                        proof { lemma_table_remove(s, j as int); }
                        true
                    },
                    None => {
                        proof { assert(table_map(s).remove(*op_id) =~= table_map(s)); }
                        false
                    },
                }
            },
        }
    }

    /// The resend check at `now_ms`: every operation whose ack timed out is
    /// sent again (one more attempt, restarting its timer) unless its
    /// budget is spent, in which case it is dropped. Returns the
    /// operations to resend, in tracking order.
    pub fn due_for_resend(&mut self, now_ms: u64) -> (r: Vec<TaggedOperation>)
        requires
            old(self).wf(),
        ensures
            final(self).wf(),
            final(self).entries() == pending_after(old(self).entries(), now_ms, old(self).timeout(), old(self).budget()),
            seqs_same(r@, resent(old(self).entries(), now_ms, old(self).timeout(), old(self).budget())),
            final(self).acks() == old(self).acks(),
            final(self).timeout() == old(self).timeout(),
            final(self).budget() == old(self).budget(),
    {
        let timeout = self.ack_timeout_ms;
        let max = self.max_resends;
        let mut old_pending: Vec<(OperationId, PendingEntry)> = Vec::new();
        std::mem::swap(&mut old_pending, &mut self.pending);
        let ghost all = old_pending@;
        let mut kept: Vec<(OperationId, PendingEntry)> = Vec::new();
        let mut due: Vec<TaggedOperation> = Vec::new();
        let mut i: usize = 0;
        let total = old_pending.len();
        let ghost mut idx: Seq<int> = Seq::empty();
        proof { assert(all.take(0) =~= Seq::<(OperationId, PendingEntry)>::empty()); }
        while old_pending.len() > 0
            invariant
                total == all.len(),
                i <= all.len(),
                old_pending@ == all.skip(i as int),
                table_distinct(all),
                kept@ == pending_after(all.take(i as int), now_ms, timeout, max),
                seqs_same(due@, resent(all.take(i as int), now_ms, timeout, max)),
                idx.len() == kept@.len(),
                forall|k: int| 0 <= k < kept@.len() ==> 0 <= #[trigger] idx[k] < i && kept@[k].0 == all[idx[k]].0,
                forall|a: int, b: int| 0 <= a < b < kept@.len() ==> idx[a] < idx[b],
            decreases old_pending@.len(),
        {
            let (id, entry) = old_pending.remove(0);
            proof {
                assert(old_pending@ =~= all.skip(i + 1));
                assert(all.take(i + 1).drop_last() =~= all.take(i as int));
                assert(all.take(i + 1).last() == all[i as int]);
            }
            let ghost kb = kept@;
            let ghost db = due@;
            let since = now_ms.saturating_sub(entry.last_sent_ms);
            if since < timeout {
                kept.push((id, entry));
            } else if entry.attempts > max {
            } else {
                let copy = entry.op.duplicate();
                due.push(copy);
                let attempts = entry.attempts.saturating_add(1);
                kept.push((id, PendingEntry { op: entry.op, last_sent_ms: now_ms, attempts }));
            }
            proof {
                if kept@.len() > kb.len() {
                    idx = idx.push(i as int);
                }
                assert forall|k: int| 0 <= k < due@.len() implies (#[trigger] due@[k]).same(
                    resent(all.take(i + 1), now_ms, timeout, max)[k]) by {
                    if k < db.len() {
                        assert(due@[k] == db[k]);
                    }
                }
            }
            i = i + 1;
        }
        proof {
            assert(all.take(i as int) =~= all);
            assert forall|a: int, b: int| 0 <= a < b < kept@.len() implies kept@[a].0 != kept@[b].0 by {
                assert(idx[a] < idx[b]);
            }
        }
        self.pending = kept;
        due
    }

    /// Stops tracking an operation, forgetting its acks too.
    pub fn forget(&mut self, op_id: &OperationId)
        requires
            old(self).wf(),
        ensures
            final(self).wf(),
            final(self).awaiting() == old(self).awaiting().remove(*op_id),
            final(self).acks() == old(self).acks().remove(*op_id),
            final(self).timeout() == old(self).timeout(),
            final(self).budget() == old(self).budget(),
    {
        let ghost s = self.pending@;
        match find_id(&self.pending, *op_id) {
            Some(j) => {
                self.pending.remove(j);
                proof { lemma_table_remove(s, j as int); }
            },
            None => {
                proof { assert(table_map(s).remove(*op_id) =~= table_map(s)); }
            },
        }
        let ghost a = self.acked_peers@;
        match find_id(&self.acked_peers, *op_id) {
            Some(j) => {
                self.acked_peers.remove(j);
                proof { lemma_table_remove(a, j as int); }
            },
            None => {
                proof { assert(table_map(a).remove(*op_id) =~= table_map(a)); }
            },
        }
    }

    /// Number of operations awaiting acks.
    pub fn pending_len(&self) -> (n: usize)
        requires
            self.wf(),
        ensures
            n == self.awaiting().len(),
            n == self.entries().len(),
    {
        proof { lemma_table_len(self.pending@); }
        self.pending.len()
    }

    /// True when nothing awaits an ack.
    pub fn is_empty(&self) -> (b: bool)
        requires
            self.wf(),
        ensures
            b == (self.awaiting().len() == 0),
    {
        proof { lemma_table_len(self.pending@); }
        self.pending.len() == 0
    }
}

/// Each entry left after a resend check comes from an entry of the same
/// id before it, as the check leaves that entry.
proof fn lemma_pending_after_origin(s: Seq<(OperationId, PendingEntry)>, now: u64, timeout: u64, max: u32, k: int)
    -> (j: int)
    requires
        0 <= k < pending_after(s, now, timeout, max).len(),
    ensures
        0 <= j < s.len(),
        s[j].0 == pending_after(s, now, timeout, max)[k].0,
        entry_after(s[j].1, now, timeout, max) == Some(pending_after(s, now, timeout, max)[k].1),
    decreases s.len(),
{
    let rest = pending_after(s.drop_last(), now, timeout, max);
    if k < rest.len() {
        let j = lemma_pending_after_origin(s.drop_last(), now, timeout, max, k);
        assert(s.drop_last()[j] == s[j]);
        j
    } else {
        s.len() - 1
    }
}

/// Law of resend pacing: an operation is resent at most once per ack
/// timeout. After a resend check at `now`, no entry of the same id is due
/// at any later check `now2` within the timeout unless it was not yet due
/// at `now` (an entry resent at `now` restarts its timer at `now`).
pub proof fn lemma_resend_paced(s: Seq<(OperationId, PendingEntry)>, now: u64, now2: u64, timeout: u64, max: u32)
    requires
        table_distinct(s),
        now <= now2,
        now2 - now < timeout,
    ensures
        forall|j: int, k: int| 0 <= j < s.len() && 0 <= k < pending_after(s, now, timeout, max).len()
            && s[j].0 == (#[trigger] pending_after(s, now, timeout, max)[k]).0
            && elapsed(now2, pending_after(s, now, timeout, max)[k].1.last_sent_ms) >= timeout
            ==> elapsed(now, (#[trigger] s[j]).1.last_sent_ms) < timeout,
{
    let s2 = pending_after(s, now, timeout, max);
    assert forall|j: int, k: int| 0 <= j < s.len() && 0 <= k < s2.len() && s[j].0 == (#[trigger] s2[k]).0
        && elapsed(now2, s2[k].1.last_sent_ms) >= timeout implies elapsed(now, (#[trigger] s[j]).1.last_sent_ms) < timeout by {
        let j2 = lemma_pending_after_origin(s, now, timeout, max, k);
        assert(j2 == j);
    }
}

/// Law: a resend check leaves nothing due at its own time. A second check
/// at the same `now` resends nothing, so the budget is spent at most one
/// attempt per check.
pub proof fn lemma_resend_check_settles(s: Seq<(OperationId, PendingEntry)>, now: u64, timeout: u64, max: u32)
    requires
        timeout > 0,
    ensures
        resent(pending_after(s, now, timeout, max), now, timeout, max).len() == 0,
        forall|k: int| 0 <= k < pending_after(s, now, timeout, max).len()
            ==> elapsed(now, (#[trigger] pending_after(s, now, timeout, max)[k]).1.last_sent_ms) < timeout,
    decreases s.len(),
{
    if s.len() > 0 {
        lemma_resend_check_settles(s.drop_last(), now, timeout, max);
        let rest = pending_after(s.drop_last(), now, timeout, max);
        let s2 = pending_after(s, now, timeout, max);
        match entry_after(s.last().1, now, timeout, max) {
            Some(e) => {
                assert(s2 == rest.push((s.last().0, e)));
                assert(s2.drop_last() =~= rest);
                assert forall|k: int| 0 <= k < s2.len()
                    implies elapsed(now, (#[trigger] s2[k]).1.last_sent_ms) < timeout by {
                    if k < rest.len() {
                        assert(s2[k] == rest[k]);
                    }
                }
            },
            None => {},
        }
    }
}

/// Law of the resend budget: a check never lowers an entry's attempt
/// count; an entry that was due and is still tracked was resent, so it
/// counts one attempt more (saturating) and its timer restarts at `now`;
/// and a due entry whose budget is spent is dropped.
pub proof fn lemma_resend_spends_budget(s: Seq<(OperationId, PendingEntry)>, now: u64, timeout: u64, max: u32)
    requires
        table_distinct(s),
    ensures
        forall|j: int, k: int| 0 <= j < s.len() && 0 <= k < pending_after(s, now, timeout, max).len()
            && s[j].0 == (#[trigger] pending_after(s, now, timeout, max)[k]).0 ==> {
            let before = (#[trigger] s[j]).1;
            let after = pending_after(s, now, timeout, max)[k].1;
            &&& after.attempts >= before.attempts
            &&& after.op == before.op
            &&& elapsed(now, before.last_sent_ms) >= timeout ==> {
                &&& before.attempts <= max
                &&& after.last_sent_ms == now
                &&& (after.attempts == before.attempts + 1 || after.attempts == u32::MAX)
            }
        },
        forall|j: int| 0 <= j < s.len() && elapsed(now, (#[trigger] s[j]).1.last_sent_ms) >= timeout
            && s[j].1.attempts > max ==> forall|k: int| 0 <= k < pending_after(s, now, timeout, max).len()
            ==> (#[trigger] pending_after(s, now, timeout, max)[k]).0 != s[j].0,
{
    let s2 = pending_after(s, now, timeout, max);
    assert forall|j: int, k: int| 0 <= j < s.len() && 0 <= k < s2.len() && s[j].0 == (#[trigger] s2[k]).0 implies {
        let before = (#[trigger] s[j]).1;
        let after = s2[k].1;
        &&& after.attempts >= before.attempts
        &&& after.op == before.op
        &&& elapsed(now, before.last_sent_ms) >= timeout ==> {
            &&& before.attempts <= max
            &&& after.last_sent_ms == now
            &&& (after.attempts == before.attempts + 1 || after.attempts == u32::MAX)
        }
    } by {
        let j2 = lemma_pending_after_origin(s, now, timeout, max, k);
        assert(j2 == j);
    }
    assert forall|j: int| 0 <= j < s.len() && elapsed(now, (#[trigger] s[j]).1.last_sent_ms) >= timeout
        && s[j].1.attempts > max implies forall|k: int| 0 <= k < s2.len() ==> (#[trigger] s2[k]).0 != s[j].0 by {
        assert forall|k: int| 0 <= k < s2.len() implies (#[trigger] s2[k]).0 != s[j].0 by {
            if s2[k].0 == s[j].0 {
                let j2 = lemma_pending_after_origin(s, now, timeout, max, k);
                assert(j2 == j);
            }
        }
    }
}

/// Law of the resend list: a check resends exactly the operations of the
/// entries whose ack timed out and whose budget is not spent, each once,
/// in tracking order.
pub proof fn lemma_resent_exactly_due(s: Seq<(OperationId, PendingEntry)>, now: u64, timeout: u64, max: u32)
    ensures
        forall|j: int| 0 <= j < s.len() && elapsed(now, (#[trigger] s[j]).1.last_sent_ms) >= timeout
            && s[j].1.attempts <= max ==> resent(s, now, timeout, max).contains(s[j].1.op),
        forall|i: int| 0 <= i < resent(s, now, timeout, max).len() ==> exists|j: int| 0 <= j < s.len()
            && elapsed(now, (#[trigger] s[j]).1.last_sent_ms) >= timeout && s[j].1.attempts <= max
            && s[j].1.op == #[trigger] resent(s, now, timeout, max)[i],
        resent(s, now, timeout, max).len() <= s.len(),
    decreases s.len(),
{
    if s.len() > 0 {
        let s1 = s.drop_last();
        lemma_resent_exactly_due(s1, now, timeout, max);
        let r1 = resent(s1, now, timeout, max);
        let r = resent(s, now, timeout, max);
        let e = s.last().1;
        let due = elapsed(now, e.last_sent_ms) >= timeout && e.attempts <= max;
        assert forall|j: int| 0 <= j < s.len() && elapsed(now, (#[trigger] s[j]).1.last_sent_ms) >= timeout
            && s[j].1.attempts <= max implies r.contains(s[j].1.op) by {
            if j < s1.len() {
                assert(s1[j] == s[j]);
                assert(r1.contains(s[j].1.op));
                let q = choose|q: int| 0 <= q < r1.len() && r1[q] == s[j].1.op;
                if due {
                    assert(r == r1.push(e.op));
                    assert(r[q] == r1[q]);
                }
            } else {
                assert(r == r1.push(e.op));
                assert(r[r1.len() as int] == e.op);
            }
        }
        assert forall|i: int| 0 <= i < r.len() implies exists|j: int| 0 <= j < s.len()
            && elapsed(now, (#[trigger] s[j]).1.last_sent_ms) >= timeout && s[j].1.attempts <= max
            && s[j].1.op == #[trigger] r[i] by {
            if i < r1.len() {
                if due {
                    assert(r[i] == r1[i]);
                }
                let j = choose|j: int| 0 <= j < s1.len()
                    && elapsed(now, (#[trigger] s1[j]).1.last_sent_ms) >= timeout && s1[j].1.attempts <= max
                    && s1[j].1.op == r1[i];
                assert(s1[j] == s[j]);
            } else {
                assert(s[s.len() - 1] == s.last());
            }
        }
    }
}

} // verus!
