//! The [`TimelineCrdt`]: the replica that ties state, clocks, history and
//! snapshots together.
//!
//! Local edits are stamped with a fresh Lamport time and applied at once;
//! remote edits are applied idempotently (duplicates are recognized by
//! operation id) and order-tolerantly (an edit whose target does not exist
//! yet waits in a pending queue that is retried after every application).

use vstd::prelude::*;
use crate::clock::{LamportClock, OperationId, PeerId, VectorClock};
use crate::error::SyncError;
use crate::history::{History, HistoryEntry, HistoryModel, compute_inverse, inverse_of, undo_recorded};
use crate::merge::{EventModel, OpTag, ResolutionEvent, resolve_tag_conflict};
use crate::operation::{ClipId, RequiredTarget, TaggedOperation, TimelineOperation, seqs_same, lemma_same_equiv, lemma_op_same_equiv};
use crate::sort::{SortKey, key_lt, sort_rows, strip_keys};
use crate::state::{Session, SessionModel, SessionView, lemma_applied_same, materializes};

verus! {

/// Wall-clock time in nanoseconds since the Unix epoch.
///
/// Reads the system clock through `SystemTime::UNIX_EPOCH.elapsed()`.
/// Nothing is stated of the result: it depends on the machine's clock (a
/// clock set before 1970 reads as 0).
#[verifier::external_body]
fn wall_clock_nanos() -> (t: u64) {
    match std::time::SystemTime::UNIX_EPOCH.elapsed() {
        Ok(d) => d.as_nanos() as u64,
        Err(_) => 0,
    }
}

/// The kinds of contested clip edits that produce resolution events.
#[derive(Debug, Clone, Copy, PartialEq, Eq, Structural)]
pub enum ConflictKind {
    /// Concurrent moves of one clip.
    Move,
    /// Concurrent deletes of one clip.
    Delete,
    /// Concurrent splits of one clip.
    Split,
}

/// The LWW tag an operation writes with.
pub open spec fn tag_of(op: TaggedOperation) -> OpTag {
    OpTag { lamport: op.lamport_ts, peer: op.peer_id }
}

/// The conflict class of an operation, if it has one.
pub open spec fn conflict_of(op: TimelineOperation) -> Option<(ConflictKind, ClipId)> {
    match op {
        TimelineOperation::MoveClip { clip_id, .. } => Some((ConflictKind::Move, clip_id)),
        TimelineOperation::DeleteClip { clip_id } => Some((ConflictKind::Delete, clip_id)),
        TimelineOperation::SplitClip { clip_id, .. } => Some((ConflictKind::Split, clip_id)),
        _ => None,
    }
}

/// The text naming a conflict kind in resolution events.
pub open spec fn kind_name(k: ConflictKind) -> Seq<char> {
    match k {
        ConflictKind::Move => "move"@,
        ConflictKind::Delete => "delete"@,
        ConflictKind::Split => "split"@,
    }
}

/// The position of the latest operation among `log[0..n)` that is of
/// conflict class `(k, c)` and is not `incoming` itself.
pub open spec fn latest_prior(log: Seq<TaggedOperation>, n: int, incoming: TaggedOperation, k: ConflictKind, c: ClipId)
    -> Option<int>
    decreases n,
{
    if n <= 0 {
        None
    } else if log[n - 1].op_id != incoming.op_id && conflict_of(log[n - 1].operation) == Some((k, c)) {
        Some(n - 1)
    } else {
        latest_prior(log, n - 1, incoming, k, c)
    }
}

/// Law of conflict reporting: the prior operation an incoming one is
/// compared with is the latest of its conflict class before position
/// `n`. When one is found at `i`, it is of that class and not the incoming
/// operation, and no operation between `i` and `n` is; when none is
/// found, no operation before `n` is.
pub proof fn lemma_latest_prior_is_latest(log: Seq<TaggedOperation>, n: int, incoming: TaggedOperation, k: ConflictKind,
    c: ClipId)
    requires
        0 <= n <= log.len(),
    ensures
        match latest_prior(log, n, incoming, k, c) {
            Some(i) => {
                &&& 0 <= i < n
                &&& log[i].op_id != incoming.op_id
                &&& conflict_of(log[i].operation) == Some((k, c))
                &&& forall|j: int| i < j < n ==> !((#[trigger] log[j]).op_id != incoming.op_id
                    && conflict_of(log[j].operation) == Some((k, c)))
            },
            None => forall|j: int| 0 <= j < n ==> !((#[trigger] log[j]).op_id != incoming.op_id
                && conflict_of(log[j].operation) == Some((k, c))),
        },
    decreases n,
{
    if n > 0 {
        lemma_latest_prior_is_latest(log, n - 1, incoming, k, c);
    }
}

/// The position found lies in `[0, n)`.
proof fn lemma_latest_prior_range(log: Seq<TaggedOperation>, n: int, incoming: TaggedOperation, k: ConflictKind, c: ClipId)
    ensures
        latest_prior(log, n, incoming, k, c) matches Some(i) ==> 0 <= i < n,
    decreases n,
{
    if n > 0 {
        lemma_latest_prior_range(log, n - 1, incoming, k, c);
    }
}

/// The resolution event recorded when `incoming` is applied with log
/// `log` (whose last entry is not searched): `incoming` is compared with
/// the latest earlier operation of its conflict class, and an event is
/// recorded only when the two are causally concurrent. Two splits
/// conflict only on the same split point with different new ids; the
/// smaller new id wins. Otherwise the higher tag wins.
pub open spec fn resolution(log: Seq<TaggedOperation>, incoming: TaggedOperation) -> Option<EventModel> {
    match conflict_of(incoming.operation) {
        None => None,
        Some((k, c)) => {
            let n = if log.len() > 0 { log.len() - 1 } else { 0 };
            match latest_prior(log, n, incoming, k, c) {
                None => None,
                Some(i) => {
                    let prior = log[i];
                    if !incoming.vector_clock.concurrent_with(&prior.vector_clock) {
                        None
                    } else if k == ConflictKind::Split {
                        match (incoming.operation, prior.operation) {
                            (
                                TimelineOperation::SplitClip { split_frame: f1, new_clip_id: n1, .. },
                                TimelineOperation::SplitClip { split_frame: f2, new_clip_id: n2, .. },
                            ) => if f1 != f2 || n1 == n2 {
                                None
                            } else {
                                Some(EventModel {
                                    kind: "split"@,
                                    clip_id: c,
                                    op: tag_of(incoming),
                                    op_won: n1.0 < n2.0,
                                    reason: "same split point, smaller clip id wins"@,
                                })
                            },
                            _ => None,
                        }
                    } else {
                        Some(EventModel {
                            kind: kind_name(k),
                            clip_id: c,
                            op: tag_of(incoming),
                            op_won: tag_of(incoming).above(tag_of(prior)),
                            reason: "higher (lamport, peer) tag wins"@,
                        })
                    }
                },
            }
        },
    }
}

/// One attempt at applying `op`: the resolution event is recorded, then
/// the operation is applied; the flag says whether it applied.
pub open spec fn attempt(s: SessionModel, ev: Seq<EventModel>, log: Seq<TaggedOperation>, op: TaggedOperation)
    -> (SessionModel, Seq<EventModel>, bool)
{
    let ev1 = match resolution(log, op) {
        Some(e) => ev.push(e),
        None => ev,
    };
    let r = s.applied(op.operation, tag_of(op));
    (r.0, ev1, r.1 is None)
}

/// One pass over the pending operations `ops`, in order: the resulting
/// state, the operations still waiting, and whether any applied.
pub open spec fn pass(s: SessionModel, ev: Seq<EventModel>, log: Seq<TaggedOperation>, ops: Seq<TaggedOperation>)
    -> (SessionModel, Seq<EventModel>, Seq<TaggedOperation>, bool)
    decreases ops.len(),
{
    if ops.len() == 0 {
        (s, ev, Seq::empty(), false)
    } else {
        let p = pass(s, ev, log, ops.drop_last());
        let a = attempt(p.0, p.1, log, ops.last());
        (a.0, a.1, if a.2 { p.2 } else { p.2.push(ops.last()) }, p.3 || a.2)
    }
}

/// Passes over the pending operations until a pass applies none.
pub open spec fn drain(s: SessionModel, ev: Seq<EventModel>, log: Seq<TaggedOperation>, pending: Seq<TaggedOperation>)
    -> (SessionModel, Seq<EventModel>, Seq<TaggedOperation>)
    decreases pending.len(),
{
    let p = pass(s, ev, log, pending);
    if p.3 && p.2.len() < pending.len() {
        drain(p.0, p.1, log, p.2)
    } else {
        (p.0, p.1, p.2)
    }
}

/// A pass keeps at most the operations it was given, and fewer when one
/// applied.
pub proof fn lemma_pass_shrinks(s: SessionModel, ev: Seq<EventModel>, log: Seq<TaggedOperation>, ops: Seq<TaggedOperation>)
    ensures
        pass(s, ev, log, ops).2.len() + (if pass(s, ev, log, ops).3 { 1int } else { 0 }) <= ops.len(),
    decreases ops.len(),
{
    if ops.len() > 0 {
        lemma_pass_shrinks(s, ev, log, ops.drop_last());
    }
}

/// An operation with id `id` is in `log`.
pub open spec fn logged(log: Seq<TaggedOperation>, id: OperationId) -> bool {
    exists|i: int| 0 <= i < log.len() && (#[trigger] log[i]).op_id == id
}

/// The counters of a vector clock, for every peer.
pub open spec fn clock_of(vc: VectorClock) -> Map<PeerId, nat> {
    Map::new(|p: PeerId| true, |p: PeerId| vc.count(p))
}

/// The pointwise maximum of two clocks.
pub open spec fn clock_merged(a: Map<PeerId, nat>, b: Map<PeerId, nat>) -> Map<PeerId, nat> {
    Map::new(|p: PeerId| true, |p: PeerId| if b[p] > a[p] { b[p] } else { a[p] })
}

/// The clock after witnessing `counter` for `peer`.
pub open spec fn clock_witnessed(a: Map<PeerId, nat>, peer: PeerId, counter: u64) -> Map<PeerId, nat> {
    a.insert(peer, if counter > a[peer] { counter as nat } else { a[peer] })
}

/// The clock after one more local event of `peer` (saturating).
pub open spec fn clock_incremented(a: Map<PeerId, nat>, peer: PeerId) -> Map<PeerId, nat> {
    a.insert(peer, if a[peer] < u64::MAX { a[peer] + 1 } else { u64::MAX as nat })
}

/// The Lamport time after a tick (saturating).
pub open spec fn ticked(t: u64) -> u64 {
    if t < u64::MAX { (t + 1) as u64 } else { t }
}

/// The undo depth of a replica.
pub const HISTORY_DEPTH: usize = 256usize;

/// The mathematical state of a replica.
pub struct CrdtModel {
    /// The timeline state.
    pub session: SessionModel,
    /// Every operation recorded, in the order recorded.
    pub log: Seq<TaggedOperation>,
    /// Operations waiting for their targets, in retry order.
    pub pending: Seq<TaggedOperation>,
    /// Resolution events not yet taken.
    pub events: Seq<EventModel>,
    /// The Lamport time.
    pub lamport: u64,
    /// The vector clock's counters.
    pub clock: Map<PeerId, nat>,
    /// The local peer.
    pub peer: PeerId,
    /// Undo/redo history.
    pub history: HistoryModel,
}

impl CrdtModel {
    /// A new replica of `peer`.
    pub open spec fn initial(peer: PeerId) -> CrdtModel {
        CrdtModel {
            session: SessionModel::initial(),
            log: Seq::empty(),
            pending: Seq::empty(),
            events: Seq::empty(),
            lamport: 0,
            clock: Map::new(|p: PeerId| true, |p: PeerId| 0nat),
            peer,
            history: HistoryModel { undo: Seq::empty(), redo: Seq::empty(), capacity: HISTORY_DEPTH as nat },
        }
    }
}

/// `r` is the stamping of the local edit `op` on replica `m` at wall-clock
/// time `ts`: the next Lamport time, the local peer, and the clock after
/// the local event.
pub open spec fn stamps(m: CrdtModel, op: TimelineOperation, ts: u64, r: TaggedOperation) -> bool {
    let l = ticked(m.lamport);
    &&& r.op_id == OperationId { lamport: l, peer: m.peer }
    &&& r.lamport_ts == l
    &&& r.peer_id == m.peer
    &&& r.timestamp == ts
    &&& r.operation.same(op)
    &&& clock_of(r.vector_clock) == clock_incremented(m.clock, m.peer)
}

/// `n` is replica `m` after the local edit `op` stamped as `r` (apart from
/// the undo history): the edit is applied at its tag, logged, and queued
/// when its target is missing.
pub open spec fn local_step(m: CrdtModel, n: CrdtModel, op: TimelineOperation, r: TaggedOperation) -> bool {
    let a = m.session.applied(op, tag_of(r));
    &&& n.session == a.0
    &&& seqs_same(n.log, m.log.push(r))
    &&& seqs_same(n.pending, if a.1 is Some { m.pending.push(r) } else { m.pending })
    &&& n.events == m.events
    &&& n.lamport == r.lamport_ts
    &&& n.clock == clock_incremented(m.clock, m.peer)
    &&& n.peer == m.peer
}

/// The history after the local edit `op` with inverse `inv`: recorded
/// only when the edit applied and has an inverse.
pub open spec fn history_after(h: HistoryModel, op: TimelineOperation, inv: Option<TimelineOperation>, applied: bool)
    -> HistoryModel
{
    match inv {
        Some(i) => if applied {
            HistoryModel {
                undo: undo_recorded(h.undo, HistoryEntry { forward: op, inverse: i }, h.capacity),
                redo: Seq::empty(),
                capacity: h.capacity,
            }
        } else {
            h
        },
        None => h,
    }
}

/// `n` is replica `m` after receiving `op`. An operation already logged
/// changes nothing. Otherwise the clocks observe it, it is logged, applied
/// (or queued when its target is missing), and the pending queue is
/// drained.
pub open spec fn remote_step(m: CrdtModel, n: CrdtModel, op: TaggedOperation) -> bool {
    if logged(m.log, op.op_id) {
        n == m
    } else {
        let a = attempt(m.session, m.events, n.log, op);
        let p1 = if a.2 { m.pending } else { m.pending.push(op) };
        &&& seqs_same(n.log, m.log.push(op))
        &&& (n.session, n.events, n.pending) == drain(a.0, a.1, n.log, p1)
        &&& n.lamport == (if op.lamport_ts > m.lamport { op.lamport_ts } else { m.lamport })
        &&& n.clock == clock_witnessed(clock_merged(m.clock, clock_of(op.vector_clock)), op.peer_id, op.lamport_ts)
        &&& n.peer == m.peer
        &&& n.history == m.history
    }
}

/// Receipt is idempotent: once an operation is received, receiving it (or
/// any operation with its id) again changes nothing.
pub proof fn lemma_redelivery_ignored(m: CrdtModel, n: CrdtModel, k: CrdtModel, op: TaggedOperation, again: TaggedOperation)
    requires
        remote_step(m, n, op),
        remote_step(n, k, again),
        again.op_id == op.op_id,
    ensures
        k == n,
        logged(n.log, op.op_id),
{
    if !logged(m.log, op.op_id) {
        let last = n.log.len() - 1;
        assert(n.log[last].same(m.log.push(op)[last]));
        assert(n.log[last].op_id == op.op_id);
    }
}

/// `ms` traces the replica states while `ops` are received in order,
/// starting from `m0`.
pub open spec fn replay_trace(m0: CrdtModel, ops: Seq<TaggedOperation>, ms: Seq<CrdtModel>) -> bool {
    &&& ms.len() == ops.len() + 1
    &&& ms[0] == m0
    &&& forall|i: int| 0 <= i < ops.len() ==> remote_step(#[trigger] ms[i], ms[i + 1], ops[i])
}

/// `m` is `m0` after receiving `ops` in order.
pub open spec fn replays(m0: CrdtModel, ops: Seq<TaggedOperation>, m: CrdtModel) -> bool {
    exists|ms: Seq<CrdtModel>| #[trigger] replay_trace(m0, ops, ms) && ms.last() == m
}

/// Along a replay trace the log never shrinks.
proof fn lemma_trace_log_grows(m0: CrdtModel, ops: Seq<TaggedOperation>, ms: Seq<CrdtModel>, k: int)
    requires
        replay_trace(m0, ops, ms),
        0 <= k <= ops.len(),
    ensures
        ms[k].log.len() >= m0.log.len(),
    decreases k,
{
    if k > 0 {
        lemma_trace_log_grows(m0, ops, ms, k - 1);
        assert(remote_step(ms[k - 1], ms[k], ops[k - 1]));
    }
}

/// Receiving operations never shrinks the log.
pub proof fn lemma_replay_log_grows(m0: CrdtModel, ops: Seq<TaggedOperation>, m: CrdtModel)
    requires
        replays(m0, ops, m),
    ensures
        m.log.len() >= m0.log.len(),
{
    let ms = choose|ms: Seq<CrdtModel>| replay_trace(m0, ops, ms) && ms.last() == m;
    lemma_trace_log_grows(m0, ops, ms, ops.len() as int);
}

/// The sort key of an operation: its capture time, or its rank
/// `(lamport, peer)`.
pub open spec fn op_key(op: TaggedOperation, by_time: bool) -> SortKey {
    if by_time { (op.timestamp, 0, 0, 0, 0) } else { (op.lamport_ts, op.peer_id.0, 0, 0, 0) }
}

/// `perm` maps each position of `t` to the position of `s` it came from,
/// one to one, with `t` in non-decreasing key order and operations of
/// equal key in the order they came.
pub open spec fn sorted_perm(s: Seq<TaggedOperation>, t: Seq<TaggedOperation>, perm: Seq<int>, by_time: bool) -> bool {
    &&& perm.len() == s.len()
    &&& t.len() == s.len()
    &&& forall|k: int| 0 <= k < t.len() ==> 0 <= #[trigger] perm[k] < s.len() && t[k].same(s[perm[k]])
    &&& forall|a: int, b: int| 0 <= a < b < t.len() ==> perm[a] != perm[b]
    &&& forall|a: int, b: int| 0 <= a < b < t.len() ==> !key_lt(op_key(t[b], by_time), op_key(t[a], by_time))
    &&& forall|a: int, b: int| 0 <= a < b < t.len() && !key_lt(op_key(t[a], by_time), op_key(t[b], by_time))
        ==> perm[a] < perm[b]
}

/// `t` is `s` stably sorted by capture time or by rank (copies allowed).
pub open spec fn stably_sorted(s: Seq<TaggedOperation>, t: Seq<TaggedOperation>, by_time: bool) -> bool {
    exists|perm: Seq<int>| #[trigger] sorted_perm(s, t, perm, by_time)
}

/// A replication snapshot: the full operation log. Restoring it replays
/// the operations in `(lamport, peer)` order, which reproduces the state
/// of a replica built from edits other than splits
/// ([`crate::delivery::lemma_restore_reproduces`]).
#[derive(Debug, Clone, Default, PartialEq)]
pub struct TimelineSnapshot {
    /// The operation log to replay.
    pub ops: Vec<TaggedOperation>,
}

impl TimelineSnapshot {
    /// Creates a snapshot from an operation log.
    pub fn from_ops(ops: Vec<TaggedOperation>) -> (s: TimelineSnapshot)
        ensures
            s.ops@ == ops@,
    {
        TimelineSnapshot { ops }
    }
}

/// The CRDT timeline replica.
#[derive(Debug)]
pub struct TimelineCrdt {
    session: Session,
    operation_log: Vec<TaggedOperation>,
    seen: Vec<OperationId>,
    vector_clock: VectorClock,
    lamport: LamportClock,
    local_peer_id: PeerId,
    pending: Vec<TaggedOperation>,
    history: History,
    resolution_events: Vec<ResolutionEvent>,
}

impl TimelineCrdt {
    /// The mathematical state of the replica.
    pub closed spec fn model(&self) -> CrdtModel {
        CrdtModel {
            session: self.session@,
            log: self.operation_log@,
            pending: self.pending@,
            events: self.resolution_events@.map_values(|e: ResolutionEvent| e@),
            lamport: self.lamport.time,
            clock: clock_of(self.vector_clock),
            peer: self.local_peer_id,
            history: self.history@,
        }
    }
}

/// The conflict class of an operation, computed.
fn conflict_class(op: &TimelineOperation) -> (r: Option<(ConflictKind, ClipId)>)
    ensures
        r == conflict_of(*op),
{
    match op {
        TimelineOperation::MoveClip { clip_id, .. } => Some((ConflictKind::Move, *clip_id)),
        TimelineOperation::DeleteClip { clip_id } => Some((ConflictKind::Delete, *clip_id)),
        TimelineOperation::SplitClip { clip_id, .. } => Some((ConflictKind::Split, *clip_id)),
        _ => None,
    }
}

/// Whether `op` is of conflict class `(kind, clip_id)`.
fn matches_conflict_class(op: &TimelineOperation, kind: ConflictKind, clip_id: ClipId) -> (r: bool)
    ensures
        r == (conflict_of(*op) == Some((kind, clip_id))),
{
    match conflict_class(op) {
        Some((k, c)) => k == kind && c == clip_id,
        None => false,
    }
}

/// The text naming a conflict kind.
fn kind_text(k: ConflictKind) -> (r: &'static str)
    ensures
        r@ == kind_name(k),
{
    match k {
        ConflictKind::Move => "move",
        ConflictKind::Delete => "delete",
        ConflictKind::Split => "split",
    }
}

/// The latest operation among `log[0..n)` of conflict class `(k, c)`
/// other than `incoming`.
fn find_prior(log: &Vec<TaggedOperation>, n: usize, incoming: &TaggedOperation, k: ConflictKind, c: ClipId)
    -> (r: Option<usize>)
    requires
        n <= log@.len(),
    ensures
        match latest_prior(log@, n as int, *incoming, k, c) {
            Some(i) => r == Some(i as usize) && 0 <= i < n,
            None => r is None,
        },
{
    proof { lemma_latest_prior_range(log@, n as int, *incoming, k, c); }
    let mut j: usize = n;
    while j > 0
        invariant
            j <= n <= log@.len(),
            latest_prior(log@, n as int, *incoming, k, c) == latest_prior(log@, j as int, *incoming, k, c),
        decreases j,
    {
        if log[j - 1].op_id != incoming.op_id && matches_conflict_class(&log[j - 1].operation, k, c) {
            return Some(j - 1);
        }
        j = j - 1;
    }
    None
}

impl TimelineCrdt {
    /// Internal consistency: the session is well-formed, `seen` holds
    /// exactly the ids of the logged operations, and the Lamport clock is
    /// at least the Lamport time of every logged operation.
    pub closed spec fn wf(&self) -> bool {
        &&& self.session.wf()
        &&& forall|id: OperationId| #[trigger] self.seen@.contains(id) <==> logged(self.operation_log@, id)
        &&& forall|i: int| 0 <= i < self.operation_log@.len()
            ==> (#[trigger] self.operation_log@[i]).lamport_ts <= self.lamport.time
    }

    /// The session's envelope entries, in key order.
    pub closed spec fn envelope_entries(&self) -> Seq<(crate::envelope_crdt::EnvelopeKey, crate::merge::LwwReg<Seq<crate::operation::EnvelopePoint>>)> {
        self.session.envelope_entries()
    }

    /// Creates a new, empty replica.
    pub fn new(local_peer_id: PeerId) -> (c: TimelineCrdt)
        ensures
            c.wf(),
            c.model() == CrdtModel::initial(local_peer_id),
    {
        let c = TimelineCrdt {
            session: Session::new(),
            operation_log: Vec::new(),
            seen: Vec::new(),
            vector_clock: VectorClock::new(),
            lamport: LamportClock::new(0),
            local_peer_id,
            pending: Vec::new(),
            history: History::new(HISTORY_DEPTH),
            resolution_events: Vec::new(),
        };
        proof {
            assert(c.model().events =~= Seq::<EventModel>::empty());
            assert(c.model().clock =~= Map::new(|p: PeerId| true, |p: PeerId| 0nat));
            assert(c.model().history.undo =~= Seq::<HistoryEntry>::empty());
            assert(c.model().history.redo =~= Seq::<HistoryEntry>::empty());
        }
        c
    }

    /// The local peer id.
    pub fn local_peer_id(&self) -> (p: PeerId)
        ensures
            p == self.model().peer,
    {
        self.local_peer_id
    }

    /// The local vector clock.
    pub fn vector_clock(&self) -> (vc: &VectorClock)
        ensures
            clock_of(*vc) == self.model().clock,
    {
        &self.vector_clock
    }

    /// The current session state.
    pub fn session(&self) -> (s: &Session)
        requires
            self.wf(),
        ensures
            s.wf(),
            s@ == self.model().session,
    {
        &self.session
    }

    /// The operation log (for persistence or replication).
    pub fn operation_log(&self) -> (log: &[TaggedOperation])
        ensures
            log@ == self.model().log,
    {
        self.operation_log.as_slice()
    }

    /// Replicas holding the same timeline state show the same timeline:
    /// their views list the same metadata, and the same tracks, clips and
    /// envelopes in the same order.
    pub proof fn lemma_views_agree(&self, v1: SessionView, other: &TimelineCrdt, v2: SessionView)
        requires
            self.wf(),
            other.wf(),
            self.model().session == other.model().session,
            materializes(self.model().session, self.envelope_entries(), v1),
            materializes(other.model().session, other.envelope_entries(), v2),
        ensures
            crate::diff_apply::same_view(v1, v2),
    {
        crate::diff_apply::lemma_same_state_same_view(self.session, v1, other.session, v2);
    }

    /// The materialized view of the session.
    pub fn view(&self) -> (v: SessionView)
        requires
            self.wf(),
        ensures
            materializes(self.model().session, self.envelope_entries(), v),
    {
        self.session.materialize()
    }

    /// Whether an operation with this id has already been applied.
    pub fn has_operation(&self, op_id: &OperationId) -> (b: bool)
        requires
            self.wf(),
        ensures
            b == logged(self.model().log, *op_id),
    {
        let mut i: usize = 0;
        while i < self.seen.len()
            invariant
                i <= self.seen@.len(),
                forall|k: int| 0 <= k < i ==> self.seen@[k] != *op_id,
            decreases self.seen@.len() - i,
        {
            if self.seen[i] == *op_id {
                proof { assert(self.seen@.contains(*op_id)); }
                return true;
            }
            i = i + 1;
        }
        proof { assert(!self.seen@.contains(*op_id)); }
        false
    }

    /// Number of buffered operations still waiting for their targets.
    pub fn pending_len(&self) -> (n: usize)
        ensures
            n == self.model().pending.len(),
    {
        self.pending.len()
    }

    /// Drains the resolution events observed since the last call.
    pub fn take_resolution_events(&mut self) -> (r: Vec<ResolutionEvent>)
        requires
            old(self).wf(),
        ensures
            final(self).wf(),
            r@.map_values(|e: ResolutionEvent| e@) == old(self).model().events,
            final(self).model() == (CrdtModel { events: Seq::empty(), ..old(self).model() }),
    {
        let mut r: Vec<ResolutionEvent> = Vec::new();
        std::mem::swap(&mut r, &mut self.resolution_events);
        proof {
            assert(self.model().events =~= Seq::<EventModel>::empty());
        }
        r
    }

    /// Records `id` as seen.
    fn mark_seen(&mut self, id: OperationId)
        ensures
            forall|x: OperationId| #[trigger] final(self).seen@.contains(x) <==> (old(self).seen@.contains(x) || x == id),
            final(self).session == old(self).session,
            final(self).operation_log == old(self).operation_log,
            final(self).vector_clock == old(self).vector_clock,
            final(self).lamport == old(self).lamport,
            final(self).local_peer_id == old(self).local_peer_id,
            final(self).pending == old(self).pending,
            final(self).history == old(self).history,
            final(self).resolution_events == old(self).resolution_events,
    {
        let mut i: usize = 0;
        while i < self.seen.len()
            invariant
                i <= self.seen@.len(),
                forall|k: int| 0 <= k < i ==> self.seen@[k] != id,
            decreases self.seen@.len() - i,
        {
            if self.seen[i] == id {
                proof { assert(self.seen@[i as int] == id); }
                return;
            }
            i = i + 1;
        }
        let ghost before = self.seen@;
        self.seen.push(id);
        proof {
            assert forall|x: OperationId| #[trigger] self.seen@.contains(x) <==> (before.contains(x) || x == id) by {
                if x == id {
                    assert(self.seen@[before.len() as int] == id);
                }
                if before.contains(x) {
                    let k = choose|k: int| 0 <= k < before.len() && before[k] == x;
                    assert(self.seen@[k] == x);
                }
                if self.seen@.contains(x) && x != id {
                    let k = choose|k: int| 0 <= k < self.seen@.len() && self.seen@[k] == x;
                    assert(k < before.len());
                    assert(before[k] == x);
                }
            }
        }
    }

    /// Records the resolution event `incoming` produces, if any.
    fn observe_resolution(&mut self, incoming: &TaggedOperation)
        ensures
            final(self).resolution_events@.map_values(|e: ResolutionEvent| e@) == (match resolution(old(self).model().log, *incoming) {
                Some(e) => old(self).model().events.push(e),
                None => old(self).model().events,
            }),
            final(self).session == old(self).session,
            final(self).operation_log == old(self).operation_log,
            final(self).seen == old(self).seen,
            final(self).vector_clock == old(self).vector_clock,
            final(self).lamport == old(self).lamport,
            final(self).local_peer_id == old(self).local_peer_id,
            final(self).pending == old(self).pending,
            final(self).history == old(self).history,
    {
        let (kind, clip_id) = match conflict_class(&incoming.operation) {
            Some(x) => x,
            None => return,
        };
        let n = if self.operation_log.len() > 0 { self.operation_log.len() - 1 } else { 0 };
        let i = match find_prior(&self.operation_log, n, incoming, kind, clip_id) {
            Some(i) => i,
            None => return,
        };
        let prior = &self.operation_log[i];
        if !incoming.vector_clock.is_concurrent(&prior.vector_clock) {
            return;
        }
        let incoming_tag = OpTag::new(incoming.lamport_ts, incoming.peer_id);
        let prior_tag = OpTag::new(prior.lamport_ts, prior.peer_id);
        let event = match kind {
            ConflictKind::Split => {
                match (&incoming.operation, &prior.operation) {
                    (
                        TimelineOperation::SplitClip { split_frame: f1, new_clip_id: n1, .. },
                        TimelineOperation::SplitClip { split_frame: f2, new_clip_id: n2, .. },
                    ) => {
                        if *f1 != *f2 || n1.0 == n2.0 {
                            return;
                        }
                        ResolutionEvent {
                            kind: "split",
                            clip_id,
                            op: incoming_tag,
                            op_won: n1.0 < n2.0,
                            reason: "same split point, smaller clip id wins",
                        }
                    },
                    _ => return,
                }
            },
            _ => resolve_tag_conflict(kind_text(kind), clip_id, prior_tag, incoming_tag),
        };
        let ghost before = self.resolution_events@;
        self.resolution_events.push(event);
        proof {
            assert(self.resolution_events@.map_values(|e: ResolutionEvent| e@)
                =~= before.map_values(|e: ResolutionEvent| e@).push(event@));
        }
    }

    /// Retries the pending operations until a pass makes no progress.
    fn drain_pending(&mut self)
        requires
            old(self).wf(),
        ensures
            final(self).wf(),
            (final(self).model().session, final(self).model().events, final(self).model().pending)
                == drain(old(self).model().session, old(self).model().events, old(self).model().log, old(self).model().pending),
            final(self).model().log == old(self).model().log,
            final(self).model().lamport == old(self).model().lamport,
            final(self).model().clock == old(self).model().clock,
            final(self).model().peer == old(self).model().peer,
            final(self).model().history == old(self).model().history,
    {
        loop
            invariant
                self.wf(),
                drain(self.model().session, self.model().events, self.model().log, self.model().pending)
                    == drain(old(self).model().session, old(self).model().events, old(self).model().log, old(self).model().pending),
                self.model().log == old(self).model().log,
                self.model().lamport == old(self).model().lamport,
                self.model().clock == old(self).model().clock,
                self.model().peer == old(self).model().peer,
                self.model().history == old(self).model().history,
            decreases self.model().pending.len(),
        {
            let ghost before = self.model();
            let mut ops: Vec<TaggedOperation> = Vec::new();
            std::mem::swap(&mut ops, &mut self.pending);
            let ghost all = ops@;
            let total = ops.len();
            let mut still: Vec<TaggedOperation> = Vec::new();
            let mut progress = false;
            let mut i: usize = 0;
            proof { assert(all.take(0) =~= Seq::<TaggedOperation>::empty()); }
            while ops.len() > 0
                invariant
                    self.wf(),
                    all == before.pending,
                    total == all.len(),
                    i <= all.len(),
                    ops@ == all.skip(i as int),
                    pass(before.session, before.events, before.log, all.take(i as int))
                        == (self.model().session, self.model().events, still@, progress),
                    still@.len() + (if progress { 1int } else { 0 }) <= i,
                    self.pending@.len() == 0,
                    self.model().log == before.log,
                    self.model().lamport == before.lamport,
                    self.model().clock == before.clock,
                    self.model().peer == before.peer,
                    self.model().history == before.history,
                decreases ops@.len(),
            {
                let op = ops.remove(0);
                proof {
                    assert(op == all[i as int]);
                    assert(ops@ =~= all.skip(i + 1));
                    assert(all.take(i + 1).drop_last() =~= all.take(i as int));
                    assert(all.take(i + 1).last() == all[i as int]);
                }
                self.observe_resolution(&op);
                let tag = OpTag::new(op.lamport_ts, op.peer_id);
                match self.session.apply(&op.operation, tag) {
                    Ok(()) => { progress = true; },
                    Err(_) => { still.push(op); },
                }
                i = i + 1;
            }
            proof { assert(all.take(i as int) =~= all); }
            self.pending = still;
            if !progress {
                break;
            }
        }
    }

    /// Applies a remote operation. Duplicates (by operation id) are
    /// dropped; an operation whose target is missing waits until the
    /// target appears.
    pub fn apply_remote(&mut self, tagged_op: TaggedOperation) -> (r: Result<(), SyncError>)
        requires
            old(self).wf(),
        ensures
            final(self).wf(),
            r is Ok,
            remote_step(old(self).model(), final(self).model(), tagged_op),
    {
        if self.has_operation(&tagged_op.op_id) {
            return Ok(());
        }
        let ghost m = self.model();
        self.vector_clock.merge(&tagged_op.vector_clock);
        self.vector_clock.witness(tagged_op.peer_id, tagged_op.lamport_ts);
        self.lamport.observe(tagged_op.lamport_ts);
        self.mark_seen(tagged_op.op_id);
        let logged_copy = tagged_op.duplicate();
        self.operation_log.push(logged_copy);
        proof {
            assert forall|id: OperationId| #[trigger] self.seen@.contains(id) <==> logged(self.operation_log@, id) by {
                if id == tagged_op.op_id {
                    assert(self.operation_log@[self.operation_log@.len() - 1].op_id == id);
                } else {
                    if logged(self.operation_log@, id) {
                        let k = choose|k: int| 0 <= k < self.operation_log@.len() && (#[trigger] self.operation_log@[k]).op_id == id;
                        assert(m.log[k] == self.operation_log@[k]);
                    }
                    if logged(m.log, id) {
                        let k = choose|k: int| 0 <= k < m.log.len() && (#[trigger] m.log[k]).op_id == id;
                        assert(m.log[k] == self.operation_log@[k]);
                    }
                }
            }
            assert(self.model().clock =~= clock_witnessed(clock_merged(m.clock, clock_of(tagged_op.vector_clock)),
                tagged_op.peer_id, tagged_op.lamport_ts));
            lemma_same_equiv(logged_copy, tagged_op, tagged_op);
            assert(seqs_same(self.model().log, m.log.push(tagged_op)));
            assert forall|i: int| 0 <= i < self.operation_log@.len()
                implies (#[trigger] self.operation_log@[i]).lamport_ts <= self.lamport.time by {
                if i < m.log.len() {
                    assert(self.operation_log@[i] == m.log[i]);
                }
            }
        }
        let ghost log1 = self.model().log;
        self.observe_resolution(&tagged_op);
        let tag = OpTag::new(tagged_op.lamport_ts, tagged_op.peer_id);
        match self.session.apply(&tagged_op.operation, tag) {
            Ok(()) => {},
            Err(_) => {
                self.pending.push(tagged_op);
            },
        }
        proof {
            let a = attempt(m.session, m.events, log1, tagged_op);
            assert(self.model().session == a.0);
            assert(self.model().events == a.1);
        }
        self.drain_pending();
        Ok(())
    }

    /// Stamps and applies a local edit at wall-clock time `timestamp`;
    /// `record` says whether the undo history records it.
    fn apply_local_internal(&mut self, operation: TimelineOperation, record: bool, timestamp: u64)
        -> (r: TaggedOperation)
        requires
            old(self).wf(),
        ensures
            final(self).wf(),
            stamps(old(self).model(), operation, timestamp, r),
            local_step(old(self).model(), final(self).model(), operation, r),
            record ==> exists|inv: Option<TimelineOperation>| inverse_of(old(self).model().session, operation, inv)
                && final(self).model().history == history_after(old(self).model().history, operation, inv,
                    old(self).model().session.applied(operation, tag_of(r)).1 is None),
            !record ==> final(self).model().history == old(self).model().history,
            old(self).model().lamport < u64::MAX ==> forall|i: int| 0 <= i < old(self).model().log.len()
                ==> (#[trigger] old(self).model().log[i]).lamport_ts < r.lamport_ts,
    {
        let ghost m = self.model();
        let lamport = self.lamport.tick();
        self.vector_clock.increment(self.local_peer_id);
        let op_id = OperationId::new(lamport, self.local_peer_id);
        let inverse = if record { compute_inverse(&operation, &self.session) } else { None };
        let tagged = TaggedOperation {
            op_id,
            operation: operation.duplicate(),
            lamport_ts: lamport,
            vector_clock: self.vector_clock.duplicate(),
            peer_id: self.local_peer_id,
            timestamp,
        };
        let tag = OpTag::new(lamport, self.local_peer_id);
        proof {
            assert forall|p: PeerId| #[trigger] clock_of(tagged.vector_clock)[p] == clock_incremented(m.clock, m.peer)[p] by {
                assert(tagged.vector_clock.count(p) == self.vector_clock.count(p));
            }
            assert(clock_of(tagged.vector_clock) =~= clock_incremented(m.clock, m.peer));
            lemma_same_equiv(tagged, tagged, tagged);
        }
        let ghost applied_ok = m.session.applied(operation, tag).1 is None;
        match self.session.apply(&operation, tag) {
            Ok(()) => {
                if let Some(inv) = inverse {
                    self.history.record(HistoryEntry { forward: operation, inverse: inv });
                    proof { assert(self.history@.redo =~= Seq::<HistoryEntry>::empty()); }
                }
            },
            Err(_) => {
                self.pending.push(tagged.duplicate());
            },
        }
        self.operation_log.push(tagged.duplicate());
        self.mark_seen(op_id);
        proof {
            assert forall|id: OperationId| #[trigger] self.seen@.contains(id) <==> logged(self.operation_log@, id) by {
                if id == op_id {
                    assert(self.operation_log@[self.operation_log@.len() - 1].op_id == id);
                } else {
                    if logged(self.operation_log@, id) {
                        let k = choose|k: int| 0 <= k < self.operation_log@.len() && (#[trigger] self.operation_log@[k]).op_id == id;
                        assert(m.log[k] == self.operation_log@[k]);
                    }
                    if logged(m.log, id) {
                        let k = choose|k: int| 0 <= k < m.log.len() && (#[trigger] m.log[k]).op_id == id;
                        assert(m.log[k] == self.operation_log@[k]);
                    }
                }
            }
            assert(self.model().clock =~= clock_incremented(m.clock, m.peer));
            assert forall|i: int| 0 <= i < self.operation_log@.len()
                implies (#[trigger] self.operation_log@[i]).lamport_ts <= self.lamport.time by {
                if i < m.log.len() {
                    assert(self.operation_log@[i] == m.log[i]);
                }
            }
            if record {
                assert(inverse_of(m.session, operation, inverse));
                assert(self.model().history == history_after(m.history, operation, inverse, applied_ok));
            }
        }
        tagged
    }
}

/// Whether the target `t` is missing from `m`.
pub open spec fn target_missing(m: SessionModel, t: RequiredTarget) -> bool {
    match t {
        RequiredTarget::Clip(c) => !m.clips.contains_key(c.0),
        RequiredTarget::Track(k) => !m.tracks.contains_key(k.0),
    }
}

/// The required targets of `op` that are missing from `session`.
pub fn missing_targets(op: &TimelineOperation, session: &Session) -> (r: Vec<RequiredTarget>)
    requires
        session.wf(),
    ensures
        r@ == op.targets().filter(|t: RequiredTarget| target_missing(session@, t)),
{
    let targets = op.required_targets();
    let ghost ts = targets@;
    let mut r: Vec<RequiredTarget> = Vec::new();
    let mut i: usize = 0;
    proof {
        reveal(Seq::filter);
        assert(ts.take(0) =~= Seq::<RequiredTarget>::empty());
    }
    while i < targets.len()
        invariant
            ts == targets@,
            ts == op.targets(),
            i <= ts.len(),
            r@ == ts.take(i as int).filter(|t: RequiredTarget| target_missing(session@, t)),
        decreases ts.len() - i,
    {
        let t = targets[i];
        let missing = match t {
            RequiredTarget::Clip(c) => session.clip(&c).is_none(),
            RequiredTarget::Track(k) => session.track(&k).is_none(),
        };
        proof {
            reveal(Seq::filter);
            assert(ts.take(i + 1).drop_last() =~= ts.take(i as int));
            assert(ts.take(i + 1).last() == t);
        }
        if missing {
            r.push(t);
        }
        i = i + 1;
    }
    proof { assert(ts.take(i as int) =~= ts); }
    r
}

/// Copies a sequence of tagged operations.
pub(crate) fn copy_ops(v: &Vec<TaggedOperation>) -> (r: Vec<TaggedOperation>)
    ensures
        seqs_same(r@, v@),
{
    let mut r: Vec<TaggedOperation> = Vec::new();
    let mut i: usize = 0;
    while i < v.len()
        invariant
            i <= v@.len(),
            r@.len() == i,
            forall|k: int| 0 <= k < i ==> (#[trigger] r@[k]).same(v@[k]),
        decreases v@.len() - i,
    {
        r.push(v[i].duplicate());
        i = i + 1;
    }
    r
}

/// Stably sorts operations by capture time (`by_time`) or by
/// `(lamport, peer)`.
pub(crate) fn sort_ops(ops: Vec<TaggedOperation>, by_time: bool) -> (r: Vec<TaggedOperation>)
    ensures
        stably_sorted(ops@, r@, by_time),
{
    let ghost orig = ops@;
    let mut ops = ops;
    let mut keyed: Vec<(SortKey, TaggedOperation)> = Vec::new();
    let mut i: usize = 0;
    let total = ops.len();
    while ops.len() > 0
        invariant
            total == orig.len(),
            i <= orig.len(),
            ops@ == orig.skip(i as int),
            keyed@.len() == i,
            forall|k: int| 0 <= k < i ==> (#[trigger] keyed@[k]).1 == orig[k] && keyed@[k].0 == op_key(orig[k], by_time),
        decreases ops@.len(),
    {
        let op = ops.remove(0);
        proof {
            assert(op == orig[i as int]);
            assert(ops@ =~= orig.skip(i + 1));
        }
        let key: SortKey = if by_time { (op.timestamp, 0, 0, 0, 0) } else { (op.lamport_ts, op.peer_id.0, 0, 0, 0) };
        keyed.push((key, op));
        i = i + 1;
    }
    let ghost kv = keyed@;
    let (sorted, Ghost(perm), Ghost(inv)) = sort_rows(keyed);
    let ghost sv = sorted@;
    let r = strip_keys(sorted);
    proof {
        assert forall|k: int| 0 <= k < r@.len() implies 0 <= #[trigger] perm[k] < orig.len() && r@[k].same(orig[perm[k]]) by {
            assert(r@[k] == sv[k].1);
            assert(sv[k] == kv[perm[k]]);
            lemma_same_equiv(r@[k], r@[k], r@[k]);
        }
        assert forall|a: int, b: int| 0 <= a < b < r@.len() implies perm[a] != perm[b] by {
            assert(inv[perm[a]] == a);
            assert(inv[perm[b]] == b);
        }
        assert forall|a: int, b: int| 0 <= a < b < r@.len() implies !key_lt(op_key(r@[b], by_time), op_key(r@[a], by_time)) by {
            assert(r@[a] == sv[a].1 && r@[b] == sv[b].1);
            assert(sv[a] == kv[perm[a]] && sv[b] == kv[perm[b]]);
        }
        assert forall|a: int, b: int| 0 <= a < b < r@.len() && !key_lt(op_key(r@[a], by_time), op_key(r@[b], by_time))
            implies perm[a] < perm[b] by {
            assert(r@[a] == sv[a].1 && r@[b] == sv[b].1);
            assert(sv[a] == kv[perm[a]] && sv[b] == kv[perm[b]]);
            crate::sort::lemma_key_order(sv[a].0, sv[b].0, sv[b].0);
        }
        assert(sorted_perm(orig, r@, perm, by_time));
    }
    r
}

impl TimelineCrdt {
    /// Stamps and applies a local edit captured at wall-clock time
    /// `timestamp`, recording its inverse in the undo history, and returns
    /// the tagged operation to send to peers. An edit whose target does
    /// not exist yet is logged and queued like a remote one.
    pub fn apply_local_at(&mut self, operation: TimelineOperation, timestamp: u64) -> (r: TaggedOperation)
        requires
            old(self).wf(),
        ensures
            final(self).wf(),
            stamps(old(self).model(), operation, timestamp, r),
            local_step(old(self).model(), final(self).model(), operation, r),
            exists|inv: Option<TimelineOperation>| inverse_of(old(self).model().session, operation, inv)
                && final(self).model().history == history_after(old(self).model().history, operation, inv,
                    old(self).model().session.applied(operation, tag_of(r)).1 is None),
            old(self).model().lamport < u64::MAX ==> forall|i: int| 0 <= i < old(self).model().log.len()
                ==> (#[trigger] old(self).model().log[i]).lamport_ts < r.lamport_ts,
    {
        self.apply_local_internal(operation, true, timestamp)
    }

    /// Stamps and applies a local edit at the current wall-clock time; see
    /// [`TimelineCrdt::apply_local_at`].
    pub fn apply_local(&mut self, operation: TimelineOperation) -> (r: TaggedOperation)
        requires
            old(self).wf(),
        ensures
            final(self).wf(),
            stamps(old(self).model(), operation, r.timestamp, r),
            local_step(old(self).model(), final(self).model(), operation, r),
            exists|inv: Option<TimelineOperation>| inverse_of(old(self).model().session, operation, inv)
                && final(self).model().history == history_after(old(self).model().history, operation, inv,
                    old(self).model().session.applied(operation, tag_of(r)).1 is None),
            old(self).model().lamport < u64::MAX ==> forall|i: int| 0 <= i < old(self).model().log.len()
                ==> (#[trigger] old(self).model().log[i]).lamport_ts < r.lamport_ts,
    {
        let now = wall_clock_nanos();
        self.apply_local_internal(operation, true, now)
    }

    /// Undoes the most recent local edit by applying its inverse as a new
    /// local edit; `None` when there is nothing to undo.
    pub fn undo(&mut self) -> (r: Option<TaggedOperation>)
        requires
            old(self).wf(),
        ensures
            final(self).wf(),
            old(self).model().history.undo.len() == 0 ==> r is None && final(self).model() == old(self).model(),
            old(self).model().history.undo.len() > 0 ==> {
                let e = old(self).model().history.undo.last();
                &&& r is Some
                &&& stamps(old(self).model(), e.inverse, r->0.timestamp, r->0)
                &&& local_step(old(self).model(), final(self).model(), e.inverse, r->0)
                &&& final(self).model().history == (HistoryModel {
                    undo: old(self).model().history.undo.drop_last(),
                    redo: old(self).model().history.redo.push(e),
                    capacity: old(self).model().history.capacity,
                })
            },
            old(self).model().history.undo.len() > 0 && old(self).model().lamport < u64::MAX
                ==> forall|i: int| 0 <= i < old(self).model().log.len()
                ==> (#[trigger] old(self).model().log[i]).lamport_ts < r->0.lamport_ts,
    {
        let ghost m = self.model();
        let entry = match self.history.pop_undo() {
            Some(e) => e,
            None => return None,
        };
        let now = wall_clock_nanos();
        let op = entry.inverse.duplicate();
        let ghost mid = self.model();
        let tagged = self.apply_local_internal(op, false, now);
        proof {
            lemma_applied_same(m.session, op, entry.inverse, tag_of(tagged));
            lemma_op_same_equiv(tagged.operation, op, entry.inverse);
        }
        self.history.push_redo(entry);
        Some(tagged)
    }

    /// Redoes the most recently undone edit; `None` when there is nothing
    /// to redo.
    pub fn redo(&mut self) -> (r: Option<TaggedOperation>)
        requires
            old(self).wf(),
        ensures
            final(self).wf(),
            old(self).model().history.redo.len() == 0 ==> r is None && final(self).model() == old(self).model(),
            old(self).model().history.redo.len() > 0 ==> {
                let e = old(self).model().history.redo.last();
                &&& r is Some
                &&& stamps(old(self).model(), e.forward, r->0.timestamp, r->0)
                &&& local_step(old(self).model(), final(self).model(), e.forward, r->0)
                &&& final(self).model().history == (HistoryModel {
                    undo: old(self).model().history.undo.push(e),
                    redo: old(self).model().history.redo.drop_last(),
                    capacity: old(self).model().history.capacity,
                })
            },
            old(self).model().history.redo.len() > 0 && old(self).model().lamport < u64::MAX
                ==> forall|i: int| 0 <= i < old(self).model().log.len()
                ==> (#[trigger] old(self).model().log[i]).lamport_ts < r->0.lamport_ts,
    {
        let ghost m = self.model();
        let entry = match self.history.pop_redo() {
            Some(e) => e,
            None => return None,
        };
        let now = wall_clock_nanos();
        let op = entry.forward.duplicate();
        let tagged = self.apply_local_internal(op, false, now);
        proof {
            lemma_applied_same(m.session, op, entry.forward, tag_of(tagged));
            lemma_op_same_equiv(tagged.operation, op, entry.forward);
        }
        self.history.push_undo(entry);
        Some(tagged)
    }

    /// Compacts the operation log in place, dropping the operations that no
    /// longer contribute to the session state (see `crate::compaction`).
    /// The set of seen ids shrinks to match, so a late duplicate of a
    /// dropped operation is processed again.
    pub fn compact(&mut self)
        requires
            old(self).wf(),
        ensures
            final(self).wf(),
            seqs_same(final(self).model().log, crate::compaction::compacted(old(self).model().log, old(self).model().session)),
            final(self).model() == (CrdtModel { log: final(self).model().log, ..old(self).model() }),
    {
        let compacted = crate::compaction::compact(self.operation_log.as_slice(), &self.session);
        let mut seen: Vec<OperationId> = Vec::new();
        let mut i: usize = 0;
        while i < compacted.len()
            invariant
                i <= compacted@.len(),
                seen@.len() == i,
                forall|k: int| 0 <= k < i ==> #[trigger] seen@[k] == compacted@[k].op_id,
            decreases compacted@.len() - i,
        {
            seen.push(compacted[i].op_id);
            i = i + 1;
        }
        proof {
            let ghost_pred = |o: TaggedOperation| crate::compaction::kept(self.operation_log@, self.session@, o.op_id);
            assert forall|i: int| 0 <= i < compacted@.len()
                implies (#[trigger] compacted@[i]).lamport_ts <= self.lamport.time by {
                let f = crate::compaction::compacted(self.operation_log@, self.session@);
                assert(compacted@[i].same(f[i]));
                assert(f.contains(f[i]));
                self.operation_log@.lemma_filter_contains_rev(ghost_pred, f[i]);
                let k = choose|k: int| 0 <= k < self.operation_log@.len() && self.operation_log@[k] == f[i];
                assert(self.operation_log@[k].lamport_ts <= self.lamport.time);
            }
            assert forall|id: OperationId| #[trigger] seen@.contains(id) <==> logged(compacted@, id) by {
                if seen@.contains(id) {
                    let k = choose|k: int| 0 <= k < seen@.len() && seen@[k] == id;
                    assert(compacted@[k].op_id == id);
                }
                if logged(compacted@, id) {
                    let k = choose|k: int| 0 <= k < compacted@.len() && (#[trigger] compacted@[k]).op_id == id;
                    assert(seen@[k] == id);
                }
            }
        }
        self.seen = seen;
        self.operation_log = compacted;
    }

    /// A snapshot of the replica: a copy of its operation log.
    pub fn snapshot(&self) -> (s: TimelineSnapshot)
        ensures
            seqs_same(s.ops@, self.model().log),
    {
        TimelineSnapshot { ops: copy_ops(&self.operation_log) }
    }

    /// Receives `ops` in order.
    #[verifier::spinoff_prover]
    pub(crate) fn receive_all(&mut self, ops: Vec<TaggedOperation>)
        requires
            old(self).wf(),
        ensures
            final(self).wf(),
            replays(old(self).model(), ops@, final(self).model()),
    {
        let ghost m0 = self.model();
        let ghost t = ops@;
        let ghost mut ms: Seq<CrdtModel> = seq![m0];
        let mut ops = ops;
        let mut i: usize = 0;
        let total = ops.len();
        while ops.len() > 0
            invariant
                self.wf(),
                total == t.len(),
                i <= t.len(),
                ops@ == t.skip(i as int),
                replay_trace(m0, t.take(i as int), ms),
                ms.last() == self.model(),
            decreases ops@.len(),
        {
            let op = ops.remove(0);
            proof {
                assert(op == t[i as int]);
                assert(ops@ =~= t.skip(i + 1));
            }
            let ghost mid = self.model();
            let _ = self.apply_remote(op);
            proof {
                let ms2 = ms.push(self.model());
                assert forall|k: int| 0 <= k < i + 1 implies remote_step(#[trigger] ms2[k], ms2[k + 1], t.take(i + 1)[k]) by {
                    if k < i {
                        assert(ms2[k] == ms[k] && ms2[k + 1] == ms[k + 1]);
                        assert(t.take(i + 1)[k] == t.take(i as int)[k]);
                    } else {
                        assert(ms2[k] == mid);
                    }
                }
                ms = ms2;
            }
            i = i + 1;
        }
        proof {
            assert(t.take(i as int) =~= t);
        }
    }

    /// Restores a replica from a snapshot by receiving its operations in
    /// `(lamport, peer)` order.
    pub fn from_snapshot(snapshot: TimelineSnapshot, local_peer_id: PeerId) -> (c: TimelineCrdt)
        ensures
            c.wf(),
            exists|t: Seq<TaggedOperation>| stably_sorted(snapshot.ops@, t, false)
                && replays(CrdtModel::initial(local_peer_id), t, c.model()),
    {
        let mut crdt = TimelineCrdt::new(local_peer_id);
        let ghost s = snapshot.ops@;
        let ops = sort_ops(snapshot.ops, false);
        let ghost t = ops@;
        let ghost m0 = crdt.model();
        crdt.receive_all(ops);
        proof {
            assert(stably_sorted(s, t, false) && replays(m0, t, crdt.model()));
        }
        crdt
    }

    /// Merges a snapshot into this replica: its operations are received in
    /// `(lamport, peer)` order, so only those not seen yet take effect.
    pub fn merge_snapshot(&mut self, snapshot: &TimelineSnapshot)
        requires
            old(self).wf(),
        ensures
            final(self).wf(),
            exists|t: Seq<TaggedOperation>| stably_sorted(snapshot.ops@, t, false)
                && replays(old(self).model(), t, final(self).model()),
    {
        let copied = copy_ops(&snapshot.ops);
        let ghost c = copied@;
        let ops = sort_ops(copied, false);
        let ghost t = ops@;
        proof {
            let perm = choose|perm: Seq<int>| sorted_perm(c, t, perm, false);
            assert forall|k: int| 0 <= k < t.len() implies 0 <= #[trigger] perm[k] < snapshot.ops@.len()
                && t[k].same(snapshot.ops@[perm[k]]) by {
                lemma_same_equiv(t[k], c[perm[k]], snapshot.ops@[perm[k]]);
            }
            assert(sorted_perm(snapshot.ops@, t, perm, false));
        }
        let ghost m0 = self.model();
        self.receive_all(ops);
        proof {
            assert(stably_sorted(snapshot.ops@, t, false) && replays(m0, t, self.model()));
        }
    }
}

/// Law of sorting: a stable sort by capture time lists operations in
/// non-decreasing capture time; one by rank lists them in non-decreasing
/// `(lamport, peer)` order, operations of equal rank in the order they
/// came. Either way it holds a copy of every operation, each once.
pub proof fn lemma_sorted_order(s: Seq<TaggedOperation>, t: Seq<TaggedOperation>, by_time: bool)
    requires
        stably_sorted(s, t, by_time),
    ensures
        t.len() == s.len(),
        by_time ==> forall|a: int, b: int| 0 <= a < b < t.len() ==> (#[trigger] t[a]).timestamp <= (#[trigger] t[b]).timestamp,
        !by_time ==> forall|a: int, b: int| 0 <= a < b < t.len() ==> (#[trigger] t[a]).lamport_ts < (#[trigger] t[b]).lamport_ts
            || (t[a].lamport_ts == t[b].lamport_ts && t[a].peer_id.0 <= t[b].peer_id.0),
        exists|perm: Seq<int>| perm.len() == t.len()
            && (forall|k: int| 0 <= k < t.len() ==> 0 <= #[trigger] perm[k] < s.len() && t[k].same(s[perm[k]]))
            && (forall|a: int, b: int| 0 <= a < b < t.len() ==> perm[a] != perm[b]),
{
    let perm = choose|perm: Seq<int>| #[trigger] sorted_perm(s, t, perm, by_time);
    if by_time {
        assert forall|a: int, b: int| 0 <= a < b < t.len() implies (#[trigger] t[a]).timestamp <= (#[trigger] t[b]).timestamp by {
            assert(!key_lt(op_key(t[b], by_time), op_key(t[a], by_time)));
        }
    } else {
        assert forall|a: int, b: int| 0 <= a < b < t.len() implies (#[trigger] t[a]).lamport_ts < (#[trigger] t[b]).lamport_ts
            || (t[a].lamport_ts == t[b].lamport_ts && t[a].peer_id.0 <= t[b].peer_id.0) by {
            assert(!key_lt(op_key(t[b], by_time), op_key(t[a], by_time)));
        }
    }
}

/// The register through which a move (its start frame) or a delete (its
/// liveness) of a clip takes effect.
pub open spec fn contested_stamp(c: crate::clip_crdt::ClipModel, k: ConflictKind) -> OpTag {
    if k == ConflictKind::Move { c.start_frame.stamp() } else { c.alive.stamp() }
}

/// Law of conflict events: a move or delete event says the incoming
/// operation won exactly when its write is the one the clip keeps. Applied
/// to a clip whose registers are older than both, the incoming operation
/// and the earlier one it was compared with leave the contested register
/// written by the incoming operation, in either order, exactly when the
/// event reports `op_won`.
pub proof fn lemma_event_names_winner(log: Seq<TaggedOperation>, incoming: TaggedOperation, c: crate::clip_crdt::ClipModel)
    requires
        resolution(log, incoming) is Some,
        conflict_of(incoming.operation) is Some,
        (conflict_of(incoming.operation)->0).0 != ConflictKind::Split,
        ({
            let k = (conflict_of(incoming.operation)->0).0;
            let cid = (conflict_of(incoming.operation)->0).1;
            let n = if log.len() > 0 { log.len() - 1 } else { 0 };
            let prior = log[latest_prior(log, n, incoming, k, cid)->0];
            &&& tag_of(incoming) != tag_of(prior)
            &&& tag_of(incoming).above(contested_stamp(c, k))
            &&& tag_of(prior).above(contested_stamp(c, k))
        }),
    ensures
        ({
            let k = (conflict_of(incoming.operation)->0).0;
            let cid = (conflict_of(incoming.operation)->0).1;
            let n = if log.len() > 0 { log.len() - 1 } else { 0 };
            let prior = log[latest_prior(log, n, incoming, k, cid)->0];
            let won = resolution(log, incoming)->0.op_won;
            let ab = c.applied(prior.operation, tag_of(prior)).applied(incoming.operation, tag_of(incoming));
            let ba = c.applied(incoming.operation, tag_of(incoming)).applied(prior.operation, tag_of(prior));
            &&& won == (contested_stamp(ab, k) == tag_of(incoming))
            &&& won == (contested_stamp(ba, k) == tag_of(incoming))
        }),
{
    let k = (conflict_of(incoming.operation)->0).0;
    let cid = (conflict_of(incoming.operation)->0).1;
    let n = if log.len() > 0 { log.len() - 1 } else { 0 };
    if log.len() > 0 {
        lemma_latest_prior_is_latest(log, n, incoming, k, cid);
    }
    let i = latest_prior(log, n, incoming, k, cid)->0;
    let prior = log[i];
    let ti = tag_of(incoming);
    let tp = tag_of(prior);
    assert(conflict_of(prior.operation) == Some((k, cid)));
    if k == ConflictKind::Move {
        let vi = incoming.operation->MoveClip_new_start_frame;
        let vp = prior.operation->MoveClip_new_start_frame;
        crate::merge::LwwReg::lemma_holding(vi, ti);
        crate::merge::LwwReg::lemma_holding(vp, tp);
    } else {
        crate::merge::LwwReg::lemma_holding(false, ti);
        crate::merge::LwwReg::lemma_holding(false, tp);
    }
}

/// Law of split conflict events: a split event says the incoming split
/// won exactly when, with both splits recorded on the clip (in either
/// order, from no split point at that offset), the split point names the
/// incoming split's new clip.
pub proof fn lemma_split_event_names_winner(log: Seq<TaggedOperation>, incoming: TaggedOperation, sp: Map<u64, ClipId>)
    requires
        resolution(log, incoming) is Some,
        incoming.operation is SplitClip,
        !sp.contains_key(incoming.operation->SplitClip_split_frame),
    ensures
        ({
            let cid = incoming.operation->SplitClip_clip_id;
            let n = if log.len() > 0 { log.len() - 1 } else { 0 };
            let prior = log[latest_prior(log, n, incoming, ConflictKind::Split, cid)->0];
            let f = incoming.operation->SplitClip_split_frame;
            let mine = incoming.operation->SplitClip_new_clip_id;
            let theirs = prior.operation->SplitClip_new_clip_id;
            let won = resolution(log, incoming)->0.op_won;
            let ab = crate::clip_crdt::split_recorded(crate::clip_crdt::split_recorded(sp, f, theirs), f, mine);
            let ba = crate::clip_crdt::split_recorded(crate::clip_crdt::split_recorded(sp, f, mine), f, theirs);
            &&& prior.operation is SplitClip
            &&& prior.operation->SplitClip_split_frame == f
            &&& mine != theirs
            &&& won == (ab[f] == mine)
            &&& won == (ba[f] == mine)
        }),
{
    let cid = incoming.operation->SplitClip_clip_id;
    let n = if log.len() > 0 { log.len() - 1 } else { 0 };
    if log.len() > 0 {
        lemma_latest_prior_is_latest(log, n, incoming, ConflictKind::Split, cid);
    }
    let prior = log[latest_prior(log, n, incoming, ConflictKind::Split, cid)->0];
    assert(conflict_of(prior.operation) == Some((ConflictKind::Split, cid)));
}

} // verus!
