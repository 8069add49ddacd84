//! The [`SyncEngine`]: replication decisions, events, and offline-first
//! flows.
//!
//! The engine owns the replica and decides what to send; the caller owns
//! the transport. Each step takes what happened on the transport (a
//! received message, the outcome of a send, the current peer list, the
//! time) and returns what to send next, so the whole protocol runs
//! through verified code and only the sending itself stays outside.

use vstd::prelude::*;
use crate::clock::PeerId;
use crate::error::SyncError;
use crate::message::SyncMessage;
use crate::offline::{OfflineQueue, enqueued};
use crate::operation::{TaggedOperation, TimelineOperation, lemma_same_equiv};
use crate::reliability::{ReliabilityManager, PendingEntry};
use crate::timeline_crdt::{CrdtModel, TimelineCrdt, TimelineSnapshot, remote_step, replays, stably_sorted, logged};
use crate::operation::seqs_same;

verus! {

/// Tunables for [`SyncEngine`].
#[derive(Debug, Clone, Copy, PartialEq, Eq)]
pub struct EngineConfig {
    /// Queue operations when no peer is connected and flush them on
    /// reconnect (offline-first).
    pub offline_queue: bool,
    /// How long to wait for acks before resending, in milliseconds.
    pub ack_timeout_ms: u64,
    /// How many times to resend an unacknowledged operation.
    pub max_resends: u32,
    /// Upper bound on messages handled per poll.
    pub max_messages_per_tick: usize,
    /// Capacity of the offline queue.
    pub offline_capacity: usize,
}

impl Default for EngineConfig {
    /// Offline queue on, 1 s ack timeout, 4 resends, 4096 messages per
    /// poll, 10000 queued messages.
    fn default() -> (c: EngineConfig)
        ensures
            c.offline_queue,
            c.ack_timeout_ms == 1_000,
            c.max_resends == 4,
            c.max_messages_per_tick == 4_096,
            c.offline_capacity == 10_000,
    {
        EngineConfig {
            offline_queue: true,
            ack_timeout_ms: 1_000,
            max_resends: 4,
            max_messages_per_tick: 4_096,
            offline_capacity: 10_000,
        }
    }
}

/// Events surfaced by the engine to the application. Playhead, transport,
/// presence and clock payloads are passed through as received.
#[derive(Debug, Clone, PartialEq)]
pub enum SyncEvent {
    /// A new peer connected.
    PeerJoined(PeerId),
    /// A peer disconnected.
    PeerLeft(PeerId),
    /// A remote operation was applied.
    RemoteOperation(TaggedOperation),
    /// A snapshot was received and merged.
    SnapshotMerged {
        /// Operations newly logged by the merge.
        applied: usize,
        /// Operations the snapshot carried.
        total: usize,
    },
    /// A playhead update arrived.
    Playhead(Vec<u8>),
    /// A transport-control command arrived.
    TransportControl(Vec<u8>),
    /// A presence update arrived.
    Presence(Vec<u8>),
    /// A clock-sync message arrived.
    ClockSync(Vec<u8>),
}

/// A message the engine asks its transport to send.
#[derive(Debug, Clone, PartialEq)]
pub enum Outgoing {
    /// Send to one peer.
    SendTo(PeerId, SyncMessage),
    /// Send to every connected peer.
    Broadcast(SyncMessage),
}

/// The replication engine of one peer.
#[derive(Debug)]
pub struct SyncEngine {
    crdt: TimelineCrdt,
    config: EngineConfig,
    reliability: ReliabilityManager,
    offline: OfflineQueue,
    events: Vec<SyncEvent>,
    known_peers: Vec<PeerId>,
}

/// `after` is `before` with exactly one more element, `x`.
pub open spec fn pushed<T>(before: Seq<T>, after: Seq<T>, x: T) -> bool {
    after == before.push(x)
}

impl SyncEngine {
    /// The replica's state.
    pub closed spec fn replica(&self) -> CrdtModel {
        self.crdt.model()
    }

    /// The configuration.
    pub closed spec fn settings(&self) -> EngineConfig {
        self.config
    }

    /// The events not yet taken.
    pub closed spec fn pending_events(&self) -> Seq<SyncEvent> {
        self.events@
    }

    /// The messages queued while offline.
    pub closed spec fn queued(&self) -> Seq<SyncMessage> {
        self.offline.queued()
    }

    /// The broadcast operations awaiting acks.
    pub closed spec fn unacked(&self) -> Seq<(crate::clock::OperationId, PendingEntry)> {
        self.reliability.entries()
    }

    /// The broadcast operations awaiting acks, by id.
    pub closed spec fn awaiting_acks(&self) -> Map<crate::clock::OperationId, PendingEntry> {
        self.reliability.awaiting()
    }

    /// The peers that acknowledged each operation, by id.
    pub closed spec fn ack_records(&self) -> Map<crate::clock::OperationId, Vec<PeerId>> {
        self.reliability.acks()
    }

    /// The offline queue's capacity.
    pub closed spec fn queue_capacity(&self) -> nat {
        self.offline.capacity()
    }

    /// The peers seen at the last membership check.
    pub closed spec fn peers_known(&self) -> Seq<PeerId> {
        self.known_peers@
    }

    /// Internal consistency.
    pub closed spec fn wf(&self) -> bool {
        &&& self.crdt.wf()
        &&& self.reliability.wf()
        &&& self.offline.capacity() == (if self.config.offline_capacity > 1 { self.config.offline_capacity as nat } else { 1 })
        &&& self.reliability.timeout() == self.config.ack_timeout_ms
        &&& self.reliability.budget() == self.config.max_resends
    }

    /// Creates an engine with the default configuration.
    pub fn new(crdt: TimelineCrdt) -> (e: SyncEngine)
        requires
            crdt.wf(),
        ensures
            e.wf(),
            e.replica() == crdt.model(),
            e.settings() == (EngineConfig {
                offline_queue: true,
                ack_timeout_ms: 1_000,
                max_resends: 4,
                max_messages_per_tick: 4_096,
                offline_capacity: 10_000,
            }),
            e.pending_events().len() == 0,
            e.queued().len() == 0,
            e.unacked().len() == 0,
            e.peers_known().len() == 0,
    {
        Self::with_config(crdt, EngineConfig::default())
    }

    /// Creates an engine with a custom configuration.
    pub fn with_config(crdt: TimelineCrdt, config: EngineConfig) -> (e: SyncEngine)
        requires
            crdt.wf(),
        ensures
            e.wf(),
            e.replica() == crdt.model(),
            e.settings() == config,
            e.pending_events().len() == 0,
            e.queued().len() == 0,
            e.unacked().len() == 0,
            e.peers_known().len() == 0,
    {
        let offline = OfflineQueue::new(config.offline_capacity);
        let reliability = ReliabilityManager::new(config.ack_timeout_ms, config.max_resends);
        SyncEngine { crdt, config, reliability, offline, events: Vec::new(), known_peers: Vec::new() }
    }

    /// The local peer id.
    pub fn local_peer_id(&self) -> (p: PeerId)
        ensures
            p == self.replica().peer,
    {
        self.crdt.local_peer_id()
    }

    /// Read-only access to the replica.
    pub fn crdt(&self) -> (c: &TimelineCrdt)
        requires
            self.wf(),
        ensures
            c.wf(),
            c.model() == self.replica(),
    {
        &self.crdt
    }

    /// Mutable access to the replica (for undo/redo; edits made this way
    /// are not broadcast).
    pub fn crdt_mut(&mut self) -> (c: &mut TimelineCrdt)
        requires
            old(self).wf(),
        ensures
            c.wf(),
            c.model() == old(self).replica(),
            final(c).wf() ==> final(self).wf(),
            final(self).replica() == final(c).model(),
            final(self).pending_events() == old(self).pending_events(),
            final(self).queued() == old(self).queued(),
            final(self).unacked() == old(self).unacked(),
            final(self).peers_known() == old(self).peers_known(),
            final(self).settings() == old(self).settings(),
    {
        &mut self.crdt
    }

    /// The configuration.
    pub fn config(&self) -> (c: &EngineConfig)
        ensures
            *c == self.settings(),
    {
        &self.config
    }

    /// Applies a local edit; returns the tagged operation and the message
    /// to broadcast (report the outcome with [`SyncEngine::after_broadcast`]).
    pub fn apply_local(&mut self, operation: TimelineOperation) -> (r: (TaggedOperation, SyncMessage))
        requires
            old(self).wf(),
        ensures
            final(self).wf(),
            crate::timeline_crdt::stamps(old(self).replica(), operation, r.0.timestamp, r.0),
            crate::timeline_crdt::local_step(old(self).replica(), final(self).replica(), operation, r.0),
            r.1 matches SyncMessage::Operation(op) && op.same(r.0),
            final(self).pending_events() == old(self).pending_events(),
            final(self).queued() == old(self).queued(),
            final(self).unacked() == old(self).unacked(),
            final(self).peers_known() == old(self).peers_known(),
            final(self).settings() == old(self).settings(),
    {
        let tagged = self.crdt.apply_local(operation);
        let copy = tagged.duplicate();
        proof { lemma_same_equiv(copy, tagged, tagged); }
        (tagged, SyncMessage::Operation(copy))
    }

    /// The message requesting a state snapshot from peers (broadcast it
    /// after connecting, and report the outcome with
    /// [`SyncEngine::after_broadcast`]).
    pub fn request_snapshot(&self) -> (m: SyncMessage)
        ensures
            m == SyncMessage::RequestSnapshot,
    {
        SyncMessage::RequestSnapshot
    }

    /// Takes the outcome of broadcasting `msg` at `now_ms`: a delivered
    /// operation awaits acks; an undelivered message is queued for
    /// reconnection when the offline queue is enabled.
    pub fn after_broadcast(&mut self, msg: SyncMessage, sent: Result<(), SyncError>, now_ms: u64)
        requires
            old(self).wf(),
        ensures
            final(self).wf(),
            final(self).replica() == old(self).replica(),
            final(self).pending_events() == old(self).pending_events(),
            final(self).peers_known() == old(self).peers_known(),
            final(self).settings() == old(self).settings(),
            sent is Ok ==> final(self).queued() == old(self).queued(),
            sent is Ok && msg is Operation ==> final(self).awaiting_acks() == old(self).awaiting_acks().insert(
                msg->Operation_0.op_id, PendingEntry { op: msg->Operation_0, last_sent_ms: now_ms, attempts: 1 }),
            sent is Ok && !(msg is Operation) ==> final(self).unacked() == old(self).unacked(),
            sent is Err ==> final(self).unacked() == old(self).unacked(),
            sent is Err && old(self).settings().offline_queue ==> final(self).queued()
                == enqueued(old(self).queued(), msg, old(self).queue_capacity()),
            sent is Err && !old(self).settings().offline_queue ==> final(self).queued() == old(self).queued(),
    {
        match sent {
            Ok(()) => {
                if let SyncMessage::Operation(op) = msg {
                    self.reliability.track(op, now_ms);
                }
            },
            Err(_) => {
                if self.config.offline_queue {
                    self.offline.enqueue(msg);
                }
            },
        }
    }

    /// Takes the current peer list: records `PeerJoined` for each peer not
    /// seen before (in the list's order) and `PeerLeft` for each known peer
    /// missing from it (in the order they were known), remembers the list,
    /// and returns the peers that joined (greet each with
    /// [`SyncEngine::join_snapshot`] and the offline queue).
    pub fn peers_changed(&mut self, current: Vec<PeerId>) -> (joined: Vec<PeerId>)
        requires
            old(self).wf(),
        ensures
            final(self).wf(),
            joined@ == current@.filter(|p: PeerId| !old(self).peers_known().contains(p)),
            final(self).pending_events() == old(self).pending_events()
                + joined@.map_values(|p: PeerId| SyncEvent::PeerJoined(p))
                + old(self).peers_known().filter(|p: PeerId| !current@.contains(p)).map_values(|p: PeerId| SyncEvent::PeerLeft(p)),
            final(self).peers_known() == current@,
            final(self).replica() == old(self).replica(),
            final(self).queued() == old(self).queued(),
            final(self).unacked() == old(self).unacked(),
            final(self).settings() == old(self).settings(),
    {
        let ghost known = self.known_peers@;
        let ghost ev0 = self.events@;
        let mut joined: Vec<PeerId> = Vec::new();
        let mut i: usize = 0;
        proof {
            reveal(Seq::filter);
            assert(current@.take(0) =~= Seq::<PeerId>::empty());
        }
        while i < current.len()
            invariant
                i <= current@.len(),
                self.known_peers@ == known,
                self.crdt == old(self).crdt,
                self.reliability == old(self).reliability,
                self.offline == old(self).offline,
                self.config == old(self).config,
                joined@ == current@.take(i as int).filter(|p: PeerId| !known.contains(p)),
                self.events@ == ev0 + joined@.map_values(|p: PeerId| SyncEvent::PeerJoined(p)),
            decreases current@.len() - i,
        {
            let p = current[i];
            let mut is_known = false;
            let mut k: usize = 0;
            while k < self.known_peers.len()
                invariant
                    k <= self.known_peers@.len(),
                    is_known == (exists|j: int| 0 <= j < k && self.known_peers@[j] == p),
                decreases self.known_peers@.len() - k,
            {
                if self.known_peers[k] == p {
                    is_known = true;
                }
                k = k + 1;
            }
            proof {
                reveal(Seq::filter);
                assert(current@.take(i + 1).drop_last() =~= current@.take(i as int));
                assert(is_known == known.contains(p));
            }
            if !is_known {
                let ghost jb = joined@;
                joined.push(p);
                self.events.push(SyncEvent::PeerJoined(p));
                proof {
                    assert(joined@.map_values(|q: PeerId| SyncEvent::PeerJoined(q))
                        =~= jb.map_values(|q: PeerId| SyncEvent::PeerJoined(q)).push(SyncEvent::PeerJoined(p)));
                }
            }
            i = i + 1;
        }
        proof { assert(current@.take(i as int) =~= current@); }
        let ghost ev1 = self.events@;
        let mut j: usize = 0;
        let ghost mut left: Seq<PeerId> = Seq::empty();
        proof { assert(known.take(0) =~= Seq::<PeerId>::empty()); }
        while j < self.known_peers.len()
            invariant
                j <= known.len(),
                self.known_peers@ == known,
                self.crdt == old(self).crdt,
                self.reliability == old(self).reliability,
                self.offline == old(self).offline,
                self.config == old(self).config,
                left == known.take(j as int).filter(|p: PeerId| !current@.contains(p)),
                self.events@ == ev1 + left.map_values(|p: PeerId| SyncEvent::PeerLeft(p)),
            decreases known.len() - j,
        {
            let p = self.known_peers[j];
            let mut present = false;
            let mut k: usize = 0;
            while k < current.len()
                invariant
                    k <= current@.len(),
                    present == (exists|x: int| 0 <= x < k && current@[x] == p),
                decreases current@.len() - k,
            {
                if current[k] == p {
                    present = true;
                }
                k = k + 1;
            }
            proof {
                reveal(Seq::filter);
                assert(known.take(j + 1).drop_last() =~= known.take(j as int));
                assert(present == current@.contains(p));
            }
            if !present {
                let ghost lb = left;
                self.events.push(SyncEvent::PeerLeft(p));
                proof {
                    left = lb.push(p);
                    assert(left.map_values(|q: PeerId| SyncEvent::PeerLeft(q))
                        =~= lb.map_values(|q: PeerId| SyncEvent::PeerLeft(q)).push(SyncEvent::PeerLeft(p)));
                }
            }
            j = j + 1;
        }
        proof { assert(known.take(j as int) =~= known); }
        self.known_peers = current;
        joined
    }

    /// The snapshot to send a joining peer.
    pub fn join_snapshot(&self) -> (m: SyncMessage)
        ensures
            m matches SyncMessage::Snapshot(s) && seqs_same(s.ops@, self.replica().log),
    {
        SyncMessage::Snapshot(self.crdt.snapshot())
    }

    /// Takes the messages queued while offline, in order, to broadcast on
    /// reconnection (report each outcome with
    /// [`SyncEngine::after_offline_send`]).
    pub fn take_offline(&mut self) -> (r: Vec<SyncMessage>)
        requires
            old(self).wf(),
        ensures
            final(self).wf(),
            r@ == old(self).queued(),
            final(self).queued().len() == 0,
            final(self).replica() == old(self).replica(),
            final(self).pending_events() == old(self).pending_events(),
            final(self).unacked() == old(self).unacked(),
            final(self).peers_known() == old(self).peers_known(),
            final(self).settings() == old(self).settings(),
    {
        self.offline.drain()
    }

    /// Takes the outcome of re-broadcasting a message from the offline
    /// queue at `now_ms`: a delivered operation awaits acks; an undelivered
    /// message is dropped.
    pub fn after_offline_send(&mut self, msg: SyncMessage, sent: Result<(), SyncError>, now_ms: u64)
        requires
            old(self).wf(),
        ensures
            final(self).wf(),
            final(self).replica() == old(self).replica(),
            final(self).pending_events() == old(self).pending_events(),
            final(self).queued() == old(self).queued(),
            final(self).peers_known() == old(self).peers_known(),
            final(self).settings() == old(self).settings(),
            sent is Ok && msg is Operation ==> final(self).awaiting_acks() == old(self).awaiting_acks().insert(
                msg->Operation_0.op_id, PendingEntry { op: msg->Operation_0, last_sent_ms: now_ms, attempts: 1 }),
            !(sent is Ok && msg is Operation) ==> final(self).unacked() == old(self).unacked(),
    {
        if sent.is_ok() {
            if let SyncMessage::Operation(op) = msg {
                self.reliability.track(op, now_ms);
            }
        }
    }

    /// Applies a remote operation received from `peer`: acknowledges it to
    /// the sender and reports it. The operation is applied as received: no
    /// check on the length or content of its strings or on the number of
    /// its envelope points is made here.
    fn handle_operation(&mut self, peer: PeerId, op: TaggedOperation, out: &mut Vec<Outgoing>)
        requires
            old(self).wf(),
        ensures
            final(self).wf(),
            remote_step(old(self).replica(), final(self).replica(), op),
            final(out)@.len() == old(out)@.len() + 1,
            final(out)@.take(old(out)@.len() as int) == old(out)@,
            final(out)@.last() == Outgoing::SendTo(peer, SyncMessage::Ack(op.op_id)),
            final(self).pending_events().len() == old(self).pending_events().len() + 1,
            final(self).pending_events().take(old(self).pending_events().len() as int) == old(self).pending_events(),
            final(self).pending_events().last() matches SyncEvent::RemoteOperation(x) && x.same(op),
            final(self).queued() == old(self).queued(),
            final(self).unacked() == old(self).unacked(),
            final(self).peers_known() == old(self).peers_known(),
            final(self).settings() == old(self).settings(),
    {
        let id = op.op_id;
        let copy = op.duplicate();
        let _ = self.crdt.apply_remote(op);
        out.push(Outgoing::SendTo(peer, SyncMessage::Ack(id)));
        let ghost eb = self.events@;
        self.events.push(SyncEvent::RemoteOperation(copy));
        proof {
            assert(self.events@.take(eb.len() as int) =~= eb);
            assert(out@.take(old(out)@.len() as int) =~= old(out)@);
        }
    }

    /// Handles one message received from `peer` and returns the replies to
    /// send: operations are applied, acknowledged and reported; acks are
    /// recorded; snapshot requests are answered; snapshots are merged; the
    /// other payloads are reported as events.
    pub fn handle_message(&mut self, peer: PeerId, msg: SyncMessage) -> (out: Vec<Outgoing>)
        requires
            old(self).wf(),
        ensures
            final(self).wf(),
            final(self).peers_known() == old(self).peers_known(),
            final(self).settings() == old(self).settings(),
            final(self).queued() == old(self).queued(),
            match msg {
                SyncMessage::Operation(op) => {
                    &&& remote_step(old(self).replica(), final(self).replica(), op)
                    &&& out@ == seq![Outgoing::SendTo(peer, SyncMessage::Ack(op.op_id))]
                    &&& final(self).unacked() == old(self).unacked()
                    &&& final(self).pending_events().len() == old(self).pending_events().len() + 1
                    &&& final(self).pending_events().take(old(self).pending_events().len() as int)
                        == old(self).pending_events()
                    &&& final(self).pending_events().last() matches SyncEvent::RemoteOperation(x) && x.same(op)
                },
                SyncMessage::Batch(ops) => {
                    &&& replays(old(self).replica(), ops@, final(self).replica())
                    &&& out@ == ops@.map_values(|o: TaggedOperation| Outgoing::SendTo(peer, SyncMessage::Ack(o.op_id)))
                    &&& final(self).pending_events().len() == old(self).pending_events().len() + ops@.len()
                    &&& final(self).unacked() == old(self).unacked()
                },
                SyncMessage::Ack(id) => {
                    &&& final(self).replica() == old(self).replica()
                    &&& out@.len() == 0
                    &&& final(self).pending_events() == old(self).pending_events()
                    &&& final(self).awaiting_acks() == (if old(self).ack_records().contains_key(id) {
                        old(self).awaiting_acks()
                    } else {
                        old(self).awaiting_acks().remove(id)
                    })
                },
                SyncMessage::RequestSnapshot => {
                    &&& final(self).replica() == old(self).replica()
                    &&& out@.len() == 1
                    &&& out@[0] matches Outgoing::SendTo(p, SyncMessage::Snapshot(s))
                    &&& out@[0]->SendTo_0 == peer
                    &&& seqs_same(out@[0]->SendTo_1->Snapshot_0.ops@, old(self).replica().log)
                    &&& final(self).pending_events() == old(self).pending_events()
                    &&& final(self).unacked() == old(self).unacked()
                },
                SyncMessage::Snapshot(s) => {
                    &&& exists|t: Seq<TaggedOperation>| stably_sorted(s.ops@, t, false)
                        && replays(old(self).replica(), t, final(self).replica())
                    &&& out@.len() == 0
                    &&& final(self).pending_events() == old(self).pending_events().push(SyncEvent::SnapshotMerged {
                        applied: (final(self).replica().log.len() - old(self).replica().log.len()) as usize,
                        total: s.ops@.len() as usize,
                    })
                    &&& final(self).unacked() == old(self).unacked()
                },
                SyncMessage::PlayheadUpdate(b) => final(self).replica() == old(self).replica() && out@.len() == 0
                    && final(self).pending_events() == old(self).pending_events().push(SyncEvent::Playhead(b))
                    && final(self).unacked() == old(self).unacked(),
                SyncMessage::TransportControl(b) => final(self).replica() == old(self).replica() && out@.len() == 0
                    && final(self).pending_events() == old(self).pending_events().push(SyncEvent::TransportControl(b))
                    && final(self).unacked() == old(self).unacked(),
                SyncMessage::PresenceUpdate(b) => final(self).replica() == old(self).replica() && out@.len() == 0
                    && final(self).pending_events() == old(self).pending_events().push(SyncEvent::Presence(b))
                    && final(self).unacked() == old(self).unacked(),
                SyncMessage::ClockSync(b) => final(self).replica() == old(self).replica() && out@.len() == 0
                    && final(self).pending_events() == old(self).pending_events().push(SyncEvent::ClockSync(b))
                    && final(self).unacked() == old(self).unacked(),
            },
    {
        let mut out: Vec<Outgoing> = Vec::new();
        match msg {
            SyncMessage::Operation(op) => {
                self.handle_operation(peer, op, &mut out);
                proof { assert(out@ =~= seq![Outgoing::SendTo(peer, SyncMessage::Ack(op.op_id))]); }
            },
            SyncMessage::Batch(ops) => {
                let ghost t = ops@;
                let ghost m0 = self.crdt.model();
                let ghost e0 = self.events@;
                let ghost mut ms: Seq<CrdtModel> = seq![m0];
                let mut ops = ops;
                let mut i: usize = 0;
                let total = ops.len();
                while ops.len() > 0
                    invariant
                        self.wf(),
                        total == t.len(),
                        i <= t.len(),
                        ops@ == t.skip(i as int),
                        crate::timeline_crdt::replay_trace(m0, t.take(i as int), ms),
                        ms.last() == self.crdt.model(),
                                out@.len() == i,
                        forall|k: int| 0 <= k < i ==> #[trigger] out@[k] == Outgoing::SendTo(peer, SyncMessage::Ack(t[k].op_id)),
                        self.events@.len() == e0.len() + i,
                        self.peers_known() == old(self).peers_known(),
                        self.settings() == old(self).settings(),
                        self.queued() == old(self).queued(),
                        self.unacked() == old(self).unacked(),
                    decreases ops@.len(),
                {
                    let op = ops.remove(0);
                    proof {
                        assert(op == t[i as int]);
                        assert(ops@ =~= t.skip(i + 1));
                    }
                    let ghost mid = self.crdt.model();
                    self.handle_operation(peer, op, &mut out);
                    proof {
                        let ms2 = ms.push(self.crdt.model());
                        assert forall|k: int| 0 <= k < i + 1 implies remote_step(#[trigger] ms2[k], ms2[k + 1], t.take(i + 1)[k]) by {
                            if k < i {
                                assert(ms2[k] == ms[k] && ms2[k + 1] == ms[k + 1]);
                                assert(t.take(i + 1)[k] == t.take(i as int)[k]);
                            } else {
                                assert(ms2[k] == mid);
                            }
                        }
                        ms = ms2;
                        let ob = out@.take(i as int);
                        assert forall|k: int| 0 <= k < i + 1 implies #[trigger] out@[k] == Outgoing::SendTo(peer, SyncMessage::Ack(t[k].op_id)) by {
                            if k < i {
                                assert(out@[k] == ob[k]);
                            }
                        }
                    }
                    i = i + 1;
                }
                proof {
                    assert(t.take(i as int) =~= t);
                    assert(crate::timeline_crdt::replay_trace(m0, t, ms) && ms.last() == self.crdt.model());
                    assert(out@ =~= t.map_values(|o: TaggedOperation| Outgoing::SendTo(peer, SyncMessage::Ack(o.op_id))));
                }
            },
            SyncMessage::Ack(op_id) => {
                self.reliability.on_ack(&op_id, peer);
            },
            SyncMessage::RequestSnapshot => {
                let snapshot = self.crdt.snapshot();
                out.push(Outgoing::SendTo(peer, SyncMessage::Snapshot(snapshot)));
            },
            SyncMessage::Snapshot(snapshot) => {
                let total = snapshot.ops.len();
                let before = self.crdt.operation_log().len();
                self.crdt.merge_snapshot(&snapshot);
                let after = self.crdt.operation_log().len();
                let applied = if after >= before { after - before } else { 0 };
                proof {
                    let t = choose|t: Seq<TaggedOperation>| stably_sorted(snapshot.ops@, t, false)
                        && replays(old(self).replica(), t, self.crdt.model());
                    crate::timeline_crdt::lemma_replay_log_grows(old(self).replica(), t, self.crdt.model());
                }
                self.events.push(SyncEvent::SnapshotMerged { applied, total });
            },
            SyncMessage::PlayheadUpdate(update) => {
                self.events.push(SyncEvent::Playhead(update));
            },
            SyncMessage::TransportControl(control) => {
                self.events.push(SyncEvent::TransportControl(control));
            },
            SyncMessage::PresenceUpdate(update) => {
                self.events.push(SyncEvent::Presence(update));
            },
            SyncMessage::ClockSync(message) => {
                self.events.push(SyncEvent::ClockSync(message));
            },
        }
        out
    }

    /// The resend check at `now_ms`: the operations whose acks timed out,
    /// as messages to broadcast again.
    pub fn resend_due(&mut self, now_ms: u64) -> (r: Vec<SyncMessage>)
        requires
            old(self).wf(),
        ensures
            final(self).wf(),
            final(self).unacked() == crate::reliability::pending_after(old(self).unacked(), now_ms,
                old(self).settings().ack_timeout_ms, old(self).settings().max_resends),
            r@.len() == crate::reliability::resent(old(self).unacked(), now_ms, old(self).settings().ack_timeout_ms,
                old(self).settings().max_resends).len(),
            forall|k: int| 0 <= k < r@.len() ==> ((#[trigger] r@[k]) matches SyncMessage::Operation(op)
                && op.same(crate::reliability::resent(old(self).unacked(), now_ms, old(self).settings().ack_timeout_ms,
                    old(self).settings().max_resends)[k])),
            final(self).replica() == old(self).replica(),
            final(self).pending_events() == old(self).pending_events(),
            final(self).queued() == old(self).queued(),
            final(self).peers_known() == old(self).peers_known(),
            final(self).settings() == old(self).settings(),
    {
        let due = self.reliability.due_for_resend(now_ms);
        let ghost d = due@;
        let mut r: Vec<SyncMessage> = Vec::new();
        let mut due = due;
        let mut i: usize = 0;
        let total = due.len();
        while due.len() > 0
            invariant
                total == d.len(),
                i <= d.len(),
                due@ == d.skip(i as int),
                r@.len() == i,
                forall|k: int| 0 <= k < i ==> #[trigger] r@[k] == SyncMessage::Operation(d[k]),
            decreases due@.len(),
        {
            let op = due.remove(0);
            proof {
                assert(op == d[i as int]);
                assert(due@ =~= d.skip(i + 1));
            }
            r.push(SyncMessage::Operation(op));
            i = i + 1;
        }
        r
    }

    /// Takes the events accumulated since the last call.
    pub fn take_events(&mut self) -> (r: Vec<SyncEvent>)
        requires
            old(self).wf(),
        ensures
            final(self).wf(),
            r@ == old(self).pending_events(),
            final(self).pending_events().len() == 0,
            final(self).replica() == old(self).replica(),
            final(self).queued() == old(self).queued(),
            final(self).unacked() == old(self).unacked(),
            final(self).peers_known() == old(self).peers_known(),
            final(self).settings() == old(self).settings(),
    {
        let mut r: Vec<SyncEvent> = Vec::new();
        std::mem::swap(&mut r, &mut self.events);
        r
    }

    /// Number of operations awaiting acks.
    pub fn pending_acks(&self) -> (n: usize)
        requires
            self.wf(),
        ensures
            n == self.unacked().len(),
    {
        self.reliability.pending_len()
    }

    /// Number of messages queued while offline.
    pub fn offline_queue_len(&self) -> (n: usize)
        ensures
            n == self.queued().len(),
    {
        self.offline.len()
    }
}

} // verus!
