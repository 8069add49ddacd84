//! The replication engine between two peers over an in-memory link.

use std::collections::VecDeque;
use tpt_av_sync::{
    ClipData, ClipId, EngineConfig, Outgoing, PeerId, SyncEngine, SyncError, SyncEvent, SyncMessage, TimelineCrdt,
    TimelineOperation, TrackData, TrackId,
};

/// One end of an in-memory link: an inbox, the peer at the other end, and
/// a switch that makes every send fail.
struct End {
    local: PeerId,
    other: PeerId,
    inbox: VecDeque<(PeerId, SyncMessage)>,
    offline: bool,
}

/// Two connected ends.
struct Link {
    ends: [End; 2],
}

impl Link {
    fn new(a: PeerId, b: PeerId) -> Link {
        Link {
            ends: [
                End { local: a, other: b, inbox: VecDeque::new(), offline: false },
                End { local: b, other: a, inbox: VecDeque::new(), offline: false },
            ],
        }
    }

    fn send(&mut self, from: usize, msg: SyncMessage) -> Result<(), SyncError> {
        if self.ends[from].offline {
            return Err(SyncError::Transport);
        }
        let local = self.ends[from].local;
        self.ends[1 - from].inbox.push_back((local, msg));
        Ok(())
    }

    fn peers(&self, side: usize) -> Vec<PeerId> {
        if self.ends[side].offline { Vec::new() } else { vec![self.ends[side].other] }
    }
}

const NOW: u64 = 1_000;

fn broadcast(engine: &mut SyncEngine, link: &mut Link, side: usize, msg: SyncMessage) {
    let outcome = link.send(side, msg.clone());
    engine.after_broadcast(msg, outcome, NOW);
}

fn apply_local(engine: &mut SyncEngine, link: &mut Link, side: usize, op: TimelineOperation) {
    let (_, msg) = engine.apply_local(op);
    broadcast(engine, link, side, msg);
}

fn handle_peer_join(engine: &mut SyncEngine, link: &mut Link, side: usize) -> Result<(), SyncError> {
    link.send(side, engine.join_snapshot())?;
    for msg in engine.take_offline() {
        let outcome = link.send(side, msg.clone());
        engine.after_offline_send(msg, outcome, NOW);
    }
    Ok(())
}

fn process_messages(engine: &mut SyncEngine, link: &mut Link, side: usize) -> usize {
    let current = link.peers(side);
    for _joined in engine.peers_changed(current) {
        let _ = handle_peer_join(engine, link, side);
    }
    let mut handled = 0;
    while handled < engine.config().max_messages_per_tick {
        let Some((peer, msg)) = link.ends[side].inbox.pop_front() else { break };
        for out in engine.handle_message(peer, msg) {
            let _ = match out {
                Outgoing::SendTo(_, m) | Outgoing::Broadcast(m) => link.send(side, m),
            };
        }
        handled += 1;
    }
    for msg in engine.resend_due(NOW) {
        let _ = link.send(side, msg);
    }
    handled
}

fn crdt_with_track(peer: PeerId) -> TimelineCrdt {
    let mut crdt = TimelineCrdt::new(peer);
    crdt.apply_local(TimelineOperation::InsertTrack {
        track_id: TrackId::from_u64(1),
        track: TrackData::new("A1"),
        position: 0,
    });
    crdt
}

#[test]
fn offline_queue_flushes_on_peer_join() {
    let mut link = Link::new(PeerId::from_u64(1), PeerId::from_u64(2));
    link.ends[0].offline = true;
    let mut engine = SyncEngine::new(crdt_with_track(PeerId::from_u64(1)));

    // Nobody reachable: the edit is queued.
    let clip = ClipId::from_u64(10);
    apply_local(
        &mut engine,
        &mut link,
        0,
        TimelineOperation::InsertClip {
            clip_id: clip,
            track_id: TrackId::from_u64(1),
            clip: ClipData::new("offline edit", 0, 100),
            position: 0,
        },
    );
    assert_eq!(engine.offline_queue_len(), 1, "queued while offline");

    // Restore connectivity and push the state to the joiner.
    link.ends[0].offline = false;
    handle_peer_join(&mut engine, &mut link, 0).unwrap();
    assert_eq!(engine.offline_queue_len(), 0, "queue flushed on join");

    let mut other = SyncEngine::new(crdt_with_track(PeerId::from_u64(2)));
    for _ in 0..10 {
        process_messages(&mut engine, &mut link, 0);
        process_messages(&mut other, &mut link, 1);
    }
    assert_eq!(engine.crdt().view(), other.crdt().view());
}

#[test]
fn events_flow_for_ops_acks_and_snapshots() {
    let mut link = Link::new(PeerId::from_u64(1), PeerId::from_u64(2));
    let mut a = SyncEngine::new(crdt_with_track(PeerId::from_u64(1)));
    let mut b = SyncEngine::new(crdt_with_track(PeerId::from_u64(2)));

    apply_local(
        &mut a,
        &mut link,
        0,
        TimelineOperation::InsertClip {
            clip_id: ClipId::from_u64(11),
            track_id: TrackId::from_u64(1),
            clip: ClipData::new("c", 0, 5),
            position: 0,
        },
    );
    for _ in 0..10 {
        process_messages(&mut a, &mut link, 0);
        process_messages(&mut b, &mut link, 1);
    }

    assert!(a.take_events().iter().any(|e| matches!(e, SyncEvent::SnapshotMerged { .. })));
    let b_events = b.take_events();
    assert!(
        b_events.iter().any(|e| matches!(e, SyncEvent::RemoteOperation(op) if op.lamport_ts == 2)),
        "B should see A's insert: {b_events:?}"
    );
    assert_eq!(a.crdt().view(), b.crdt().view());
}

#[test]
fn unacked_op_is_resent() {
    let mut link = Link::new(PeerId::from_u64(1), PeerId::from_u64(2));
    let mut engine = SyncEngine::with_config(
        crdt_with_track(PeerId::from_u64(1)),
        EngineConfig {
            ack_timeout_ms: 0, // immediately due
            max_resends: 3,
            ..EngineConfig::default()
        },
    );
    apply_local(
        &mut engine,
        &mut link,
        0,
        TimelineOperation::InsertClip {
            clip_id: ClipId::from_u64(12),
            track_id: TrackId::from_u64(1),
            clip: ClipData::new("x", 0, 1),
            position: 0,
        },
    );
    assert_eq!(engine.pending_acks(), 1);
    process_messages(&mut engine, &mut link, 0); // resend fires (still no acks)
    assert!(engine.pending_acks() <= 1);
}

#[test]
fn snapshot_request_response_round_trip() {
    let mut link = Link::new(PeerId::from_u64(1), PeerId::from_u64(2));
    let mut a = SyncEngine::new(crdt_with_track(PeerId::from_u64(1)));
    let mut b = SyncEngine::new(TimelineCrdt::new(PeerId::from_u64(2)));

    a.crdt_mut().apply_local(TimelineOperation::InsertTrack {
        track_id: TrackId::from_u64(1),
        track: TrackData::new("A1"),
        position: 0,
    });
    apply_local(
        &mut a,
        &mut link,
        0,
        TimelineOperation::InsertClip {
            clip_id: ClipId::from_u64(13),
            track_id: TrackId::from_u64(1),
            clip: ClipData::new("c", 0, 1),
            position: 0,
        },
    );

    let request = b.request_snapshot();
    broadcast(&mut b, &mut link, 1, request);
    for _ in 0..10 {
        process_messages(&mut a, &mut link, 0);
        process_messages(&mut b, &mut link, 1);
    }
    assert_eq!(a.crdt().view(), b.crdt().view());
    // A's log: setup track + re-insert track + clip.
    assert_eq!(a.crdt().operation_log().len(), 3);
    assert_eq!(b.crdt().operation_log().len(), 3, "B replayed A's log");
    assert!(b.take_events().iter().any(|e| matches!(e, SyncEvent::SnapshotMerged { .. })));
}

#[test]
fn membership_changes_raise_join_and_leave_events() {
    let mut engine = SyncEngine::new(TimelineCrdt::new(PeerId::from_u64(1)));
    let joined = engine.peers_changed(vec![PeerId::from_u64(2), PeerId::from_u64(3)]);
    assert_eq!(joined, vec![PeerId::from_u64(2), PeerId::from_u64(3)]);
    let joined = engine.peers_changed(vec![PeerId::from_u64(3), PeerId::from_u64(4)]);
    assert_eq!(joined, vec![PeerId::from_u64(4)]);
    assert_eq!(
        engine.take_events(),
        vec![
            SyncEvent::PeerJoined(PeerId::from_u64(2)),
            SyncEvent::PeerJoined(PeerId::from_u64(3)),
            SyncEvent::PeerJoined(PeerId::from_u64(4)),
            SyncEvent::PeerLeft(PeerId::from_u64(2)),
        ]
    );
}

#[test]
fn pass_through_payloads_become_events() {
    let mut engine = SyncEngine::new(TimelineCrdt::new(PeerId::from_u64(1)));
    let from = PeerId::from_u64(2);
    assert!(engine.handle_message(from, SyncMessage::PlayheadUpdate(vec![1, 2])).is_empty());
    assert!(engine.handle_message(from, SyncMessage::PresenceUpdate(vec![3])).is_empty());
    let replies = engine.handle_message(from, SyncMessage::RequestSnapshot);
    assert_eq!(replies.len(), 1);
    assert_eq!(
        engine.take_events(),
        vec![SyncEvent::Playhead(vec![1, 2]), SyncEvent::Presence(vec![3])]
    );
}
