//! Offline queue, peer registry, acknowledgments and batching.

use tpt_av_sync::{
    ClipId, OfflineQueue, OperationBatcher, OperationId, PeerId, PeerRegistry, ReliabilityManager, SyncError,
    SyncMessage, TaggedOperation, TimelineOperation, VectorClock,
};
use tpt_av_sync::message::{frame_length, frame_prefix, MAX_FRAME_BYTES};

#[test]
fn fifo_with_bounded_capacity() {
    let mut q = OfflineQueue::new(2);
    q.enqueue(SyncMessage::RequestSnapshot);
    q.enqueue(SyncMessage::RequestSnapshot);
    q.enqueue(SyncMessage::RequestSnapshot);
    assert_eq!(q.len(), 2, "oldest dropped beyond capacity");
    assert_eq!(q.drain().len(), 2);
    assert!(q.is_empty());
}

#[test]
fn offline_queue_drops_the_oldest() {
    let mut q = OfflineQueue::new(2);
    q.enqueue(SyncMessage::Ack(OperationId::new(1, PeerId::from_u64(1))));
    q.enqueue(SyncMessage::Ack(OperationId::new(2, PeerId::from_u64(1))));
    q.enqueue(SyncMessage::Ack(OperationId::new(3, PeerId::from_u64(1))));
    assert_eq!(
        q.drain(),
        vec![
            SyncMessage::Ack(OperationId::new(2, PeerId::from_u64(1))),
            SyncMessage::Ack(OperationId::new(3, PeerId::from_u64(1))),
        ]
    );
    let mut tiny = OfflineQueue::new(0);
    tiny.enqueue(SyncMessage::RequestSnapshot);
    tiny.enqueue(SyncMessage::RequestSnapshot);
    assert_eq!(tiny.len(), 1, "capacity is at least one");
}

#[test]
fn join_seen_leave_lifecycle() {
    let mut reg = PeerRegistry::new();
    reg.note_join(PeerId::from_u64(2), 100);
    reg.note_join(PeerId::from_u64(2), 150); // idempotent join keeps first_seen
    reg.note_seen(PeerId::from_u64(2), 200);

    let info = reg.get(&PeerId::from_u64(2)).unwrap();
    assert_eq!(info.first_seen_ms, 100);
    assert_eq!(info.last_seen_ms, 200);

    assert!(reg.note_leave(&PeerId::from_u64(2)));
    assert!(!reg.note_leave(&PeerId::from_u64(2)));
    assert!(reg.is_empty());
}

#[test]
fn peers_sorted_by_id() {
    let mut reg = PeerRegistry::new();
    reg.note_join(PeerId::from_u64(30), 0);
    reg.note_join(PeerId::from_u64(10), 0);
    reg.note_join(PeerId::from_u64(20), 0);
    let ids: Vec<u64> = reg.peers().into_iter().map(|p| p.peer_id.as_u64()).collect();
    assert_eq!(ids, vec![10, 20, 30]);
}

#[test]
fn note_seen_registers_unknown_peers() {
    let mut reg = PeerRegistry::new();
    reg.note_seen(PeerId::from_u64(7), 55);
    let info = reg.get(&PeerId::from_u64(7)).unwrap();
    assert_eq!((info.first_seen_ms, info.last_seen_ms), (55, 55));
    assert_eq!(reg.len(), 1);
}

fn op(lamport: u64) -> TaggedOperation {
    let peer = PeerId::from_u64(1);
    TaggedOperation {
        op_id: OperationId::new(lamport, peer),
        operation: TimelineOperation::DeleteClip { clip_id: ClipId::from_u64(1) },
        lamport_ts: lamport,
        vector_clock: VectorClock::new(),
        peer_id: peer,
        timestamp: 0,
    }
}

#[test]
fn ack_clears_pending() {
    let mut rel = ReliabilityManager::new(50, 3);
    rel.track(op(1), 1_000);
    assert_eq!(rel.pending_len(), 1);
    assert!(rel.on_ack(&OperationId::new(1, PeerId::from_u64(1)), PeerId::from_u64(2)));
    assert!(rel.is_empty());
    // Duplicate acks absorb silently.
    assert!(!rel.on_ack(&OperationId::new(1, PeerId::from_u64(1)), PeerId::from_u64(3)));
}

#[test]
fn unacked_operations_are_resent_then_dropped() {
    let mut rel = ReliabilityManager::new(100, 2);
    rel.track(op(1), 0);
    assert!(rel.due_for_resend(50).is_empty(), "not due yet");
    assert_eq!(rel.due_for_resend(150).len(), 1, "first resend");
    assert_eq!(rel.due_for_resend(300).len(), 1, "second resend");
    assert!(rel.due_for_resend(1_000).is_empty(), "budget exhausted: dropped");
    assert!(rel.is_empty());
}

#[test]
fn forget_stops_tracking() {
    let mut rel = ReliabilityManager::new(10, 1);
    rel.track(op(1), 0);
    rel.track(op(2), 0);
    rel.forget(&OperationId::new(1, PeerId::from_u64(1)));
    assert_eq!(rel.pending_len(), 1);
    let due = rel.due_for_resend(100);
    assert_eq!(due.len(), 1);
    assert_eq!(due[0].lamport_ts, 2);
}

/// Flushes like a transport would: begins the flush, delivers the batch
/// to `sent` (or fails when `offline`), and ends the flush.
fn flush_if_ready(
    batcher: &mut OperationBatcher,
    sent: &mut Vec<SyncMessage>,
    offline: bool,
    now_ms: u64,
) -> Result<usize, SyncError> {
    match batcher.begin_flush(now_ms) {
        None => Ok(0),
        Some(msg) => {
            let outcome = if offline {
                Err(SyncError::Transport)
            } else {
                sent.push(msg);
                Ok(())
            };
            batcher.end_flush(outcome, now_ms)
        }
    }
}

#[test]
fn flush_honors_interval() {
    let mut batcher = OperationBatcher::new(10_000, 0);
    let mut sent = Vec::new();
    batcher.add(op(1));
    batcher.add(op(2));
    assert_eq!(batcher.pending_len(), 2);
    // Interval (10 s) has not elapsed since construction.
    assert_eq!(flush_if_ready(&mut batcher, &mut sent, false, 5).unwrap(), 0);
    assert_eq!(batcher.pending_len(), 2);
    assert!(sent.is_empty());
}

#[test]
fn flush_delivers_batch() {
    let mut batcher = OperationBatcher::new(0, 0);
    let mut sent = Vec::new();
    batcher.add(op(1));
    batcher.add(op(2));
    let flushed = flush_if_ready(&mut batcher, &mut sent, false, 1).unwrap();
    assert_eq!(flushed, 2);
    match &sent[0] {
        SyncMessage::Batch(ops) => assert_eq!(ops.len(), 2),
        other => panic!("expected batch, got {other:?}"),
    }
    assert!(batcher.is_empty());
}

#[test]
fn failed_flush_retains_batch() {
    let mut batcher = OperationBatcher::new(0, 0);
    let mut sent = Vec::new();
    batcher.add(op(1));
    assert!(flush_if_ready(&mut batcher, &mut sent, true, 1).is_err());
    assert_eq!(batcher.pending_len(), 1, "batch must survive failures");
}

#[test]
fn flush_restarts_the_interval() {
    let mut batcher = OperationBatcher::new(100, 0);
    let mut sent = Vec::new();
    batcher.add(op(1));
    assert_eq!(flush_if_ready(&mut batcher, &mut sent, false, 150).unwrap(), 1);
    batcher.add(op(2));
    assert_eq!(flush_if_ready(&mut batcher, &mut sent, false, 200).unwrap(), 0);
    assert_eq!(flush_if_ready(&mut batcher, &mut sent, false, 250).unwrap(), 1);
    assert_eq!(sent.len(), 2);
}

#[test]
fn frame_prefix_is_big_endian_length() {
    assert_eq!(frame_prefix(300).unwrap(), [0, 0, 1, 44]);
    assert_eq!(frame_length([0, 0, 1, 44]).unwrap(), 300);
    assert_eq!(frame_length([4, 0, 0, 0]).unwrap(), MAX_FRAME_BYTES);
    assert_eq!(frame_length([4, 0, 0, 1]), Err(SyncError::Transport));
    assert_eq!(frame_prefix(u32::MAX as usize + 1), Err(SyncError::Transport));
}
