//! The operation vocabulary and replica bookkeeping.

use tpt_av_sync::{
    missing_targets, ClipData, ClipId, OperationId, PeerId, RequiredTarget, Session, TargetId, TimelineCrdt,
    TimelineOperation, TrackData, TrackId,
};

#[test]
fn required_targets_match_operation_shapes() {
    let insert = TimelineOperation::InsertClip {
        clip_id: ClipId::from_u64(1),
        track_id: TrackId::from_u64(2),
        clip: ClipData::new("a", 0, 1),
        position: 0,
    };
    assert!(insert.required_targets().is_empty());

    let move_op = TimelineOperation::MoveClip {
        clip_id: ClipId::from_u64(1),
        new_track_id: TrackId::from_u64(2),
        new_start_frame: 0,
        new_position: 0,
    };
    assert_eq!(move_op.required_targets(), vec![RequiredTarget::Clip(ClipId::from_u64(1))]);
}

#[test]
fn envelope_targets_follow_their_owner() {
    let op = TimelineOperation::UpdateEnvelope {
        target_id: TargetId::Track(TrackId::from_u64(4)),
        envelope_type: tpt_av_sync::EnvelopeType::Pan,
        points: vec![],
    };
    assert_eq!(op.required_targets(), vec![RequiredTarget::Track(TrackId::from_u64(4))]);
}

#[test]
fn missing_targets_lists_only_absent_entities() {
    let mut session = Session::new();
    let op = TimelineOperation::DeleteClip { clip_id: ClipId::from_u64(9) };
    assert_eq!(missing_targets(&op, &session), vec![RequiredTarget::Clip(ClipId::from_u64(9))]);
    session
        .apply(
            &TimelineOperation::InsertClip {
                clip_id: ClipId::from_u64(9),
                track_id: TrackId::from_u64(1),
                clip: ClipData::new("x", 0, 10),
                position: 0,
            },
            tpt_av_sync::tag_for(1),
        )
        .unwrap();
    assert!(missing_targets(&op, &session).is_empty());
}

#[test]
fn clip_data_defaults() {
    let c = ClipData::new("take", 5, 10);
    assert_eq!(c.name, "take");
    assert_eq!(c.source, "");
    assert_eq!(c.color, 0xFF_AA_CC_88);
    let t = TrackData::new("vo");
    assert_eq!(t.volume_db, 0.0f32.to_bits());
    assert!(!t.muted && !t.solo);
}

#[test]
fn local_edits_tick_lamport_and_clock() {
    let peer = PeerId::from_u64(3);
    let mut crdt = TimelineCrdt::new(peer);
    let a = crdt.apply_local(TimelineOperation::InsertTrack {
        track_id: TrackId::from_u64(1),
        track: TrackData::new("A1"),
        position: 0,
    });
    let b = crdt.apply_local(TimelineOperation::DeleteTrack { track_id: TrackId::from_u64(1) });
    assert_eq!(a.lamport_ts, 1);
    assert_eq!(b.lamport_ts, 2);
    assert_eq!(b.op_id, OperationId::new(2, peer));
    assert_eq!(crdt.vector_clock().get(peer), 2);
    assert!(crdt.has_operation(&OperationId::new(1, peer)));
    assert!(!crdt.has_operation(&OperationId::new(3, peer)));
    assert_eq!(crdt.operation_log().len(), 2);
}

#[test]
fn edit_with_missing_target_waits_in_pending() {
    let mut crdt = TimelineCrdt::new(PeerId::from_u64(1));
    crdt.apply_local(TimelineOperation::MoveClip {
        clip_id: ClipId::from_u64(5),
        new_track_id: TrackId::from_u64(1),
        new_start_frame: 10,
        new_position: 0,
    });
    assert_eq!(crdt.pending_len(), 1);
    assert_eq!(crdt.operation_log().len(), 1);
}

#[test]
fn duplicate_remote_delivery_changes_nothing() {
    let mut a = TimelineCrdt::new(PeerId::from_u64(1));
    let op = a.apply_local(TimelineOperation::InsertTrack {
        track_id: TrackId::from_u64(1),
        track: TrackData::new("A1"),
        position: 0,
    });
    let mut b = TimelineCrdt::new(PeerId::from_u64(2));
    b.apply_remote(op.clone()).unwrap();
    let before = b.view();
    b.apply_remote(op).unwrap();
    assert_eq!(b.view(), before);
    assert_eq!(b.operation_log().len(), 1);
}
