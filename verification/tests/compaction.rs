//! Operation-log compaction.

use tpt_av_sync::compaction::compact;
use tpt_av_sync::{
    ClipData, ClipId, ClipMetadataUpdate, PeerId, TimelineCrdt, TimelineOperation, TrackData, TrackId,
    TrackMetadataUpdate, TrimEdge,
};

fn peer(n: u64) -> PeerId {
    PeerId::from_u64(n)
}

#[test]
fn compaction_preserves_materialized_state() {
    let mut crdt = TimelineCrdt::new(peer(1));
    let track = TrackId::from_u64(1);
    let clip = ClipId::from_u64(1);
    crdt.apply_local(TimelineOperation::InsertTrack {
        track_id: track,
        track: TrackData::new("A1"),
        position: 0,
    });
    crdt.apply_local(TimelineOperation::InsertClip {
        clip_id: clip,
        track_id: track,
        clip: ClipData::new("a.wav", 0, 1_000),
        position: 0,
    });
    // Churn: several edits, some fully superseding earlier ones.
    crdt.apply_local(TimelineOperation::MoveClip {
        clip_id: clip,
        new_track_id: track,
        new_start_frame: 100,
        new_position: 1,
    });
    crdt.apply_local(TimelineOperation::UpdateClipMetadata {
        clip_id: clip,
        updates: ClipMetadataUpdate { name: Some("renamed.wav".into()), ..Default::default() },
    });
    crdt.apply_local(TimelineOperation::TrimClip {
        clip_id: clip,
        new_start_frame: 100,
        new_duration: 500,
        edge: TrimEdge::End,
    });
    crdt.apply_local(TimelineOperation::MoveClip {
        clip_id: clip,
        new_track_id: track,
        new_start_frame: 200,
        new_position: 2,
    });

    let before = crdt.view();
    let compacted_ops = compact(crdt.operation_log(), crdt.session());
    assert!(
        compacted_ops.len() < crdt.operation_log().len(),
        "superseded moves must actually be dropped"
    );

    let mut rebuilt = TimelineCrdt::new(peer(2));
    for op in compacted_ops {
        rebuilt.apply_remote(op).unwrap();
    }
    assert_eq!(rebuilt.view(), before, "compaction must not change materialized state");
}

#[test]
fn compaction_preserves_a_deleted_clip_as_a_tombstone() {
    let mut crdt = TimelineCrdt::new(peer(1));
    let track = TrackId::from_u64(1);
    let clip = ClipId::from_u64(1);
    crdt.apply_local(TimelineOperation::InsertTrack {
        track_id: track,
        track: TrackData::new("A1"),
        position: 0,
    });
    crdt.apply_local(TimelineOperation::InsertClip {
        clip_id: clip,
        track_id: track,
        clip: ClipData::new("a.wav", 0, 1_000),
        position: 0,
    });
    crdt.apply_local(TimelineOperation::DeleteClip { clip_id: clip });

    let compacted_ops = compact(crdt.operation_log(), crdt.session());
    let mut rebuilt = TimelineCrdt::new(peer(2));
    for op in compacted_ops {
        rebuilt.apply_remote(op).unwrap();
    }
    assert_eq!(rebuilt.view(), crdt.view());
    assert!(rebuilt.view().clip(&clip).is_none(), "still deleted after compaction");

    // A late re-insert must still resurrect it (alive's real tag must
    // not have been lost).
    let mut a = rebuilt;
    a.apply_local(TimelineOperation::InsertClip {
        clip_id: clip,
        track_id: track,
        clip: ClipData::new("restored.wav", 0, 1_000),
        position: 0,
    });
    assert!(a.view().clip(&clip).is_some());
}

#[test]
fn compaction_never_drops_any_split() {
    let mut crdt = TimelineCrdt::new(peer(1));
    let track = TrackId::from_u64(1);
    let clip = ClipId::from_u64(1);
    crdt.apply_local(TimelineOperation::InsertTrack {
        track_id: track,
        track: TrackData::new("A1"),
        position: 0,
    });
    crdt.apply_local(TimelineOperation::InsertClip {
        clip_id: clip,
        track_id: track,
        clip: ClipData::new("a.wav", 0, 1_000),
        position: 0,
    });
    let piece = ClipId::from_u64(2);
    crdt.apply_local(TimelineOperation::SplitClip {
        clip_id: clip,
        split_frame: 500,
        new_clip_id: piece,
    });
    // Rename the parent after the split — this write fully supersedes
    // the InsertClip's own name field, but the split itself must
    // survive compaction regardless.
    crdt.apply_local(TimelineOperation::UpdateClipMetadata {
        clip_id: clip,
        updates: ClipMetadataUpdate { name: Some("renamed.wav".into()), ..Default::default() },
    });

    let split_count = crdt
        .operation_log()
        .iter()
        .filter(|op| matches!(op.operation, TimelineOperation::SplitClip { .. }))
        .count();
    let compacted_ops = compact(crdt.operation_log(), crdt.session());
    let compacted_split_count = compacted_ops
        .iter()
        .filter(|op| matches!(op.operation, TimelineOperation::SplitClip { .. }))
        .count();
    assert_eq!(compacted_split_count, split_count, "no split may be dropped");

    let mut rebuilt = TimelineCrdt::new(peer(2));
    for op in compacted_ops {
        rebuilt.apply_remote(op).unwrap();
    }
    assert_eq!(rebuilt.view(), crdt.view());
    assert_eq!(rebuilt.view().clips.len(), 2, "both split pieces must still be present");
}

#[test]
fn compaction_is_a_no_op_on_an_empty_session() {
    let crdt = TimelineCrdt::new(peer(1));
    assert!(compact(crdt.operation_log(), crdt.session()).is_empty());
}

#[test]
fn compacting_twice_is_idempotent() {
    let mut crdt = TimelineCrdt::new(peer(1));
    let track = TrackId::from_u64(1);
    crdt.apply_local(TimelineOperation::InsertTrack {
        track_id: track,
        track: TrackData::new("A1"),
        position: 0,
    });
    for i in 0..5 {
        crdt.apply_local(TimelineOperation::UpdateTrackMetadata {
            track_id: track,
            updates: TrackMetadataUpdate {
                volume_db: Some((i as f32).to_bits()),
                ..Default::default()
            },
        });
    }
    let once = compact(crdt.operation_log(), crdt.session());
    let twice = compact(&once, crdt.session());
    assert_eq!(once, twice);
}

