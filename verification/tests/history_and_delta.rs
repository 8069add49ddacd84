//! Undo/redo and delta-compression tests.

use tpt_av_sync::{
    compute_delta, apply_delta, ClipData, ClipId, ClipMetadataUpdate, EnvelopePoint,
    EnvelopeType, OpTag, Session, SessionMetadataUpdate, TargetId, TimelineCrdt,
    TimelineOperation, TrackData, TrackId, TrimEdge,
};
use tpt_av_sync::PeerId;

fn setup(crdt: &mut TimelineCrdt) -> (TrackId, ClipId) {
    let track = TrackId::from_u64(1);
    let clip = ClipId::from_u64(100);
    crdt.apply_local(TimelineOperation::InsertTrack {
        track_id: track,
        track: TrackData::new("A1"),
        position: 0,
    });
    crdt.apply_local(TimelineOperation::InsertClip {
        clip_id: clip,
        track_id: track,
        clip: ClipData::new("take1", 0, 1_000),
        position: 0,
    });
    (track, clip)
}

#[test]
fn undo_redo_move_round_trip() {
    let mut crdt = TimelineCrdt::new(PeerId::from_u64(1));
    let (track, clip) = setup(&mut crdt);

    crdt.apply_local(TimelineOperation::MoveClip {
        clip_id: clip,
        new_track_id: track,
        new_start_frame: 400,
        new_position: 0,
    });
    assert_eq!(crdt.view().clip(&clip).unwrap().start_frame, 400);

    crdt.undo().expect("undo must exist");
    assert_eq!(crdt.view().clip(&clip).unwrap().start_frame, 0);

    crdt.redo().expect("redo must exist");
    assert_eq!(crdt.view().clip(&clip).unwrap().start_frame, 400);
}

#[test]
fn undo_delete_resurrects_clip_with_previous_data() {
    let mut crdt = TimelineCrdt::new(PeerId::from_u64(1));
    let (_track, clip) = setup(&mut crdt);
    crdt.apply_local(TimelineOperation::MoveClip {
        clip_id: clip,
        new_track_id: TrackId::from_u64(1),
        new_start_frame: 250,
        new_position: 0,
    });
    crdt.apply_local(TimelineOperation::DeleteClip { clip_id: clip });
    assert!(crdt.view().clip(&clip).is_none());

    crdt.undo().expect("undo delete");
    let view = crdt.view();
    let restored = view.clip(&clip).expect("clip restored");
    assert_eq!(restored.start_frame, 250);
    assert_eq!(restored.duration_frames, 1_000);
}

#[test]
fn undo_split_removes_piece_and_redo_restores_it() {
    let mut crdt = TimelineCrdt::new(PeerId::from_u64(1));
    let (track, clip) = setup(&mut crdt);
    let piece = ClipId::from_u64(101);
    crdt.apply_local(TimelineOperation::SplitClip {
        clip_id: clip,
        split_frame: 400,
        new_clip_id: piece,
    });
    assert_eq!(crdt.view().clips.len(), 2);

    crdt.undo().expect("undo split");
    assert_eq!(crdt.view().clips.len(), 1, "piece must be gone");

    crdt.redo().expect("redo split");
    assert_eq!(crdt.view().clips.len(), 2);
    let view = crdt.view();
    assert_eq!(view.clip(&clip).unwrap().duration_frames, 400);
    assert_eq!(
        view.clip(&piece).unwrap().start_frame,
        400,
        "track {} intact",
        track.as_u64()
    );
}

#[test]
fn undo_metadata_and_session_metadata_round_trip() {
    let mut crdt = TimelineCrdt::new(PeerId::from_u64(1));
    let (_track, clip) = setup(&mut crdt);

    crdt.apply_local(TimelineOperation::UpdateClipMetadata {
        clip_id: clip,
        updates: ClipMetadataUpdate {
            name: Some("renamed".into()),
            gain: Some(0.5f32.to_bits()),
            ..Default::default()
        },
    });
    crdt.apply_local(TimelineOperation::UpdateSessionMetadata {
        updates: SessionMetadataUpdate {
            name: Some("Episode".into()),
            sample_rate: Some(44_100),
            ..Default::default()
        },
    });
    assert_eq!(crdt.view().metadata.name, "Episode");

    crdt.undo().expect("undo session metadata");
    assert_eq!(crdt.view().metadata.name, "Untitled Session");
    assert_eq!(crdt.view().metadata.sample_rate, 48_000);

    crdt.undo().expect("undo clip metadata");
    let view = crdt.view();
    assert_eq!(view.clip(&clip).unwrap().name, "take1");
    assert_eq!(view.clip(&clip).unwrap().gain, 1.0f32.to_bits());

    crdt.redo();
    crdt.redo();
    let view = crdt.view();
    assert_eq!(view.metadata.name, "Episode");
    assert_eq!(view.clip(&clip).unwrap().name, "renamed");
}

#[test]
fn undo_of_remote_viewed_on_second_replica_converges() {
    // The undo is a normal operation: a second replica that receives the
    // full log (edit, undo) converges with the editor.
    let editor = PeerId::from_u64(1);
    let viewer = PeerId::from_u64(2);
    let mut a = TimelineCrdt::new(editor);
    let (track, clip) = setup(&mut a);
    a.apply_local(TimelineOperation::MoveClip {
        clip_id: clip,
        new_track_id: track,
        new_start_frame: 777,
        new_position: 0,
    });
    a.undo().expect("undo");

    let mut b = TimelineCrdt::new(viewer);
    for op in a.operation_log() {
        b.apply_remote(op.clone()).unwrap();
    }
    assert_eq!(a.view(), b.view());
    assert_eq!(b.view().clip(&clip).unwrap().start_frame, 0);
}

#[test]
fn delta_between_two_states_transforms_one_into_the_other() {
    let base_track = TrackId::from_u64(1);
    let clip_a = ClipId::from_u64(100);
    let clip_b = ClipId::from_u64(101);

    let mut old = Session::new();
    apply_delta(
        &mut old,
        &[
            TimelineOperation::InsertTrack {
                track_id: base_track,
                track: TrackData::new("A1"),
                position: 0,
            },
            TimelineOperation::InsertClip {
                clip_id: clip_a,
                track_id: base_track,
                clip: ClipData::new("a", 0, 1_000),
                position: 0,
            },
        ],
        OpTag::new(1_000, PeerId::from_u64(1)),
    );

    // New state: clip_a moved+trimmed, clip_b added, session renamed.
    let mut new = Session::new();
    apply_delta(
        &mut new,
        &[
            TimelineOperation::InsertTrack {
                track_id: base_track,
                track: TrackData::new("A1"),
                position: 0,
            },
            TimelineOperation::InsertClip {
                clip_id: clip_a,
                track_id: base_track,
                clip: ClipData::new("a", 0, 1_000),
                position: 0,
            },
            TimelineOperation::MoveClip {
                clip_id: clip_a,
                new_track_id: base_track,
                new_start_frame: 500,
                new_position: 0,
            },
            TimelineOperation::TrimClip {
                clip_id: clip_a,
                new_start_frame: 500,
                new_duration: 700,
                edge: TrimEdge::End,
            },
            TimelineOperation::InsertClip {
                clip_id: clip_b,
                track_id: base_track,
                clip: ClipData::new("b", 2_000, 100),
                position: 1,
            },
            TimelineOperation::UpdateSessionMetadata {
                updates: SessionMetadataUpdate {
                    name: Some("v2".into()),
                    ..Default::default()
                },
            },
        ],
        OpTag::new(2_000, PeerId::from_u64(1)),
    );

    let delta = compute_delta(&old.materialize(), &new.materialize());
    assert!(
        delta.len() < 6,
        "delta should be minimal, got {} ops",
        delta.len()
    );

    apply_delta(&mut old, &delta, OpTag::new(5_000, PeerId::from_u64(1)));
    assert_eq!(old.materialize(), new.materialize());
}

#[test]
fn delta_detects_envelope_and_metadata_changes() {
    let track = TrackId::from_u64(1);
    let clip = ClipId::from_u64(100);

    let mut old = Session::new();
    let mut new = Session::new();
    let base = vec![
        TimelineOperation::InsertTrack {
            track_id: track,
            track: TrackData::new("A1"),
            position: 0,
        },
        TimelineOperation::InsertClip {
            clip_id: clip,
            track_id: track,
            clip: ClipData::new("a", 0, 100),
            position: 0,
        },
    ];
    apply_delta(&mut old, &base, OpTag::new(1, PeerId::from_u64(1)));
    apply_delta(&mut new, &base, OpTag::new(1, PeerId::from_u64(1)));

    new.apply(
        &TimelineOperation::UpdateEnvelope {
            target_id: TargetId::Clip(clip),
            envelope_type: EnvelopeType::Volume,
            points: vec![EnvelopePoint {
                frame: 0,
                value: 1.0f32.to_bits(),
                interpolation: tpt_av_sync::Interpolation::Linear,
            }],
        },
        OpTag::new(2, PeerId::from_u64(1)),
    )
    .unwrap();
    new.apply(
        &TimelineOperation::UpdateClipMetadata {
            clip_id: clip,
            updates: ClipMetadataUpdate {
                color: Some(0xFF_00_00_00),
                ..Default::default()
            },
        },
        OpTag::new(3, PeerId::from_u64(1)),
    )
    .unwrap();

    let delta = compute_delta(&old.materialize(), &new.materialize());
    assert_eq!(delta.len(), 2, "one metadata + one envelope op");
    apply_delta(&mut old, &delta, OpTag::new(100, PeerId::from_u64(1)));
    assert_eq!(old.materialize(), new.materialize());
}

#[test]
fn undo_track_edit_restores_track_values() {
    let mut crdt = TimelineCrdt::new(PeerId::from_u64(1));
    let (track, _clip) = setup(&mut crdt);
    let before = crdt.view().track(&track).unwrap().clone();
    crdt.apply_local(TimelineOperation::UpdateTrackMetadata {
        track_id: track,
        updates: tpt_av_sync::TrackMetadataUpdate {
            name: Some("Dialog".to_string()),
            volume_db: Some((-6.0f32).to_bits()),
            muted: Some(true),
            solo: None,
            position: Some(4),
        },
    });
    let edited = crdt.view().track(&track).unwrap().clone();
    assert_eq!(edited.name, "Dialog");
    assert_eq!(edited.position, 4);
    crdt.undo().expect("undo track edit");
    assert_eq!(crdt.view().track(&track).unwrap(), &before);
}

#[test]
fn undo_envelope_edit_shows_previous_points() {
    let mut crdt = TimelineCrdt::new(PeerId::from_u64(1));
    let (_track, clip) = setup(&mut crdt);
    crdt.apply_local(TimelineOperation::UpdateEnvelope {
        target_id: TargetId::Clip(clip),
        envelope_type: EnvelopeType::Volume,
        points: vec![EnvelopePoint { frame: 0, value: 0.5f32.to_bits(), interpolation: tpt_av_sync::Interpolation::Linear }],
    });
    let first = crdt.view().envelopes.clone();
    crdt.apply_local(TimelineOperation::UpdateEnvelope {
        target_id: TargetId::Clip(clip),
        envelope_type: EnvelopeType::Volume,
        points: vec![EnvelopePoint { frame: 10, value: 0.25f32.to_bits(), interpolation: tpt_av_sync::Interpolation::Step },
            EnvelopePoint { frame: 20, value: 1.0f32.to_bits(), interpolation: tpt_av_sync::Interpolation::Linear }],
    });
    assert_ne!(crdt.view().envelopes, first);
    crdt.undo().expect("undo envelope edit");
    assert_eq!(crdt.view().envelopes, first);
}

#[test]
fn delta_deletes_tracks_and_clips_and_rewrites_envelopes() {
    let t1 = TrackId::from_u64(1);
    let t2 = TrackId::from_u64(2);
    let c10 = ClipId::from_u64(10);
    let c11 = ClipId::from_u64(11);
    let c12 = ClipId::from_u64(12);
    let point = |frame: u64, value: f32| EnvelopePoint {
        frame,
        value: value.to_bits(),
        interpolation: tpt_av_sync::Interpolation::Linear,
    };

    let mut old = Session::new();
    apply_delta(
        &mut old,
        &[
            TimelineOperation::InsertTrack { track_id: t1, track: TrackData::new("A1"), position: 0 },
            TimelineOperation::InsertTrack { track_id: t2, track: TrackData::new("A2"), position: 1 },
            TimelineOperation::InsertClip { clip_id: c10, track_id: t1, clip: ClipData::new("x", 0, 100), position: 0 },
            TimelineOperation::InsertClip { clip_id: c11, track_id: t2, clip: ClipData::new("y", 50, 100), position: 0 },
            TimelineOperation::UpdateEnvelope {
                target_id: TargetId::Track(t1),
                envelope_type: EnvelopeType::Volume,
                points: vec![point(0, 1.0)],
            },
        ],
        OpTag::new(1, PeerId::from_u64(1)),
    );

    let mut new = Session::new();
    apply_delta(
        &mut new,
        &[
            TimelineOperation::InsertTrack { track_id: t1, track: TrackData::new("Lead"), position: 0 },
            TimelineOperation::InsertClip { clip_id: c10, track_id: t1, clip: ClipData::new("x", 0, 100), position: 0 },
            TimelineOperation::MoveClip { clip_id: c10, new_track_id: t1, new_start_frame: 400, new_position: 2 },
            TimelineOperation::UpdateClipMetadata {
                clip_id: c10,
                updates: ClipMetadataUpdate { muted: Some(true), ..Default::default() },
            },
            TimelineOperation::InsertClip { clip_id: c12, track_id: t1, clip: ClipData::new("z", 900, 30), position: 1 },
            TimelineOperation::UpdateEnvelope {
                target_id: TargetId::Track(t1),
                envelope_type: EnvelopeType::Volume,
                points: vec![point(0, 0.5), point(100, 1.0)],
            },
            TimelineOperation::UpdateEnvelope {
                target_id: TargetId::Clip(c10),
                envelope_type: EnvelopeType::Pan,
                points: vec![point(10, 0.0)],
            },
        ],
        OpTag::new(1, PeerId::from_u64(2)),
    );

    let delta = compute_delta(&old.materialize(), &new.materialize());
    // track rename, track delete, clip move, clip mute, clip insert,
    // clip delete, two envelope writes
    assert_eq!(delta.len(), 8);
    apply_delta(&mut old, &delta, OpTag::new(1_000, PeerId::from_u64(3)));
    assert_eq!(old.materialize(), new.materialize());
    assert_eq!(old.materialize().tracks.len(), 1);
    assert_eq!(old.materialize().clips.len(), 2);
}

#[test]
fn delta_rewrites_a_changed_track_kind() {
    let p1 = PeerId::from_u64(1);
    let t1 = TrackId::from_u64(1);
    let mut old = Session::new();
    old.apply(
        &TimelineOperation::InsertTrack { track_id: t1, track: TrackData::new("A1"), position: 0 },
        OpTag::new(1, p1),
    )
    .unwrap();
    let mut new = Session::new();
    new.apply(
        &TimelineOperation::InsertTrack {
            track_id: t1,
            track: TrackData { kind: tpt_av_sync::TrackKind::Video, ..TrackData::new("A1") },
            position: 0,
        },
        OpTag::new(1, p1),
    )
    .unwrap();
    let delta = compute_delta(&old.materialize(), &new.materialize());
    assert_eq!(delta.len(), 1);
    assert!(matches!(delta[0], TimelineOperation::InsertTrack { .. }));
    apply_delta(&mut old, &delta, OpTag::new(10, p1));
    assert_eq!(old.materialize(), new.materialize());
    assert_eq!(old.materialize().tracks[0].kind, tpt_av_sync::TrackKind::Video);
}

#[test]
fn delta_puts_track_inserts_first_and_deletes_last() {
    let p1 = PeerId::from_u64(1);
    let t1 = TrackId::from_u64(1);
    let t2 = TrackId::from_u64(2);
    let mut old = Session::new();
    old.apply(
        &TimelineOperation::InsertTrack { track_id: t1, track: TrackData::new("A1"), position: 0 },
        OpTag::new(1, p1),
    )
    .unwrap();
    let mut new = Session::new();
    let ops = [
        TimelineOperation::InsertTrack { track_id: t2, track: TrackData::new("B1"), position: 0 },
        TimelineOperation::InsertClip {
            clip_id: ClipId::from_u64(100),
            track_id: t2,
            clip: ClipData::new("a", 0, 1_000),
            position: 0,
        },
        TimelineOperation::UpdateSessionMetadata {
            updates: SessionMetadataUpdate { name: Some("v2".into()), ..Default::default() },
        },
    ];
    apply_delta(&mut new, &ops, OpTag::new(1, p1));
    let delta = compute_delta(&old.materialize(), &new.materialize());
    assert_eq!(delta.len(), 4);
    assert!(matches!(delta[0], TimelineOperation::InsertTrack { track_id, .. } if track_id == t2));
    assert!(matches!(delta[1], TimelineOperation::UpdateSessionMetadata { .. }));
    assert!(matches!(delta[2], TimelineOperation::InsertClip { .. }));
    assert!(matches!(delta[3], TimelineOperation::DeleteTrack { track_id } if track_id == t1));
    apply_delta(&mut old, &delta, OpTag::new(10, p1));
    assert_eq!(old.materialize(), new.materialize());
}

#[test]
fn deleted_clip_resolves_hidden_with_zero_duration() {
    let mut s = Session::new();
    s.apply(
        &TimelineOperation::InsertTrack { track_id: TrackId::from_u64(1), track: TrackData::new("A1"), position: 0 },
        tpt_av_sync::tag_for(1),
    )
    .unwrap();
    s.apply(
        &TimelineOperation::InsertClip {
            clip_id: ClipId::from_u64(100),
            track_id: TrackId::from_u64(1),
            clip: ClipData::new("a", 0, 1_000),
            position: 0,
        },
        tpt_av_sync::tag_for(2),
    )
    .unwrap();
    let live = s.resolve_clip(&ClipId::from_u64(100)).unwrap();
    assert!(live.visible);
    assert_eq!(live.duration_frames, 1_000);
    s.apply(&TimelineOperation::DeleteClip { clip_id: ClipId::from_u64(100) }, tpt_av_sync::tag_for(3)).unwrap();
    let r = s.resolve_clip(&ClipId::from_u64(100)).unwrap();
    assert!(!r.visible);
    assert_eq!(r.duration_frames, 0);
}

#[test]
fn local_stamp_is_above_every_logged_stamp() {
    let mut a = TimelineCrdt::new(PeerId::from_u64(1));
    let mut b = TimelineCrdt::new(PeerId::from_u64(2));
    let _ = setup(&mut b);
    for k in 0..5u64 {
        b.apply_local(TimelineOperation::MoveClip {
            clip_id: ClipId::from_u64(100),
            new_track_id: TrackId::from_u64(1),
            new_start_frame: k * 10,
            new_position: 0,
        });
    }
    for op in b.operation_log().to_vec() {
        a.apply_remote(op).unwrap();
    }
    let before: Vec<u64> = a.operation_log().iter().map(|o| o.lamport_ts).collect();
    let t = a.apply_local(TimelineOperation::DeleteClip { clip_id: ClipId::from_u64(100) });
    assert!(before.iter().all(|&l| l < t.lamport_ts));
    assert_eq!(a.operation_log().len(), before.len() + 1);
    let u = a.undo().expect("undo delete");
    assert!(a.operation_log()[..a.operation_log().len() - 1].iter().all(|o| o.lamport_ts < u.lamport_ts));
}

#[test]
fn delta_of_a_view_to_itself_is_empty() {
    let mut crdt = TimelineCrdt::new(PeerId::from_u64(1));
    let (_track, clip) = setup(&mut crdt);
    crdt.apply_local(TimelineOperation::UpdateEnvelope {
        target_id: TargetId::Clip(clip),
        envelope_type: EnvelopeType::Volume,
        points: vec![EnvelopePoint { frame: 0, value: 0.5f32.to_bits(), interpolation: tpt_av_sync::Interpolation::Linear }],
    });
    let v = crdt.view();
    assert!(compute_delta(&v, &v).is_empty());
}

#[test]
fn reapplying_a_split_at_its_tag_changes_nothing() {
    let mut s = Session::new();
    let p1 = PeerId::from_u64(1);
    s.apply(
        &TimelineOperation::InsertTrack { track_id: TrackId::from_u64(1), track: TrackData::new("A1"), position: 0 },
        OpTag::new(1, p1),
    )
    .unwrap();
    s.apply(
        &TimelineOperation::InsertClip {
            clip_id: ClipId::from_u64(100),
            track_id: TrackId::from_u64(1),
            clip: ClipData::new("a", 0, 1_000),
            position: 0,
        },
        OpTag::new(2, p1),
    )
    .unwrap();
    let split = TimelineOperation::SplitClip {
        clip_id: ClipId::from_u64(100),
        split_frame: 400,
        new_clip_id: ClipId::from_u64(101),
    };
    s.apply(&split, OpTag::new(3, p1)).unwrap();
    let v = s.materialize();
    assert_eq!(v.clips.len(), 2);
    s.apply(&split, OpTag::new(3, p1)).unwrap();
    assert_eq!(s.materialize(), v);
}

#[test]
fn undo_split_restores_the_full_clip() {
    let mut crdt = TimelineCrdt::new(PeerId::from_u64(1));
    let (_track, clip) = setup(&mut crdt);
    let before = crdt.view();
    crdt.apply_local(TimelineOperation::SplitClip {
        clip_id: clip,
        split_frame: 400,
        new_clip_id: ClipId::from_u64(101),
    });
    assert_eq!(crdt.view().clip(&clip).unwrap().duration_frames, 400);
    let undone = crdt.undo().expect("undo split");
    assert!(matches!(undone.operation, TimelineOperation::UnsplitClip { .. }));
    let view = crdt.view();
    assert_eq!(view.clips.len(), 1);
    let restored = view.clip(&clip).unwrap();
    assert_eq!(restored.start_frame, 0);
    assert_eq!(restored.duration_frames, 1_000);
    assert_eq!(view, before);
    crdt.redo().expect("redo split");
    let view = crdt.view();
    assert_eq!(view.clips.len(), 2);
    assert_eq!(view.clip(&clip).unwrap().duration_frames, 400);
    assert_eq!(view.clip(&ClipId::from_u64(101)).unwrap().start_frame, 400);
}

#[test]
fn undo_split_replicates_to_a_peer() {
    let mut a = TimelineCrdt::new(PeerId::from_u64(1));
    let mut b = TimelineCrdt::new(PeerId::from_u64(2));
    let (_track, clip) = setup(&mut a);
    a.apply_local(TimelineOperation::SplitClip { clip_id: clip, split_frame: 400, new_clip_id: ClipId::from_u64(101) });
    a.undo().expect("undo split");
    for op in a.operation_log().to_vec() {
        b.apply_remote(op).unwrap();
    }
    assert_eq!(a.view(), b.view());
    assert_eq!(b.view().clip(&clip).unwrap().duration_frames, 1_000);
}

#[test]
fn undo_delete_restores_gain_mute_and_lock() {
    let mut crdt = TimelineCrdt::new(PeerId::from_u64(1));
    let (_track, clip) = setup(&mut crdt);
    crdt.apply_local(TimelineOperation::MoveClip {
        clip_id: clip,
        new_track_id: TrackId::from_u64(1),
        new_start_frame: 250,
        new_position: 0,
    });
    crdt.apply_local(TimelineOperation::UpdateClipMetadata {
        clip_id: clip,
        updates: ClipMetadataUpdate { gain: Some(0.5f32.to_bits()), muted: Some(true), locked: Some(true), ..Default::default() },
    });
    crdt.apply_local(TimelineOperation::DeleteClip { clip_id: clip });
    crdt.undo().expect("undo delete");
    let view = crdt.view();
    let restored = view.clip(&clip).expect("clip restored");
    assert_eq!(restored.start_frame, 250);
    assert_eq!(restored.duration_frames, 1_000);
    assert_eq!(restored.gain, 0.5f32.to_bits());
    assert!(restored.muted);
    assert!(restored.locked);
}

#[test]
fn inverse_applied_after_an_edit_restores_the_view() {
    let p1 = PeerId::from_u64(1);
    let mut s = Session::new();
    s.apply(
        &TimelineOperation::InsertTrack { track_id: TrackId::from_u64(1), track: TrackData::new("A1"), position: 0 },
        OpTag::new(1, p1),
    )
    .unwrap();
    s.apply(
        &TimelineOperation::InsertClip {
            clip_id: ClipId::from_u64(100),
            track_id: TrackId::from_u64(1),
            clip: ClipData::new("a", 0, 1_000),
            position: 0,
        },
        OpTag::new(2, p1),
    )
    .unwrap();
    let edits = [
        TimelineOperation::MoveClip {
            clip_id: ClipId::from_u64(100),
            new_track_id: TrackId::from_u64(1),
            new_start_frame: 300,
            new_position: 4,
        },
        TimelineOperation::TrimClip {
            clip_id: ClipId::from_u64(100),
            new_start_frame: 0,
            new_duration: 200,
            edge: TrimEdge::End,
        },
        TimelineOperation::UpdateClipMetadata {
            clip_id: ClipId::from_u64(100),
            updates: ClipMetadataUpdate { name: Some("b".into()), gain: Some(0.25f32.to_bits()), ..Default::default() },
        },
        TimelineOperation::DeleteClip { clip_id: ClipId::from_u64(100) },
        TimelineOperation::SplitClip { clip_id: ClipId::from_u64(100), split_frame: 600, new_clip_id: ClipId::from_u64(7) },
    ];
    for op in edits.iter() {
        let inv = tpt_av_sync::compute_inverse(op, &s).expect("an inverse");
        let mut s1 = s.clone();
        s1.apply(op, OpTag::new(10, p1)).unwrap();
        assert_ne!(s1.materialize(), s.materialize());
        s1.apply(&inv, OpTag::new(11, p1)).unwrap();
        let mut v1 = s1.materialize();
        v1.clips.retain(|c| c.clip_id != ClipId::from_u64(7));
        assert_eq!(v1, s.materialize());
    }
}
