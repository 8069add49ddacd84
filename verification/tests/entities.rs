//! Clip, track and envelope records.

use tpt_av_sync::{
    ClipCrdt, ClipData, ClipId, ClipMetadataUpdate, EnvelopePoint, EnvelopeStore, EnvelopeType, Interpolation,
    OpTag, PeerId, TargetId, TimelineOperation, TrackCrdt, TrackData, TrackId, TrackKind, TrackMetadataUpdate,
};

fn tag(l: u64) -> OpTag {
    OpTag::new(l, PeerId::from_u64(1))
}

fn inserted() -> ClipCrdt {
    ClipCrdt::from_insert(TrackId::from_u64(1), &ClipData::new("take", 100, 1000), 0, tag(1))
}

#[test]
fn insert_then_move_then_stale_move_keeps_latest() {
    let mut clip = inserted();
    clip.apply(
        &TimelineOperation::MoveClip {
            clip_id: ClipId::from_u64(1),
            new_track_id: TrackId::from_u64(1),
            new_start_frame: 500,
            new_position: 0,
        },
        tag(2),
    )
    .unwrap();
    clip.apply(
        &TimelineOperation::MoveClip {
            clip_id: ClipId::from_u64(1),
            new_track_id: TrackId::from_u64(1),
            new_start_frame: 300,
            new_position: 0,
        },
        tag(1),
    )
    .unwrap();
    assert_eq!(clip.start_frame.get(), &500, "stale move must lose");
    assert!(clip.detached);
}

#[test]
fn delete_then_stale_insert_stays_deleted() {
    let mut clip = inserted();
    clip.apply(&TimelineOperation::DeleteClip { clip_id: ClipId::from_u64(1) }, tag(5)).unwrap();
    clip.apply(
        &TimelineOperation::InsertClip {
            clip_id: ClipId::from_u64(1),
            track_id: TrackId::from_u64(1),
            clip: ClipData::new("take", 100, 1000),
            position: 0,
        },
        tag(3),
    )
    .unwrap();
    assert_eq!(clip.alive.get(), &false, "stale insert must not resurrect");
}

#[test]
fn newer_insert_resurrects_deleted_clip() {
    let mut clip = inserted();
    clip.apply(&TimelineOperation::DeleteClip { clip_id: ClipId::from_u64(1) }, tag(2)).unwrap();
    clip.apply(
        &TimelineOperation::InsertClip {
            clip_id: ClipId::from_u64(1),
            track_id: TrackId::from_u64(1),
            clip: ClipData::new("revived", 0, 5),
            position: 0,
        },
        tag(3),
    )
    .unwrap();
    assert_eq!(clip.alive.get(), &true);
    assert_eq!(clip.name.get(), "revived");
}

#[test]
fn same_offset_split_keeps_smaller_id() {
    let mut clip = inserted();
    clip.record_split(100, ClipId::from_u64(9));
    clip.record_split(100, ClipId::from_u64(4));
    assert_eq!(clip.split_at(100), Some(ClipId::from_u64(4)));
    clip.record_split(100, ClipId::from_u64(50));
    assert_eq!(clip.split_at(100), Some(ClipId::from_u64(4)));
}

#[test]
fn split_boundaries_are_strictly_after_offset() {
    let mut clip = inserted();
    clip.record_split(100, ClipId::from_u64(2));
    clip.record_split(200, ClipId::from_u64(3));
    assert_eq!(clip.next_split_boundary_after(0), Some(100));
    assert_eq!(clip.next_split_boundary_after(100), Some(200));
    assert_eq!(clip.next_split_boundary_after(200), None);
    assert_eq!(clip.first_split_offset(), Some(100));
}

#[test]
fn metadata_update_only_touches_present_fields() {
    let mut clip = inserted();
    clip.apply_metadata(&ClipMetadataUpdate { gain: Some(0.25f32.to_bits()), ..Default::default() }, tag(2));
    assert_eq!(clip.gain.get(), &0.25f32.to_bits());
    assert_eq!(clip.name.get(), "take");
}

#[test]
fn to_clip_data_roundtrips_values() {
    let clip = inserted();
    let data = clip.to_clip_data();
    assert_eq!(data.name, "take");
    assert_eq!(data.start_frame, 100);
    assert_eq!(data.duration_frames, 1000);
}

#[test]
fn clip_from_insert_has_unity_gain_and_default_color() {
    let clip = inserted();
    assert_eq!(clip.gain.get(), &1.0f32.to_bits());
    assert_eq!(clip.color.get(), &0xFF_AA_CC_88u32);
    assert_eq!(clip.muted.get(), &false);
    assert!(!clip.detached);
    assert_eq!(clip.first_split_offset(), None);
}

#[test]
fn clip_split_child_inherits_until_written() {
    let child = ClipCrdt::from_split(tag(4));
    assert_eq!(child.alive.get(), &true);
    assert_eq!(child.alive.tag(), tag(4));
    assert_eq!(child.name.tag(), OpTag::initial());
    assert!(child.parent.is_none());
}

#[test]
fn trim_edge_start_is_start() {
    assert!(ClipCrdt::trim_edge_is_start(tpt_av_sync::TrimEdge::Start));
    assert!(!ClipCrdt::trim_edge_is_start(tpt_av_sync::TrimEdge::End));
}

#[test]
fn delete_hides_track_and_stale_insert_does_not_resurrect() {
    let mut track = TrackCrdt::from_insert(&TrackData::new("drums"), 0, tag(1));
    track.apply(&TimelineOperation::DeleteTrack { track_id: TrackId::from_u64(7) }, tag(4)).unwrap();
    track
        .apply(
            &TimelineOperation::InsertTrack {
                track_id: TrackId::from_u64(7),
                track: TrackData::new("drums"),
                position: 0,
            },
            tag(2),
        )
        .unwrap();
    assert_eq!(track.alive.get(), &false);
}

#[test]
fn metadata_update_changes_only_present_fields() {
    let mut track = TrackCrdt::from_insert(&TrackData::new("drums"), 2, tag(1));
    track
        .apply(
            &TimelineOperation::UpdateTrackMetadata {
                track_id: TrackId::from_u64(7),
                updates: TrackMetadataUpdate { solo: Some(true), position: Some(5), ..Default::default() },
            },
            tag(2),
        )
        .unwrap();
    assert_eq!(track.solo.get(), &true);
    assert_eq!(track.order_hint.get(), &5);
    assert_eq!(track.name.get(), "drums");
}

#[test]
fn to_track_data_reflects_state() {
    let mut track = TrackCrdt::from_insert(&TrackData::new("gtr"), 0, tag(1));
    track
        .apply(
            &TimelineOperation::UpdateTrackMetadata {
                track_id: TrackId::from_u64(1),
                updates: TrackMetadataUpdate { volume_db: Some((-6.0f32).to_bits()), ..Default::default() },
            },
            tag(2),
        )
        .unwrap();
    let data = track.to_track_data();
    assert_eq!(data.kind, TrackKind::Audio);
    assert_eq!(data.volume_db, (-6.0f32).to_bits());
}

#[test]
fn track_apply_rejects_clip_operations_unchanged() {
    let mut track = TrackCrdt::from_insert(&TrackData::new("vo"), 3, tag(1));
    let r = track.apply(&TimelineOperation::DeleteClip { clip_id: ClipId::from_u64(1) }, tag(9));
    assert!(r.is_ok());
    assert_eq!(track.alive.get(), &true);
    assert_eq!(track.order_hint.get(), &3);
}

fn pt(frame: u64, value: f32) -> EnvelopePoint {
    EnvelopePoint { frame, value: value.to_bits(), interpolation: Interpolation::Linear }
}

#[test]
fn higher_tag_replaces_points() {
    let mut store = EnvelopeStore::new();
    let target = TargetId::Clip(ClipId::from_u64(1));
    store.set(target, EnvelopeType::Volume, vec![pt(0, 0.0)], tag(1));
    store.set(target, EnvelopeType::Volume, vec![pt(0, 0.5), pt(10, 1.0)], tag(2));
    store.set(target, EnvelopeType::Volume, vec![pt(0, 0.9)], tag(1));
    assert_eq!(store.get(&target, &EnvelopeType::Volume), Some(&[pt(0, 0.5), pt(10, 1.0)][..]));
}

#[test]
fn concurrent_writes_converge_regardless_of_order() {
    let target = TargetId::Track(TrackId::from_u64(3));
    let mut a = EnvelopeStore::new();
    let mut b = EnvelopeStore::new();
    let early = vec![pt(0, 0.0)];
    let late = vec![pt(5, 1.0)];
    a.set(target, EnvelopeType::Pan, early.clone(), tag(4));
    a.set(target, EnvelopeType::Pan, late.clone(), tag(6));
    b.set(target, EnvelopeType::Pan, late.clone(), tag(6));
    b.set(target, EnvelopeType::Pan, early, tag(4));
    assert_eq!(a.get(&target, &EnvelopeType::Pan), b.get(&target, &EnvelopeType::Pan));
}

#[test]
fn different_envelope_types_are_independent() {
    let mut store = EnvelopeStore::new();
    let target = TargetId::Clip(ClipId::from_u64(2));
    store.set(target, EnvelopeType::Volume, vec![pt(0, 1.0)], tag(1));
    store.set(target, EnvelopeType::Custom("reverb-mix".into()), vec![pt(0, 0.2)], tag(2));
    assert_eq!(store.len(), 2);
    assert_eq!(store.get(&target, &EnvelopeType::Mute), None);
}

#[test]
fn envelope_iteration_is_in_key_order() {
    let mut store = EnvelopeStore::new();
    let clip = TargetId::Clip(ClipId::from_u64(5));
    let track = TargetId::Track(TrackId::from_u64(1));
    store.set(track, EnvelopeType::Volume, vec![pt(1, 1.0)], tag(1));
    store.set(clip, EnvelopeType::Pan, vec![pt(2, 1.0)], tag(2));
    store.set(clip, EnvelopeType::Volume, vec![pt(3, 1.0)], tag(3));
    let keys: Vec<(TargetId, EnvelopeType)> = store.iter().into_iter().map(|(t, e, _)| (t, e)).collect();
    assert_eq!(
        keys,
        vec![(clip, EnvelopeType::Volume), (clip, EnvelopeType::Pan), (track, EnvelopeType::Volume)]
    );
    assert_eq!(store.tags(), vec![tag(3), tag(2), tag(1)]);
    assert!(!store.is_empty());
}
