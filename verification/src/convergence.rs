//! Laws of the timeline model: edits commute and are idempotent (a split
//! when its new clip id is fresh), so replicas that apply the same edits in
//! any order agree.

use vstd::prelude::*;
use crate::clip_crdt::{ClipModel, ClipParent, lemma_clip_apply_commutes, lemma_clip_apply_idempotent, split_recorded};
use crate::envelope_crdt::blank_envelope;
use crate::merge::{LwwReg, OpTag, lemma_lww_writes_commute, lemma_lww_write_idempotent, lemma_effects_commute,
    lemma_effect_idempotent};
use crate::operation::{ClipId, TargetId, TimelineOperation, TrackId, TrackKind, UNITY_GAIN_BITS};
use crate::state::{MetadataModel, SessionModel, claim_lt, text_effect, without_stale_split};
use crate::track_crdt::{TrackModel, lemma_track_apply_commutes, lemma_track_apply_idempotent};

verus! {

/// A clip with every register unwritten: what an insert lands on.
pub open spec fn blank_clip() -> ClipModel {
    let i = OpTag::spec_initial();
    ClipModel {
        parent: None,
        alive: LwwReg::holding(false, i),
        track: LwwReg::holding(TrackId(0), i),
        start_frame: LwwReg::holding(0u64, i),
        duration_frames: LwwReg::holding(0u64, i),
        name: LwwReg::holding(Seq::<char>::empty(), i),
        source: LwwReg::holding(Seq::<char>::empty(), i),
        color: LwwReg::holding(0u32, i),
        gain: LwwReg::holding(UNITY_GAIN_BITS, i),
        muted: LwwReg::holding(false, i),
        locked: LwwReg::holding(false, i),
        order_hint: LwwReg::holding(0u64, i),
        detached: false,
        splits: Map::empty(),
        origin_claim: None,
    }
}

/// A track with every register unwritten: what an insert lands on.
pub open spec fn blank_track() -> TrackModel {
    let i = OpTag::spec_initial();
    TrackModel {
        alive: LwwReg::holding(false, i),
        name: LwwReg::holding(Seq::<char>::empty(), i),
        kind: LwwReg::holding(TrackKind::Audio, i),
        volume_db: LwwReg::holding(0u32, i),
        muted: LwwReg::holding(false, i),
        solo: LwwReg::holding(false, i),
        order_hint: LwwReg::holding(0u64, i),
    }
}

/// A fresh clip is a blank clip after the insert.
proof fn lemma_clip_inserted(op: TimelineOperation, t: OpTag)
    requires
        op is InsertClip,
        t.above(OpTag::spec_initial()),
    ensures
        ClipModel::inserted(op->InsertClip_track_id, op->InsertClip_clip, op->InsertClip_position, t)
            == blank_clip().applied(op, t),
{
    let i = OpTag::spec_initial();
    LwwReg::<bool>::lemma_holding(false, i);
    LwwReg::<TrackId>::lemma_holding(TrackId(0), i);
    LwwReg::<u64>::lemma_holding(0u64, i);
    LwwReg::<Seq<char>>::lemma_holding(Seq::<char>::empty(), i);
    LwwReg::<u32>::lemma_holding(0u32, i);
    LwwReg::<u32>::lemma_holding(UNITY_GAIN_BITS, i);
    assert(ClipModel::inserted(op->InsertClip_track_id, op->InsertClip_clip, op->InsertClip_position, t)
        =~= blank_clip().applied(op, t));
}

/// A fresh track is a blank track after the insert.
proof fn lemma_track_inserted(op: TimelineOperation, t: OpTag)
    requires
        op is InsertTrack,
        t.above(OpTag::spec_initial()),
    ensures
        TrackModel::inserted(op->InsertTrack_track, op->InsertTrack_position, t) == blank_track().applied(op, t),
{
    let i = OpTag::spec_initial();
    LwwReg::<bool>::lemma_holding(false, i);
    LwwReg::<Seq<char>>::lemma_holding(Seq::<char>::empty(), i);
    LwwReg::<TrackKind>::lemma_holding(TrackKind::Audio, i);
    LwwReg::<u32>::lemma_holding(0u32, i);
    LwwReg::<u64>::lemma_holding(0u64, i);
    assert(TrackModel::inserted(op->InsertTrack_track, op->InsertTrack_position, t) =~= blank_track().applied(op, t));
}

/// The clip an operation (other than a split) targets, if any.
pub open spec fn clip_target(op: TimelineOperation) -> Option<ClipId> {
    match op {
        TimelineOperation::InsertClip { clip_id, .. } => Some(clip_id),
        TimelineOperation::MoveClip { clip_id, .. } => Some(clip_id),
        TimelineOperation::DeleteClip { clip_id } => Some(clip_id),
        TimelineOperation::TrimClip { clip_id, .. } => Some(clip_id),
        TimelineOperation::UpdateClipMetadata { clip_id, .. } => Some(clip_id),
        _ => None,
    }
}

/// The track an operation targets, if any.
pub open spec fn track_target(op: TimelineOperation) -> Option<TrackId> {
    match op {
        TimelineOperation::InsertTrack { track_id, .. } => Some(track_id),
        TimelineOperation::UpdateTrackMetadata { track_id, .. } => Some(track_id),
        TimelineOperation::DeleteTrack { track_id } => Some(track_id),
        _ => None,
    }
}

/// The clip table after a successful clip operation.
pub open spec fn clips_after(c: Map<u64, ClipModel>, op: TimelineOperation, t: OpTag) -> Map<u64, ClipModel> {
    match clip_target(op) {
        Some(id) => c.insert(id.0, (if c.contains_key(id.0) { c[id.0] } else { blank_clip() }).applied(op, t)),
        None => c,
    }
}

/// The track table after a successful track operation.
pub open spec fn tracks_after(k: Map<u64, TrackModel>, op: TimelineOperation, t: OpTag) -> Map<u64, TrackModel> {
    match track_target(op) {
        Some(id) => k.insert(id.0, (if k.contains_key(id.0) { k[id.0] } else { blank_track() }).applied(op, t)),
        None => k,
    }
}

/// The envelopes after a successful envelope operation.
pub open spec fn envelopes_after(e: Map<crate::envelope_crdt::EnvelopeKey, LwwReg<Seq<crate::operation::EnvelopePoint>>>,
    op: TimelineOperation, t: OpTag) -> Map<crate::envelope_crdt::EnvelopeKey, LwwReg<Seq<crate::operation::EnvelopePoint>>>
{
    match op {
        TimelineOperation::UpdateEnvelope { target_id, envelope_type, points } => {
            let k = (target_id, envelope_type@);
            e.insert(k, (if e.contains_key(k) { e[k] } else { blank_envelope() }).written(points@, t))
        },
        _ => e,
    }
}

/// The session metadata after an operation.
pub open spec fn metadata_after(md: MetadataModel, op: TimelineOperation, t: OpTag) -> MetadataModel {
    match op {
        TimelineOperation::UpdateSessionMetadata { updates } => md.updated(updates, t),
        _ => md,
    }
}

/// A successful operation other than a split acts on each part of the
/// session separately.
proof fn lemma_applied_parts(m: SessionModel, op: TimelineOperation, t: OpTag)
    requires
        !(op is SplitClip),
        !(op is UnsplitClip),
        t.above(OpTag::spec_initial()),
        m.applied(op, t).1 is None,
    ensures
        m.applied(op, t).0 == (SessionModel {
            metadata: metadata_after(m.metadata, op, t),
            tracks: tracks_after(m.tracks, op, t),
            clips: clips_after(m.clips, op, t),
            envelopes: envelopes_after(m.envelopes, op, t),
        }),
{
    match op {
        TimelineOperation::InsertClip { clip_id, .. } => {
            if !m.clips.contains_key(clip_id.0) {
                lemma_clip_inserted(op, t);
            }
        },
        TimelineOperation::InsertTrack { track_id, .. } => {
            if !m.tracks.contains_key(track_id.0) {
                lemma_track_inserted(op, t);
            }
        },
        _ => {},
    }
    assert(m.applied(op, t).0 =~= (SessionModel {
        metadata: metadata_after(m.metadata, op, t),
        tracks: tracks_after(m.tracks, op, t),
        clips: clips_after(m.clips, op, t),
        envelopes: envelopes_after(m.envelopes, op, t),
    }));
}

/// Clip operations on a clip table commute.
proof fn lemma_clips_after_commute(c: Map<u64, ClipModel>, op1: TimelineOperation, t1: OpTag,
    op2: TimelineOperation, t2: OpTag)
    requires
        t1 != t2,
    ensures
        clips_after(clips_after(c, op1, t1), op2, t2) == clips_after(clips_after(c, op2, t2), op1, t1),
{
    match (clip_target(op1), clip_target(op2)) {
        (Some(a), Some(b)) => {
            if a == b {
                let base = if c.contains_key(a.0) { c[a.0] } else { blank_clip() };
                lemma_clip_apply_commutes(base, op1, t1, op2, t2);
            }
            assert(clips_after(clips_after(c, op1, t1), op2, t2) =~= clips_after(clips_after(c, op2, t2), op1, t1));
        },
        _ => {},
    }
}

/// Track operations on a track table commute.
proof fn lemma_tracks_after_commute(k: Map<u64, TrackModel>, op1: TimelineOperation, t1: OpTag,
    op2: TimelineOperation, t2: OpTag)
    requires
        t1 != t2,
    ensures
        tracks_after(tracks_after(k, op1, t1), op2, t2) == tracks_after(tracks_after(k, op2, t2), op1, t1),
{
    match (track_target(op1), track_target(op2)) {
        (Some(a), Some(b)) => {
            if a == b {
                let base = if k.contains_key(a.0) { k[a.0] } else { blank_track() };
                lemma_track_apply_commutes(base, op1, t1, op2, t2);
            }
            assert(tracks_after(tracks_after(k, op1, t1), op2, t2) =~= tracks_after(tracks_after(k, op2, t2), op1, t1));
        },
        _ => {},
    }
}

/// Envelope replacements commute.
proof fn lemma_envelopes_after_commute(
    e: Map<crate::envelope_crdt::EnvelopeKey, LwwReg<Seq<crate::operation::EnvelopePoint>>>,
    op1: TimelineOperation, t1: OpTag, op2: TimelineOperation, t2: OpTag,
)
    requires
        t1 != t2,
    ensures
        envelopes_after(envelopes_after(e, op1, t1), op2, t2) == envelopes_after(envelopes_after(e, op2, t2), op1, t1),
{
    match (op1, op2) {
        (
            TimelineOperation::UpdateEnvelope { target_id: a1, envelope_type: b1, points: p1 },
            TimelineOperation::UpdateEnvelope { target_id: a2, envelope_type: b2, points: p2 },
        ) => {
            let k1 = (a1, b1@);
            let k2 = (a2, b2@);
            if k1 == k2 {
                let base = if e.contains_key(k1) { e[k1] } else { blank_envelope() };
                lemma_lww_writes_commute(base, p1@, t1, p2@, t2);
            }
            assert(envelopes_after(envelopes_after(e, op1, t1), op2, t2)
                =~= envelopes_after(envelopes_after(e, op2, t2), op1, t1));
        },
        _ => {},
    }
}

/// Session-metadata updates commute.
proof fn lemma_metadata_after_commute(md: MetadataModel, op1: TimelineOperation, t1: OpTag,
    op2: TimelineOperation, t2: OpTag)
    requires
        t1 != t2,
    ensures
        metadata_after(metadata_after(md, op1, t1), op2, t2) == metadata_after(metadata_after(md, op2, t2), op1, t1),
{
    if let (
        TimelineOperation::UpdateSessionMetadata { updates: u1 },
        TimelineOperation::UpdateSessionMetadata { updates: u2 },
    ) = (op1, op2) {
        let n1 = match u1.name { Some(v) => Some(v@), None => None };
        let n2 = match u2.name { Some(v) => Some(v@), None => None };
        lemma_effects_commute(md.name, n1, t1, n2, t2);
        assert(text_effect(md.name, u1.name, t1) == crate::merge::effect(md.name, n1, t1));
        assert(text_effect(text_effect(md.name, u1.name, t1), u2.name, t2)
            == crate::merge::effect(crate::merge::effect(md.name, n1, t1), n2, t2));
        assert(text_effect(text_effect(md.name, u2.name, t2), u1.name, t1)
            == crate::merge::effect(crate::merge::effect(md.name, n2, t2), n1, t1));
        lemma_effects_commute(md.sample_rate, u1.sample_rate, t1, u2.sample_rate, t2);
        lemma_effects_commute(md.tempo_bpm, u1.tempo_bpm, t1, u2.tempo_bpm, t2);
        lemma_effects_commute(md.ts_numerator, u1.time_signature_numerator, t1, u2.time_signature_numerator, t2);
        lemma_effects_commute(md.ts_denominator, u1.time_signature_denominator, t1, u2.time_signature_denominator, t2);
        assert(metadata_after(metadata_after(md, op1, t1), op2, t2) =~= metadata_after(metadata_after(md, op2, t2), op1, t1));
    }
}

/// Edits commute: two edits other than splits and unsplits, with distinct
/// tags above the initial tag, that both apply whichever comes first,
/// leave the session in the same state in either order.
pub proof fn lemma_edits_commute(m: SessionModel, op1: TimelineOperation, t1: OpTag, op2: TimelineOperation, t2: OpTag)
    requires
        !(op1 is SplitClip),
        !(op2 is SplitClip),
        !(op1 is UnsplitClip),
        !(op2 is UnsplitClip),
        t1 != t2,
        t1.above(OpTag::spec_initial()),
        t2.above(OpTag::spec_initial()),
        m.applied(op1, t1).1 is None,
        m.applied(op1, t1).0.applied(op2, t2).1 is None,
        m.applied(op2, t2).1 is None,
        m.applied(op2, t2).0.applied(op1, t1).1 is None,
    ensures
        m.applied(op1, t1).0.applied(op2, t2).0 == m.applied(op2, t2).0.applied(op1, t1).0,
{
    let a = m.applied(op1, t1).0;
    let b = m.applied(op2, t2).0;
    lemma_applied_parts(m, op1, t1);
    lemma_applied_parts(m, op2, t2);
    lemma_applied_parts(a, op2, t2);
    lemma_applied_parts(b, op1, t1);
    lemma_clips_after_commute(m.clips, op1, t1, op2, t2);
    lemma_tracks_after_commute(m.tracks, op1, t1, op2, t2);
    lemma_envelopes_after_commute(m.envelopes, op1, t1, op2, t2);
    lemma_metadata_after_commute(m.metadata, op1, t1, op2, t2);
    assert(a.applied(op2, t2).0 =~= b.applied(op1, t1).0);
}

/// A register written at `t` is unchanged by another write at `t`.
proof fn lemma_written_at_own_tag<T>(v: T, w: Option<T>, t: OpTag)
    ensures
        crate::merge::effect(LwwReg::holding(v, t), w, t) == LwwReg::holding(v, t),
{
    LwwReg::lemma_holding(v, t);
}

/// A clip freshly inserted at `t` is unchanged by the same insert at `t`.
proof fn lemma_inserted_clip_stable(op: TimelineOperation, t: OpTag)
    requires
        op is InsertClip,
    ensures
        ({
            let c = ClipModel::inserted(op->InsertClip_track_id, op->InsertClip_clip, op->InsertClip_position, t);
            c.applied(op, t) == c
        }),
{
    let d = op->InsertClip_clip;
    lemma_written_at_own_tag(true, crate::clip_crdt::alive_write(op), t);
    lemma_written_at_own_tag(op->InsertClip_track_id, crate::clip_crdt::track_write(op), t);
    lemma_written_at_own_tag(d.start_frame, crate::clip_crdt::start_write(op), t);
    lemma_written_at_own_tag(d.duration_frames, crate::clip_crdt::duration_write(op), t);
    lemma_written_at_own_tag(d.name@, crate::clip_crdt::name_write(op), t);
    lemma_written_at_own_tag(d.source@, crate::clip_crdt::source_write(op), t);
    lemma_written_at_own_tag(d.color, crate::clip_crdt::color_write(op), t);
    lemma_written_at_own_tag(d.gain, crate::clip_crdt::gain_write(op), t);
    lemma_written_at_own_tag(d.muted, crate::clip_crdt::muted_write(op), t);
    lemma_written_at_own_tag(d.locked, crate::clip_crdt::locked_write(op), t);
    lemma_written_at_own_tag(op->InsertClip_position, crate::clip_crdt::hint_write(op), t);
    let c = ClipModel::inserted(op->InsertClip_track_id, d, op->InsertClip_position, t);
    assert(c.applied(op, t) =~= c);
}

/// A track freshly inserted at `t` is unchanged by the same insert at `t`.
proof fn lemma_inserted_track_stable(op: TimelineOperation, t: OpTag)
    requires
        op is InsertTrack,
    ensures
        ({
            let k = TrackModel::inserted(op->InsertTrack_track, op->InsertTrack_position, t);
            k.applied(op, t) == k
        }),
{
    let d = op->InsertTrack_track;
    lemma_written_at_own_tag(true, crate::track_crdt::track_alive_write(op), t);
    lemma_written_at_own_tag(d.name@, crate::track_crdt::track_name_write(op), t);
    lemma_written_at_own_tag(d.kind, crate::track_crdt::track_kind_write(op), t);
    lemma_written_at_own_tag(d.volume_db, crate::track_crdt::track_volume_write(op), t);
    lemma_written_at_own_tag(d.muted, crate::track_crdt::track_muted_write(op), t);
    lemma_written_at_own_tag(d.solo, crate::track_crdt::track_solo_write(op), t);
    lemma_written_at_own_tag(op->InsertTrack_position, crate::track_crdt::track_hint_write(op), t);
    let k = TrackModel::inserted(d, op->InsertTrack_position, t);
    assert(k.applied(op, t) =~= k);
}

/// A split that applied changes nothing when applied again at its tag.
proof fn lemma_split_idempotent(m: SessionModel, op: TimelineOperation, t: OpTag)
    requires
        op is SplitClip,
        m.applied(op, t).1 is None,
    ensures
        m.applied(op, t).0.applied(op, t).1 is None,
        m.applied(op, t).0.applied(op, t).0 == m.applied(op, t).0,
{
    let p = op->SplitClip_clip_id;
    let f = op->SplitClip_split_frame;
    let c = op->SplitClip_new_clip_id;
    let claim = (p, f);
    let a = m.applied(op, t).0;
    if p != c {
        let moved = if m.clips.contains_key(c.0) {
            let current = match m.clips[c.0].origin_claim { Some(x) => x, None => claim };
            !claim_lt(current, claim)
        } else {
            true
        };
        if moved {
            assert(a.clips.contains_key(c.0) && a.clips.contains_key(p.0));
            assert(a.clips[c.0].origin_claim == Some(claim) || a.clips[c.0].origin_claim is None);
            lemma_lww_write_idempotent(a.clips[c.0].alive, true, t);
            if m.clips.contains_key(c.0) {
                let current = match m.clips[c.0].origin_claim { Some(x) => x, None => claim };
                let clips1 = if claim_lt(claim, current) {
                    crate::state::reparented(crate::state::without_stale_split(m.clips, current, c), c, claim)
                } else {
                    m.clips
                };
                lemma_lww_write_idempotent(clips1[c.0].alive, true, t);
            } else {
                LwwReg::lemma_holding(true, t);
            }
            let clips2 = crate::state::child_resurrected(a.clips, c, t);
            assert(clips2 =~= a.clips);
            assert(a.applied(op, t).0.clips =~= a.clips);
        }
    }
    assert(a.applied(op, t).0 =~= a);
}

/// Application is idempotent: applying an operation that applied a
/// second time with the same tag, whatever the operation and the tag,
/// changes nothing.
pub proof fn lemma_apply_idempotent(m: SessionModel, op: TimelineOperation, t: OpTag)
    requires
        m.applied(op, t).1 is None,
    ensures
        m.applied(op, t).0.applied(op, t).1 is None,
        m.applied(op, t).0.applied(op, t).0 == m.applied(op, t).0,
{
    let a = m.applied(op, t).0;
    match op {
        TimelineOperation::InsertClip { clip_id, .. } => {
            if m.clips.contains_key(clip_id.0) {
                lemma_clip_apply_idempotent(m.clips[clip_id.0], op, t);
            } else {
                lemma_inserted_clip_stable(op, t);
            }
            assert(a.applied(op, t).0.clips =~= a.clips);
        },
        TimelineOperation::MoveClip { clip_id, .. }
        | TimelineOperation::DeleteClip { clip_id }
        | TimelineOperation::TrimClip { clip_id, .. }
        | TimelineOperation::UpdateClipMetadata { clip_id, .. } => {
            lemma_clip_apply_idempotent(m.clips[clip_id.0], op, t);
            assert(a.applied(op, t).0.clips =~= a.clips);
        },
        TimelineOperation::InsertTrack { track_id, .. } => {
            if m.tracks.contains_key(track_id.0) {
                lemma_track_apply_idempotent(m.tracks[track_id.0], op, t);
            } else {
                lemma_inserted_track_stable(op, t);
            }
            assert(a.applied(op, t).0.tracks =~= a.tracks);
        },
        TimelineOperation::UpdateTrackMetadata { track_id, .. } | TimelineOperation::DeleteTrack { track_id } => {
            lemma_track_apply_idempotent(m.tracks[track_id.0], op, t);
            assert(a.applied(op, t).0.tracks =~= a.tracks);
        },
        TimelineOperation::UpdateEnvelope { target_id, envelope_type, points } => {
            let k = (target_id, envelope_type@);
            let base = if m.envelopes.contains_key(k) { m.envelopes[k] } else { blank_envelope() };
            lemma_lww_write_idempotent(base, points@, t);
            assert(a.applied(op, t).0.envelopes =~= a.envelopes);
        },
        TimelineOperation::UpdateSessionMetadata { updates } => {
            let n = match updates.name { Some(v) => Some(v@), None => None };
            lemma_effect_idempotent(m.metadata.name, n, t);
            assert(text_effect(m.metadata.name, updates.name, t) == crate::merge::effect(m.metadata.name, n, t));
            assert(text_effect(text_effect(m.metadata.name, updates.name, t), updates.name, t)
                == crate::merge::effect(crate::merge::effect(m.metadata.name, n, t), n, t));
            lemma_effect_idempotent(m.metadata.sample_rate, updates.sample_rate, t);
            lemma_effect_idempotent(m.metadata.tempo_bpm, updates.tempo_bpm, t);
            lemma_effect_idempotent(m.metadata.ts_numerator, updates.time_signature_numerator, t);
            lemma_effect_idempotent(m.metadata.ts_denominator, updates.time_signature_denominator, t);
        },
        TimelineOperation::SplitClip { .. } => {
            lemma_split_idempotent(m, op, t);
        },
        TimelineOperation::UnsplitClip { clip_id, split_frame, new_clip_id } => {
            let owner = (clip_id, split_frame);
            let w = without_stale_split(m.clips, owner, new_clip_id);
            lemma_lww_write_idempotent(w[new_clip_id.0].alive, false, t);
            assert(!(a.clips[clip_id.0].splits.contains_key(split_frame)
                && a.clips[clip_id.0].splits[split_frame] == new_clip_id));
            assert(without_stale_split(a.clips, owner, new_clip_id) == a.clips);
            assert(a.applied(op, t).0.clips =~= a.clips);
        },
    }
    assert(a.applied(op, t).0 =~= a);
}


/// The clip a split creates at `tag`: alive, every other register
/// unwritten, attached to its parent at the split point.
pub open spec fn split_child_of(op: TimelineOperation, tag: OpTag) -> ClipModel {
    match op {
        TimelineOperation::SplitClip { clip_id, split_frame, .. } => ClipModel {
            parent: Some(ClipParent { clip: clip_id, offset: split_frame }),
            origin_claim: Some((clip_id, split_frame)),
            ..ClipModel::split_child(tag)
        },
        _ => blank_clip(),
    }
}

/// A split is fresh in `m`: its new clip id is not its parent's and names
/// no clip of `m`.
pub open spec fn fresh_split(m: SessionModel, op: TimelineOperation) -> bool {
    &&& op is SplitClip
    &&& op->SplitClip_clip_id != op->SplitClip_new_clip_id
    &&& !m.clips.contains_key(op->SplitClip_new_clip_id.0)
}

/// A fresh split whose parent exists records its split point on the
/// parent and creates the new clip.
pub proof fn lemma_fresh_split_applied(m: SessionModel, op: TimelineOperation, t: OpTag)
    requires
        fresh_split(m, op),
        m.clips.contains_key(op->SplitClip_clip_id.0),
    ensures
        m.applied(op, t) == (SessionModel {
            clips: m.clips.insert(op->SplitClip_clip_id.0, m.clips[op->SplitClip_clip_id.0].applied(op, t))
                .insert(op->SplitClip_new_clip_id.0, split_child_of(op, t)),
            ..m
        }, Option::<crate::operation::RequiredTarget>::None),
{
    let p = op->SplitClip_clip_id.0;
    let c = m.clips[p];
    assert(c.applied(op, t) == ClipModel {
        splits: split_recorded(c.splits, op->SplitClip_split_frame, op->SplitClip_new_clip_id),
        ..c
    });
}

/// A fresh split commutes with any other edit (a split too, when fresh):
/// when both apply in either order, the session ends the same.
pub proof fn lemma_fresh_split_commutes(m: SessionModel, s1: TimelineOperation, t1: OpTag, op2: TimelineOperation, t2: OpTag)
    requires
        !(op2 is UnsplitClip),
        fresh_split(m, s1),
        fresh_split(m.applied(op2, t2).0, s1),
        op2 is SplitClip ==> fresh_split(m, op2) && fresh_split(m.applied(s1, t1).0, op2),
        t1 != t2,
        t1.above(OpTag::spec_initial()),
        t2.above(OpTag::spec_initial()),
        m.applied(s1, t1).1 is None,
        m.applied(s1, t1).0.applied(op2, t2).1 is None,
        m.applied(op2, t2).1 is None,
        m.applied(op2, t2).0.applied(s1, t1).1 is None,
    ensures
        m.applied(s1, t1).0.applied(op2, t2).0 == m.applied(op2, t2).0.applied(s1, t1).0,
{
    let p1 = s1->SplitClip_clip_id.0;
    let c1 = s1->SplitClip_new_clip_id.0;
    let a = m.applied(s1, t1).0;
    let b = m.applied(op2, t2).0;
    // s1's parent exists wherever s1 applies
    assert(m.clips.contains_key(p1));
    lemma_fresh_split_applied(m, s1, t1);
    if op2 is SplitClip {
        let p2 = op2->SplitClip_clip_id.0;
        let c2 = op2->SplitClip_new_clip_id.0;
        assert(m.clips.contains_key(p2));
        lemma_fresh_split_applied(m, op2, t2);
        assert(a.clips.contains_key(p2));
        lemma_fresh_split_applied(a, op2, t2);
        assert(b.clips.contains_key(p1));
        lemma_fresh_split_applied(b, s1, t1);
        if p1 == p2 {
            lemma_clip_apply_commutes(m.clips[p1], s1, t1, op2, t2);
        }
        assert(a.applied(op2, t2).0.clips =~= b.applied(s1, t1).0.clips);
        assert(a.applied(op2, t2).0 =~= b.applied(s1, t1).0);
    } else {
        lemma_applied_parts(m, op2, t2);
        lemma_applied_parts(a, op2, t2);
        assert(b.clips.contains_key(p1)) by {
            assert(b.clips == clips_after(m.clips, op2, t2));
        }
        lemma_fresh_split_applied(b, s1, t1);
        match clip_target(op2) {
            Some(q) => {
                assert(q.0 != c1);
                if q.0 == p1 {
                    lemma_clip_apply_commutes(m.clips[p1], s1, t1, op2, t2);
                }
            },
            None => {},
        }
        assert(a.applied(op2, t2).0.clips =~= b.applied(s1, t1).0.clips);
        assert(a.applied(op2, t2).0 =~= b.applied(s1, t1).0);
    }
}

} // verus!
