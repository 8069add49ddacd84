//! Operation history: undo/redo support.
//!
//! Every successfully applied local operation records an inverse. Undoing
//! re-applies the inverse as a fresh local operation (with a new Lamport
//! timestamp), which keeps undo replication-safe: other peers receive it as
//! an ordinary operation and converge.

use vstd::prelude::*;
use crate::clip_crdt::lemma_text_reg;
use crate::operation::{
    ClipData, ClipId, ClipMetadataUpdate, EnvelopePoint, SessionMetadataUpdate, TimelineOperation,
    TrackId, TrackMetadataUpdate,
};
use crate::state::{Session, SessionMetadata, SessionModel};

verus! {

/// A recorded operation and its inverse.
#[derive(Debug, Clone, PartialEq)]
pub struct HistoryEntry {
    /// The user-facing operation (re-applied by redo).
    pub forward: TimelineOperation,
    /// The operation that undoes `forward` (applied by undo).
    pub inverse: TimelineOperation,
}

/// Bounded undo/redo stacks.
#[derive(Debug, Default)]
pub struct History {
    undo_stack: Vec<HistoryEntry>,
    redo_stack: Vec<HistoryEntry>,
    capacity: usize,
}

/// The mathematical state of a history: both stacks (top last) and the
/// undo depth.
pub struct HistoryModel {
    pub undo: Seq<HistoryEntry>,
    pub redo: Seq<HistoryEntry>,
    pub capacity: nat,
}

impl View for History {
    type V = HistoryModel;

    closed spec fn view(&self) -> HistoryModel {
        HistoryModel { undo: self.undo_stack@, redo: self.redo_stack@, capacity: self.capacity as nat }
    }
}

/// The undo stack after recording `e` with depth `capacity`: the oldest
/// entry is dropped once the stack is full.
pub open spec fn undo_recorded(undo: Seq<HistoryEntry>, e: HistoryEntry, capacity: nat) -> Seq<HistoryEntry> {
    if undo.len() >= capacity && undo.len() > 0 { undo.drop_first().push(e) } else { undo.push(e) }
}

/// Recording keeps the undo stack within its depth.
pub proof fn lemma_undo_depth_bounded(undo: Seq<HistoryEntry>, e: HistoryEntry, capacity: nat)
    requires
        capacity >= 1,
        undo.len() <= capacity,
    ensures
        undo_recorded(undo, e, capacity).len() <= capacity,
        undo_recorded(undo, e, capacity).last() == e,
{
}

/// Law of the bounded undo stack: recording keeps the newest entries. The
/// stack after it is the latest `min(capacity, |undo| + 1)` entries of
/// `undo` followed by `e`, in order; only the oldest is dropped when the
/// stack is full.
pub proof fn lemma_undo_keeps_newest(undo: Seq<HistoryEntry>, e: HistoryEntry, capacity: nat)
    requires
        capacity >= 1,
        undo.len() <= capacity,
    ensures
        undo_recorded(undo, e, capacity).len() == (if undo.len() + 1 <= capacity { undo.len() + 1 } else { capacity }),
        undo_recorded(undo, e, capacity) == undo.push(e).skip(undo.len() + 1 - undo_recorded(undo, e, capacity).len()),
{
    if undo.len() >= capacity && undo.len() > 0 {
        assert(undo.drop_first().push(e) =~= undo.push(e).skip(1));
    } else {
        assert(undo.push(e).skip(0) =~= undo.push(e));
    }
}

impl History {
    /// Creates a history with the given undo depth (at least 1).
    pub fn new(capacity: usize) -> (h: History)
        ensures
            h@.undo.len() == 0,
            h@.redo.len() == 0,
            h@.capacity == (if capacity > 1 { capacity as nat } else { 1 }),
    {
        History { undo_stack: Vec::new(), redo_stack: Vec::new(), capacity: if capacity > 1 { capacity } else { 1 } }
    }

    /// Records a new operation: pushes onto the undo stack and clears redo.
    pub fn record(&mut self, entry: HistoryEntry)
        ensures
            final(self)@.redo.len() == 0,
            final(self)@.undo == undo_recorded(old(self)@.undo, entry, old(self)@.capacity),
            final(self)@.capacity == old(self)@.capacity,
    {
        self.redo_stack.clear();
        if self.undo_stack.len() >= self.capacity && self.undo_stack.len() > 0 {
            self.undo_stack.remove(0);
        }
        self.undo_stack.push(entry);
        proof {
            assert(self.undo_stack@ =~= undo_recorded(old(self)@.undo, entry, old(self)@.capacity));
        }
    }

    /// Pops the most recent entry for undo.
    pub fn pop_undo(&mut self) -> (r: Option<HistoryEntry>)
        ensures
            old(self)@.undo.len() == 0 ==> r is None && final(self)@ == old(self)@,
            old(self)@.undo.len() > 0 ==> r == Some(old(self)@.undo.last())
                && final(self)@.undo == old(self)@.undo.drop_last()
                && final(self)@.redo == old(self)@.redo
                && final(self)@.capacity == old(self)@.capacity,
    {
        self.undo_stack.pop()
    }

    /// Parks a popped entry on the redo stack.
    pub fn push_redo(&mut self, entry: HistoryEntry)
        ensures
            final(self)@.redo == old(self)@.redo.push(entry),
            final(self)@.undo == old(self)@.undo,
            final(self)@.capacity == old(self)@.capacity,
    {
        self.redo_stack.push(entry);
    }

    /// Pops the most recent entry for redo.
    pub fn pop_redo(&mut self) -> (r: Option<HistoryEntry>)
        ensures
            old(self)@.redo.len() == 0 ==> r is None && final(self)@ == old(self)@,
            old(self)@.redo.len() > 0 ==> r == Some(old(self)@.redo.last())
                && final(self)@.redo == old(self)@.redo.drop_last()
                && final(self)@.undo == old(self)@.undo
                && final(self)@.capacity == old(self)@.capacity,
    {
        self.redo_stack.pop()
    }

    /// Returns a popped entry to the undo stack (after redo).
    pub fn push_undo(&mut self, entry: HistoryEntry)
        ensures
            final(self)@.undo == old(self)@.undo.push(entry),
            final(self)@.redo == old(self)@.redo,
            final(self)@.capacity == old(self)@.capacity,
    {
        self.undo_stack.push(entry);
    }

    /// Number of undoable operations.
    pub fn undo_len(&self) -> (n: usize)
        ensures
            n == self@.undo.len(),
    {
        self.undo_stack.len()
    }

    /// Number of redoable operations.
    pub fn redo_len(&self) -> (n: usize)
        ensures
            n == self@.redo.len(),
    {
        self.redo_stack.len()
    }

    /// Clears all history.
    pub fn clear(&mut self)
        ensures
            final(self)@.undo.len() == 0,
            final(self)@.redo.len() == 0,
            final(self)@.capacity == old(self)@.capacity,
    {
        self.undo_stack.clear();
        self.redo_stack.clear();
    }
}

/// `r` re-inserts clip `id` with its resolved values in `m`.
pub open spec fn clip_restore(m: SessionModel, id: ClipId, r: TimelineOperation) -> bool {
    let p = m.resolved(id.0);
    &&& r matches TimelineOperation::InsertClip { clip_id, track_id, clip, position }
    &&& r->InsertClip_clip_id == id
    &&& r->InsertClip_track_id == p.track_id
    &&& r->InsertClip_clip.name@ == p.name
    &&& r->InsertClip_clip.source@ == p.source
    &&& r->InsertClip_clip.start_frame == p.start_frame
    &&& r->InsertClip_clip.duration_frames == p.duration_frames
    &&& r->InsertClip_clip.color == p.color
    &&& r->InsertClip_clip.gain == p.gain
    &&& r->InsertClip_clip.muted == p.muted
    &&& r->InsertClip_clip.locked == p.locked
    &&& r->InsertClip_position == p.order_hint
}

/// `r` re-inserts track `id` with its current values in `m`.
pub open spec fn track_restore(m: SessionModel, id: TrackId, r: TimelineOperation) -> bool {
    let t = m.tracks[id.0];
    &&& r matches TimelineOperation::InsertTrack { track_id, track, position }
    &&& r->InsertTrack_track_id == id
    &&& r->InsertTrack_track.name@ == t.name.val()
    &&& r->InsertTrack_track.kind == t.kind.val()
    &&& r->InsertTrack_track.volume_db == t.volume_db.val()
    &&& r->InsertTrack_track.muted == t.muted.val()
    &&& r->InsertTrack_track.solo == t.solo.val()
    &&& r->InsertTrack_position == t.order_hint.val()
}

/// `r` is `Some` exactly when `w` is, holding the text `v`.
pub open spec fn text_restored(w: Option<String>, r: Option<String>, v: Seq<char>) -> bool {
    &&& (r is Some <==> w is Some)
    &&& r is Some ==> r->0@ == v
}

/// `r` is `Some(v)` exactly when `w` is `Some`.
pub open spec fn restored<T>(w: Option<T>, r: Option<T>, v: T) -> bool {
    r == (if w is Some { Some(v) } else { None })
}

/// `r` is the inverse of `op` against the state `m` it is applied to:
/// the operation that puts back what `op` overwrites, or `None` when
/// there is nothing to undo.
pub open spec fn inverse_of(m: SessionModel, op: TimelineOperation, r: Option<TimelineOperation>) -> bool {
    match op {
        TimelineOperation::InsertClip { clip_id, .. } =>
            if m.clips.contains_key(clip_id.0) {
                r is Some && clip_restore(m, clip_id, r->0)
            } else {
                r == Some(TimelineOperation::DeleteClip { clip_id })
            },
        TimelineOperation::MoveClip { clip_id, .. } => {
            let p = m.resolved(clip_id.0);
            if m.clips.contains_key(clip_id.0) {
                r == Some(TimelineOperation::MoveClip {
                    clip_id,
                    new_track_id: p.track_id,
                    new_start_frame: p.start_frame,
                    new_position: p.order_hint,
                })
            } else {
                r is None
            }
        },
        TimelineOperation::DeleteClip { clip_id } =>
            if m.clips.contains_key(clip_id.0) {
                r is Some && clip_restore(m, clip_id, r->0)
            } else {
                r is None
            },
        TimelineOperation::SplitClip { clip_id, split_frame, new_clip_id } =>
            if m.clips.contains_key(new_clip_id.0) {
                r is None
            } else {
                r == Some(TimelineOperation::UnsplitClip { clip_id, split_frame, new_clip_id })
            },
        TimelineOperation::UnsplitClip { clip_id, split_frame, new_clip_id } =>
            if m.clips.contains_key(clip_id.0) && m.clips.contains_key(new_clip_id.0) {
                r == Some(TimelineOperation::SplitClip { clip_id, split_frame, new_clip_id })
            } else {
                r is None
            },
        TimelineOperation::TrimClip { clip_id, edge, .. } => {
            let p = m.resolved(clip_id.0);
            if m.clips.contains_key(clip_id.0) {
                r == Some(TimelineOperation::TrimClip {
                    clip_id,
                    new_start_frame: p.start_frame,
                    new_duration: p.duration_frames,
                    edge,
                })
            } else {
                r is None
            }
        },
        TimelineOperation::UpdateClipMetadata { clip_id, updates } => {
            let p = m.resolved(clip_id.0);
            if m.clips.contains_key(clip_id.0) {
                &&& r is Some
                &&& r->0 matches TimelineOperation::UpdateClipMetadata { clip_id: c, updates: u }
                &&& r->0->UpdateClipMetadata_clip_id == clip_id
                &&& text_restored(updates.name, r->0->UpdateClipMetadata_updates.name, p.name)
                &&& text_restored(updates.source, r->0->UpdateClipMetadata_updates.source, p.source)
                &&& restored(updates.color, r->0->UpdateClipMetadata_updates.color, p.color)
                &&& restored(updates.gain, r->0->UpdateClipMetadata_updates.gain, p.gain)
                &&& restored(updates.muted, r->0->UpdateClipMetadata_updates.muted, p.muted)
                &&& restored(updates.locked, r->0->UpdateClipMetadata_updates.locked, p.locked)
            } else {
                r is None
            }
        },
        TimelineOperation::InsertTrack { track_id, .. } =>
            if m.tracks.contains_key(track_id.0) {
                r is Some && track_restore(m, track_id, r->0)
            } else {
                r == Some(TimelineOperation::DeleteTrack { track_id })
            },
        TimelineOperation::UpdateTrackMetadata { track_id, updates } => {
            let t = m.tracks[track_id.0];
            if m.tracks.contains_key(track_id.0) {
                &&& r is Some
                &&& r->0 matches TimelineOperation::UpdateTrackMetadata { track_id: k, updates: u }
                &&& r->0->UpdateTrackMetadata_track_id == track_id
                &&& text_restored(updates.name, r->0->UpdateTrackMetadata_updates.name, t.name.val())
                &&& restored(updates.volume_db, r->0->UpdateTrackMetadata_updates.volume_db, t.volume_db.val())
                &&& restored(updates.muted, r->0->UpdateTrackMetadata_updates.muted, t.muted.val())
                &&& restored(updates.solo, r->0->UpdateTrackMetadata_updates.solo, t.solo.val())
                &&& restored(updates.position, r->0->UpdateTrackMetadata_updates.position, t.order_hint.val())
            } else {
                r is None
            }
        },
        TimelineOperation::DeleteTrack { track_id } =>
            if m.tracks.contains_key(track_id.0) {
                r is Some && track_restore(m, track_id, r->0)
            } else {
                r is None
            },
        TimelineOperation::UpdateEnvelope { target_id, envelope_type, .. } => {
            let k = (target_id, envelope_type@);
            &&& r is Some
            &&& r->0 matches TimelineOperation::UpdateEnvelope { target_id: t, envelope_type: e, points: p }
            &&& r->0->UpdateEnvelope_target_id == target_id
            &&& r->0->UpdateEnvelope_envelope_type@ == envelope_type@
            &&& r->0->UpdateEnvelope_points@ == (if m.envelopes.contains_key(k) { m.envelopes[k].val() } else { Seq::empty() })
        },
        TimelineOperation::UpdateSessionMetadata { updates } => {
            let md = m.metadata;
            &&& r is Some
            &&& r->0 matches TimelineOperation::UpdateSessionMetadata { updates: u }
            &&& text_restored(updates.name, r->0->UpdateSessionMetadata_updates.name, md.name.val())
            &&& restored(updates.sample_rate, r->0->UpdateSessionMetadata_updates.sample_rate, md.sample_rate.val())
            &&& restored(updates.tempo_bpm, r->0->UpdateSessionMetadata_updates.tempo_bpm, md.tempo_bpm.val())
            &&& restored(updates.time_signature_numerator,
                r->0->UpdateSessionMetadata_updates.time_signature_numerator, md.ts_numerator.val())
            &&& restored(updates.time_signature_denominator,
                r->0->UpdateSessionMetadata_updates.time_signature_denominator, md.ts_denominator.val())
        },
    }
}

/// Picks `v` where `w` is set.
fn restore_if<T, U>(w: &Option<T>, v: U) -> (r: Option<U>)
    ensures
        r == (if w is Some { Some(v) } else { None }),
{
    match w {
        Some(_) => Some(v),
        None => None,
    }
}

/// Picks a copy of `v` where `w` is set.
fn restore_text_if(w: &Option<String>, v: &String) -> (r: Option<String>)
    ensures
        text_restored(*w, r, v@),
{
    match w {
        Some(_) => Some(v.clone()),
        None => None,
    }
}

/// Copies envelope points out of a slice.
fn points_of(p: &[EnvelopePoint]) -> (r: Vec<EnvelopePoint>)
    ensures
        r@ == p@,
{
    let mut r: Vec<EnvelopePoint> = Vec::new();
    let mut i: usize = 0;
    while i < p.len()
        invariant
            i <= p@.len(),
            r@ == p@.subrange(0, i as int),
        decreases p@.len() - i,
    {
        r.push(p[i]);
        i = i + 1;
        proof { assert(r@ =~= p@.subrange(0, i as int)); }
    }
    proof { assert(r@ =~= p@); }
    r
}

/// The insert that restores a resolved clip.
fn restore_clip(session: &Session, clip_id: ClipId) -> (r: Option<TimelineOperation>)
    requires
        session.wf(),
    ensures
        session@.clips.contains_key(clip_id.0) ==> r is Some && clip_restore(session@, clip_id, r->0),
        !session@.clips.contains_key(clip_id.0) ==> r is None,
{
    match session.resolve_clip(&clip_id) {
        Some(prev) => Some(TimelineOperation::InsertClip {
            clip_id,
            track_id: prev.track_id,
            clip: ClipData {
                name: prev.name,
                source: prev.source,
                start_frame: prev.start_frame,
                duration_frames: prev.duration_frames,
                color: prev.color,
                gain: prev.gain,
                muted: prev.muted,
                locked: prev.locked,
            },
            position: prev.order_hint,
        }),
        None => None,
    }
}

/// The insert that restores a track.
fn restore_track(session: &Session, track_id: TrackId) -> (r: Option<TimelineOperation>)
    requires
        session.wf(),
    ensures
        session@.tracks.contains_key(track_id.0) ==> r is Some && track_restore(session@, track_id, r->0),
        !session@.tracks.contains_key(track_id.0) ==> r is None,
{
    match session.track(&track_id) {
        Some(prev) => {
            proof { lemma_text_reg(prev.name); }
            Some(TimelineOperation::InsertTrack {
                track_id,
                track: prev.to_track_data(),
                position: *prev.order_hint.get(),
            })
        },
        None => None,
    }
}

/// Computes the inverse of `op` against the session state as it was before
/// the operation was applied. Returns `None` when the operation is a no-op
/// (nothing to undo).
pub fn compute_inverse(op: &TimelineOperation, session: &Session) -> (r: Option<TimelineOperation>)
    requires
        session.wf(),
    ensures
        inverse_of(session@, *op, r),
{
    match op {
        TimelineOperation::InsertClip { clip_id, .. } => {
            match session.clip(clip_id) {
                Some(_) => restore_clip(session, *clip_id),
                None => Some(TimelineOperation::DeleteClip { clip_id: *clip_id }),
            }
        },
        TimelineOperation::MoveClip { clip_id, .. } => {
            match session.resolve_clip(clip_id) {
                Some(prev) => Some(TimelineOperation::MoveClip {
                    clip_id: *clip_id,
                    new_track_id: prev.track_id,
                    new_start_frame: prev.start_frame,
                    new_position: prev.order_hint,
                }),
                None => None,
            }
        },
        TimelineOperation::DeleteClip { clip_id } => restore_clip(session, *clip_id),
        TimelineOperation::SplitClip { clip_id, split_frame, new_clip_id } => {
            match session.clip(new_clip_id) {
                Some(_) => None,
                None => Some(TimelineOperation::UnsplitClip {
                    clip_id: *clip_id,
                    split_frame: *split_frame,
                    new_clip_id: *new_clip_id,
                }),
            }
        },
        TimelineOperation::UnsplitClip { clip_id, split_frame, new_clip_id } => {
            if session.clip(clip_id).is_some() && session.clip(new_clip_id).is_some() {
                Some(TimelineOperation::SplitClip {
                    clip_id: *clip_id,
                    split_frame: *split_frame,
                    new_clip_id: *new_clip_id,
                })
            } else {
                None
            }
        },
        TimelineOperation::TrimClip { clip_id, edge, .. } => {
            match session.resolve_clip(clip_id) {
                Some(prev) => Some(TimelineOperation::TrimClip {
                    clip_id: *clip_id,
                    new_start_frame: prev.start_frame,
                    new_duration: prev.duration_frames,
                    edge: *edge,
                }),
                None => None,
            }
        },
        TimelineOperation::UpdateClipMetadata { clip_id, updates } => {
            match session.resolve_clip(clip_id) {
                Some(prev) => Some(TimelineOperation::UpdateClipMetadata {
                    clip_id: *clip_id,
                    updates: ClipMetadataUpdate {
                        name: restore_text_if(&updates.name, &prev.name),
                        source: restore_text_if(&updates.source, &prev.source),
                        color: restore_if(&updates.color, prev.color),
                        gain: restore_if(&updates.gain, prev.gain),
                        muted: restore_if(&updates.muted, prev.muted),
                        locked: restore_if(&updates.locked, prev.locked),
                    },
                }),
                None => None,
            }
        },
        TimelineOperation::InsertTrack { track_id, .. } => {
            match session.track(track_id) {
                Some(_) => restore_track(session, *track_id),
                None => Some(TimelineOperation::DeleteTrack { track_id: *track_id }),
            }
        },
        TimelineOperation::UpdateTrackMetadata { track_id, updates } => {
            match session.track(track_id) {
                Some(prev) => {
                    proof { lemma_text_reg(prev.name); }
                    Some(TimelineOperation::UpdateTrackMetadata {
                        track_id: *track_id,
                        updates: TrackMetadataUpdate {
                            name: restore_text_if(&updates.name, prev.name.get()),
                            volume_db: restore_if(&updates.volume_db, *prev.volume_db.get()),
                            muted: restore_if(&updates.muted, *prev.muted.get()),
                            solo: restore_if(&updates.solo, *prev.solo.get()),
                            position: restore_if(&updates.position, *prev.order_hint.get()),
                        },
                    })
                },
                None => None,
            }
        },
        TimelineOperation::DeleteTrack { track_id } => restore_track(session, *track_id),
        TimelineOperation::UpdateEnvelope { target_id, envelope_type, .. } => {
            let old_points = match session.envelopes().get(target_id, envelope_type) {
                Some(p) => points_of(p),
                None => Vec::new(),
            };
            Some(TimelineOperation::UpdateEnvelope {
                target_id: *target_id,
                envelope_type: envelope_type.duplicate(),
                points: old_points,
            })
        },
        TimelineOperation::UpdateSessionMetadata { updates } => {
            let current = session.materialize().metadata;
            Some(compute_session_metadata_inverse(updates, &current))
        },
    }
}

/// The inverse of a session-metadata update against the materialized
/// metadata `current`.
pub fn compute_session_metadata_inverse(updates: &SessionMetadataUpdate, current: &SessionMetadata)
    -> (r: TimelineOperation)
    ensures
        r matches TimelineOperation::UpdateSessionMetadata { updates: u },
        text_restored(updates.name, r->UpdateSessionMetadata_updates.name, current.name@),
        restored(updates.sample_rate, r->UpdateSessionMetadata_updates.sample_rate, current.sample_rate),
        restored(updates.tempo_bpm, r->UpdateSessionMetadata_updates.tempo_bpm, current.tempo_bpm),
        restored(updates.time_signature_numerator,
            r->UpdateSessionMetadata_updates.time_signature_numerator, current.time_signature.0),
        restored(updates.time_signature_denominator,
            r->UpdateSessionMetadata_updates.time_signature_denominator, current.time_signature.1),
{
    TimelineOperation::UpdateSessionMetadata {
        updates: SessionMetadataUpdate {
            name: restore_text_if(&updates.name, &current.name),
            sample_rate: restore_if(&updates.sample_rate, current.sample_rate),
            tempo_bpm: restore_if(&updates.tempo_bpm, current.tempo_bpm),
            time_signature_numerator: restore_if(&updates.time_signature_numerator, current.time_signature.0),
            time_signature_denominator: restore_if(&updates.time_signature_denominator, current.time_signature.1),
        },
    }
}

} // verus!
