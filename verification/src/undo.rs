//! Laws of undo: an edit written above every tag of what it edits, followed
//! by its inverse written above the edit, leaves the values it overwrote
//! as they were.

use vstd::prelude::*;
use crate::compaction::{clip_tag_seq, metadata_tag_seq, track_tag_seq};
use crate::clip_crdt::ClipModel;
use crate::convergence::{clip_target, track_target};
use crate::history::inverse_of;
use crate::merge::{LwwReg, OpTag, effect};
use crate::state::{MetadataModel, SessionModel, text_effect};
use crate::envelope_crdt::{EnvelopeKey, blank_envelope};
use crate::operation::{EnvelopePoint, TimelineOperation, TrackId};
use crate::track_crdt::TrackModel;

verus! {

/// `t` is above every tag in `tags`.
pub open spec fn newer_than(t: OpTag, tags: Seq<OpTag>) -> bool {
    forall|i: int| 0 <= i < tags.len() ==> t.above(#[trigger] tags[i])
}

/// The key of the track `op` edits (0 when it edits none).
pub open spec fn edited_track(op: crate::operation::TimelineOperation) -> u64 {
    match track_target(op) {
        Some(t) => t.0,
        None => 0,
    }
}

/// The values a track shows.
pub open spec fn track_values(t: TrackModel) -> (bool, Seq<char>, crate::operation::TrackKind, u32, bool, bool, u64) {
    (t.alive.val(), t.name.val(), t.kind.val(), t.volume_db.val(), t.muted.val(), t.solo.val(), t.order_hint.val())
}

/// The values the session metadata shows.
pub open spec fn metadata_values(md: MetadataModel) -> (Seq<char>, u32, u64, u32, u32) {
    (md.name.val(), md.sample_rate.val(), md.tempo_bpm.val(), md.ts_numerator.val(), md.ts_denominator.val())
}

/// A write newer than a register, then the register's former value
/// written newer still (at least where the first write was made), leave
/// the register showing its former value.
pub proof fn lemma_effect_undone<T>(r: LwwReg<T>, w: Option<T>, back: Option<T>, t1: OpTag, t2: OpTag)
    requires
        t1.above(r.stamp()),
        t2.above(t1),
        w is Some ==> back == Some(r.val()),
        back is Some ==> back->0 == r.val(),
    ensures
        effect(effect(r, w, t1), back, t2).val() == r.val(),
{
    if let Some(v) = w {
        LwwReg::lemma_holding(v, t1);
    }
    LwwReg::lemma_holding(r.val(), t2);
}

/// Undoing a track edit restores the track: a metadata update of an
/// existing track, or a delete or re-insert of a live track, written above
/// every tag the track holds, followed by its inverse written above the
/// edit, leaves the track showing the values it showed before.
pub proof fn lemma_undo_track_edit(m: SessionModel, op: crate::operation::TimelineOperation,
    inv: crate::operation::TimelineOperation, t1: OpTag, t2: OpTag)
    requires
        op is UpdateTrackMetadata || op is DeleteTrack || op is InsertTrack,
        m.tracks.contains_key(edited_track(op)),
        !(op is UpdateTrackMetadata) ==> m.tracks[edited_track(op)].alive.val(),
        inverse_of(m, op, Some(inv)),
        newer_than(t1, track_tag_seq(m.tracks[edited_track(op)])),
        t2.above(t1),
    ensures
        track_values(m.applied(op, t1).0.applied(inv, t2).0.tracks[edited_track(op)])
            == track_values(m.tracks[edited_track(op)]),
{
    let k = edited_track(op);
    let tr = m.tracks[k];
    assert(t1.above(track_tag_seq(tr)[0]) && t1.above(track_tag_seq(tr)[1]) && t1.above(track_tag_seq(tr)[2])
        && t1.above(track_tag_seq(tr)[3]) && t1.above(track_tag_seq(tr)[4]) && t1.above(track_tag_seq(tr)[5])
        && t1.above(track_tag_seq(tr)[6]));
    let a = tr.applied(op, t1);
    let b = a.applied(inv, t2);
    assert(m.applied(op, t1).0.tracks[k] == a);
    assert(m.applied(op, t1).0.applied(inv, t2).0.tracks[k] == b);
    match op {
        crate::operation::TimelineOperation::UpdateTrackMetadata { updates, .. } => {
            let u = inv->UpdateTrackMetadata_updates;
            let nw = match updates.name { Some(v) => Some(v@), None => None };
            let nb = match u.name { Some(v) => Some(v@), None => None };
            lemma_effect_undone(tr.name, nw, nb, t1, t2);
            lemma_effect_undone(tr.volume_db, updates.volume_db, u.volume_db, t1, t2);
            lemma_effect_undone(tr.muted, updates.muted, u.muted, t1, t2);
            lemma_effect_undone(tr.solo, updates.solo, u.solo, t1, t2);
            lemma_effect_undone(tr.order_hint, updates.position, u.position, t1, t2);
        },
        _ => {
            let d = inv->InsertTrack_track;
            lemma_effect_undone(tr.alive, crate::track_crdt::track_alive_write(op), Some(true), t1, t2);
            lemma_effect_undone(tr.name, crate::track_crdt::track_name_write(op), Some(d.name@), t1, t2);
            lemma_effect_undone(tr.kind, crate::track_crdt::track_kind_write(op), Some(d.kind), t1, t2);
            lemma_effect_undone(tr.volume_db, crate::track_crdt::track_volume_write(op), Some(d.volume_db), t1, t2);
            lemma_effect_undone(tr.muted, crate::track_crdt::track_muted_write(op), Some(d.muted), t1, t2);
            lemma_effect_undone(tr.solo, crate::track_crdt::track_solo_write(op), Some(d.solo), t1, t2);
            lemma_effect_undone(tr.order_hint, crate::track_crdt::track_hint_write(op), Some(inv->InsertTrack_position), t1, t2);
        },
    }
}


/// Undoing a session-metadata edit restores the metadata: an update
/// written above every tag the metadata holds, followed by its inverse
/// written above the update, leaves the metadata showing the values it
/// showed before.
pub proof fn lemma_undo_metadata_edit(m: SessionModel, op: TimelineOperation, inv: TimelineOperation, t1: OpTag, t2: OpTag)
    requires
        op is UpdateSessionMetadata,
        inverse_of(m, op, Some(inv)),
        newer_than(t1, metadata_tag_seq(m.metadata)),
        t2.above(t1),
    ensures
        metadata_values(m.applied(op, t1).0.applied(inv, t2).0.metadata) == metadata_values(m.metadata),
{
    let md = m.metadata;
    assert(t1.above(metadata_tag_seq(md)[0]) && t1.above(metadata_tag_seq(md)[1]) && t1.above(metadata_tag_seq(md)[2])
        && t1.above(metadata_tag_seq(md)[3]) && t1.above(metadata_tag_seq(md)[4]));
    let w = op->UpdateSessionMetadata_updates;
    let u = inv->UpdateSessionMetadata_updates;
    let nw = match w.name { Some(v) => Some(v@), None => None };
    let nb = match u.name { Some(v) => Some(v@), None => None };
    assert(text_effect(md.name, w.name, t1) == effect(md.name, nw, t1));
    assert(text_effect(effect(md.name, nw, t1), u.name, t2) == effect(effect(md.name, nw, t1), nb, t2));
    lemma_effect_undone(md.name, nw, nb, t1, t2);
    lemma_effect_undone(md.sample_rate, w.sample_rate, u.sample_rate, t1, t2);
    lemma_effect_undone(md.tempo_bpm, w.tempo_bpm, u.tempo_bpm, t1, t2);
    lemma_effect_undone(md.ts_numerator, w.time_signature_numerator, u.time_signature_numerator, t1, t2);
    lemma_effect_undone(md.ts_denominator, w.time_signature_denominator, u.time_signature_denominator, t1, t2);
}

/// The points an envelope shows: none when it was never written.
pub open spec fn envelope_shown(m: SessionModel, k: EnvelopeKey) -> Seq<EnvelopePoint> {
    if m.envelopes.contains_key(k) { m.envelopes[k].val() } else { Seq::empty() }
}

/// The envelope register at `k`, blank when never written.
pub open spec fn envelope_reg(m: SessionModel, k: EnvelopeKey) -> LwwReg<Seq<EnvelopePoint>> {
    if m.envelopes.contains_key(k) { m.envelopes[k] } else { blank_envelope() }
}

/// Undoing an envelope edit restores the envelope: an edit of an envelope
/// whose target exists, written above the envelope's tag, followed by its
/// inverse written above the edit, leaves the envelope showing the points
/// it showed before.
pub proof fn lemma_undo_envelope_edit(m: SessionModel, op: TimelineOperation, inv: TimelineOperation, t1: OpTag, t2: OpTag)
    requires
        op is UpdateEnvelope,
        m.applied(op, t1).1 is None,
        inverse_of(m, op, Some(inv)),
        t1.above(envelope_reg(m, (op->UpdateEnvelope_target_id, op->UpdateEnvelope_envelope_type@)).stamp()),
        t2.above(t1),
    ensures
        envelope_shown(m.applied(op, t1).0.applied(inv, t2).0, (op->UpdateEnvelope_target_id, op->UpdateEnvelope_envelope_type@))
            == envelope_shown(m, (op->UpdateEnvelope_target_id, op->UpdateEnvelope_envelope_type@)),
{
    let k = (op->UpdateEnvelope_target_id, op->UpdateEnvelope_envelope_type@);
    let r = envelope_reg(m, k);
    let a = m.applied(op, t1).0;
    assert(a.clips == m.clips && a.tracks == m.tracks);
    assert(a.envelopes[k] == r.written(op->UpdateEnvelope_points@, t1));
    LwwReg::lemma_holding(Seq::<EnvelopePoint>::empty(), OpTag::spec_initial());
    lemma_effect_undone(r, Some(op->UpdateEnvelope_points@), Some(inv->UpdateEnvelope_points@), t1, t2);
}


/// The key of the clip `op` edits (0 when it edits none).
pub open spec fn edited_clip(op: TimelineOperation) -> u64 {
    match clip_target(op) {
        Some(c) => c.0,
        None => 0,
    }
}

/// A clip that resolves to its own registers: it has no parent, its start
/// and duration were written, it has no split points, and its end fits in
/// a frame count.
pub open spec fn standalone(c: ClipModel) -> bool {
    &&& c.parent is None
    &&& c.start_frame.stamp() != OpTag::spec_initial()
    &&& c.duration_frames.stamp() != OpTag::spec_initial()
    &&& forall|k: u64| !c.splits.contains_key(k)
    &&& c.start_frame.val() + c.duration_frames.val() <= u64::MAX
}

/// The values a clip shows.
pub open spec fn clip_values(c: ClipModel) -> (bool, TrackId, u64, u64, Seq<char>, Seq<char>, u32, u32, bool, bool, u64) {
    (c.alive.val(), c.track.val(), c.start_frame.val(), c.duration_frames.val(), c.name.val(), c.source.val(),
        c.color.val(), c.gain.val(), c.muted.val(), c.locked.val(), c.order_hint.val())
}

/// A standalone clip resolves to its own registers (its duration while
/// it is visible, 0 otherwise).
pub proof fn lemma_resolved_standalone(m: SessionModel, id: u64)
    requires
        m.clips.contains_key(id),
        standalone(m.clips[id]),
    ensures
        m.resolved(id).track_id == m.clips[id].track.val(),
        m.resolved(id).name == m.clips[id].name.val(),
        m.resolved(id).source == m.clips[id].source.val(),
        m.resolved(id).color == m.clips[id].color.val(),
        m.resolved(id).gain == m.clips[id].gain.val(),
        m.resolved(id).muted == m.clips[id].muted.val(),
        m.resolved(id).locked == m.clips[id].locked.val(),
        m.resolved(id).order_hint == m.clips[id].order_hint.val(),
        m.resolved(id).start_frame == m.clips[id].start_frame.val(),
        m.resolved(id).duration_frames == if m.resolved(id).visible { m.clips[id].duration_frames.val() } else { 0 },
{
    reveal(SessionModel::resolved);
    let c = m.clips[id];
    assert(crate::clip_crdt::first_split(c.splits) is None);
}

/// Undoing a clip edit restores the clip: a move, trim or metadata update
/// of a standalone clip (a visible one, for a trim: a hidden clip resolves
/// to duration 0), written above every tag the clip holds, followed
/// by its inverse written above the edit, leaves the clip showing the
/// values it showed before.
pub proof fn lemma_undo_clip_edit(m: SessionModel, op: TimelineOperation, inv: TimelineOperation, t1: OpTag, t2: OpTag)
    requires
        op is MoveClip || op is TrimClip || op is UpdateClipMetadata,
        m.clips.contains_key(edited_clip(op)),
        standalone(m.clips[edited_clip(op)]),
        op is TrimClip ==> m.resolved(edited_clip(op)).visible,
        inverse_of(m, op, Some(inv)),
        newer_than(t1, clip_tag_seq(m.clips[edited_clip(op)])),
        t2.above(t1),
    ensures
        clip_values(m.applied(op, t1).0.applied(inv, t2).0.clips[edited_clip(op)]) == clip_values(m.clips[edited_clip(op)]),
{
    let k = edited_clip(op);
    let c = m.clips[k];
    lemma_resolved_standalone(m, k);
    let q = clip_tag_seq(c);
    assert(t1.above(q[0]) && t1.above(q[1]) && t1.above(q[2]) && t1.above(q[3]) && t1.above(q[4]) && t1.above(q[5])
        && t1.above(q[6]) && t1.above(q[7]) && t1.above(q[8]) && t1.above(q[9]) && t1.above(q[10]));
    let a = c.applied(op, t1);
    assert(m.applied(op, t1).0.clips[k] == a);
    assert(m.applied(op, t1).0.applied(inv, t2).0.clips[k] == a.applied(inv, t2));
    match op {
        TimelineOperation::MoveClip { new_track_id, new_start_frame, new_position, .. } => {
            lemma_effect_undone(c.track, Some(new_track_id), Some(inv->MoveClip_new_track_id), t1, t2);
            lemma_effect_undone(c.start_frame, Some(new_start_frame), Some(inv->MoveClip_new_start_frame), t1, t2);
            lemma_effect_undone(c.order_hint, Some(new_position), Some(inv->MoveClip_new_position), t1, t2);
        },
        TimelineOperation::TrimClip { new_start_frame, new_duration, .. } => {
            lemma_effect_undone(c.start_frame, Some(new_start_frame), Some(inv->TrimClip_new_start_frame), t1, t2);
            lemma_effect_undone(c.duration_frames, Some(new_duration), Some(inv->TrimClip_new_duration), t1, t2);
        },
        TimelineOperation::UpdateClipMetadata { updates, .. } => {
            let u = inv->UpdateClipMetadata_updates;
            let nw = match updates.name { Some(v) => Some(v@), None => None };
            let nb = match u.name { Some(v) => Some(v@), None => None };
            let sw = match updates.source { Some(v) => Some(v@), None => None };
            let sb = match u.source { Some(v) => Some(v@), None => None };
            lemma_effect_undone(c.name, nw, nb, t1, t2);
            lemma_effect_undone(c.source, sw, sb, t1, t2);
            lemma_effect_undone(c.color, updates.color, u.color, t1, t2);
            lemma_effect_undone(c.gain, updates.gain, u.gain, t1, t2);
            lemma_effect_undone(c.muted, updates.muted, u.muted, t1, t2);
            lemma_effect_undone(c.locked, updates.locked, u.locked, t1, t2);
        },
        _ => {},
    }
}

/// Undoing a delete or re-insert of a visible standalone clip brings the
/// clip back with every value it showed before, gain, mute and lock
/// included.
pub proof fn lemma_undo_clip_delete(m: SessionModel, op: TimelineOperation, inv: TimelineOperation, t1: OpTag, t2: OpTag)
    requires
        op is DeleteClip || op is InsertClip,
        m.clips.contains_key(edited_clip(op)),
        standalone(m.clips[edited_clip(op)]),
        m.resolved(edited_clip(op)).visible,
        inverse_of(m, op, Some(inv)),
        newer_than(t1, clip_tag_seq(m.clips[edited_clip(op)])),
        t2.above(t1),
    ensures
        clip_values(m.applied(op, t1).0.applied(inv, t2).0.clips[edited_clip(op)])
            == clip_values(m.clips[edited_clip(op)]),
{
    let k = edited_clip(op);
    let c = m.clips[k];
    lemma_resolved_standalone(m, k);
    crate::diff_apply::lemma_standalone_visible(m, k);
    let q = clip_tag_seq(c);
    assert(t1.above(q[0]) && t1.above(q[1]) && t1.above(q[2]) && t1.above(q[3]) && t1.above(q[4]) && t1.above(q[5])
        && t1.above(q[6]) && t1.above(q[7]) && t1.above(q[8]) && t1.above(q[9]) && t1.above(q[10]));
    let a = c.applied(op, t1);
    assert(m.applied(op, t1).0.clips[k] == a);
    assert(m.applied(op, t1).0.applied(inv, t2).0.clips[k] == a.applied(inv, t2));
    let d = inv->InsertClip_clip;
    lemma_effect_undone(c.alive, crate::clip_crdt::alive_write(op), Some(true), t1, t2);
    lemma_effect_undone(c.track, crate::clip_crdt::track_write(op), Some(inv->InsertClip_track_id), t1, t2);
    lemma_effect_undone(c.start_frame, crate::clip_crdt::start_write(op), Some(d.start_frame), t1, t2);
    lemma_effect_undone(c.duration_frames, crate::clip_crdt::duration_write(op), Some(d.duration_frames), t1, t2);
    lemma_effect_undone(c.name, crate::clip_crdt::name_write(op), Some(d.name@), t1, t2);
    lemma_effect_undone(c.source, crate::clip_crdt::source_write(op), Some(d.source@), t1, t2);
    lemma_effect_undone(c.color, crate::clip_crdt::color_write(op), Some(d.color), t1, t2);
    lemma_effect_undone(c.gain, crate::clip_crdt::gain_write(op), Some(d.gain), t1, t2);
    lemma_effect_undone(c.muted, crate::clip_crdt::muted_write(op), Some(d.muted), t1, t2);
    lemma_effect_undone(c.locked, crate::clip_crdt::locked_write(op), Some(d.locked), t1, t2);
    lemma_effect_undone(c.order_hint, crate::clip_crdt::hint_write(op), Some(inv->InsertClip_position), t1, t2);
}

/// Undoing the insert of a new clip or track hides it again: after the
/// insert and its inverse (written above the insert), the entry is not
/// alive.
pub proof fn lemma_undo_insert_new(m: SessionModel, op: TimelineOperation, inv: TimelineOperation, t1: OpTag, t2: OpTag)
    requires
        op is InsertClip || op is InsertTrack,
        op is InsertClip ==> !m.clips.contains_key(edited_clip(op)),
        op is InsertTrack ==> !m.tracks.contains_key(edited_track(op)),
        inverse_of(m, op, Some(inv)),
        t2.above(t1),
    ensures
        op is InsertClip ==> !m.applied(op, t1).0.applied(inv, t2).0.clips[edited_clip(op)].alive.val(),
        op is InsertTrack ==> !m.applied(op, t1).0.applied(inv, t2).0.tracks[edited_track(op)].alive.val(),
{
    LwwReg::lemma_holding(true, t1);
    LwwReg::lemma_holding(false, t2);
}

/// Undoing a split restores the split clip: a split of a standalone clip
/// that creates its piece, followed by its inverse written above the
/// split, leaves the split clip exactly as it was (so it resolves as
/// before, its full length included) and the piece deleted; nothing else
/// changes.
pub proof fn lemma_undo_split(m: SessionModel, op: TimelineOperation, inv: TimelineOperation, t1: OpTag, t2: OpTag)
    requires
        op is SplitClip,
        op->SplitClip_clip_id != op->SplitClip_new_clip_id,
        m.clips.contains_key(op->SplitClip_clip_id.0),
        standalone(m.clips[op->SplitClip_clip_id.0]),
        inverse_of(m, op, Some(inv)),
        t2.above(t1),
    ensures
        ({
            let p = op->SplitClip_clip_id.0;
            let c = op->SplitClip_new_clip_id.0;
            let r = m.applied(op, t1).0.applied(inv, t2);
            &&& m.applied(op, t1).1 is None
            &&& r.1 is None
            &&& r.0.clips[p] == m.clips[p]
            &&& r.0.resolved(p) == m.resolved(p)
            &&& r.0.clips.contains_key(c) && !r.0.clips[c].alive.val()
            &&& forall|id: u64| id != c ==> (#[trigger] r.0.clips.contains_key(id) == m.clips.contains_key(id))
                && (m.clips.contains_key(id) ==> r.0.clips[id] == m.clips[id])
            &&& r.0.tracks == m.tracks && r.0.metadata == m.metadata && r.0.envelopes == m.envelopes
        }),
{
    let p = op->SplitClip_clip_id;
    let f = op->SplitClip_split_frame;
    let c = op->SplitClip_new_clip_id;
    assert(!m.clips.contains_key(c.0));
    assert(crate::convergence::fresh_split(m, op));
    crate::convergence::lemma_fresh_split_applied(m, op, t1);
    let a = m.applied(op, t1).0;
    let pc = m.clips[p.0];
    assert(!pc.splits.contains_key(f));
    assert(a.clips[p.0].splits == pc.splits.insert(f, c));
    assert(inv == TimelineOperation::UnsplitClip { clip_id: p, split_frame: f, new_clip_id: c });
    let w = crate::state::without_stale_split(a.clips, (p, f), c);
    assert(pc.splits.insert(f, c).remove(f) =~= pc.splits);
    assert(w[p.0] =~= pc);
    LwwReg::lemma_holding(true, t1);
    LwwReg::lemma_holding(false, t2);
    let r = a.applied(inv, t2).0;
    assert(r.clips[p.0] == pc);
    lemma_resolved_standalone(m, p.0);
    lemma_resolved_standalone(r, p.0);
    crate::diff_apply::lemma_standalone_visible(m, p.0);
    crate::diff_apply::lemma_standalone_visible(r, p.0);
    assert(r.resolved(p.0) == m.resolved(p.0));
    assert forall|id: u64| id != c.0 implies (#[trigger] r.clips.contains_key(id) == m.clips.contains_key(id))
        && (m.clips.contains_key(id) ==> r.clips[id] == m.clips[id]) by {
        if id == p.0 {
        } else {
            assert(w.contains_key(id) == a.clips.contains_key(id));
        }
    }
}

/// Inheriting along the parent links of two clip tables that agree on
/// every link and on the register inherited gives the same value.
proof fn lemma_inherit_alike<T>(clips: Map<u64, ClipModel>, clips2: Map<u64, ClipModel>, x: ClipModel, x2: ClipModel, v: T,
    get: spec_fn(ClipModel) -> LwwReg<T>, n: nat)
    requires
        clips.dom() == clips2.dom(),
        forall|id: u64| clips.contains_key(id) ==> (#[trigger] clips2[id]).parent == clips[id].parent
            && get(clips2[id]) == get(clips[id]),
        x2.parent == x.parent,
        get(x2) == get(x),
    ensures
        crate::state::inherit(clips2, x2, v, get, n) == crate::state::inherit(clips, x, v, get, n),
    decreases n,
{
    if n > 0 {
        match x.parent {
            None => {},
            Some(link) => {
                if clips.contains_key(link.clip.0) {
                    assert(clips2.contains_key(link.clip.0));
                    let p = clips[link.clip.0];
                    let p2 = clips2[link.clip.0];
                    let v2 = if get(x).stamp() == OpTag::spec_initial() { get(p).val() } else { v };
                    lemma_inherit_alike(clips, clips2, p, p2, v2, get, (n - 1) as nat);
                } else {
                    assert(!clips2.contains_key(link.clip.0));
                }
            },
        }
    }
}

/// Undoing a trim restores where the clip shows and for how long: a trim
/// of any clip (a piece of a split included), written above every tag
/// the clip holds, followed by its inverse written above the trim, leaves
/// the clip resolving to the start, duration and visibility it had.
#[verifier::spinoff_prover]
#[verifier::rlimit(40)]
pub proof fn lemma_undo_trim_geometry(m: SessionModel, op: TimelineOperation, inv: TimelineOperation, t1: OpTag, t2: OpTag)
    requires
        op is TrimClip,
        m.clips.contains_key(edited_clip(op)),
        inverse_of(m, op, Some(inv)),
        newer_than(t1, clip_tag_seq(m.clips[edited_clip(op)])),
        t2.above(t1),
    ensures
        ({
            let k = edited_clip(op);
            let r = m.applied(op, t1).0.applied(inv, t2).0;
            &&& r.resolved(k).start_frame == m.resolved(k).start_frame
            &&& r.resolved(k).duration_frames == m.resolved(k).duration_frames
            &&& r.resolved(k).visible == m.resolved(k).visible
        }),
{
    reveal(SessionModel::resolved);
    let k = edited_clip(op);
    let c = m.clips[k];
    let q = clip_tag_seq(c);
    assert(t1.above(q[2]) && t1.above(q[3]));
    let a = m.applied(op, t1).0;
    let ca = c.applied(op, t1);
    assert(a.clips == m.clips.insert(k, ca));
    let rs = inv->TrimClip_new_start_frame;
    let rd = inv->TrimClip_new_duration;
    assert(rs == m.resolved(k).start_frame && rd == m.resolved(k).duration_frames);
    LwwReg::lemma_holding(op->TrimClip_new_start_frame, t1);
    LwwReg::lemma_holding(op->TrimClip_new_duration, t1);
    LwwReg::lemma_holding(rs, t2);
    LwwReg::lemma_holding(rd, t2);
    let c2 = ca.applied(inv, t2);
    let r = a.applied(inv, t2).0;
    assert(r.clips == m.clips.insert(k, c2));
    assert(c2.start_frame.val() == rs && c2.duration_frames.val() == rd);
    assert(c2.start_frame.stamp() == t2 && c2.duration_frames.stamp() == t2);
    assert(c2.detached && c2.parent == c.parent && c2.splits == c.splits && c2.alive == c.alive && c2.track == c.track);
    assert(r.clips.dom() =~= m.clips.dom());
    let f = m.fuel();
    assert(r.fuel() == f);
    let g = crate::state::geometry(m.clips, c, f);
    let range = crate::state::full_range(m.clips, c, f);
    // the shown segment fits in a frame count
    if g is Some {
        let rg = range->0;
        assert(rs == rg.0);
        assert(rd <= crate::state::sat_sub(rg.1, rg.0));
    } else {
        assert(rs == 0 && rd == 0);
    }
    assert(rs + rd <= u64::MAX);
    assert(crate::state::full_range(r.clips, c2, f) == Some((rs, (rs + rd) as u64)));
    assert(crate::state::geometry(r.clips, c2, f) == Some((rs, rd)));
    lemma_inherit_alike(m.clips, r.clips, c, c2, c.track.val(), |x: ClipModel| x.track, f);
    assert(m.resolved(k).visible == (rd > 0));
}

/// The earliest split point of a clip with one split point is that point.
proof fn lemma_one_split(o: u64, c: crate::operation::ClipId)
    requires
        o < u64::MAX,
    ensures
        crate::clip_crdt::first_split(Map::<u64, crate::operation::ClipId>::empty().insert(o, c)) == Some(o),
        crate::clip_crdt::next_boundary(Map::<u64, crate::operation::ClipId>::empty().insert(o, c), o) is None,
{
    let sp = Map::<u64, crate::operation::ClipId>::empty().insert(o, c);
    assert(sp.contains_key(o) && forall|k2: u64| sp.contains_key(k2) ==> o <= k2);
    let k = choose|k: u64| sp.contains_key(k) && forall|k2: u64| sp.contains_key(k2) ==> k <= k2;
    assert(sp.contains_key(k) ==> k == o);
    let b: u64 = if o < u64::MAX { (o + 1) as u64 } else { u64::MAX };
    if exists|k: u64| sp.contains_key(k) && k >= b {
        let k3 = choose|k: u64| sp.contains_key(k) && k >= b;
        assert(k3 == o);
    }
}

/// Law of the split outcome: splitting a visible standalone clip at an
/// offset strictly inside it leaves the clip showing from its start up to
/// the split point, and makes a visible piece that shows from the split
/// point to the clip's former end.
#[verifier::spinoff_prover]
#[verifier::rlimit(40)]
pub proof fn lemma_split_outcome(m: SessionModel, op: TimelineOperation, t: OpTag)
    requires
        op is SplitClip,
        op->SplitClip_clip_id != op->SplitClip_new_clip_id,
        m.clips.dom().finite(),
        m.clips.contains_key(op->SplitClip_clip_id.0),
        !m.clips.contains_key(op->SplitClip_new_clip_id.0),
        standalone(m.clips[op->SplitClip_clip_id.0]),
        m.resolved(op->SplitClip_clip_id.0).visible,
        0 < op->SplitClip_split_frame < m.resolved(op->SplitClip_clip_id.0).duration_frames,
    ensures
        ({
            let p = op->SplitClip_clip_id.0;
            let c = op->SplitClip_new_clip_id.0;
            let o = op->SplitClip_split_frame;
            let before = m.resolved(p);
            let r = m.applied(op, t);
            &&& r.1 is None
            &&& r.0.resolved(p).visible
            &&& r.0.resolved(p).start_frame == before.start_frame
            &&& r.0.resolved(p).duration_frames == o
            &&& r.0.resolved(c).visible
            &&& r.0.resolved(c).start_frame == before.start_frame + o
            &&& r.0.resolved(c).duration_frames == before.duration_frames - o
            &&& r.0.resolved(c).track_id == before.track_id
        }),
{
    let p = op->SplitClip_clip_id;
    let c = op->SplitClip_new_clip_id;
    let o = op->SplitClip_split_frame;
    let pc = m.clips[p.0];
    lemma_resolved_standalone(m, p.0);
    crate::diff_apply::lemma_standalone_visible(m, p.0);
    let st = pc.start_frame.val();
    let d = pc.duration_frames.val();
    assert(m.resolved(p.0).start_frame == st && m.resolved(p.0).duration_frames == d);
    assert(crate::convergence::fresh_split(m, op));
    crate::convergence::lemma_fresh_split_applied(m, op, t);
    let r = m.applied(op, t).0;
    let p2 = pc.applied(op, t);
    let ch = crate::convergence::split_child_of(op, t);
    assert(r.clips == m.clips.insert(p.0, p2).insert(c.0, ch));
    assert(pc.splits =~= Map::<u64, crate::operation::ClipId>::empty());
    assert(p2.splits == Map::<u64, crate::operation::ClipId>::empty().insert(o, c));
    lemma_one_split(o, c);
    LwwReg::lemma_holding(true, t);
    LwwReg::lemma_holding(crate::operation::TrackId(0), OpTag::spec_initial());
    LwwReg::lemma_holding(0u64, OpTag::spec_initial());
    // the session grows by the piece, so walks have at least one step
    assert(r.clips.dom() =~= m.clips.dom().insert(c.0));
    let f = r.fuel();
    assert(r.clips.dom().contains(p.0) && r.clips.dom().contains(c.0));
    assert(f >= 1) by {
        if f == 0 {
            r.clips.dom().lemma_len0_is_empty();
        }
    }
    reveal(SessionModel::resolved);
    assert(st + d <= u64::MAX);
    let fr = crate::state::full_range(r.clips, p2, (f - 1) as nat);
    assert(fr == Some((st, (st + d) as u64)));
    assert(crate::state::full_range(r.clips, p2, f) == Some((st, (st + d) as u64)));
    assert(crate::state::geometry(r.clips, p2, f) == Some((st, o)));
    assert(crate::state::full_range(r.clips, ch, f) == Some(((st + o) as u64, (st + d) as u64)));
    assert(crate::state::geometry(r.clips, ch, f) == Some(((st + o) as u64, (d - o) as u64)));
    assert(r.clips[p.0] == p2);
    assert(ch.parent == Some(crate::clip_crdt::ClipParent { clip: p, offset: o }));
    assert(ch.track.stamp() == OpTag::spec_initial());
    assert(p2.parent is None && p2.track == pc.track);
    let g = |x: ClipModel| x.track;
    assert(crate::state::inherit(r.clips, p2, p2.track.val(), g, (f - 1) as nat) == pc.track.val());
    assert(crate::state::inherit(r.clips, ch, ch.track.val(), g, f)
        == crate::state::inherit(r.clips, p2, p2.track.val(), g, (f - 1) as nat));
}

/// Undoing a move puts the clip back where it showed: a move of any clip
/// (a piece of a split included), written above every tag the clip
/// holds, followed by its inverse written above the move, leaves the clip
/// resolving to the start frame it had.
#[verifier::spinoff_prover]
#[verifier::rlimit(60)]
pub proof fn lemma_undo_move_start(m: SessionModel, op: TimelineOperation, inv: TimelineOperation, t1: OpTag, t2: OpTag)
    requires
        op is MoveClip,
        m.clips.contains_key(edited_clip(op)),
        inverse_of(m, op, Some(inv)),
        newer_than(t1, clip_tag_seq(m.clips[edited_clip(op)])),
        t2.above(t1),
    ensures
        m.applied(op, t1).0.applied(inv, t2).0.resolved(edited_clip(op)).start_frame
            == m.resolved(edited_clip(op)).start_frame,
{
    reveal(SessionModel::resolved);
    let k = edited_clip(op);
    let c = m.clips[k];
    let q = clip_tag_seq(c);
    assert(t1.above(q[1]) && t1.above(q[2]) && t1.above(q[10]));
    let a = m.applied(op, t1).0;
    let ca = c.applied(op, t1);
    assert(a.clips == m.clips.insert(k, ca));
    let rs = inv->MoveClip_new_start_frame;
    assert(rs == m.resolved(k).start_frame);
    LwwReg::lemma_holding(op->MoveClip_new_start_frame, t1);
    LwwReg::lemma_holding(rs, t2);
    let c2 = ca.applied(inv, t2);
    let r = a.applied(inv, t2).0;
    assert(r.clips == m.clips.insert(k, c2));
    assert(c2.start_frame.val() == rs && c2.start_frame.stamp() == t2);
    assert(c2.detached && c2.parent == c.parent && c2.splits == c.splits && c2.duration_frames == c.duration_frames);
    assert(r.clips.dom() =~= m.clips.dom());
    let f = m.fuel();
    assert(r.fuel() == f);
    if c.parent is None && c.duration_frames.stamp() == OpTag::spec_initial() {
        assert(crate::state::full_range(m.clips, c, f) is None);
        assert(crate::state::full_range(r.clips, c2, f) is None);
    } else {
        let g = crate::state::geometry(m.clips, c, f);
        if g is None {
            assert(rs == 0);
        }
        let d2 = c2.duration_frames.val();
        assert(t2 != OpTag::spec_initial());
        assert(crate::state::full_range(r.clips, c2, f) == Some((rs, crate::state::sat_add(rs, d2))));
        let g2 = crate::state::geometry(r.clips, c2, f);
        assert(g2 is Some);
        let shown = g2->0;
        assert(shown.0 == rs);
    }
}

} // verus!
