//! The Lamport clock of a replica covers everything the replica holds, so
//! a local edit is newer than every value it can overwrite.

use vstd::prelude::*;
use crate::clip_crdt::ClipModel;
use crate::compaction::{clip_tag_seq, metadata_tag_seq, track_tag_seq};
use crate::envelope_crdt::EnvelopeKey;
use crate::merge::{LwwReg, OpTag, effect};
use crate::operation::{ClipId, TaggedOperation, TimelineOperation};
use crate::state::{
    MetadataModel, SessionModel, child_resurrected, reparented, split_point_added, text_effect, without_stale_split,
};
use crate::timeline_crdt::{CrdtModel, attempt, drain, local_step, pass, remote_step, stamps, tag_of};
use crate::track_crdt::TrackModel;
use crate::undo::{
    clip_values, edited_clip, edited_track, lemma_undo_clip_edit, lemma_undo_metadata_edit, lemma_undo_track_edit,
    metadata_values, newer_than, standalone, track_values,
};
use crate::history::inverse_of;

verus! {

/// Every register of clip `c` was written at Lamport time `l` or before.
pub open spec fn clip_within(c: ClipModel, l: u64) -> bool {
    &&& c.alive.stamp().lamport <= l
    &&& c.track.stamp().lamport <= l
    &&& c.start_frame.stamp().lamport <= l
    &&& c.duration_frames.stamp().lamport <= l
    &&& c.name.stamp().lamport <= l
    &&& c.source.stamp().lamport <= l
    &&& c.color.stamp().lamport <= l
    &&& c.gain.stamp().lamport <= l
    &&& c.muted.stamp().lamport <= l
    &&& c.locked.stamp().lamport <= l
    &&& c.order_hint.stamp().lamport <= l
}

/// Every register of track `t` was written at Lamport time `l` or before.
pub open spec fn track_within(t: TrackModel, l: u64) -> bool {
    &&& t.alive.stamp().lamport <= l
    &&& t.name.stamp().lamport <= l
    &&& t.kind.stamp().lamport <= l
    &&& t.volume_db.stamp().lamport <= l
    &&& t.muted.stamp().lamport <= l
    &&& t.solo.stamp().lamport <= l
    &&& t.order_hint.stamp().lamport <= l
}

/// Every metadata register was written at Lamport time `l` or before.
pub open spec fn metadata_within(md: MetadataModel, l: u64) -> bool {
    &&& md.name.stamp().lamport <= l
    &&& md.sample_rate.stamp().lamport <= l
    &&& md.tempo_bpm.stamp().lamport <= l
    &&& md.ts_numerator.stamp().lamport <= l
    &&& md.ts_denominator.stamp().lamport <= l
}

/// Every clip of `clips` was written at Lamport time `l` or before.
pub open spec fn clips_within(clips: Map<u64, ClipModel>, l: u64) -> bool {
    forall|id: u64| clips.contains_key(id) ==> clip_within(#[trigger] clips[id], l)
}

/// Every register of `s` was written at Lamport time `l` or before.
pub open spec fn stamps_within(s: SessionModel, l: u64) -> bool {
    &&& clips_within(s.clips, l)
    &&& forall|id: u64| s.tracks.contains_key(id) ==> track_within(#[trigger] s.tracks[id], l)
    &&& forall|k: EnvelopeKey| s.envelopes.contains_key(k) ==> (#[trigger] s.envelopes[k]).stamp().lamport <= l
    &&& metadata_within(s.metadata, l)
}

/// A register's tag after an optional write is its former tag or the
/// write's.
pub proof fn lemma_effect_stamp<T>(r: LwwReg<T>, w: Option<T>, t: OpTag)
    ensures
        effect(r, w, t).stamp() == r.stamp() || effect(r, w, t).stamp() == t,
{
    if let Some(v) = w {
        LwwReg::lemma_holding(v, t);
    }
}

/// A clip after a write at Lamport time `l` or before stays within `l`.
pub proof fn lemma_clip_applied_within(c: ClipModel, op: TimelineOperation, t: OpTag, l: u64)
    requires
        clip_within(c, l),
        t.lamport <= l,
    ensures
        clip_within(c.applied(op, t), l),
{
    lemma_effect_stamp(c.alive, crate::clip_crdt::alive_write(op), t);
    lemma_effect_stamp(c.track, crate::clip_crdt::track_write(op), t);
    lemma_effect_stamp(c.start_frame, crate::clip_crdt::start_write(op), t);
    lemma_effect_stamp(c.duration_frames, crate::clip_crdt::duration_write(op), t);
    lemma_effect_stamp(c.name, crate::clip_crdt::name_write(op), t);
    lemma_effect_stamp(c.source, crate::clip_crdt::source_write(op), t);
    lemma_effect_stamp(c.color, crate::clip_crdt::color_write(op), t);
    lemma_effect_stamp(c.gain, crate::clip_crdt::gain_write(op), t);
    lemma_effect_stamp(c.muted, crate::clip_crdt::muted_write(op), t);
    lemma_effect_stamp(c.locked, crate::clip_crdt::locked_write(op), t);
    lemma_effect_stamp(c.order_hint, crate::clip_crdt::hint_write(op), t);
}

/// A track after a write at Lamport time `l` or before stays within `l`.
pub proof fn lemma_track_applied_within(k: TrackModel, op: TimelineOperation, t: OpTag, l: u64)
    requires
        track_within(k, l),
        t.lamport <= l,
    ensures
        track_within(k.applied(op, t), l),
{
    lemma_effect_stamp(k.alive, crate::track_crdt::track_alive_write(op), t);
    lemma_effect_stamp(k.name, crate::track_crdt::track_name_write(op), t);
    lemma_effect_stamp(k.kind, crate::track_crdt::track_kind_write(op), t);
    lemma_effect_stamp(k.volume_db, crate::track_crdt::track_volume_write(op), t);
    lemma_effect_stamp(k.muted, crate::track_crdt::track_muted_write(op), t);
    lemma_effect_stamp(k.solo, crate::track_crdt::track_solo_write(op), t);
    lemma_effect_stamp(k.order_hint, crate::track_crdt::track_hint_write(op), t);
}


/// Dropping a stale split point keeps the clips within `l`.
proof fn lemma_without_stale_within(clips: Map<u64, ClipModel>, owner: (ClipId, u64), child: ClipId, l: u64)
    requires
        clips_within(clips, l),
    ensures
        clips_within(without_stale_split(clips, owner, child), l),
        without_stale_split(clips, owner, child).dom() == clips.dom(),
{
    let r = without_stale_split(clips, owner, child);
    if clips.contains_key(owner.0.0) && clips[owner.0.0].splits.contains_key(owner.1)
        && clips[owner.0.0].splits[owner.1] == child {
        assert(r.dom() =~= clips.dom());
    }
    assert forall|id: u64| r.contains_key(id) implies clip_within(#[trigger] r[id], l) by {
        assert(clips.contains_key(id));
    }
}

/// Re-parenting, resurrecting and recording a split point keep the clips
/// within `l` when the write is.
proof fn lemma_split_steps_within(clips: Map<u64, ClipModel>, child: ClipId, claim: (ClipId, u64), parent: ClipId,
    offset: u64, t: OpTag, l: u64)
    requires
        clips_within(clips, l),
        clips.contains_key(child.0),
        t.lamport <= l,
    ensures
        clips_within(reparented(clips, child, claim), l),
        reparented(clips, child, claim).dom() == clips.dom(),
        clips_within(child_resurrected(clips, child, t), l),
        child_resurrected(clips, child, t).dom() == clips.dom(),
        clips.contains_key(parent.0) ==> clips_within(split_point_added(clips, parent, offset, child), l),
{
    let c = clips[child.0];
    assert(clip_within(c, l));
    assert(reparented(clips, child, claim).dom() =~= clips.dom());
    assert(child_resurrected(clips, child, t).dom() =~= clips.dom());
    lemma_effect_stamp(c.alive, Some(true), t);
    assert forall|id: u64| reparented(clips, child, claim).contains_key(id) implies
        clip_within(#[trigger] reparented(clips, child, claim)[id], l) by {
        assert(clips.contains_key(id));
    }
    assert forall|id: u64| child_resurrected(clips, child, t).contains_key(id) implies
        clip_within(#[trigger] child_resurrected(clips, child, t)[id], l) by {
        assert(clips.contains_key(id));
    }
    if clips.contains_key(parent.0) {
        assert forall|id: u64| split_point_added(clips, parent, offset, child).contains_key(id) implies
            clip_within(#[trigger] split_point_added(clips, parent, offset, child)[id], l) by {
            assert(clips.contains_key(id));
        }
    }
}

/// A split at Lamport time `l` or before keeps the clips within `l`.
proof fn lemma_split_within(s: SessionModel, clip_id: ClipId, split_frame: u64, new_clip_id: ClipId, t: OpTag, l: u64)
    requires
        stamps_within(s, l),
        t.lamport <= l,
    ensures
        stamps_within(s.split_applied(clip_id, split_frame, new_clip_id, t).0, l),
{
    let claim = (clip_id, split_frame);
    if clip_id == new_clip_id {
    } else if s.clips.contains_key(new_clip_id.0) {
        let current = match s.clips[new_clip_id.0].origin_claim {
            Some(c) => c,
            None => claim,
        };
        if !crate::state::claim_lt(current, claim) {
            let clips1 = if crate::state::claim_lt(claim, current) {
                lemma_without_stale_within(s.clips, current, new_clip_id, l);
                let w = without_stale_split(s.clips, current, new_clip_id);
                lemma_split_steps_within(w, new_clip_id, claim, clip_id, split_frame, t, l);
                reparented(w, new_clip_id, claim)
            } else {
                s.clips
            };
            lemma_split_steps_within(clips1, new_clip_id, claim, clip_id, split_frame, t, l);
            let clips2 = child_resurrected(clips1, new_clip_id, t);
            lemma_split_steps_within(clips2, new_clip_id, claim, clip_id, split_frame, t, l);
        }
    } else if s.clips.contains_key(clip_id.0) {
        let clips1 = split_point_added(s.clips, clip_id, split_frame, new_clip_id);
        assert forall|id: u64| clips1.contains_key(id) implies clip_within(#[trigger] clips1[id], l) by {
            assert(s.clips.contains_key(id));
        }
        let child = ClipModel {
            parent: Some(crate::clip_crdt::ClipParent { clip: clip_id, offset: split_frame }),
            origin_claim: Some(claim),
            ..ClipModel::split_child(t)
        };
        LwwReg::lemma_holding(true, t);
        LwwReg::lemma_holding(crate::operation::TrackId(0), OpTag::spec_initial());
        LwwReg::lemma_holding(0u64, OpTag::spec_initial());
        LwwReg::lemma_holding(Seq::<char>::empty(), OpTag::spec_initial());
        LwwReg::lemma_holding(0u32, OpTag::spec_initial());
        LwwReg::lemma_holding(crate::operation::UNITY_GAIN_BITS, OpTag::spec_initial());
        LwwReg::lemma_holding(false, OpTag::spec_initial());
        assert(clip_within(child, l));
        let n = s.split_applied(clip_id, split_frame, new_clip_id, t).0;
        assert(n.clips == clips1.insert(new_clip_id.0, child));
    }
}

/// Applying any operation at Lamport time `l` or before keeps the state
/// within `l`.
pub proof fn lemma_applied_within(s: SessionModel, op: TimelineOperation, t: OpTag, l: u64)
    requires
        stamps_within(s, l),
        t.lamport <= l,
    ensures
        stamps_within(s.applied(op, t).0, l),
{
    let n = s.applied(op, t).0;
    match op {
        TimelineOperation::SplitClip { clip_id, split_frame, new_clip_id } => {
            lemma_split_within(s, clip_id, split_frame, new_clip_id, t, l);
        },
        TimelineOperation::UnsplitClip { clip_id, split_frame, new_clip_id } => {
            if s.applied(op, t).1 is None {
                let w = crate::state::without_stale_split(s.clips, (clip_id, split_frame), new_clip_id);
                assert forall|id: u64| w.contains_key(id) implies clip_within(#[trigger] w[id], l) by {
                    assert(s.clips.contains_key(id));
                    assert(clip_within(s.clips[id], l));
                }
                lemma_effect_stamp(w[new_clip_id.0].alive, Some(false), t);
                assert forall|id: u64| n.clips.contains_key(id) implies clip_within(#[trigger] n.clips[id], l) by {
                    assert(w.contains_key(id));
                }
            }
        },
        TimelineOperation::InsertClip { clip_id, track_id, clip, position } => {
            if s.clips.contains_key(clip_id.0) {
                lemma_clip_applied_within(s.clips[clip_id.0], op, t, l);
            } else {
                LwwReg::lemma_holding(true, t);
                LwwReg::lemma_holding(track_id, t);
                LwwReg::lemma_holding(clip.start_frame, t);
                LwwReg::lemma_holding(clip.duration_frames, t);
                LwwReg::lemma_holding(clip.name@, t);
                LwwReg::lemma_holding(clip.source@, t);
                LwwReg::lemma_holding(clip.color, t);
                LwwReg::lemma_holding(clip.gain, t);
                LwwReg::lemma_holding(clip.muted, t);
                LwwReg::lemma_holding(clip.locked, t);
                LwwReg::lemma_holding(position, t);
            }
            assert forall|id: u64| n.clips.contains_key(id) implies clip_within(#[trigger] n.clips[id], l) by {
                if id != clip_id.0 {
                    assert(s.clips.contains_key(id));
                }
            }
        },
        TimelineOperation::MoveClip { clip_id, .. }
        | TimelineOperation::DeleteClip { clip_id }
        | TimelineOperation::TrimClip { clip_id, .. }
        | TimelineOperation::UpdateClipMetadata { clip_id, .. } => {
            if s.clips.contains_key(clip_id.0) {
                lemma_clip_applied_within(s.clips[clip_id.0], op, t, l);
                assert forall|id: u64| n.clips.contains_key(id) implies clip_within(#[trigger] n.clips[id], l) by {
                    if id != clip_id.0 {
                        assert(s.clips.contains_key(id));
                    }
                }
            }
        },
        TimelineOperation::InsertTrack { track_id, track, position } => {
            if s.tracks.contains_key(track_id.0) {
                lemma_track_applied_within(s.tracks[track_id.0], op, t, l);
            } else {
                LwwReg::lemma_holding(true, t);
                LwwReg::lemma_holding(track.name@, t);
                LwwReg::lemma_holding(track.kind, t);
                LwwReg::lemma_holding(track.volume_db, t);
                LwwReg::lemma_holding(track.muted, t);
                LwwReg::lemma_holding(track.solo, t);
                LwwReg::lemma_holding(position, t);
            }
            assert forall|id: u64| n.tracks.contains_key(id) implies track_within(#[trigger] n.tracks[id], l) by {
                if id != track_id.0 {
                    assert(s.tracks.contains_key(id));
                }
            }
        },
        TimelineOperation::UpdateTrackMetadata { track_id, .. } | TimelineOperation::DeleteTrack { track_id } => {
            if s.tracks.contains_key(track_id.0) {
                lemma_track_applied_within(s.tracks[track_id.0], op, t, l);
                assert forall|id: u64| n.tracks.contains_key(id) implies track_within(#[trigger] n.tracks[id], l) by {
                    if id != track_id.0 {
                        assert(s.tracks.contains_key(id));
                    }
                }
            }
        },
        TimelineOperation::UpdateEnvelope { target_id, envelope_type, points } => {
            if s.applied(op, t).1 is None {
                let k = (target_id, envelope_type@);
                let cur = if s.envelopes.contains_key(k) { s.envelopes[k] } else { crate::envelope_crdt::blank_envelope() };
                LwwReg::lemma_holding(Seq::<crate::operation::EnvelopePoint>::empty(), OpTag::spec_initial());
                lemma_effect_stamp(cur, Some(points@), t);
                assert forall|k2: EnvelopeKey| n.envelopes.contains_key(k2) implies (#[trigger] n.envelopes[k2]).stamp().lamport <= l by {
                    if k2 != k {
                        assert(s.envelopes.contains_key(k2));
                    }
                }
            }
        },
        TimelineOperation::UpdateSessionMetadata { updates } => {
            let md = s.metadata;
            let nw = match updates.name { Some(v) => Some(v@), None => None };
            assert(text_effect(md.name, updates.name, t) == effect(md.name, nw, t));
            lemma_effect_stamp(md.name, nw, t);
            lemma_effect_stamp(md.sample_rate, updates.sample_rate, t);
            lemma_effect_stamp(md.tempo_bpm, updates.tempo_bpm, t);
            lemma_effect_stamp(md.ts_numerator, updates.time_signature_numerator, t);
            lemma_effect_stamp(md.ts_denominator, updates.time_signature_denominator, t);
        },
    }
}


/// The Lamport time of replica `m` is at least that of every register it
/// holds and of every operation waiting in it.
pub open spec fn clock_covers(m: CrdtModel) -> bool {
    &&& stamps_within(m.session, m.lamport)
    &&& forall|i: int| 0 <= i < m.pending.len() ==> (#[trigger] m.pending[i]).lamport_ts <= m.lamport
}

/// All operations of `ops` are stamped at Lamport time `l` or before.
pub open spec fn ops_within(ops: Seq<TaggedOperation>, l: u64) -> bool {
    forall|i: int| 0 <= i < ops.len() ==> (#[trigger] ops[i]).lamport_ts <= l
}

/// A pass over operations stamped at `l` or before keeps the state within
/// `l`, and keeps only such operations waiting.
proof fn lemma_pass_within(s: SessionModel, ev: Seq<crate::merge::EventModel>, log: Seq<TaggedOperation>,
    ops: Seq<TaggedOperation>, l: u64)
    requires
        stamps_within(s, l),
        ops_within(ops, l),
    ensures
        stamps_within(pass(s, ev, log, ops).0, l),
        ops_within(pass(s, ev, log, ops).2, l),
    decreases ops.len(),
{
    if ops.len() > 0 {
        let ops2 = ops.drop_last();
        assert forall|i: int| 0 <= i < ops2.len() implies (#[trigger] ops2[i]).lamport_ts <= l by {
            assert(ops2[i] == ops[i]);
        }
        lemma_pass_within(s, ev, log, ops2, l);
        let p = pass(s, ev, log, ops2);
        let z = ops.last();
        assert(ops[ops.len() - 1].lamport_ts <= l);
        lemma_applied_within(p.0, z.operation, tag_of(z), l);
        let kept = p.2.push(z);
        assert forall|i: int| 0 <= i < kept.len() implies (#[trigger] kept[i]).lamport_ts <= l by {
            if i < p.2.len() {
                assert(kept[i] == p.2[i]);
            }
        }
    }
}

/// Draining operations stamped at `l` or before keeps the state within
/// `l`, and keeps only such operations waiting.
proof fn lemma_drain_within(s: SessionModel, ev: Seq<crate::merge::EventModel>, log: Seq<TaggedOperation>,
    pend: Seq<TaggedOperation>, l: u64)
    requires
        stamps_within(s, l),
        ops_within(pend, l),
    ensures
        stamps_within(drain(s, ev, log, pend).0, l),
        ops_within(drain(s, ev, log, pend).2, l),
    decreases pend.len(),
{
    lemma_pass_within(s, ev, log, pend, l);
    let p = pass(s, ev, log, pend);
    if p.3 && p.2.len() < pend.len() {
        lemma_drain_within(p.0, p.1, log, p.2, l);
    }
}

/// A state within `l` is within any later time.
pub proof fn lemma_within_later(s: SessionModel, l: u64, l2: u64)
    requires
        stamps_within(s, l),
        l <= l2,
    ensures
        stamps_within(s, l2),
{
    assert forall|id: u64| s.clips.contains_key(id) implies clip_within(#[trigger] s.clips[id], l2) by {
        assert(clip_within(s.clips[id], l));
    }
    assert forall|id: u64| s.tracks.contains_key(id) implies track_within(#[trigger] s.tracks[id], l2) by {
        assert(track_within(s.tracks[id], l));
    }
}

/// A new replica's clock covers its state.
pub proof fn lemma_clock_covers_initial(p: crate::clock::PeerId)
    ensures
        clock_covers(CrdtModel::initial(p)),
{
    LwwReg::lemma_holding(crate::state::DEFAULT_SESSION_NAME@, OpTag::spec_initial());
    LwwReg::lemma_holding(crate::state::DEFAULT_SAMPLE_RATE, OpTag::spec_initial());
    LwwReg::lemma_holding(crate::state::DEFAULT_TEMPO_BITS, OpTag::spec_initial());
    LwwReg::lemma_holding(crate::state::DEFAULT_TIME_SIGNATURE, OpTag::spec_initial());
}

/// A local edit keeps the clock covering the state.
pub proof fn lemma_clock_covers_local(m: CrdtModel, n: CrdtModel, op: TimelineOperation, ts: u64, r: TaggedOperation)
    requires
        clock_covers(m),
        stamps(m, op, ts, r),
        local_step(m, n, op, r),
    ensures
        clock_covers(n),
{
    lemma_within_later(m.session, m.lamport, n.lamport);
    lemma_applied_within(m.session, op, tag_of(r), n.lamport);
    let p1 = if m.session.applied(op, tag_of(r)).1 is Some { m.pending.push(r) } else { m.pending };
    assert forall|i: int| 0 <= i < n.pending.len() implies (#[trigger] n.pending[i]).lamport_ts <= n.lamport by {
        assert(n.pending[i].same(p1[i]));
        if i < m.pending.len() {
            assert(p1[i] == m.pending[i]);
        }
    }
}

/// Receiving an operation keeps the clock covering the state.
pub proof fn lemma_clock_covers_remote(m: CrdtModel, n: CrdtModel, op: TaggedOperation)
    requires
        clock_covers(m),
        remote_step(m, n, op),
    ensures
        clock_covers(n),
{
    if !crate::timeline_crdt::logged(m.log, op.op_id) {
        let l = n.lamport;
        lemma_within_later(m.session, m.lamport, l);
        let a = attempt(m.session, m.events, n.log, op);
        lemma_applied_within(m.session, op.operation, tag_of(op), l);
        let p1 = if a.2 { m.pending } else { m.pending.push(op) };
        assert forall|i: int| 0 <= i < p1.len() implies (#[trigger] p1[i]).lamport_ts <= l by {
            if i < m.pending.len() {
                assert(p1[i] == m.pending[i]);
            }
        }
        lemma_drain_within(a.0, a.1, n.log, p1, l);
    }
}

/// A local edit is newer than everything its replica holds: when the
/// clock covers the state and has not reached its last value, the tag of
/// the next local edit is above the tag of every register.
pub proof fn lemma_local_edit_newer(m: CrdtModel, op: TimelineOperation, ts: u64, r: TaggedOperation)
    requires
        clock_covers(m),
        m.lamport < u64::MAX,
        stamps(m, op, ts, r),
    ensures
        forall|id: u64| m.session.clips.contains_key(id) ==> newer_than(tag_of(r), #[trigger] clip_tag_seq(m.session.clips[id])),
        forall|id: u64| m.session.tracks.contains_key(id) ==> newer_than(tag_of(r), #[trigger] track_tag_seq(m.session.tracks[id])),
        forall|k: EnvelopeKey| m.session.envelopes.contains_key(k) ==> tag_of(r).above((#[trigger] m.session.envelopes[k]).stamp()),
        newer_than(tag_of(r), metadata_tag_seq(m.session.metadata)),
{
    let t = tag_of(r);
    assert(t.lamport == m.lamport + 1);
    assert forall|id: u64| m.session.clips.contains_key(id) implies newer_than(t, #[trigger] clip_tag_seq(m.session.clips[id])) by {
        assert(clip_within(m.session.clips[id], m.lamport));
    }
    assert forall|id: u64| m.session.tracks.contains_key(id) implies newer_than(t, #[trigger] track_tag_seq(m.session.tracks[id])) by {
        assert(track_within(m.session.tracks[id], m.lamport));
    }
}


/// Two local steps in a row: an edit `op` stamped as `r1`, then `inv`
/// stamped as `r2`, from a replica whose clock covers its state and is
/// two ticks short of its last value.
pub open spec fn edit_then(m: CrdtModel, n: CrdtModel, k: CrdtModel, op: TimelineOperation, r1: TaggedOperation,
    inv: TimelineOperation, r2: TaggedOperation, ts1: u64, ts2: u64) -> bool {
    &&& clock_covers(m)
    &&& m.lamport < u64::MAX - 1
    &&& stamps(m, op, ts1, r1)
    &&& local_step(m, n, op, r1)
    &&& stamps(n, inv, ts2, r2)
    &&& local_step(n, k, inv, r2)
}

/// Undo on a replica restores a track: a local edit of a track (as in
/// [`lemma_undo_track_edit`]) followed by the local application of its
/// inverse leaves the track showing its former values.
pub proof fn lemma_replica_undo_track_edit(m: CrdtModel, n: CrdtModel, k: CrdtModel, op: TimelineOperation,
    r1: TaggedOperation, inv: TimelineOperation, r2: TaggedOperation, ts1: u64, ts2: u64)
    requires
        edit_then(m, n, k, op, r1, inv, r2, ts1, ts2),
        op is UpdateTrackMetadata || op is DeleteTrack || op is InsertTrack,
        m.session.tracks.contains_key(edited_track(op)),
        !(op is UpdateTrackMetadata) ==> m.session.tracks[edited_track(op)].alive.val(),
        inverse_of(m.session, op, Some(inv)),
    ensures
        track_values(k.session.tracks[edited_track(op)]) == track_values(m.session.tracks[edited_track(op)]),
{
    lemma_local_edit_newer(m, op, ts1, r1);
    assert(newer_than(tag_of(r1), track_tag_seq(m.session.tracks[edited_track(op)])));
    lemma_undo_track_edit(m.session, op, inv, tag_of(r1), tag_of(r2));
}

/// Undo on a replica restores a clip: a local move, trim or metadata
/// update of a standalone clip (visible, for a trim) followed by the local
/// application of its
/// inverse leaves the clip showing its former values.
pub proof fn lemma_replica_undo_clip_edit(m: CrdtModel, n: CrdtModel, k: CrdtModel, op: TimelineOperation,
    r1: TaggedOperation, inv: TimelineOperation, r2: TaggedOperation, ts1: u64, ts2: u64)
    requires
        edit_then(m, n, k, op, r1, inv, r2, ts1, ts2),
        op is MoveClip || op is TrimClip || op is UpdateClipMetadata,
        m.session.clips.contains_key(edited_clip(op)),
        standalone(m.session.clips[edited_clip(op)]),
        op is TrimClip ==> m.session.resolved(edited_clip(op)).visible,
        inverse_of(m.session, op, Some(inv)),
    ensures
        clip_values(k.session.clips[edited_clip(op)]) == clip_values(m.session.clips[edited_clip(op)]),
{
    lemma_local_edit_newer(m, op, ts1, r1);
    assert(newer_than(tag_of(r1), clip_tag_seq(m.session.clips[edited_clip(op)])));
    lemma_undo_clip_edit(m.session, op, inv, tag_of(r1), tag_of(r2));
}

/// Undo on a replica restores the session metadata.
pub proof fn lemma_replica_undo_metadata_edit(m: CrdtModel, n: CrdtModel, k: CrdtModel, op: TimelineOperation,
    r1: TaggedOperation, inv: TimelineOperation, r2: TaggedOperation, ts1: u64, ts2: u64)
    requires
        edit_then(m, n, k, op, r1, inv, r2, ts1, ts2),
        op is UpdateSessionMetadata,
        inverse_of(m.session, op, Some(inv)),
    ensures
        metadata_values(k.session.metadata) == metadata_values(m.session.metadata),
{
    lemma_local_edit_newer(m, op, ts1, r1);
    lemma_undo_metadata_edit(m.session, op, inv, tag_of(r1), tag_of(r2));
}

/// Undo on a replica restores a deleted clip: a local delete of a visible
/// standalone clip followed by the local application of its inverse
/// brings the clip back with every value it showed, gain, mute and lock
/// included.
pub proof fn lemma_replica_undo_clip_delete(m: CrdtModel, n: CrdtModel, k: CrdtModel, op: TimelineOperation,
    r1: TaggedOperation, inv: TimelineOperation, r2: TaggedOperation, ts1: u64, ts2: u64)
    requires
        edit_then(m, n, k, op, r1, inv, r2, ts1, ts2),
        op is DeleteClip,
        m.session.clips.contains_key(edited_clip(op)),
        standalone(m.session.clips[edited_clip(op)]),
        m.session.resolved(edited_clip(op)).visible,
        inverse_of(m.session, op, Some(inv)),
    ensures
        clip_values(k.session.clips[edited_clip(op)]) == clip_values(m.session.clips[edited_clip(op)]),
{
    lemma_local_edit_newer(m, op, ts1, r1);
    assert(newer_than(tag_of(r1), clip_tag_seq(m.session.clips[edited_clip(op)])));
    crate::undo::lemma_undo_clip_delete(m.session, op, inv, tag_of(r1), tag_of(r2));
}

/// Undo on a replica restores a split clip: a local split of a standalone
/// clip that creates its piece, followed by the local application of its
/// inverse, leaves the split clip as it was (resolving as before, its full
/// length included) and the piece deleted.
pub proof fn lemma_replica_undo_split(m: CrdtModel, n: CrdtModel, k: CrdtModel, op: TimelineOperation,
    r1: TaggedOperation, inv: TimelineOperation, r2: TaggedOperation, ts1: u64, ts2: u64)
    requires
        edit_then(m, n, k, op, r1, inv, r2, ts1, ts2),
        op is SplitClip,
        op->SplitClip_clip_id != op->SplitClip_new_clip_id,
        m.session.clips.contains_key(op->SplitClip_clip_id.0),
        standalone(m.session.clips[op->SplitClip_clip_id.0]),
        inverse_of(m.session, op, Some(inv)),
    ensures
        k.session.clips[op->SplitClip_clip_id.0] == m.session.clips[op->SplitClip_clip_id.0],
        k.session.resolved(op->SplitClip_clip_id.0) == m.session.resolved(op->SplitClip_clip_id.0),
        k.session.clips.contains_key(op->SplitClip_new_clip_id.0),
        !k.session.clips[op->SplitClip_new_clip_id.0].alive.val(),
{
    crate::undo::lemma_undo_split(m.session, op, inv, tag_of(r1), tag_of(r2));
}

} // verus!
