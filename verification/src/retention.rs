//! Compaction keeps what the state depends on: for edits other than
//! splits, applying only the operations compaction keeps gives every
//! register the value and tag it holds (a clip's own-geometry flag, which
//! a dropped move or trim may have set, aside).

use vstd::prelude::*;
use crate::clip_crdt::ClipModel;
use crate::compaction::{clip_tag_seq, compacted, first_insert, kept, metadata_tag_seq, state_tag, structurally_kept, track_tag_seq};
use crate::merge::{LwwReg, OpTag, effect};
use crate::operation::{TaggedOperation, TargetId, TimelineOperation, lemma_same_equiv, seqs_same};
use crate::reorder::{
    all_apply, all_enabled, all_plain, apply_seq, applied_op, clip_made, coherent, distinct_ids, enabled, ids, part,
    plain, track_made, adds_entry, lemma_apply_concat, lemma_apply_grows, lemma_apply_push, lemma_enabled_grows,
    lemma_entry_keys, lemma_in_ids, lemma_orders_agree, lemma_part_elems,
};
use crate::clock::{OperationId, PeerId};
use crate::delivery::{
    settled, copies, copy_in, lemma_all_apply_push, lemma_applied_iff_enabled, lemma_copies_coherent, lemma_copies_plain,
    lemma_copies_self, lemma_copies_trans, lemma_distinct_concat, lemma_ids_concat, lemma_ids_push,
    lemma_received_keys, lemma_same_needs, lemma_same_seq, lemma_sorted_copies, lemma_trace_received, received,
};
use crate::state::{SessionModel, text_effect};
use crate::timeline_crdt::{CrdtModel, logged, replay_trace, replays, stably_sorted, tag_of};

verus! {

/// `a` and `b` agree on everything but the clips' own-geometry flags.
pub open spec fn alike(a: SessionModel, b: SessionModel) -> bool {
    &&& a.metadata == b.metadata
    &&& a.tracks == b.tracks
    &&& a.envelopes == b.envelopes
    &&& a.clips.dom() == b.clips.dom()
    &&& forall|id: u64| #[trigger] a.clips.contains_key(id) ==> a.clips[id] == (ClipModel { detached: a.clips[id].detached, ..b.clips[id] })
}

/// Agreement is an equivalence.
pub proof fn lemma_alike_equiv(a: SessionModel, b: SessionModel, c: SessionModel)
    ensures
        alike(a, a),
        alike(a, b) ==> alike(b, a),
        alike(a, b) && alike(b, c) ==> alike(a, c),
{
    if alike(a, b) {
        assert forall|id: u64| #[trigger] b.clips.contains_key(id) implies b.clips[id] == (ClipModel { detached: b.clips[id].detached, ..a.clips[id] }) by {
            assert(a.clips.contains_key(id));
        }
    }
}

/// States that agree have the same register tags.
pub proof fn lemma_alike_tags(a: SessionModel, b: SessionModel, t: OpTag)
    requires
        alike(a, b),
    ensures
        state_tag(a, t) == state_tag(b, t),
{
    if exists|id: u64| a.clips.contains_key(id) && #[trigger] clip_tag_seq(a.clips[id]).contains(t) {
        let id = choose|id: u64| a.clips.contains_key(id) && #[trigger] clip_tag_seq(a.clips[id]).contains(t);
        assert(clip_tag_seq(a.clips[id]) == clip_tag_seq(b.clips[id]));
    }
    if exists|id: u64| b.clips.contains_key(id) && #[trigger] clip_tag_seq(b.clips[id]).contains(t) {
        let id = choose|id: u64| b.clips.contains_key(id) && #[trigger] clip_tag_seq(b.clips[id]).contains(t);
        assert(a.clips.contains_key(id));
        assert(clip_tag_seq(a.clips[id]) == clip_tag_seq(b.clips[id]));
    }
}

/// An optional write that does not leave its own tag on a register left
/// the register as it was.
pub proof fn lemma_effect_kept<T>(r: LwwReg<T>, w: Option<T>, t: OpTag)
    ensures
        effect(r, w, t).stamp() != t ==> effect(r, w, t) == r,
{
    if let Some(v) = w {
        LwwReg::lemma_holding(v, t);
    }
}

/// `t` is the tag of a register of clip `c`.
proof fn lemma_clip_tag_at(s: SessionModel, id: u64, i: int, t: OpTag)
    requires
        s.clips.contains_key(id),
        0 <= i < 11,
        clip_tag_seq(s.clips[id])[i] == t,
    ensures
        state_tag(s, t),
{
    assert(clip_tag_seq(s.clips[id]).contains(t));
}

/// `t` is the tag of a register of track `k`.
proof fn lemma_track_tag_at(s: SessionModel, id: u64, i: int, t: OpTag)
    requires
        s.tracks.contains_key(id),
        0 <= i < 7,
        track_tag_seq(s.tracks[id])[i] == t,
    ensures
        state_tag(s, t),
{
    assert(track_tag_seq(s.tracks[id]).contains(t));
}

/// A dropped operation changed nothing that compaction keeps: if applying
/// a plain operation `x` to `sp` gives a state agreeing with `s`, and no
/// register of `s` holds `x`'s tag, then `sp` agrees with `s` already.
pub proof fn lemma_absorbed(sp: SessionModel, x: TaggedOperation, s: SessionModel)
    requires
        plain(x),
        enabled(sp, x.operation),
        alike(applied_op(sp, x), s),
        !state_tag(s, tag_of(x)),
    ensures
        alike(sp, s),
{
    let t = tag_of(x);
    let op = x.operation;
    let n = applied_op(sp, x);
    lemma_alike_tags(n, s, t);
    assert(!state_tag(n, t));
    match op {
        TimelineOperation::InsertClip { clip_id, .. }
        | TimelineOperation::MoveClip { clip_id, .. }
        | TimelineOperation::DeleteClip { clip_id }
        | TimelineOperation::TrimClip { clip_id, .. }
        | TimelineOperation::UpdateClipMetadata { clip_id, .. } => {
            let k = clip_id.0;
            if !sp.clips.contains_key(k) {
                LwwReg::lemma_holding(true, t);
                lemma_clip_tag_at(n, k, 0, t);
            } else {
                let c = sp.clips[k];
                assert(n.clips[k] == c.applied(op, t));
                if effect(c.alive, crate::clip_crdt::alive_write(op), t).stamp() == t { lemma_clip_tag_at(n, k, 0, t); }
                if effect(c.track, crate::clip_crdt::track_write(op), t).stamp() == t { lemma_clip_tag_at(n, k, 1, t); }
                if effect(c.start_frame, crate::clip_crdt::start_write(op), t).stamp() == t { lemma_clip_tag_at(n, k, 2, t); }
                if effect(c.duration_frames, crate::clip_crdt::duration_write(op), t).stamp() == t { lemma_clip_tag_at(n, k, 3, t); }
                if effect(c.name, crate::clip_crdt::name_write(op), t).stamp() == t { lemma_clip_tag_at(n, k, 4, t); }
                if effect(c.source, crate::clip_crdt::source_write(op), t).stamp() == t { lemma_clip_tag_at(n, k, 5, t); }
                if effect(c.color, crate::clip_crdt::color_write(op), t).stamp() == t { lemma_clip_tag_at(n, k, 6, t); }
                if effect(c.gain, crate::clip_crdt::gain_write(op), t).stamp() == t { lemma_clip_tag_at(n, k, 7, t); }
                if effect(c.muted, crate::clip_crdt::muted_write(op), t).stamp() == t { lemma_clip_tag_at(n, k, 8, t); }
                if effect(c.locked, crate::clip_crdt::locked_write(op), t).stamp() == t { lemma_clip_tag_at(n, k, 9, t); }
                if effect(c.order_hint, crate::clip_crdt::hint_write(op), t).stamp() == t { lemma_clip_tag_at(n, k, 10, t); }
                lemma_effect_kept(c.alive, crate::clip_crdt::alive_write(op), t);
                lemma_effect_kept(c.track, crate::clip_crdt::track_write(op), t);
                lemma_effect_kept(c.start_frame, crate::clip_crdt::start_write(op), t);
                lemma_effect_kept(c.duration_frames, crate::clip_crdt::duration_write(op), t);
                lemma_effect_kept(c.name, crate::clip_crdt::name_write(op), t);
                lemma_effect_kept(c.source, crate::clip_crdt::source_write(op), t);
                lemma_effect_kept(c.color, crate::clip_crdt::color_write(op), t);
                lemma_effect_kept(c.gain, crate::clip_crdt::gain_write(op), t);
                lemma_effect_kept(c.muted, crate::clip_crdt::muted_write(op), t);
                lemma_effect_kept(c.locked, crate::clip_crdt::locked_write(op), t);
                lemma_effect_kept(c.order_hint, crate::clip_crdt::hint_write(op), t);
                assert(n.clips.dom() =~= sp.clips.dom());
                assert(alike(sp, n));
            }
        },
        TimelineOperation::InsertTrack { track_id, .. }
        | TimelineOperation::UpdateTrackMetadata { track_id, .. }
        | TimelineOperation::DeleteTrack { track_id } => {
            let k = track_id.0;
            if !sp.tracks.contains_key(k) {
                LwwReg::lemma_holding(true, t);
                lemma_track_tag_at(n, k, 0, t);
            } else {
                let c = sp.tracks[k];
                assert(n.tracks[k] == c.applied(op, t));
                if effect(c.alive, crate::track_crdt::track_alive_write(op), t).stamp() == t { lemma_track_tag_at(n, k, 0, t); }
                if effect(c.name, crate::track_crdt::track_name_write(op), t).stamp() == t { lemma_track_tag_at(n, k, 1, t); }
                if effect(c.kind, crate::track_crdt::track_kind_write(op), t).stamp() == t { lemma_track_tag_at(n, k, 2, t); }
                if effect(c.volume_db, crate::track_crdt::track_volume_write(op), t).stamp() == t { lemma_track_tag_at(n, k, 3, t); }
                if effect(c.muted, crate::track_crdt::track_muted_write(op), t).stamp() == t { lemma_track_tag_at(n, k, 4, t); }
                if effect(c.solo, crate::track_crdt::track_solo_write(op), t).stamp() == t { lemma_track_tag_at(n, k, 5, t); }
                if effect(c.order_hint, crate::track_crdt::track_hint_write(op), t).stamp() == t { lemma_track_tag_at(n, k, 6, t); }
                lemma_effect_kept(c.alive, crate::track_crdt::track_alive_write(op), t);
                lemma_effect_kept(c.name, crate::track_crdt::track_name_write(op), t);
                lemma_effect_kept(c.kind, crate::track_crdt::track_kind_write(op), t);
                lemma_effect_kept(c.volume_db, crate::track_crdt::track_volume_write(op), t);
                lemma_effect_kept(c.muted, crate::track_crdt::track_muted_write(op), t);
                lemma_effect_kept(c.solo, crate::track_crdt::track_solo_write(op), t);
                lemma_effect_kept(c.order_hint, crate::track_crdt::track_hint_write(op), t);
                assert(n.tracks =~= sp.tracks);
            }
        },
        TimelineOperation::UpdateEnvelope { target_id, envelope_type, points } => {
            let k = (target_id, envelope_type@);
            let cur = if sp.envelopes.contains_key(k) { sp.envelopes[k] } else { crate::envelope_crdt::blank_envelope() };
            LwwReg::lemma_holding(Seq::<crate::operation::EnvelopePoint>::empty(), OpTag::spec_initial());
            LwwReg::lemma_holding(points@, t);
            lemma_effect_kept(cur, Some(points@), t);
            assert(n.envelopes[k] == cur.written(points@, t));
            if cur.written(points@, t).stamp() == t {
                assert(state_tag(n, t));
            }
            assert(sp.envelopes.contains_key(k));
            assert(n.envelopes =~= sp.envelopes);
        },
        TimelineOperation::UpdateSessionMetadata { updates } => {
            let md = sp.metadata;
            let nw = match updates.name { Some(v) => Some(v@), None => None };
            assert(text_effect(md.name, updates.name, t) == effect(md.name, nw, t));
            if effect(md.name, nw, t).stamp() == t { assert(metadata_tag_seq(n.metadata)[0] == t); }
            if effect(md.sample_rate, updates.sample_rate, t).stamp() == t { assert(metadata_tag_seq(n.metadata)[1] == t); }
            if effect(md.tempo_bpm, updates.tempo_bpm, t).stamp() == t { assert(metadata_tag_seq(n.metadata)[2] == t); }
            if effect(md.ts_numerator, updates.time_signature_numerator, t).stamp() == t { assert(metadata_tag_seq(n.metadata)[3] == t); }
            if effect(md.ts_denominator, updates.time_signature_denominator, t).stamp() == t { assert(metadata_tag_seq(n.metadata)[4] == t); }
            lemma_effect_kept(md.name, nw, t);
            lemma_effect_kept(md.sample_rate, updates.sample_rate, t);
            lemma_effect_kept(md.tempo_bpm, updates.tempo_bpm, t);
            lemma_effect_kept(md.ts_numerator, updates.time_signature_numerator, t);
            lemma_effect_kept(md.ts_denominator, updates.time_signature_denominator, t);
            assert(n.metadata == md);
        },
        TimelineOperation::SplitClip { .. } | TimelineOperation::UnsplitClip { .. } => {},
    }
    lemma_alike_equiv(sp, n, s);
}


/// The clip (`true`) or track (`false`) entry `op` needs, if any.
pub open spec fn needed(op: TimelineOperation) -> Option<(bool, u64)> {
    match op {
        TimelineOperation::MoveClip { clip_id, .. } => Some((true, clip_id.0)),
        TimelineOperation::DeleteClip { clip_id } => Some((true, clip_id.0)),
        TimelineOperation::SplitClip { clip_id, .. } => Some((true, clip_id.0)),
        TimelineOperation::TrimClip { clip_id, .. } => Some((true, clip_id.0)),
        TimelineOperation::UpdateClipMetadata { clip_id, .. } => Some((true, clip_id.0)),
        TimelineOperation::UpdateTrackMetadata { track_id, .. } => Some((false, track_id.0)),
        TimelineOperation::DeleteTrack { track_id } => Some((false, track_id.0)),
        TimelineOperation::UpdateEnvelope { target_id, .. } => match target_id {
            TargetId::Clip(c) => Some((true, c.0)),
            TargetId::Track(t) => Some((false, t.0)),
        },
        _ => None,
    }
}

/// An operation is enabled exactly when the entry it needs exists.
pub proof fn lemma_needed(m: SessionModel, op: TimelineOperation)
    requires
        !(op is UnsplitClip),
    ensures
        enabled(m, op) == match needed(op) {
            None => true,
            Some(n) => if n.0 { m.clips.contains_key(n.1) } else { m.tracks.contains_key(n.1) },
        },
{
}

/// Every operation of a sequence that applies in order is enabled at the
/// end.
pub proof fn lemma_enabled_at_end(m: SessionModel, a: Seq<TaggedOperation>)
    requires
        all_plain(a),
        all_apply(m, a),
    ensures
        all_enabled(apply_seq(m, a), a),
{
    assert forall|i: int| 0 <= i < a.len() implies enabled(apply_seq(m, a), (#[trigger] a[i]).operation) by {
        assert(a =~= a.take(i) + a.skip(i));
        lemma_apply_concat(m, a.take(i), a.skip(i));
        assert forall|k: int| 0 <= k < a.skip(i).len() implies plain(#[trigger] a.skip(i)[k]) by {
            assert(a.skip(i)[k] == a[i + k]);
        }
        lemma_apply_grows(apply_seq(m, a.take(i)), a.skip(i));
        lemma_enabled_grows(apply_seq(m, a.take(i)), apply_seq(m, a), a[i].operation);
    }
}

/// The operations of `b`, inserts first.
pub open spec fn entries_first(b: Seq<TaggedOperation>) -> Seq<TaggedOperation> {
    part(b, true) + part(b, false)
}

/// Reordering inserts first keeps the operations, their ids, and distinct
/// ids distinct.
pub proof fn lemma_entries_first_elems(b: Seq<TaggedOperation>)
    ensures
        forall|i: int| 0 <= i < entries_first(b).len() ==> b.contains(#[trigger] entries_first(b)[i]),
        forall|i: int| 0 <= i < b.len() ==> entries_first(b).contains(#[trigger] b[i]),
        ids(entries_first(b)) == ids(b),
        distinct_ids(b) ==> distinct_ids(entries_first(b)),
{
    let e = entries_first(b);
    let p = part(b, true);
    let q = part(b, false);
    lemma_part_elems(b, true);
    lemma_part_elems(b, false);
    assert forall|i: int| 0 <= i < e.len() implies b.contains(#[trigger] e[i]) by {
        if i < p.len() {
            assert(e[i] == p[i]);
        } else {
            assert(e[i] == q[i - p.len()]);
        }
    }
    assert forall|i: int| 0 <= i < b.len() implies e.contains(#[trigger] b[i]) by {
        if adds_entry(b[i].operation) {
            assert(p.contains(b[i]));
            let j = choose|j: int| 0 <= j < p.len() && p[j] == b[i];
            assert(e[j] == p[j]);
        } else {
            assert(q.contains(b[i]));
            let j = choose|j: int| 0 <= j < q.len() && q[j] == b[i];
            assert(e[p.len() + j] == q[j]);
        }
    }
    assert forall|id: OperationId| ids(e).contains(id) == ids(b).contains(id) by {
        if ids(e).contains(id) {
            let i = choose|i: int| 0 <= i < e.len() && (#[trigger] e[i]).op_id == id;
            assert(b.contains(e[i]));
            let j = choose|j: int| 0 <= j < b.len() && b[j] == e[i];
            lemma_in_ids(b, j);
        }
        if ids(b).contains(id) {
            let i = choose|i: int| 0 <= i < b.len() && (#[trigger] b[i]).op_id == id;
            assert(e.contains(b[i]));
            let j = choose|j: int| 0 <= j < e.len() && e[j] == b[i];
            lemma_in_ids(e, j);
        }
    }
    assert(ids(e) =~= ids(b));
    if distinct_ids(b) {
        assert forall|i: int, j: int| 0 <= i < e.len() && 0 <= j < e.len() && i != j implies
            (#[trigger] e[i]).op_id != (#[trigger] e[j]).op_id by {
            if i < p.len() && j < p.len() {
                assert(e[i] == p[i] && e[j] == p[j]);
            } else if i >= p.len() && j >= p.len() {
                assert(e[i] == q[i - p.len()] && e[j] == q[j - p.len()]);
            } else {
                let (x, y) = if i < p.len() { (e[i], e[j]) } else { (e[j], e[i]) };
                if i < p.len() {
                    assert(x == p[i] && y == q[j - p.len()]);
                } else {
                    assert(x == p[j] && y == q[i - p.len()]);
                }
                assert(adds_entry(x.operation) && !adds_entry(y.operation));
                assert(b.contains(x) && b.contains(y));
                let k1 = choose|k: int| 0 <= k < b.len() && b[k] == x;
                let k2 = choose|k: int| 0 <= k < b.len() && b[k] == y;
                assert(k1 != k2);
            }
        }
    }
}

/// Inserts first applies, when every other operation finds its entry
/// among the inserts.
pub proof fn lemma_entries_first_apply(m: SessionModel, b: Seq<TaggedOperation>)
    requires
        all_plain(b),
        all_enabled(apply_seq(m, part(b, true)), part(b, false)),
    ensures
        all_apply(m, entries_first(b)),
        apply_seq(m, entries_first(b)) == apply_seq(apply_seq(m, part(b, true)), part(b, false)),
{
    let p = part(b, true);
    let q = part(b, false);
    let e = entries_first(b);
    lemma_part_elems(b, true);
    lemma_part_elems(b, false);
    lemma_apply_concat(m, p, q);
    let base = apply_seq(m, p);
    assert forall|i: int| 0 <= i < e.len() implies enabled(apply_seq(m, e.take(i)), (#[trigger] e[i]).operation) by {
        if i < p.len() {
            assert(e[i] == p[i]);
        } else {
            let j = i - p.len();
            assert(e[i] == q[j]);
            assert(e.take(i) =~= p + q.take(j));
            lemma_apply_concat(m, p, q.take(j));
            assert forall|k: int| 0 <= k < q.take(j).len() implies plain(#[trigger] q.take(j)[k]) by {
                assert(q.take(j)[k] == q[k]);
                assert(b.contains(q[k]));
            }
            lemma_apply_grows(base, q.take(j));
            lemma_enabled_grows(base, apply_seq(base, q.take(j)), q[j].operation);
        }
    }
}


/// The operations of `b` whose ids `keep` keeps, in order.
pub open spec fn kept_ops(b: Seq<TaggedOperation>, keep: spec_fn(OperationId) -> bool) -> Seq<TaggedOperation> {
    b.filter(|x: TaggedOperation| keep(x.op_id))
}

/// One step of `kept_ops`.
pub proof fn lemma_kept_step(b: Seq<TaggedOperation>, keep: spec_fn(OperationId) -> bool)
    requires
        b.len() > 0,
    ensures
        kept_ops(b, keep) == (if keep(b.last().op_id) {
            kept_ops(b.drop_last(), keep).push(b.last())
        } else {
            kept_ops(b.drop_last(), keep)
        }),
{
    reveal(Seq::filter);
}

/// `kept_ops` keeps operations of `b` that `keep` keeps, with distinct ids
/// when `b` has them, and every one of them.
pub proof fn lemma_kept_elems(b: Seq<TaggedOperation>, keep: spec_fn(OperationId) -> bool)
    ensures
        forall|i: int| 0 <= i < kept_ops(b, keep).len() ==> b.contains(#[trigger] kept_ops(b, keep)[i])
            && keep(kept_ops(b, keep)[i].op_id),
        forall|k: int| 0 <= k < b.len() && keep((#[trigger] b[k]).op_id) ==> kept_ops(b, keep).contains(b[k]),
        distinct_ids(b) ==> distinct_ids(kept_ops(b, keep)),
    decreases b.len(),
{
    reveal(Seq::filter);
    if b.len() > 0 {
        let b2 = b.drop_last();
        let z = b.last();
        let p2 = kept_ops(b2, keep);
        let p = kept_ops(b, keep);
        lemma_kept_elems(b2, keep);
        lemma_kept_step(b, keep);
        assert forall|i: int| 0 <= i < p.len() implies b.contains(#[trigger] p[i]) && keep(p[i].op_id) by {
            if i < p2.len() {
                assert(p[i] == p2[i]);
                assert(b2.contains(p2[i]));
                let k = choose|k: int| 0 <= k < b2.len() && b2[k] == p2[i];
                assert(b[k] == b2[k]);
            } else {
                assert(p[i] == z);
                assert(b[b.len() - 1] == z);
            }
        }
        assert forall|k: int| 0 <= k < b.len() && keep((#[trigger] b[k]).op_id) implies p.contains(b[k]) by {
            if k < b2.len() {
                assert(b2[k] == b[k]);
                assert(p2.contains(b2[k]));
                let i = choose|i: int| 0 <= i < p2.len() && p2[i] == b2[k];
                if keep(z.op_id) {
                    assert(p[i] == p2[i]);
                }
            } else {
                assert(p[p.len() - 1] == z);
            }
        }
        if distinct_ids(b) {
            assert forall|i: int, k: int| 0 <= i < b2.len() && 0 <= k < b2.len() && i != k implies
                (#[trigger] b2[i]).op_id != (#[trigger] b2[k]).op_id by {
                assert(b2[i] == b[i] && b2[k] == b[k]);
            }
            assert forall|i: int, k: int| 0 <= i < p.len() && 0 <= k < p.len() && i != k implies
                (#[trigger] p[i]).op_id != (#[trigger] p[k]).op_id by {
                if keep(z.op_id) && (i == p.len() - 1 || k == p.len() - 1) {
                    let o = if i == p.len() - 1 { k } else { i };
                    assert(p[o] == p2[o]);
                    assert(b2.contains(p2[o]));
                    let q = choose|q: int| 0 <= q < b2.len() && b2[q] == p2[o];
                    assert(b[q] == b2[q]);
                    assert(b[b.len() - 1] == z);
                } else {
                    assert(p[i] == p2[i] && p[k] == p2[k]);
                }
            }
        }
    }
}

/// What compaction needs of the operations `a` a replica applied, and of
/// the ids `keep` it keeps: the operations are plain, apply in order and
/// carry the same data under one id; no register of the final state holds
/// the tag of a dropped operation; and every entry of the final state has
/// a kept insert.
pub open spec fn keeps_enough(a: Seq<TaggedOperation>, keep: spec_fn(OperationId) -> bool) -> bool {
    let s = apply_seq(SessionModel::initial(), a);
    &&& all_plain(a)
    &&& distinct_ids(a)
    &&& coherent(a, a)
    &&& all_apply(SessionModel::initial(), a)
    &&& forall|i: int| 0 <= i < a.len() && !keep((#[trigger] a[i]).op_id) ==> !state_tag(s, tag_of(a[i]))
    &&& forall|e: u64| #[trigger] s.clips.contains_key(e) ==> exists|i: int| 0 <= i < a.len() && keep(a[i].op_id)
        && clip_made((#[trigger] a[i]).operation, e)
    &&& forall|e: u64| #[trigger] s.tracks.contains_key(e) ==> exists|i: int| 0 <= i < a.len() && keep(a[i].op_id)
        && track_made((#[trigger] a[i]).operation, e)
}

/// A part of `a` holding every kept operation gives, applying its inserts
/// alone, an entry for every operation of `a`.
proof fn lemma_inserts_cover(a: Seq<TaggedOperation>, keep: spec_fn(OperationId) -> bool, u: Seq<TaggedOperation>,
    y: TaggedOperation)
    requires
        keeps_enough(a, keep),
        forall|i: int| 0 <= i < u.len() ==> a.contains(#[trigger] u[i]),
        forall|k: int| 0 <= k < a.len() && keep((#[trigger] a[k]).op_id) ==> u.contains(a[k]),
        a.contains(y),
    ensures
        enabled(apply_seq(SessionModel::initial(), part(u, true)), y.operation),
{
    let init = SessionModel::initial();
    let s = apply_seq(init, a);
    let p = part(u, true);
    lemma_enabled_at_end(init, a);
    let ky = choose|k: int| 0 <= k < a.len() && a[k] == y;
    assert(enabled(s, a[ky].operation));
    lemma_needed(s, y.operation);
    lemma_part_elems(u, true);
    assert forall|i: int| 0 <= i < p.len() implies plain(#[trigger] p[i]) by {
        assert(u.contains(p[i]));
        let k = choose|k: int| 0 <= k < u.len() && u[k] == p[i];
        assert(a.contains(u[k]));
    }
    lemma_entry_keys(init, p);
    lemma_needed(apply_seq(init, p), y.operation);
    match needed(y.operation) {
        None => {},
        Some(nd) => {
            let e = nd.1;
            if nd.0 {
                assert(s.clips.contains_key(e));
                let i = choose|i: int| 0 <= i < a.len() && keep(a[i].op_id) && clip_made((#[trigger] a[i]).operation, e);
                assert(u.contains(a[i]));
                let j = choose|j: int| 0 <= j < u.len() && u[j] == a[i];
                assert(adds_entry(u[j].operation));
                assert(p.contains(u[j]));
                let l = choose|l: int| 0 <= l < p.len() && p[l] == u[j];
                assert(clip_made(p[l].operation, e));
            } else {
                assert(s.tracks.contains_key(e));
                let i = choose|i: int| 0 <= i < a.len() && keep(a[i].op_id) && track_made((#[trigger] a[i]).operation, e);
                assert(u.contains(a[i]));
                let j = choose|j: int| 0 <= j < u.len() && u[j] == a[i];
                assert(adds_entry(u[j].operation));
                assert(p.contains(u[j]));
                let l = choose|l: int| 0 <= l < p.len() && p[l] == u[j];
                assert(track_made(p[l].operation, e));
            }
        },
    }
}

/// Such a part of `a` applies inserts first.
proof fn lemma_part_applies(a: Seq<TaggedOperation>, keep: spec_fn(OperationId) -> bool, u: Seq<TaggedOperation>)
    requires
        keeps_enough(a, keep),
        forall|i: int| 0 <= i < u.len() ==> a.contains(#[trigger] u[i]),
        forall|k: int| 0 <= k < a.len() && keep((#[trigger] a[k]).op_id) ==> u.contains(a[k]),
    ensures
        all_plain(u),
        all_apply(SessionModel::initial(), entries_first(u)),
        apply_seq(SessionModel::initial(), entries_first(u))
            == apply_seq(apply_seq(SessionModel::initial(), part(u, true)), part(u, false)),
{
    assert forall|i: int| 0 <= i < u.len() implies plain(#[trigger] u[i]) by {
        let k = choose|k: int| 0 <= k < a.len() && a[k] == u[i];
    }
    lemma_part_elems(u, false);
    let q = part(u, false);
    assert forall|i: int| 0 <= i < q.len() implies enabled(apply_seq(SessionModel::initial(), part(u, true)), (#[trigger] q[i]).operation) by {
        assert(u.contains(q[i]));
        let k = choose|k: int| 0 <= k < u.len() && u[k] == q[i];
        assert(a.contains(u[k]));
        lemma_inserts_cover(a, keep, u, q[i]);
    }
    lemma_entries_first_apply(SessionModel::initial(), u);
}


/// The operations of `a` before position `n` that `keep` keeps, then all
/// operations from `n` on.
pub open spec fn kept_before(a: Seq<TaggedOperation>, keep: spec_fn(OperationId) -> bool, n: int) -> Seq<TaggedOperation> {
    kept_ops(a.take(n), keep) + a.skip(n)
}

/// `kept_before` holds operations of `a`, every kept one, with distinct
/// ids.
proof fn lemma_kept_before_facts(a: Seq<TaggedOperation>, keep: spec_fn(OperationId) -> bool, n: int)
    requires
        distinct_ids(a),
        0 <= n <= a.len(),
    ensures
        forall|i: int| 0 <= i < kept_before(a, keep, n).len() ==> a.contains(#[trigger] kept_before(a, keep, n)[i]),
        forall|k: int| 0 <= k < a.len() && keep((#[trigger] a[k]).op_id) ==> kept_before(a, keep, n).contains(a[k]),
        distinct_ids(kept_before(a, keep, n)),
{
    let t = a.take(n);
    let r = a.skip(n);
    let kt = kept_ops(t, keep);
    let kb = kept_before(a, keep, n);
    assert forall|i: int, j: int| 0 <= i < t.len() && 0 <= j < t.len() && i != j implies
        (#[trigger] t[i]).op_id != (#[trigger] t[j]).op_id by {
        assert(t[i] == a[i] && t[j] == a[j]);
    }
    assert forall|i: int, j: int| 0 <= i < r.len() && 0 <= j < r.len() && i != j implies
        (#[trigger] r[i]).op_id != (#[trigger] r[j]).op_id by {
        assert(r[i] == a[n + i] && r[j] == a[n + j]);
    }
    lemma_kept_elems(t, keep);
    assert forall|i: int| 0 <= i < kb.len() implies a.contains(#[trigger] kb[i]) by {
        if i < kt.len() {
            assert(kb[i] == kt[i]);
            assert(t.contains(kt[i]));
            let k = choose|k: int| 0 <= k < t.len() && t[k] == kt[i];
            assert(a[k] == t[k]);
        } else {
            assert(kb[i] == r[i - kt.len()]);
            assert(a[n + i - kt.len()] == r[i - kt.len()]);
        }
    }
    assert forall|k: int| 0 <= k < a.len() && keep((#[trigger] a[k]).op_id) implies kb.contains(a[k]) by {
        if k < n {
            assert(t[k] == a[k]);
            assert(kt.contains(t[k]));
            let i = choose|i: int| 0 <= i < kt.len() && kt[i] == t[k];
            assert(kb[i] == kt[i]);
        } else {
            assert(kb[kt.len() + k - n] == r[k - n]);
        }
    }
    assert(ids(kt).disjoint(ids(r))) by {
        assert forall|id: OperationId| !(ids(kt).contains(id) && ids(r).contains(id)) by {
            if ids(kt).contains(id) && ids(r).contains(id) {
                let i = choose|i: int| 0 <= i < kt.len() && (#[trigger] kt[i]).op_id == id;
                let j = choose|j: int| 0 <= j < r.len() && (#[trigger] r[j]).op_id == id;
                assert(t.contains(kt[i]));
                let k = choose|k: int| 0 <= k < t.len() && t[k] == kt[i];
                assert(a[k] == t[k]);
                assert(r[j] == a[n + j]);
            }
        }
    }
    lemma_distinct_concat(kt, r);
}

/// One dropped operation: the state without it agrees with the full one
/// when the state with it does.
#[verifier::spinoff_prover]
#[verifier::rlimit(40)]
proof fn lemma_drop_one(a: Seq<TaggedOperation>, keep: spec_fn(OperationId) -> bool, n: int)
    requires
        keeps_enough(a, keep),
        0 < n <= a.len(),
        !keep(a[n - 1].op_id),
        alike(apply_seq(SessionModel::initial(), entries_first(kept_before(a, keep, n - 1))), apply_seq(SessionModel::initial(), a)),
    ensures
        alike(apply_seq(SessionModel::initial(), entries_first(kept_before(a, keep, n))), apply_seq(SessionModel::initial(), a)),
{
    let init = SessionModel::initial();
    let s = apply_seq(init, a);
    let x = a[n - 1];
    let k0 = kept_ops(a.take(n - 1), keep);
    let r = a.skip(n);
    assert(a.take(n).drop_last() =~= a.take(n - 1));
    lemma_kept_step(a.take(n), keep);
    let prev = kept_before(a, keep, n - 1);
    let cur = kept_before(a, keep, n);
    lemma_kept_before_facts(a, keep, n);
    lemma_part_applies(a, keep, cur);
    assert(prev =~= k0.push(x) + r);
    assert(cur =~= k0 + r);
    lemma_kept_before_facts(a, keep, n - 1);
    lemma_part_applies(a, keep, prev);
    let xs = entries_first(prev);
    let ys0 = entries_first(cur);
    let ys = ys0.push(x);
    let sc = apply_seq(init, ys0);
    // x finds its entry after the kept operations
    assert(a.contains(x)) by { assert(a[n - 1] == x); }
    lemma_inserts_cover(a, keep, cur, x);
    lemma_part_elems(cur, false);
    assert forall|i: int| 0 <= i < part(cur, false).len() implies plain(#[trigger] part(cur, false)[i]) by {
        assert(cur.contains(part(cur, false)[i]));
    }
    lemma_apply_grows(apply_seq(init, part(cur, true)), part(cur, false));
    lemma_enabled_grows(apply_seq(init, part(cur, true)), sc, x.operation);
    lemma_all_apply_push(init, ys0, x);
    lemma_apply_push(init, ys0, x);
    // the two orders hold the same operations
    lemma_entries_first_elems(prev);
    lemma_entries_first_elems(cur);
    lemma_ids_push(ys0, x);
    lemma_ids_push(k0, x);
    lemma_ids_concat(k0.push(x), r);
    lemma_ids_concat(k0, r);
    assert(ids(xs) =~= ids(ys));
    assert(!ids(ys0).contains(x.op_id)) by {
        if ids(cur).contains(x.op_id) {
            let i = choose|i: int| 0 <= i < cur.len() && (#[trigger] cur[i]).op_id == x.op_id;
            let ip = if i < k0.len() { i } else { i + 1 };
            assert(prev[ip] == cur[i]);
            assert(prev[k0.len() as int] == x);
        }
    }
    crate::delivery::lemma_distinct_push(ys0, x);
    assert forall|i: int| 0 <= i < ys.len() implies a.contains(#[trigger] ys[i]) by {
        if i < ys0.len() {
            assert(ys[i] == ys0[i]);
            assert(cur.contains(ys0[i]));
        }
    }
    assert forall|i: int| 0 <= i < xs.len() implies a.contains(#[trigger] xs[i]) by {
        assert(prev.contains(xs[i]));
    }
    assert forall|i: int| 0 <= i < xs.len() implies plain(#[trigger] xs[i]) by {
        assert(a.contains(xs[i]));
    }
    assert forall|i: int| 0 <= i < ys.len() implies plain(#[trigger] ys[i]) by {
        assert(a.contains(ys[i]));
    }
    assert forall|i: int, j: int| 0 <= i < xs.len() && 0 <= j < ys.len() && (#[trigger] xs[i]).op_id == (#[trigger] ys[j]).op_id
        implies xs[i].same(ys[j]) by {
        assert(a.contains(xs[i]) && a.contains(ys[j]));
        let p = choose|p: int| 0 <= p < a.len() && a[p] == xs[i];
        let q = choose|q: int| 0 <= q < a.len() && a[q] == ys[j];
    }
    lemma_orders_agree(init, xs, ys);
    // the dropped operation changed nothing compaction keeps
    assert(!state_tag(s, tag_of(a[n - 1])));
    lemma_absorbed(sc, x, s);
}

/// Dropping, one by one, the operations before position `n` that `keep`
/// drops leaves a state that agrees with the full one.
proof fn lemma_kept_before(a: Seq<TaggedOperation>, keep: spec_fn(OperationId) -> bool, n: int)
    requires
        keeps_enough(a, keep),
        0 <= n <= a.len(),
    ensures
        alike(apply_seq(SessionModel::initial(), entries_first(kept_before(a, keep, n))), apply_seq(SessionModel::initial(), a)),
    decreases n,
{
    let init = SessionModel::initial();
    let s = apply_seq(init, a);
    if n == 0 {
        lemma_kept_before_facts(a, keep, n);
        lemma_part_applies(a, keep, kept_before(a, keep, n));
        reveal(Seq::filter);
        assert(kept_before(a, keep, 0) =~= a);
        crate::reorder::lemma_entries_first(init, a);
        lemma_alike_equiv(s, s, s);
    } else {
        lemma_kept_before(a, keep, n - 1);
        let x = a[n - 1];
        assert(a.take(n).drop_last() =~= a.take(n - 1));
        lemma_kept_step(a.take(n), keep);
        let prev = kept_before(a, keep, n - 1);
        let cur = kept_before(a, keep, n);
        if keep(x.op_id) {
            assert(prev =~= cur);
        } else {
            lemma_drop_one(a, keep, n);
        }
    }
}

/// Compaction keeps what the state depends on: applying, inserts first,
/// only the operations `keep` keeps gives a state that agrees with
/// applying all of `a` (every register holds the same value and tag).
pub proof fn lemma_kept_suffice(a: Seq<TaggedOperation>, keep: spec_fn(OperationId) -> bool)
    requires
        keeps_enough(a, keep),
    ensures
        all_apply(SessionModel::initial(), entries_first(kept_ops(a, keep))),
        alike(apply_seq(SessionModel::initial(), entries_first(kept_ops(a, keep))), apply_seq(SessionModel::initial(), a)),
{
    lemma_kept_before(a, keep, a.len() as int);
    assert(a.take(a.len() as int) =~= a);
    assert(kept_before(a, keep, a.len() as int) =~= kept_ops(a, keep));
    lemma_kept_before_facts(a, keep, a.len() as int);
    lemma_part_applies(a, keep, kept_ops(a, keep));
}


/// Some position satisfying `p` below `n` means a least one.
pub proof fn lemma_least(p: spec_fn(int) -> bool, n: int)
    requires
        exists|i: int| 0 <= i < n && #[trigger] p(i),
    ensures
        exists|i: int| 0 <= i < n && #[trigger] p(i) && forall|j: int| 0 <= j < i ==> !#[trigger] p(j),
    decreases n,
{
    if exists|i: int| 0 <= i < n - 1 && #[trigger] p(i) {
        lemma_least(p, n - 1);
    } else {
        assert(p(n - 1));
        assert forall|j: int| 0 <= j < n - 1 implies !#[trigger] p(j) by {}
    }
}

/// Whether `op` inserts the clip (`w`) or track (`!w`) with key `e`.
pub open spec fn made(op: TimelineOperation, e: u64, w: bool) -> bool {
    if w { clip_made(op, e) } else { track_made(op, e) }
}

/// When some operation of `log` inserts entry `e`, the first such one is
/// kept by compaction.
pub proof fn lemma_first_insert_kept(log: Seq<TaggedOperation>, s: SessionModel, e: u64, w: bool)
    requires
        exists|i: int| 0 <= i < log.len() && made((#[trigger] log[i]).operation, e, w),
    ensures
        exists|i: int| 0 <= i < log.len() && made((#[trigger] log[i]).operation, e, w) && kept(log, s, log[i].op_id),
{
    let p = |j: int| made(log[j].operation, e, w);
    assert(exists|i: int| 0 <= i < log.len() && #[trigger] p(i)) by {
        let i = choose|i: int| 0 <= i < log.len() && made((#[trigger] log[i]).operation, e, w);
        assert(p(i));
    }
    lemma_least(p, log.len() as int);
    let i = choose|i: int| 0 <= i < log.len() && #[trigger] p(i) && forall|j: int| 0 <= j < i ==> !#[trigger] p(j);
    assert(first_insert(log, i)) by {
        match log[i].operation {
            TimelineOperation::InsertClip { clip_id, .. } => {
                assert forall|j: int| 0 <= j < i implies
                    !(#[trigger] log[j].operation matches TimelineOperation::InsertClip { clip_id: c, .. } && c == clip_id) by {
                    assert(!p(j));
                }
            },
            TimelineOperation::InsertTrack { track_id, .. } => {
                assert forall|j: int| 0 <= j < i implies
                    !(#[trigger] log[j].operation matches TimelineOperation::InsertTrack { track_id: c, .. } && c == track_id) by {
                    assert(!p(j));
                }
            },
            _ => {},
        }
    }
    assert(structurally_kept(log, log[i].op_id));
}


/// Operations contained in copies are copies.
pub proof fn lemma_contained_copies(x: Seq<TaggedOperation>, y: Seq<TaggedOperation>, u: Seq<TaggedOperation>)
    requires
        forall|i: int| 0 <= i < x.len() ==> y.contains(#[trigger] x[i]),
        copies(y, u),
    ensures
        copies(x, u),
{
    assert forall|i: int| 0 <= i < x.len() implies copy_in(#[trigger] x[i], u) by {
        assert(y.contains(x[i]));
        let j = choose|j: int| 0 <= j < y.len() && y[j] == x[i];
        assert(copy_in(y[j], u));
    }
}

/// A replica that received operations logged copies of them, with their
/// ids.
pub proof fn lemma_log_of_received(m: CrdtModel, ops: Seq<TaggedOperation>, a: Seq<TaggedOperation>)
    requires
        received(m, ops, a),
    ensures
        copies(m.log, ops),
        ids(m.log) == ids(ops),
{
    assert forall|id: OperationId| ids(m.log).contains(id) == ids(ops).contains(id) by {
        assert(logged(m.log, id) == ids(ops).contains(id));
        if ids(m.log).contains(id) {
            let i = choose|i: int| 0 <= i < m.log.len() && (#[trigger] m.log[i]).op_id == id;
            assert(logged(m.log, id));
        }
        if logged(m.log, id) {
            let i = choose|i: int| 0 <= i < m.log.len() && (#[trigger] m.log[i]).op_id == id;
            lemma_in_ids(m.log, i);
        }
    }
    assert(ids(m.log) =~= ids(ops));
}

/// Every entry of a replica that received plain operations was inserted
/// by an applied operation that compaction keeps.
pub proof fn lemma_entry_has_kept_insert(m: CrdtModel, ops: Seq<TaggedOperation>, a: Seq<TaggedOperation>, e: u64, w: bool)
    requires
        received(m, ops, a),
        settled(m),
        coherent(ops, ops),
        all_plain(ops),
        w ==> m.session.clips.contains_key(e),
        !w ==> m.session.tracks.contains_key(e),
    ensures
        exists|k: int| 0 <= k < a.len() && kept(m.log, m.session, a[k].op_id) && made((#[trigger] a[k]).operation, e, w),
{
    let log = m.log;
    let s = m.session;
    lemma_received_keys(m, ops, a);
    lemma_log_of_received(m, ops, a);
    let j = if w {
        choose|j: int| 0 <= j < ops.len() && clip_made((#[trigger] ops[j]).operation, e)
    } else {
        choose|j: int| 0 <= j < ops.len() && track_made((#[trigger] ops[j]).operation, e)
    };
    assert(made(ops[j].operation, e, w));
    lemma_in_ids(ops, j);
    let i = choose|i: int| 0 <= i < log.len() && (#[trigger] log[i]).op_id == ops[j].op_id;
    assert(copy_in(log[i], ops));
    let jj = choose|jj: int| 0 <= jj < ops.len() && log[i].same(ops[jj]);
    assert(ops[jj].same(ops[j]));
    lemma_same_needs(s, log[i], ops[jj]);
    lemma_same_needs(s, ops[jj], ops[j]);
    assert(made(log[i].operation, e, w));
    lemma_first_insert_kept(log, s, e, w);
    let i0 = choose|i0: int| 0 <= i0 < log.len() && made((#[trigger] log[i0]).operation, e, w) && kept(log, s, log[i0].op_id);
    assert(copy_in(log[i0], ops));
    let j0 = choose|j0: int| 0 <= j0 < ops.len() && log[i0].same(ops[j0]);
    lemma_same_needs(s, log[i0], ops[j0]);
    lemma_applied_iff_enabled(m, ops, a, j0);
    let k = choose|k: int| 0 <= k < a.len() && (#[trigger] a[k]).op_id == ops[j0].op_id;
    assert(copy_in(a[k], ops));
    let p = choose|p: int| 0 <= p < ops.len() && a[k].same(ops[p]);
    assert(ops[p].same(ops[j0]));
    lemma_same_needs(s, a[k], ops[p]);
    lemma_same_needs(s, ops[p], ops[j0]);
}

/// The operations a replica applied, with the ids compaction keeps,
/// meet what compaction needs.
pub proof fn lemma_received_keeps_enough(m: CrdtModel, ops: Seq<TaggedOperation>, a: Seq<TaggedOperation>)
    requires
        received(m, ops, a),
        settled(m),
        coherent(ops, ops),
        all_plain(ops),
    ensures
        keeps_enough(a, |id: OperationId| kept(m.log, m.session, id)),
{
    let keep = |id: OperationId| kept(m.log, m.session, id);
    let s = m.session;
    assert forall|i: int, j: int| 0 <= i < a.len() && 0 <= j < a.len() && (#[trigger] a[i]).op_id == (#[trigger] a[j]).op_id
        implies a[i].same(a[j]) by {
        assert(copy_in(a[i], ops) && copy_in(a[j], ops));
        let p = choose|p: int| 0 <= p < ops.len() && a[i].same(ops[p]);
        let q = choose|q: int| 0 <= q < ops.len() && a[j].same(ops[q]);
        assert(ops[p].same(ops[q]));
        lemma_same_equiv(a[i], ops[p], ops[q]);
        lemma_same_equiv(a[j], ops[q], a[i]);
        lemma_same_equiv(a[i], ops[q], a[j]);
    }
    assert forall|i: int| 0 <= i < a.len() && !keep((#[trigger] a[i]).op_id) implies !state_tag(s, tag_of(a[i])) by {
        assert(plain(a[i]));
        assert(tag_of(a[i]) == OpTag { lamport: a[i].op_id.lamport, peer: a[i].op_id.peer });
    }
    assert forall|e: u64| #[trigger] s.clips.contains_key(e) implies exists|i: int| 0 <= i < a.len() && keep(a[i].op_id)
        && clip_made((#[trigger] a[i]).operation, e) by {
        lemma_entry_has_kept_insert(m, ops, a, e, true);
        let k = choose|k: int| 0 <= k < a.len() && kept(m.log, m.session, a[k].op_id) && made((#[trigger] a[k]).operation, e, true);
        assert(keep(a[k].op_id) && clip_made(a[k].operation, e));
    }
    assert forall|e: u64| #[trigger] s.tracks.contains_key(e) implies exists|i: int| 0 <= i < a.len() && keep(a[i].op_id)
        && track_made((#[trigger] a[i]).operation, e) by {
        lemma_entry_has_kept_insert(m, ops, a, e, false);
        let k = choose|k: int| 0 <= k < a.len() && kept(m.log, m.session, a[k].op_id) && made((#[trigger] a[k]).operation, e, false);
        assert(keep(a[k].op_id) && track_made(a[k].operation, e));
    }
}


/// What a sorted snapshot of the compacted log holds: copies of the
/// received operations whose ids compaction keeps, with those ids.
proof fn lemma_compacted_snapshot(m: CrdtModel, ops: Seq<TaggedOperation>, a: Seq<TaggedOperation>,
    snap: Seq<TaggedOperation>, t: Seq<TaggedOperation>)
    requires
        received(m, ops, a),
        seqs_same(snap, compacted(m.log, m.session)),
        stably_sorted(snap, t, false),
    ensures
        copies(t, ops),
        forall|id: OperationId| ids(t).contains(id) == (ids(ops).contains(id) && kept(m.log, m.session, id)),
{
    let keep = |id: OperationId| kept(m.log, m.session, id);
    let log = m.log;
    assert((|o: TaggedOperation| kept(m.log, m.session, o.op_id)) =~= (|x: TaggedOperation| keep(x.op_id)));
    assert(compacted(log, m.session) == kept_ops(log, keep));
    let k = kept_ops(log, keep);
    lemma_kept_elems(log, keep);
    lemma_log_of_received(m, ops, a);
    lemma_contained_copies(k, log, ops);
    lemma_same_seq(snap, k);
    lemma_copies_trans(snap, k, ops);
    lemma_sorted_copies(snap, t, ops, false);
    assert forall|id: OperationId| ids(t).contains(id) == (ids(ops).contains(id) && kept(m.log, m.session, id)) by {
        if ids(k).contains(id) {
            let i = choose|i: int| 0 <= i < k.len() && (#[trigger] k[i]).op_id == id;
            assert(log.contains(k[i]) && keep(k[i].op_id));
            let l = choose|l: int| 0 <= l < log.len() && log[l] == k[i];
            lemma_in_ids(log, l);
        }
        if ids(ops).contains(id) && kept(m.log, m.session, id) {
            assert(ids(log).contains(id));
            let l = choose|l: int| 0 <= l < log.len() && (#[trigger] log[l]).op_id == id;
            assert(keep(log[l].op_id));
            assert(k.contains(log[l]));
            let i = choose|i: int| 0 <= i < k.len() && k[i] == log[l];
            lemma_in_ids(k, i);
        }
    }
}

/// One entry of a new replica restored from the compacted snapshot exists
/// exactly when it exists in the replica compacted.
proof fn lemma_restored_entry(m: CrdtModel, ops: Seq<TaggedOperation>, a: Seq<TaggedOperation>,
    c: CrdtModel, t: Seq<TaggedOperation>, ac: Seq<TaggedOperation>, e: u64, w: bool)
    requires
        received(m, ops, a),
        received(c, t, ac),
        settled(m),
        settled(c),
        coherent(ops, ops),
        all_plain(ops),
        copies(t, ops),
        coherent(t, t),
        forall|id: OperationId| ids(t).contains(id) == (ids(ops).contains(id) && kept(m.log, m.session, id)),
    ensures
        (if w { m.session.clips.contains_key(e) } else { m.session.tracks.contains_key(e) })
            == (if w { c.session.clips.contains_key(e) } else { c.session.tracks.contains_key(e) }),
{
    lemma_received_keys(m, ops, a);
    lemma_received_keys(c, t, ac);
    if exists|j: int| 0 <= j < t.len() && made((#[trigger] t[j]).operation, e, w) {
        let j = choose|j: int| 0 <= j < t.len() && made((#[trigger] t[j]).operation, e, w);
        assert(copy_in(t[j], ops));
        let o = choose|o: int| 0 <= o < ops.len() && t[j].same(ops[o]);
        lemma_same_needs(m.session, t[j], ops[o]);
        assert(made(ops[o].operation, e, w));
    }
    if (if w { m.session.clips.contains_key(e) } else { m.session.tracks.contains_key(e) }) {
        lemma_entry_has_kept_insert(m, ops, a, e, w);
        let k = choose|k: int| 0 <= k < a.len() && kept(m.log, m.session, a[k].op_id) && made((#[trigger] a[k]).operation, e, w);
        assert(copy_in(a[k], ops));
        let o = choose|o: int| 0 <= o < ops.len() && a[k].same(ops[o]);
        lemma_in_ids(ops, o);
        assert(ids(t).contains(a[k].op_id));
        let j = choose|j: int| 0 <= j < t.len() && (#[trigger] t[j]).op_id == a[k].op_id;
        assert(copy_in(t[j], ops));
        let o2 = choose|o2: int| 0 <= o2 < ops.len() && t[j].same(ops[o2]);
        assert(ops[o2].same(ops[o]));
        lemma_same_needs(m.session, t[j], ops[o2]);
        lemma_same_needs(m.session, ops[o2], ops[o]);
        lemma_same_needs(m.session, a[k], ops[o]);
        assert(made(t[j].operation, e, w));
    }
}

/// A new replica restored from the compacted snapshot has the same
/// entries as the replica compacted.
proof fn lemma_restored_entries(m: CrdtModel, ops: Seq<TaggedOperation>, a: Seq<TaggedOperation>,
    c: CrdtModel, t: Seq<TaggedOperation>, ac: Seq<TaggedOperation>)
    requires
        received(m, ops, a),
        received(c, t, ac),
        settled(m),
        settled(c),
        coherent(ops, ops),
        all_plain(ops),
        copies(t, ops),
        coherent(t, t),
        forall|id: OperationId| ids(t).contains(id) == (ids(ops).contains(id) && kept(m.log, m.session, id)),
    ensures
        crate::reorder::grows(c.session, m.session),
        crate::reorder::grows(m.session, c.session),
{
    assert forall|e: u64| m.session.clips.dom().contains(e) == c.session.clips.dom().contains(e) by {
        lemma_restored_entry(m, ops, a, c, t, ac, e, true);
    }
    assert forall|e: u64| m.session.tracks.dom().contains(e) == c.session.tracks.dom().contains(e) by {
        lemma_restored_entry(m, ops, a, c, t, ac, e, false);
    }
}


/// The restored replica applied exactly the kept operations the compacted
/// replica applied.
proof fn lemma_restored_applied(m: CrdtModel, ops: Seq<TaggedOperation>, a: Seq<TaggedOperation>,
    c: CrdtModel, t: Seq<TaggedOperation>, ac: Seq<TaggedOperation>)
    requires
        received(m, ops, a),
        received(c, t, ac),
        settled(m),
        settled(c),
        coherent(ops, ops),
        all_plain(ops),
        copies(t, ops),
        coherent(t, t),
        forall|id: OperationId| ids(t).contains(id) == (ids(ops).contains(id) && kept(m.log, m.session, id)),
        crate::reorder::grows(c.session, m.session),
        crate::reorder::grows(m.session, c.session),
    ensures
        ids(ac) == ids(kept_ops(a, |id: OperationId| kept(m.log, m.session, id))),
{
    let keep = |id: OperationId| kept(m.log, m.session, id);
    let ka = kept_ops(a, keep);
    let init = SessionModel::initial();
    lemma_kept_elems(a, keep);
    assert forall|id: OperationId| ids(ac).contains(id) implies ids(ka).contains(id) by {
        let i = choose|i: int| 0 <= i < ac.len() && (#[trigger] ac[i]).op_id == id;
        assert(copy_in(ac[i], t));
        let j = choose|j: int| 0 <= j < t.len() && ac[i].same(t[j]);
        lemma_applied_iff_enabled(c, t, ac, j);
        lemma_enabled_grows(c.session, m.session, t[j].operation);
        lemma_in_ids(t, j);
        assert(copy_in(t[j], ops));
        let o = choose|o: int| 0 <= o < ops.len() && t[j].same(ops[o]);
        lemma_same_needs(m.session, t[j], ops[o]);
        lemma_applied_iff_enabled(m, ops, a, o);
        let k = choose|k: int| 0 <= k < a.len() && (#[trigger] a[k]).op_id == ops[o].op_id;
        assert(keep(a[k].op_id));
        assert(ka.contains(a[k]));
        let l = choose|l: int| 0 <= l < ka.len() && ka[l] == a[k];
        lemma_in_ids(ka, l);
    }
    assert forall|id: OperationId| ids(ka).contains(id) implies ids(ac).contains(id) by {
        let l = choose|l: int| 0 <= l < ka.len() && (#[trigger] ka[l]).op_id == id;
        assert(a.contains(ka[l]) && keep(ka[l].op_id));
        let k = choose|k: int| 0 <= k < a.len() && a[k] == ka[l];
        assert(copy_in(a[k], ops));
        let o = choose|o: int| 0 <= o < ops.len() && a[k].same(ops[o]);
        lemma_in_ids(ops, o);
        assert(ids(t).contains(id));
        let j = choose|j: int| 0 <= j < t.len() && (#[trigger] t[j]).op_id == id;
        assert(copy_in(t[j], ops));
        let o2 = choose|o2: int| 0 <= o2 < ops.len() && t[j].same(ops[o2]);
        assert(ops[o2].same(ops[o]));
        lemma_enabled_at_end(init, a);
        assert(enabled(m.session, a[k].operation));
        lemma_same_needs(m.session, a[k], ops[o]);
        lemma_same_needs(m.session, t[j], ops[o2]);
        lemma_same_needs(m.session, ops[o2], ops[o]);
        lemma_enabled_grows(m.session, c.session, t[j].operation);
        lemma_applied_iff_enabled(c, t, ac, j);
    }
    assert(ids(ac) =~= ids(ka));
}

/// Restoring a compacted log keeps the timeline: a new replica that
/// replays, in `(lamport, peer)` order, a snapshot of the compacted log
/// of a replica that received plain operations (each id always carrying
/// the same data) holds every register with the value and tag that
/// replica holds (a clip's own-geometry flag aside).
pub proof fn lemma_compacted_restore(
    p: PeerId,
    ops: Seq<TaggedOperation>,
    m: CrdtModel,
    snap: Seq<TaggedOperation>,
    t: Seq<TaggedOperation>,
    q: PeerId,
    c: CrdtModel,
)
    requires
        replays(CrdtModel::initial(p), ops, m),
        all_plain(ops),
        coherent(ops, ops),
        seqs_same(snap, compacted(m.log, m.session)),
        stably_sorted(snap, t, false),
        replays(CrdtModel::initial(q), t, c),
    ensures
        alike(c.session, m.session),
{
    let init = SessionModel::initial();
    let ms = choose|ms: Seq<CrdtModel>| #[trigger] replay_trace(CrdtModel::initial(p), ops, ms) && ms.last() == m;
    let a = lemma_trace_received(p, ops, ms, ops.len() as int);
    assert(ops.take(ops.len() as int) =~= ops);
    let keep = |id: OperationId| kept(m.log, m.session, id);
    lemma_received_keeps_enough(m, ops, a);
    lemma_kept_suffice(a, keep);
    let ka = kept_ops(a, keep);
    let e = entries_first(ka);
    lemma_compacted_snapshot(m, ops, a, snap, t);
    lemma_copies_self(ops);
    lemma_copies_plain(t, ops);
    lemma_copies_coherent(t, t, ops);
    let cs = choose|cs: Seq<CrdtModel>| #[trigger] replay_trace(CrdtModel::initial(q), t, cs) && cs.last() == c;
    let ac = lemma_trace_received(q, t, cs, t.len() as int);
    assert(t.take(t.len() as int) =~= t);
    lemma_restored_entries(m, ops, a, c, t, ac);
    lemma_restored_applied(m, ops, a, c, t, ac);
    // the two sequences hold the same operations
    lemma_kept_elems(a, keep);
    lemma_entries_first_elems(ka);
    assert forall|i: int| 0 <= i < e.len() implies a.contains(#[trigger] e[i]) by {
        assert(ka.contains(e[i]));
        let l = choose|l: int| 0 <= l < ka.len() && ka[l] == e[i];
    }
    lemma_contained_copies(e, a, ops);
    lemma_copies_trans(ac, t, ops);
    lemma_copies_coherent(ac, e, ops);
    lemma_copies_plain(e, ops);
    lemma_orders_agree(init, ac, e);
}

} // verus!
