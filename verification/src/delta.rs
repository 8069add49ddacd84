//! Delta compression: the difference of two materialized sessions as a
//! list of operations.
//!
//! All emitted operations carry absolute values. Track inserts come first,
//! then the mutations (track updates, session metadata, clip inserts and
//! mutations, envelope replacements), then the deletes (tracks, then
//! clips), so the list can be applied in order without waiting on targets.
//! Values compare by their bit patterns (floats included).

use vstd::prelude::*;
use crate::merge::OpTag;
use crate::operation::{
    ClipData, ClipMetadataUpdate, EnvelopePoint, EnvelopeType, SessionMetadataUpdate, TargetId, TimelineOperation,
    TrackData, TrackMetadataUpdate, TrimEdge, copy_points, lemma_op_same_equiv,
};
use crate::state::{ClipView, Session, SessionMetadata, SessionModel, SessionView, TrackView, clip_index, track_index};

verus! {

/// Two operation lists carry the same data, position by position.
pub open spec fn ops_same(a: Seq<TimelineOperation>, b: Seq<TimelineOperation>) -> bool {
    &&& a.len() == b.len()
    &&& forall|i: int| 0 <= i < a.len() ==> (#[trigger] a[i]).same(b[i])
}

/// The operations `f` produces for each element of `s`, concatenated.
pub open spec fn concat_map<A>(s: Seq<A>, f: spec_fn(A) -> Seq<TimelineOperation>) -> Seq<TimelineOperation>
    decreases s.len(),
{
    if s.len() == 0 {
        Seq::empty()
    } else {
        concat_map(s.drop_last(), f) + f(s.last())
    }
}

/// `Some(v)` when `changed`.
pub open spec fn changed_to<T>(changed: bool, v: T) -> Option<T> {
    if changed { Some(v) } else { None }
}

/// The field updates turning track `prev` into `t`.
pub open spec fn track_updates(prev: TrackView, t: TrackView) -> TrackMetadataUpdate {
    TrackMetadataUpdate {
        name: changed_to(prev.name@ != t.name@, t.name),
        volume_db: changed_to(prev.volume_db != t.volume_db, t.volume_db),
        muted: changed_to(prev.muted != t.muted, t.muted),
        solo: changed_to(prev.solo != t.solo, t.solo),
        position: changed_to(prev.position != t.position, t.position),
    }
}

/// Track `t` of the new view is listed in `old` with the same kind.
pub open spec fn kind_kept(old: Seq<TrackView>, t: TrackView) -> bool {
    match track_index(old, t.track_id) {
        Some(i) => old[i].kind == t.kind,
        None => false,
    }
}

/// The insert for track `t` of the new view: when `old` lacks it, or lists
/// it with another kind (only an insert writes the kind).
pub open spec fn track_insert(old: Seq<TrackView>, t: TrackView) -> Seq<TimelineOperation> {
    if kind_kept(old, t) {
        Seq::empty()
    } else {
        seq![TimelineOperation::InsertTrack {
            track_id: t.track_id,
            track: TrackData { name: t.name, kind: t.kind, volume_db: t.volume_db, muted: t.muted, solo: t.solo },
            position: t.position,
        }]
    }
}

/// The update for track `t` of the new view, when `old` lists it with the
/// same kind and some field changed.
pub open spec fn track_update(old: Seq<TrackView>, t: TrackView) -> Seq<TimelineOperation> {
    if kind_kept(old, t) {
        let u = track_updates(old[track_index(old, t.track_id)->0], t);
        if u.name is None && u.volume_db is None && u.muted is None && u.solo is None && u.position is None {
            Seq::empty()
        } else {
            seq![TimelineOperation::UpdateTrackMetadata { track_id: t.track_id, updates: u }]
        }
    } else {
        Seq::empty()
    }
}

/// The delete for track `t` of the old view, when the new view lacks it.
pub open spec fn track_removal(new: Seq<TrackView>, t: TrackView) -> Seq<TimelineOperation> {
    if track_index(new, t.track_id) is None {
        seq![TimelineOperation::DeleteTrack { track_id: t.track_id }]
    } else {
        Seq::empty()
    }
}

/// The session-metadata update turning `old` into `new`, if any field
/// differs (the time signature travels as a pair).
pub open spec fn metadata_delta(old: SessionMetadata, new: SessionMetadata) -> Seq<TimelineOperation> {
    let ts = old.time_signature != new.time_signature;
    let u = SessionMetadataUpdate {
        name: changed_to(old.name@ != new.name@, new.name),
        sample_rate: changed_to(old.sample_rate != new.sample_rate, new.sample_rate),
        tempo_bpm: changed_to(old.tempo_bpm != new.tempo_bpm, new.tempo_bpm),
        time_signature_numerator: changed_to(ts, new.time_signature.0),
        time_signature_denominator: changed_to(ts, new.time_signature.1),
    };
    if u.name is None && u.sample_rate is None && u.tempo_bpm is None && !ts {
        Seq::empty()
    } else {
        seq![TimelineOperation::UpdateSessionMetadata { updates: u }]
    }
}

/// The metadata updates turning clip `p` into `c`.
pub open spec fn clip_updates(p: ClipView, c: ClipView) -> ClipMetadataUpdate {
    ClipMetadataUpdate {
        name: changed_to(p.name@ != c.name@, c.name),
        source: changed_to(p.source@ != c.source@, c.source),
        color: changed_to(p.color != c.color, c.color),
        gain: changed_to(p.gain != c.gain, c.gain),
        muted: changed_to(p.muted != c.muted, c.muted),
        locked: changed_to(p.locked != c.locked, c.locked),
    }
}

/// The operations for clip `c` of the new view, against the old clips: an
/// insert for a new clip; otherwise a move when the placement changed, a
/// trim of the end when the duration changed, and a metadata update when
/// any metadata changed.
pub open spec fn clip_delta(old: Seq<ClipView>, c: ClipView) -> Seq<TimelineOperation> {
    match clip_index(old, c.clip_id) {
        None => seq![TimelineOperation::InsertClip {
            clip_id: c.clip_id,
            track_id: c.track_id,
            clip: ClipData {
                name: c.name,
                source: c.source,
                start_frame: c.start_frame,
                duration_frames: c.duration_frames,
                color: c.color,
                gain: c.gain,
                muted: c.muted,
                locked: c.locked,
            },
            position: c.order_hint,
        }],
        Some(i) => {
            let p = old[i];
            let mv = if p.track_id != c.track_id || p.start_frame != c.start_frame || p.order_hint != c.order_hint {
                seq![TimelineOperation::MoveClip {
                    clip_id: c.clip_id,
                    new_track_id: c.track_id,
                    new_start_frame: c.start_frame,
                    new_position: c.order_hint,
                }]
            } else {
                Seq::empty()
            };
            let tr = if p.duration_frames != c.duration_frames {
                seq![TimelineOperation::TrimClip {
                    clip_id: c.clip_id,
                    new_start_frame: c.start_frame,
                    new_duration: c.duration_frames,
                    edge: TrimEdge::End,
                }]
            } else {
                Seq::empty()
            };
            let u = clip_updates(p, c);
            let md = if u.name is None && u.source is None && u.color is None && u.gain is None && u.muted is None
                && u.locked is None {
                Seq::empty()
            } else {
                seq![TimelineOperation::UpdateClipMetadata { clip_id: c.clip_id, updates: u }]
            };
            mv + tr + md
        },
    }
}

/// The delete for clip `c` of the old view, when the new view lacks it.
pub open spec fn clip_removal(new: Seq<ClipView>, c: ClipView) -> Seq<TimelineOperation> {
    if clip_index(new, c.clip_id) is None {
        seq![TimelineOperation::DeleteClip { clip_id: c.clip_id }]
    } else {
        Seq::empty()
    }
}

/// An envelope entry of a materialized view.
pub type EnvelopeEntry = (TargetId, EnvelopeType, Vec<EnvelopePoint>);

/// The position of the envelope with key `(t, e)` in `es`.
pub open spec fn envelope_index(es: Seq<EnvelopeEntry>, t: TargetId, e: crate::operation::EnvelopeKind) -> Option<int>
    decreases es.len(),
{
    if es.len() == 0 {
        None
    } else {
        match envelope_index(es.drop_last(), t, e) {
            Some(i) => Some(i),
            None => if es.last().0 == t && es.last().1@ == e { Some(es.len() - 1) } else { None },
        }
    }
}

/// The replacement for envelope `x` of the new view, unless the old view
/// holds the same points under its key.
pub open spec fn envelope_delta(old: Seq<EnvelopeEntry>, x: EnvelopeEntry) -> Seq<TimelineOperation> {
    match envelope_index(old, x.0, x.1@) {
        Some(i) => if old[i].2@ == x.2@ {
            Seq::empty()
        } else {
            seq![TimelineOperation::UpdateEnvelope { target_id: x.0, envelope_type: x.1, points: x.2 }]
        },
        None => seq![TimelineOperation::UpdateEnvelope { target_id: x.0, envelope_type: x.1, points: x.2 }],
    }
}

/// The operations that turn a session materialized as `old` into one
/// materialized as `new`.
pub open spec fn delta_ops(old: SessionView, new: SessionView) -> Seq<TimelineOperation> {
    concat_map(new.tracks@, |t: TrackView| track_insert(old.tracks@, t))
        + concat_map(new.tracks@, |t: TrackView| track_update(old.tracks@, t))
        + metadata_delta(old.metadata, new.metadata)
        + concat_map(new.clips@, |c: ClipView| clip_delta(old.clips@, c))
        + concat_map(new.envelopes@, |x: EnvelopeEntry| envelope_delta(old.envelopes@, x))
        + concat_map(old.tracks@, |t: TrackView| track_removal(new.tracks@, t))
        + concat_map(old.clips@, |c: ClipView| clip_removal(new.clips@, c))
}

/// Data-equality of operation lists is preserved by concatenation.
proof fn lemma_ops_same_concat(a: Seq<TimelineOperation>, b: Seq<TimelineOperation>, c: Seq<TimelineOperation>,
    d: Seq<TimelineOperation>)
    requires
        ops_same(a, b),
        ops_same(c, d),
    ensures
        ops_same(a + c, b + d),
{
    assert forall|i: int| 0 <= i < (a + c).len() implies (#[trigger] (a + c)[i]).same((b + d)[i]) by {
        if i < a.len() {
            assert((a + c)[i] == a[i] && (b + d)[i] == b[i]);
        } else {
            assert((a + c)[i] == c[i - a.len()] && (b + d)[i] == d[i - a.len()]);
        }
    }
}

/// One more element of a concatenated map.
proof fn lemma_concat_map_step<A>(s: Seq<A>, i: int, f: spec_fn(A) -> Seq<TimelineOperation>)
    requires
        0 <= i < s.len(),
    ensures
        concat_map(s.take(i + 1), f) == concat_map(s.take(i), f) + f(s[i]),
{
    assert(s.take(i + 1).drop_last() =~= s.take(i));
    assert(s.take(i + 1).last() == s[i]);
}

/// Appends the operations `more` to `out`.
fn emit(out: &mut Vec<TimelineOperation>, more: Vec<TimelineOperation>)
    ensures
        final(out)@ == old(out)@ + more@,
{
    let mut more = more;
    out.append(&mut more);
}

/// Every operation carries its own data.
proof fn lemma_ops_same_refl(a: Seq<TimelineOperation>)
    ensures
        ops_same(a, a),
{
    assert forall|i: int| 0 <= i < a.len() implies (#[trigger] a[i]).same(a[i]) by {
        lemma_op_same_equiv(a[i], a[i], a[i]);
    }
}

/// The insert for one track of the new view.
fn track_insert_of(old: &Vec<TrackView>, old_view: &SessionView, t: &TrackView) -> (r: Vec<TimelineOperation>)
    requires
        old_view.tracks@ == old@,
    ensures
        r@ == track_insert(old@, *t),
{
    let kept = match old_view.track(&t.track_id) {
        None => false,
        Some(prev) => prev.kind == t.kind,
    };
    let mut r: Vec<TimelineOperation> = Vec::new();
    if !kept {
        r.push(TimelineOperation::InsertTrack {
            track_id: t.track_id,
            track: TrackData {
                name: t.name.clone(),
                kind: t.kind,
                volume_db: t.volume_db,
                muted: t.muted,
                solo: t.solo,
            },
            position: t.position,
        });
    }
    proof { assert(r@ =~= track_insert(old@, *t)); }
    r
}

/// The update for one track of the new view.
fn track_update_of(old: &Vec<TrackView>, old_view: &SessionView, t: &TrackView) -> (r: Vec<TimelineOperation>)
    requires
        old_view.tracks@ == old@,
    ensures
        r@ == track_update(old@, *t),
{
    let mut r: Vec<TimelineOperation> = Vec::new();
    match old_view.track(&t.track_id) {
        None => {},
        Some(prev) => {
            if prev.kind == t.kind {
                let u = TrackMetadataUpdate {
                    name: if prev.name != t.name { Some(t.name.clone()) } else { None },
                    volume_db: if prev.volume_db != t.volume_db { Some(t.volume_db) } else { None },
                    muted: if prev.muted != t.muted { Some(t.muted) } else { None },
                    solo: if prev.solo != t.solo { Some(t.solo) } else { None },
                    position: if prev.position != t.position { Some(t.position) } else { None },
                };
                if u.name.is_some() || u.volume_db.is_some() || u.muted.is_some() || u.solo.is_some()
                    || u.position.is_some() {
                    r.push(TimelineOperation::UpdateTrackMetadata { track_id: t.track_id, updates: u });
                }
            }
        },
    }
    proof { assert(r@ =~= track_update(old@, *t)); }
    r
}

/// The operations for one clip of the new view.
fn clip_delta_of(old: &Vec<ClipView>, old_view: &SessionView, c: &ClipView) -> (r: Vec<TimelineOperation>)
    requires
        old_view.clips@ == old@,
    ensures
        r@ == clip_delta(old@, *c),
{
    match old_view.clip(&c.clip_id) {
        None => {
            let mut r: Vec<TimelineOperation> = Vec::new();
            r.push(TimelineOperation::InsertClip {
                clip_id: c.clip_id,
                track_id: c.track_id,
                clip: ClipData {
                    name: c.name.clone(),
                    source: c.source.clone(),
                    start_frame: c.start_frame,
                    duration_frames: c.duration_frames,
                    color: c.color,
                    gain: c.gain,
                    muted: c.muted,
                    locked: c.locked,
                },
                position: c.order_hint,
            });
            proof { assert(r@ =~= clip_delta(old@, *c)); }
            r
        },
        Some(p) => {
            let mut r: Vec<TimelineOperation> = Vec::new();
            if p.track_id != c.track_id || p.start_frame != c.start_frame || p.order_hint != c.order_hint {
                r.push(TimelineOperation::MoveClip {
                    clip_id: c.clip_id,
                    new_track_id: c.track_id,
                    new_start_frame: c.start_frame,
                    new_position: c.order_hint,
                });
            }
            let ghost mv = r@;
            if p.duration_frames != c.duration_frames {
                r.push(TimelineOperation::TrimClip {
                    clip_id: c.clip_id,
                    new_start_frame: c.start_frame,
                    new_duration: c.duration_frames,
                    edge: TrimEdge::End,
                });
            }
            let ghost tr = r@;
            let u = ClipMetadataUpdate {
                name: if p.name != c.name { Some(c.name.clone()) } else { None },
                source: if p.source != c.source { Some(c.source.clone()) } else { None },
                color: if p.color != c.color { Some(c.color) } else { None },
                gain: if p.gain != c.gain { Some(c.gain) } else { None },
                muted: if p.muted != c.muted { Some(c.muted) } else { None },
                locked: if p.locked != c.locked { Some(c.locked) } else { None },
            };
            if u.name.is_some() || u.source.is_some() || u.color.is_some() || u.gain.is_some() || u.muted.is_some()
                || u.locked.is_some() {
                r.push(TimelineOperation::UpdateClipMetadata { clip_id: c.clip_id, updates: u });
            }
            proof { assert(r@ =~= clip_delta(old@, *c)); }
            r
        },
    }
}

/// Whether two point lists are equal.
fn points_equal(a: &Vec<EnvelopePoint>, b: &Vec<EnvelopePoint>) -> (r: bool)
    ensures
        r == (a@ == b@),
{
    if a.len() != b.len() {
        return false;
    }
    let mut i: usize = 0;
    while i < a.len()
        invariant
            a@.len() == b@.len(),
            i <= a@.len(),
            forall|k: int| 0 <= k < i ==> a@[k] == b@[k],
        decreases a@.len() - i,
    {
        if a[i] != b[i] {
            return false;
        }
        i = i + 1;
    }
    proof { assert(a@ =~= b@); }
    true
}

/// The position of the envelope with key `(t, e)`.
fn find_envelope(es: &Vec<EnvelopeEntry>, t: TargetId, e: &EnvelopeType) -> (r: Option<usize>)
    ensures
        match envelope_index(es@, t, e@) {
            Some(i) => r == Some(i as usize) && 0 <= i < es@.len(),
            None => r is None,
        },
{
    let mut i: usize = 0;
    while i < es.len()
        invariant
            i <= es@.len(),
            envelope_index(es@.take(i as int), t, e@) is None,
        decreases es@.len() - i,
    {
        proof { assert(es@.take(i + 1).drop_last() =~= es@.take(i as int)); }
        if es[i].0 == t && es[i].1.same_as(e) {
            proof { lemma_envelope_index_prefix(es@, i as int + 1, t, e@, i as int); }
            return Some(i);
        }
        i = i + 1;
    }
    proof { assert(es@.take(i as int) =~= es@); }
    None
}

/// A match found in a prefix is the first match of the whole sequence.
proof fn lemma_envelope_index_prefix(es: Seq<EnvelopeEntry>, n: int, t: TargetId, e: crate::operation::EnvelopeKind, j: int)
    requires
        0 <= n <= es.len(),
        envelope_index(es.take(n), t, e) == Some(j),
    ensures
        envelope_index(es, t, e) == Some(j),
    decreases es.len() - n,
{
    if n < es.len() {
        assert(es.take(n + 1).drop_last() =~= es.take(n));
        lemma_envelope_index_prefix(es, n + 1, t, e, j);
    } else {
        assert(es.take(n) =~= es);
    }
}

/// The operations for one envelope of the new view.
fn envelope_delta_of(old: &Vec<EnvelopeEntry>, x: &EnvelopeEntry) -> (r: Vec<TimelineOperation>)
    ensures
        ops_same(r@, envelope_delta(old@, *x)),
{
    let len = old.len();
    let found = find_envelope(old, x.0, &x.1);
    let unchanged = match found {
        Some(k) => points_equal(&old[k].2, &x.2),
        None => false,
    };
    proof {
        match envelope_index(old@, x.0, x.1@) {
            Some(i) => {
                assert(i < len);
                assert((i as usize) as int == i);
                assert(found == Some(i as usize));
                assert(unchanged == (old@[i].2@ == x.2@));
            },
            None => {
                assert(found is None);
            },
        }
    }
    let mut more: Vec<TimelineOperation> = Vec::new();
    if !unchanged {
        more.push(TimelineOperation::UpdateEnvelope {
            target_id: x.0,
            envelope_type: x.1.duplicate(),
            points: copy_points(&x.2),
        });
    }
    proof {
        let expect = envelope_delta(old@, *x);
        if unchanged {
            assert(expect =~= Seq::<TimelineOperation>::empty());
            assert(more@ =~= Seq::<TimelineOperation>::empty());
        } else {
            assert(expect =~= seq![TimelineOperation::UpdateEnvelope { target_id: x.0, envelope_type: x.1, points: x.2 }]);
            assert(more@[0].same(expect[0]));
        }
    }
    more
}

/// Inserts (`ins`) or updates (`!ins`) for the tracks of `new`.
fn track_section(old: &SessionView, new: &SessionView, ins: bool) -> (out: Vec<TimelineOperation>)
    ensures
        ins ==> out@ == concat_map(new.tracks@, |t: TrackView| track_insert(old.tracks@, t)),
        !ins ==> out@ == concat_map(new.tracks@, |t: TrackView| track_update(old.tracks@, t)),
{
    let ghost f = if ins {
        |t: TrackView| track_insert(old.tracks@, t)
    } else {
        |t: TrackView| track_update(old.tracks@, t)
    };
    let mut out: Vec<TimelineOperation> = Vec::new();
    let mut i: usize = 0;
    proof { assert(new.tracks@.take(0) =~= Seq::<TrackView>::empty()); }
    while i < new.tracks.len()
        invariant
            i <= new.tracks@.len(),
            f == (if ins {
                |t: TrackView| track_insert(old.tracks@, t)
            } else {
                |t: TrackView| track_update(old.tracks@, t)
            }),
            out@ == concat_map(new.tracks@.take(i as int), f),
        decreases new.tracks@.len() - i,
    {
        let more = if ins {
            track_insert_of(&old.tracks, old, &new.tracks[i])
        } else {
            track_update_of(&old.tracks, old, &new.tracks[i])
        };
        proof { lemma_concat_map_step(new.tracks@, i as int, f); }
        emit(&mut out, more);
        i = i + 1;
    }
    proof { assert(new.tracks@.take(i as int) =~= new.tracks@); }
    out
}

/// Deletes for the tracks of `old` missing from `new`.
fn track_removals(old: &SessionView, new: &SessionView) -> (out: Vec<TimelineOperation>)
    ensures
        out@ == concat_map(old.tracks@, |t: TrackView| track_removal(new.tracks@, t)),
{
    let ghost f = |t: TrackView| track_removal(new.tracks@, t);
    let mut out: Vec<TimelineOperation> = Vec::new();
    let mut i: usize = 0;
    proof { assert(old.tracks@.take(0) =~= Seq::<TrackView>::empty()); }
    while i < old.tracks.len()
        invariant
            i <= old.tracks@.len(),
            out@ == concat_map(old.tracks@.take(i as int), f),
        decreases old.tracks@.len() - i,
    {
        let t = &old.tracks[i];
        let mut more: Vec<TimelineOperation> = Vec::new();
        if new.track(&t.track_id).is_none() {
            more.push(TimelineOperation::DeleteTrack { track_id: t.track_id });
        }
        proof {
            assert(more@ =~= f(*t));
            lemma_concat_map_step(old.tracks@, i as int, f);
        }
        emit(&mut out, more);
        i = i + 1;
    }
    proof { assert(old.tracks@.take(i as int) =~= old.tracks@); }
    out
}

/// The session-metadata update.
fn metadata_section(old: &SessionView, new: &SessionView) -> (out: Vec<TimelineOperation>)
    ensures
        out@ == metadata_delta(old.metadata, new.metadata),
{
    let ts = old.metadata.time_signature.0 != new.metadata.time_signature.0
        || old.metadata.time_signature.1 != new.metadata.time_signature.1;
    let u = SessionMetadataUpdate {
        name: if old.metadata.name != new.metadata.name { Some(new.metadata.name.clone()) } else { None },
        sample_rate: if old.metadata.sample_rate != new.metadata.sample_rate {
            Some(new.metadata.sample_rate)
        } else {
            None
        },
        tempo_bpm: if old.metadata.tempo_bpm != new.metadata.tempo_bpm { Some(new.metadata.tempo_bpm) } else { None },
        time_signature_numerator: if ts { Some(new.metadata.time_signature.0) } else { None },
        time_signature_denominator: if ts { Some(new.metadata.time_signature.1) } else { None },
    };
    let mut more: Vec<TimelineOperation> = Vec::new();
    if u.name.is_some() || u.sample_rate.is_some() || u.tempo_bpm.is_some() || ts {
        more.push(TimelineOperation::UpdateSessionMetadata { updates: u });
    }
    proof { assert(more@ =~= metadata_delta(old.metadata, new.metadata)); }
    more
}

/// Inserts and mutations for the clips of `new`.
fn clip_section(old: &SessionView, new: &SessionView) -> (out: Vec<TimelineOperation>)
    ensures
        out@ == concat_map(new.clips@, |c: ClipView| clip_delta(old.clips@, c)),
{
    let ghost f = |c: ClipView| clip_delta(old.clips@, c);
    let mut out: Vec<TimelineOperation> = Vec::new();
    let mut i: usize = 0;
    proof { assert(new.clips@.take(0) =~= Seq::<ClipView>::empty()); }
    while i < new.clips.len()
        invariant
            i <= new.clips@.len(),
            out@ == concat_map(new.clips@.take(i as int), f),
        decreases new.clips@.len() - i,
    {
        let more = clip_delta_of(&old.clips, old, &new.clips[i]);
        proof { lemma_concat_map_step(new.clips@, i as int, f); }
        emit(&mut out, more);
        i = i + 1;
    }
    proof { assert(new.clips@.take(i as int) =~= new.clips@); }
    out
}

/// Deletes for the clips of `old` missing from `new`.
fn clip_removals(old: &SessionView, new: &SessionView) -> (out: Vec<TimelineOperation>)
    ensures
        out@ == concat_map(old.clips@, |c: ClipView| clip_removal(new.clips@, c)),
{
    let ghost f = |c: ClipView| clip_removal(new.clips@, c);
    let mut out: Vec<TimelineOperation> = Vec::new();
    let mut i: usize = 0;
    proof { assert(old.clips@.take(0) =~= Seq::<ClipView>::empty()); }
    while i < old.clips.len()
        invariant
            i <= old.clips@.len(),
            out@ == concat_map(old.clips@.take(i as int), f),
        decreases old.clips@.len() - i,
    {
        let c = &old.clips[i];
        let mut more: Vec<TimelineOperation> = Vec::new();
        if new.clip(&c.clip_id).is_none() {
            more.push(TimelineOperation::DeleteClip { clip_id: c.clip_id });
        }
        proof {
            assert(more@ =~= f(*c));
            lemma_concat_map_step(old.clips@, i as int, f);
        }
        emit(&mut out, more);
        i = i + 1;
    }
    proof { assert(old.clips@.take(i as int) =~= old.clips@); }
    out
}

/// Replacements for the envelopes of `new` that differ from `old`.
fn envelope_section(old: &SessionView, new: &SessionView) -> (out: Vec<TimelineOperation>)
    ensures
        ops_same(out@, concat_map(new.envelopes@, |x: EnvelopeEntry| envelope_delta(old.envelopes@, x))),
{
    let ghost f = |x: EnvelopeEntry| envelope_delta(old.envelopes@, x);
    let mut out: Vec<TimelineOperation> = Vec::new();
    let mut i: usize = 0;
    proof { assert(new.envelopes@.take(0) =~= Seq::<EnvelopeEntry>::empty()); }
    while i < new.envelopes.len()
        invariant
            i <= new.envelopes@.len(),
            ops_same(out@, concat_map(new.envelopes@.take(i as int), f)),
        decreases new.envelopes@.len() - i,
    {
        let more = envelope_delta_of(&old.envelopes, &new.envelopes[i]);
        let ghost before = out@;
        proof {
            lemma_concat_map_step(new.envelopes@, i as int, f);
            lemma_ops_same_concat(before, concat_map(new.envelopes@.take(i as int), f), more@, f(new.envelopes@[i as int]));
        }
        emit(&mut out, more);
        i = i + 1;
    }
    proof { assert(new.envelopes@.take(i as int) =~= new.envelopes@); }
    out
}

/// Computes the operations that, applied to a session materialized as
/// `old`, produce one materialized as `new`.
pub fn compute_delta(old: &SessionView, new: &SessionView) -> (r: Vec<TimelineOperation>)
    ensures
        ops_same(r@, delta_ops(*old, *new)),
{
    let mut out = track_section(old, new, true);
    emit(&mut out, track_section(old, new, false));
    emit(&mut out, metadata_section(old, new));
    emit(&mut out, clip_section(old, new));
    let ghost head = out@;
    let env = envelope_section(old, new);
    let ghost mid = env@;
    emit(&mut out, env);
    let ghost envs = concat_map(new.envelopes@, |x: EnvelopeEntry| envelope_delta(old.envelopes@, x));
    let dels = track_removals(old, new);
    let ghost d1 = dels@;
    emit(&mut out, dels);
    let cdels = clip_removals(old, new);
    let ghost d2 = cdels@;
    emit(&mut out, cdels);
    proof {
        lemma_ops_same_refl(head);
        lemma_ops_same_refl(d1);
        lemma_ops_same_refl(d2);
        lemma_ops_same_concat(head, head, mid, envs);
        lemma_ops_same_concat(head + mid, head + envs, d1, d1);
        lemma_ops_same_concat(head + mid + d1, head + envs + d1, d2, d2);
        assert(head + envs + d1 + d2 =~= delta_ops(*old, *new));
    }
    out
}

/// The session after applying `delta[0..n)`, operation `i` at tag
/// `(base.lamport + i, base.peer)` (saturating); failed operations change
/// nothing but what their application changes.
pub open spec fn delta_applied(m: SessionModel, delta: Seq<TimelineOperation>, base: OpTag, n: int) -> SessionModel
    decreases n,
{
    if n <= 0 {
        m
    } else {
        let l = base.lamport + (n - 1);
        let t = OpTag { lamport: if l > u64::MAX { u64::MAX } else { l as u64 }, peer: base.peer };
        delta_applied(m, delta, base, n - 1).applied(delta[n - 1], t).0
    }
}

/// Applies a delta directly to a session, operation `i` at the tag
/// `(base_tag.lamport + i, base_tag.peer)` (saturating). Pass a base tag
/// above every tag in the session so the delta wins all comparisons.
pub fn apply_delta(session: &mut Session, delta: &[TimelineOperation], base_tag: OpTag)
    requires
        old(session).wf(),
    ensures
        final(session).wf(),
        final(session)@ == delta_applied(old(session)@, delta@, base_tag, delta@.len() as int),
{
    let mut i: usize = 0;
    while i < delta.len()
        invariant
            session.wf(),
            i <= delta@.len(),
            session@ == delta_applied(old(session)@, delta@, base_tag, i as int),
        decreases delta@.len() - i,
    {
        let tag = OpTag::new(base_tag.lamport.saturating_add(i as u64), base_tag.peer);
        let _ = session.apply(&delta[i], tag);
        i = i + 1;
    }
}

} // verus!
