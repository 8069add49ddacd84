//! The timeline state model: a session of tracks, clips, and envelopes.
//!
//! [`Session`] applies [`TimelineOperation`]s and materializes the visible
//! timeline. A clip created by a split starts with most registers
//! unwritten; while a register is unwritten its value is inherited from the
//! parent clip chain.

use vstd::prelude::*;
use crate::clip_crdt::{ClipCrdt, ClipModel, ClipParent, text_reg, lemma_text_reg_holding, lemma_text_reg_written, split_recorded};
use crate::envelope_crdt::{EnvelopeKey, EnvelopeStore, blank_envelope};
use crate::error::SyncError;
use crate::merge::{LwwReg, OpTag};
use crate::operation::{ClipId, EnvelopePoint, RequiredTarget, TargetId, TimelineOperation, TrackId, SessionMetadataUpdate};
use crate::sort::{SortKey, key_lt, sort_rows, keys_distinct, strip_keys};
use crate::table::{table_distinct, table_map, table_find, lemma_table_get, lemma_table_dom, lemma_table_push, lemma_table_remove};
use crate::track_crdt::{TrackCrdt, TrackModel};

verus! {

/// Default session name.
pub const DEFAULT_SESSION_NAME: &'static str = "Untitled Session";
/// Default sample rate in Hz.
pub const DEFAULT_SAMPLE_RATE: u32 = 48_000u32;
/// Bit pattern of the default tempo, 120.0 BPM as an `f64`.
pub const DEFAULT_TEMPO_BITS: u64 = 0x405E_0000_0000_0000u64;
/// Default time signature numerator and denominator.
pub const DEFAULT_TIME_SIGNATURE: u32 = 4u32;

/// Session-level metadata as LWW registers.
#[derive(Debug, Clone)]
pub struct SessionMetadataState {
    name: LwwReg<String>,
    sample_rate: LwwReg<u32>,
    tempo_bpm: LwwReg<u64>,
    ts_numerator: LwwReg<u32>,
    ts_denominator: LwwReg<u32>,
}

/// The mathematical state of the session metadata.
#[verifier::ext_equal]
pub struct MetadataModel {
    pub name: LwwReg<Seq<char>>,
    pub sample_rate: LwwReg<u32>,
    pub tempo_bpm: LwwReg<u64>,
    pub ts_numerator: LwwReg<u32>,
    pub ts_denominator: LwwReg<u32>,
}

impl View for SessionMetadataState {
    type V = MetadataModel;

    closed spec fn view(&self) -> MetadataModel {
        MetadataModel {
            name: text_reg(self.name),
            sample_rate: self.sample_rate,
            tempo_bpm: self.tempo_bpm,
            ts_numerator: self.ts_numerator,
            ts_denominator: self.ts_denominator,
        }
    }
}

/// The register after an optional write of text.
pub open spec fn text_effect(r: LwwReg<Seq<char>>, w: Option<String>, t: OpTag) -> LwwReg<Seq<char>> {
    match w {
        Some(v) => r.written(v@, t),
        None => r,
    }
}

impl MetadataModel {
    /// The metadata of a new session.
    pub open spec fn initial() -> MetadataModel {
        MetadataModel {
            name: LwwReg::holding(DEFAULT_SESSION_NAME@, OpTag::spec_initial()),
            sample_rate: LwwReg::holding(DEFAULT_SAMPLE_RATE, OpTag::spec_initial()),
            tempo_bpm: LwwReg::holding(DEFAULT_TEMPO_BITS, OpTag::spec_initial()),
            ts_numerator: LwwReg::holding(DEFAULT_TIME_SIGNATURE, OpTag::spec_initial()),
            ts_denominator: LwwReg::holding(DEFAULT_TIME_SIGNATURE, OpTag::spec_initial()),
        }
    }

    /// The metadata after an update at `tag`.
    pub open spec fn updated(self, u: SessionMetadataUpdate, tag: OpTag) -> MetadataModel {
        MetadataModel {
            name: text_effect(self.name, u.name, tag),
            sample_rate: crate::merge::effect(self.sample_rate, u.sample_rate, tag),
            tempo_bpm: crate::merge::effect(self.tempo_bpm, u.tempo_bpm, tag),
            ts_numerator: crate::merge::effect(self.ts_numerator, u.time_signature_numerator, tag),
            ts_denominator: crate::merge::effect(self.ts_denominator, u.time_signature_denominator, tag),
        }
    }
}

impl SessionMetadataState {
    fn new() -> (m: SessionMetadataState)
        ensures
            m@ == MetadataModel::initial(),
    {
        let name = DEFAULT_SESSION_NAME.to_owned();
        let ghost g = name;
        let m = SessionMetadataState {
            name: LwwReg::new_initial(name),
            sample_rate: LwwReg::new_initial(DEFAULT_SAMPLE_RATE),
            tempo_bpm: LwwReg::new_initial(DEFAULT_TEMPO_BITS),
            ts_numerator: LwwReg::new_initial(DEFAULT_TIME_SIGNATURE),
            ts_denominator: LwwReg::new_initial(DEFAULT_TIME_SIGNATURE),
        };
        proof { lemma_text_reg_holding(g, OpTag::spec_initial()); }
        m
    }

    fn update(&mut self, u: &SessionMetadataUpdate, tag: OpTag)
        ensures
            final(self)@ == old(self)@.updated(*u, tag),
    {
        let ghost o = *self;
        if let Some(v) = &u.name {
            self.name.set(v.clone(), tag);
            proof { lemma_text_reg_written(o.name, *v, tag); }
        }
        if let Some(v) = u.sample_rate {
            self.sample_rate.set(v, tag);
        }
        if let Some(v) = u.tempo_bpm {
            self.tempo_bpm.set(v, tag);
        }
        if let Some(v) = u.time_signature_numerator {
            self.ts_numerator.set(v, tag);
        }
        if let Some(v) = u.time_signature_denominator {
            self.ts_denominator.set(v, tag);
        }
        proof { assert(self@ =~= o@.updated(*u, tag)); }
    }
}

/// The current timeline state, as a bag of per-entity CRDTs keyed by raw
/// id.
#[derive(Debug, Clone)]
pub struct Session {
    metadata: SessionMetadataState,
    tracks: Vec<(u64, TrackCrdt)>,
    clips: Vec<(u64, ClipCrdt)>,
    envelopes: EnvelopeStore,
}

/// The mathematical state of a session.
#[verifier::ext_equal]
pub struct SessionModel {
    pub metadata: MetadataModel,
    pub tracks: Map<u64, TrackModel>,
    pub clips: Map<u64, ClipModel>,
    pub envelopes: Map<EnvelopeKey, LwwReg<Seq<EnvelopePoint>>>,
}

/// A track table, viewed entry by entry.
pub open spec fn track_entries(v: Seq<(u64, TrackCrdt)>) -> Seq<(u64, TrackModel)> {
    v.map_values(|e: (u64, TrackCrdt)| (e.0, e.1@))
}

/// A clip table, viewed entry by entry.
pub open spec fn clip_entries(v: Seq<(u64, ClipCrdt)>) -> Seq<(u64, ClipModel)> {
    v.map_values(|e: (u64, ClipCrdt)| (e.0, e.1@))
}

impl View for Session {
    type V = SessionModel;

    closed spec fn view(&self) -> SessionModel {
        SessionModel {
            metadata: self.metadata@,
            tracks: table_map(track_entries(self.tracks@)),
            clips: table_map(clip_entries(self.clips@)),
            envelopes: self.envelopes@,
        }
    }
}

/// The error `Session::apply` reports for a missing target.
pub open spec fn missing_error(t: RequiredTarget) -> SyncError {
    match t {
        RequiredTarget::Clip(c) => SyncError::UnknownTarget { kind: "clip", id: c.0 },
        RequiredTarget::Track(k) => SyncError::UnknownTarget { kind: "track", id: k.0 },
    }
}

/// Split-ownership claims `(parent, offset)`, ordered by parent id then
/// offset.
pub open spec fn claim_lt(a: (ClipId, u64), b: (ClipId, u64)) -> bool {
    a.0.0 < b.0.0 || (a.0.0 == b.0.0 && a.1 < b.1)
}

/// The clips after removing the split point the previous owner `owner`
/// recorded for `child`, if it still points at `child`.
pub open spec fn without_stale_split(clips: Map<u64, ClipModel>, owner: (ClipId, u64), child: ClipId) -> Map<u64, ClipModel> {
    if clips.contains_key(owner.0.0) && clips[owner.0.0].splits.contains_key(owner.1)
        && clips[owner.0.0].splits[owner.1] == child {
        clips.insert(owner.0.0, ClipModel { splits: clips[owner.0.0].splits.remove(owner.1), ..clips[owner.0.0] })
    } else {
        clips
    }
}

/// The clips after handing `child` to the owning claim.
pub open spec fn reparented(clips: Map<u64, ClipModel>, child: ClipId, claim: (ClipId, u64)) -> Map<u64, ClipModel> {
    clips.insert(child.0, ClipModel {
        origin_claim: Some(claim),
        parent: Some(ClipParent { clip: claim.0, offset: claim.1 }),
        ..clips[child.0]
    })
}

/// The clips after marking `child` alive at `tag`.
pub open spec fn child_resurrected(clips: Map<u64, ClipModel>, child: ClipId, tag: OpTag) -> Map<u64, ClipModel> {
    clips.insert(child.0, ClipModel { alive: clips[child.0].alive.written(true, tag), ..clips[child.0] })
}

/// The clips after marking `child` deleted at `tag`.
pub open spec fn child_buried(clips: Map<u64, ClipModel>, child: ClipId, tag: OpTag) -> Map<u64, ClipModel> {
    clips.insert(child.0, ClipModel { alive: clips[child.0].alive.written(false, tag), ..clips[child.0] })
}

/// The clips after recording the split point on `parent`.
pub open spec fn split_point_added(clips: Map<u64, ClipModel>, parent: ClipId, offset: u64, child: ClipId) -> Map<u64, ClipModel> {
    clips.insert(parent.0, ClipModel { splits: split_recorded(clips[parent.0].splits, offset, child), ..clips[parent.0] })
}

impl SessionModel {
    /// The model of a new session.
    pub open spec fn initial() -> SessionModel {
        SessionModel {
            metadata: MetadataModel::initial(),
            tracks: Map::empty(),
            clips: Map::empty(),
            envelopes: Map::empty(),
        }
    }

    /// Applying a split operation: the new state and the missing target,
    /// if any.
    ///
    /// The split with the smallest `(parent, offset)` claim owns the child
    /// id; a losing split is a no-op, a winning one re-parents the child
    /// and removes the stale split point from the previous parent.
    pub open spec fn split_applied(self, clip_id: ClipId, split_frame: u64, new_clip_id: ClipId, tag: OpTag)
        -> (SessionModel, Option<RequiredTarget>)
    {
        let claim = (clip_id, split_frame);
        if clip_id == new_clip_id {
            (self, None)
        } else if self.clips.contains_key(new_clip_id.0) {
            let current = match self.clips[new_clip_id.0].origin_claim {
                Some(c) => c,
                None => claim,
            };
            if claim_lt(current, claim) {
                (self, None)
            } else {
                let clips1 = if claim_lt(claim, current) {
                    reparented(without_stale_split(self.clips, current, new_clip_id), new_clip_id, claim)
                } else {
                    self.clips
                };
                let clips2 = child_resurrected(clips1, new_clip_id, tag);
                if !clips2.contains_key(clip_id.0) {
                    (SessionModel { clips: clips2, ..self }, Some(RequiredTarget::Clip(clip_id)))
                } else {
                    (SessionModel { clips: split_point_added(clips2, clip_id, split_frame, new_clip_id), ..self }, None)
                }
            }
        } else if !self.clips.contains_key(clip_id.0) {
            (self, Some(RequiredTarget::Clip(clip_id)))
        } else {
            let clips1 = split_point_added(self.clips, clip_id, split_frame, new_clip_id);
            (SessionModel {
                clips: clips1.insert(new_clip_id.0, ClipModel {
                    parent: Some(ClipParent { clip: clip_id, offset: split_frame }),
                    origin_claim: Some(claim),
                    ..ClipModel::split_child(tag)
                }),
                ..self
            }, None)
        }
    }

    /// Applying `op` at `tag`: the new state and the missing target that
    /// makes the application fail, if any (for a split the state may have
    /// changed even then).
    pub open spec fn applied(self, op: TimelineOperation, tag: OpTag) -> (SessionModel, Option<RequiredTarget>) {
        match op {
            TimelineOperation::InsertClip { clip_id, track_id, clip, position } => {
                if self.clips.contains_key(clip_id.0) {
                    (SessionModel { clips: self.clips.insert(clip_id.0, self.clips[clip_id.0].applied(op, tag)), ..self }, None)
                } else {
                    (SessionModel { clips: self.clips.insert(clip_id.0, ClipModel::inserted(track_id, clip, position, tag)), ..self }, None)
                }
            },
            TimelineOperation::MoveClip { clip_id, .. }
            | TimelineOperation::DeleteClip { clip_id }
            | TimelineOperation::TrimClip { clip_id, .. }
            | TimelineOperation::UpdateClipMetadata { clip_id, .. } => {
                if self.clips.contains_key(clip_id.0) {
                    (SessionModel { clips: self.clips.insert(clip_id.0, self.clips[clip_id.0].applied(op, tag)), ..self }, None)
                } else {
                    (self, Some(RequiredTarget::Clip(clip_id)))
                }
            },
            TimelineOperation::SplitClip { clip_id, split_frame, new_clip_id } =>
                self.split_applied(clip_id, split_frame, new_clip_id, tag),
            TimelineOperation::UnsplitClip { clip_id, split_frame, new_clip_id } =>
                if !self.clips.contains_key(clip_id.0) {
                    (self, Some(RequiredTarget::Clip(clip_id)))
                } else if !self.clips.contains_key(new_clip_id.0) {
                    (self, Some(RequiredTarget::Clip(new_clip_id)))
                } else {
                    (SessionModel {
                        clips: child_buried(without_stale_split(self.clips, (clip_id, split_frame), new_clip_id), new_clip_id, tag),
                        ..self
                    }, None)
                },
            TimelineOperation::InsertTrack { track_id, track, position } => {
                if self.tracks.contains_key(track_id.0) {
                    (SessionModel { tracks: self.tracks.insert(track_id.0, self.tracks[track_id.0].applied(op, tag)), ..self }, None)
                } else {
                    (SessionModel { tracks: self.tracks.insert(track_id.0, TrackModel::inserted(track, position, tag)), ..self }, None)
                }
            },
            TimelineOperation::UpdateTrackMetadata { track_id, .. }
            | TimelineOperation::DeleteTrack { track_id } => {
                if self.tracks.contains_key(track_id.0) {
                    (SessionModel { tracks: self.tracks.insert(track_id.0, self.tracks[track_id.0].applied(op, tag)), ..self }, None)
                } else {
                    (self, Some(RequiredTarget::Track(track_id)))
                }
            },
            TimelineOperation::UpdateEnvelope { target_id, envelope_type, points } => {
                match target_id {
                    TargetId::Clip(c) if !self.clips.contains_key(c.0) => (self, Some(RequiredTarget::Clip(c))),
                    TargetId::Track(t) if !self.tracks.contains_key(t.0) => (self, Some(RequiredTarget::Track(t))),
                    _ => {
                        let k = (target_id, envelope_type@);
                        let cur = if self.envelopes.contains_key(k) { self.envelopes[k] } else { blank_envelope() };
                        (SessionModel { envelopes: self.envelopes.insert(k, cur.written(points@, tag)), ..self }, None)
                    },
                }
            },
            TimelineOperation::UpdateSessionMetadata { updates } =>
                (SessionModel { metadata: self.metadata.updated(updates, tag), ..self }, None),
        }
    }
}

/// Application depends on an operation only through its data: copies
/// apply alike.
pub proof fn lemma_applied_same(m: SessionModel, a: TimelineOperation, b: TimelineOperation, t: OpTag)
    requires
        a.same(b),
    ensures
        m.applied(a, t) == m.applied(b, t),
{
    if let (
        TimelineOperation::UpdateEnvelope { target_id: x, envelope_type: y, points: z },
        TimelineOperation::UpdateEnvelope { target_id: x2, envelope_type: y2, points: z2 },
    ) = (a, b) {
        assert(x == x2 && y@ == y2@ && z@ == z2@);
    } else {
        assert(a == b);
    }
}

impl Session {
    /// Well-formedness: distinct keys, well-formed clips and envelopes.
    pub closed spec fn wf(&self) -> bool {
        &&& table_distinct(self.tracks@)
        &&& table_distinct(self.clips@)
        &&& forall|i: int| 0 <= i < self.clips@.len() ==> (#[trigger] self.clips@[i]).1.wf()
        &&& self.envelopes.wf()
    }

    /// Creates an empty session with default metadata.
    pub fn new() -> (s: Session)
        ensures
            s.wf(),
            s@ == SessionModel::initial(),
    {
        let s = Session {
            metadata: SessionMetadataState::new(),
            tracks: Vec::new(),
            clips: Vec::new(),
            envelopes: EnvelopeStore::new(),
        };
        proof {
            assert(table_map(track_entries(s.tracks@)) =~= Map::empty()) by {
                assert(track_entries(s.tracks@) =~= Seq::empty());
            }
            assert(table_map(clip_entries(s.clips@)) =~= Map::empty()) by {
                assert(clip_entries(s.clips@) =~= Seq::empty());
            }
            assert(s@ =~= SessionModel::initial());
        }
        s
    }
}


/// Viewing a clip table keeps positions and keys.
proof fn lemma_clip_entries(t: Seq<(u64, ClipCrdt)>)
    ensures
        clip_entries(t).len() == t.len(),
        forall|i: int| 0 <= i < t.len() ==> #[trigger] clip_entries(t)[i] == (t[i].0, t[i].1@),
        table_distinct(t) ==> table_distinct(clip_entries(t)),
{
}

/// Viewing a track table keeps positions and keys.
proof fn lemma_track_entries(t: Seq<(u64, TrackCrdt)>)
    ensures
        track_entries(t).len() == t.len(),
        forall|i: int| 0 <= i < t.len() ==> #[trigger] track_entries(t)[i] == (t[i].0, t[i].1@),
        table_distinct(t) ==> table_distinct(track_entries(t)),
{
}

impl Session {
    /// Position of clip `id` in the clip table.
    fn clip_pos(&self, id: u64) -> (r: Option<usize>)
        requires
            self.wf(),
        ensures
            match r {
                Some(i) => i < self.clips@.len() && self.clips@[i as int].0 == id
                    && self@.clips.contains_key(id) && self@.clips[id] == self.clips@[i as int].1@,
                None => !self@.clips.contains_key(id),
            },
    {
        let r = table_find(&self.clips, id);
        proof {
            lemma_clip_entries(self.clips@);
            match r {
                Some(i) => { lemma_table_get(clip_entries(self.clips@), i as int); },
                None => {
                    lemma_table_dom(self.clips@, id);
                    lemma_table_dom(clip_entries(self.clips@), id);
                    if exists|j: int| 0 <= j < clip_entries(self.clips@).len() && clip_entries(self.clips@)[j].0 == id {
                        let j = choose|j: int| 0 <= j < clip_entries(self.clips@).len() && clip_entries(self.clips@)[j].0 == id;
                        assert(self.clips@[j].0 == id);
                    }
                },
            }
        }
        r
    }

    /// Position of track `id` in the track table.
    fn track_pos(&self, id: u64) -> (r: Option<usize>)
        requires
            self.wf(),
        ensures
            match r {
                Some(i) => i < self.tracks@.len() && self.tracks@[i as int].0 == id
                    && self@.tracks.contains_key(id) && self@.tracks[id] == self.tracks@[i as int].1@,
                None => !self@.tracks.contains_key(id),
            },
    {
        let r = table_find(&self.tracks, id);
        proof {
            lemma_track_entries(self.tracks@);
            match r {
                Some(i) => { lemma_table_get(track_entries(self.tracks@), i as int); },
                None => {
                    lemma_table_dom(self.tracks@, id);
                    lemma_table_dom(track_entries(self.tracks@), id);
                    if exists|j: int| 0 <= j < track_entries(self.tracks@).len() && track_entries(self.tracks@)[j].0 == id {
                        let j = choose|j: int| 0 <= j < track_entries(self.tracks@).len() && track_entries(self.tracks@)[j].0 == id;
                        assert(self.tracks@[j].0 == id);
                    }
                },
            }
        }
        r
    }

    /// Takes the clip at position `i` out of the table.
    fn take_clip(&mut self, i: usize) -> (r: (u64, ClipCrdt))
        requires
            old(self).wf(),
            i < old(self).clips@.len(),
        ensures
            final(self).wf(),
            r == old(self).clips@[i as int],
            r.1.wf(),
            final(self)@ == (SessionModel { clips: old(self)@.clips.remove(r.0), ..old(self)@ }),
            final(self).clips@.len() == old(self).clips@.len() - 1,
    {
        let ghost before = self.clips@;
        let r = self.clips.remove(i);
        proof {
            lemma_clip_entries(before);
            lemma_clip_entries(self.clips@);
            assert(clip_entries(self.clips@) =~= clip_entries(before).remove(i as int));
            lemma_table_remove(clip_entries(before), i as int);
            assert(table_distinct(self.clips@)) by {
                assert forall|a: int, b: int| 0 <= a < b < self.clips@.len() implies self.clips@[a].0 != self.clips@[b].0 by {
                    assert(clip_entries(self.clips@)[a].0 == self.clips@[a].0);
                    assert(clip_entries(self.clips@)[b].0 == self.clips@[b].0);
                }
            }
            assert forall|j: int| 0 <= j < self.clips@.len() implies (#[trigger] self.clips@[j]).1.wf() by {
                if j < i { assert(self.clips@[j] == before[j]); } else { assert(self.clips@[j] == before[j + 1]); }
            }
            assert(before[i as int].1.wf());
            assert(self@ =~= (SessionModel { clips: old(self)@.clips.remove(r.0), ..old(self)@ }));
        }
        r
    }

    /// Stores clip `c` under the fresh key `k`.
    fn put_clip(&mut self, k: u64, c: ClipCrdt)
        requires
            old(self).wf(),
            c.wf(),
            !old(self)@.clips.contains_key(k),
        ensures
            final(self).wf(),
            final(self)@ == (SessionModel { clips: old(self)@.clips.insert(k, c@), ..old(self)@ }),
    {
        let ghost before = self.clips@;
        let ghost cv = c@;
        self.clips.push((k, c));
        proof {
            lemma_clip_entries(before);
            lemma_clip_entries(self.clips@);
            assert(clip_entries(self.clips@) =~= clip_entries(before).push((k, cv)));
            lemma_table_push(clip_entries(before), k, cv);
            assert(table_distinct(self.clips@)) by {
                assert forall|a: int, b: int| 0 <= a < b < self.clips@.len() implies self.clips@[a].0 != self.clips@[b].0 by {
                    assert(clip_entries(self.clips@)[a].0 == self.clips@[a].0);
                    assert(clip_entries(self.clips@)[b].0 == self.clips@[b].0);
                }
            }
            assert forall|j: int| 0 <= j < self.clips@.len() implies (#[trigger] self.clips@[j]).1.wf() by {
                if j < before.len() { assert(self.clips@[j] == before[j]); }
            }
            assert(self@ =~= (SessionModel { clips: old(self)@.clips.insert(k, cv), ..old(self)@ }));
        }
    }

    /// Takes the track at position `i` out of the table.
    fn take_track(&mut self, i: usize) -> (r: (u64, TrackCrdt))
        requires
            old(self).wf(),
            i < old(self).tracks@.len(),
        ensures
            final(self).wf(),
            r == old(self).tracks@[i as int],
            final(self)@ == (SessionModel { tracks: old(self)@.tracks.remove(r.0), ..old(self)@ }),
    {
        let ghost before = self.tracks@;
        let r = self.tracks.remove(i);
        proof {
            lemma_track_entries(before);
            lemma_track_entries(self.tracks@);
            assert(track_entries(self.tracks@) =~= track_entries(before).remove(i as int));
            lemma_table_remove(track_entries(before), i as int);
            assert(table_distinct(self.tracks@)) by {
                assert forall|a: int, b: int| 0 <= a < b < self.tracks@.len() implies self.tracks@[a].0 != self.tracks@[b].0 by {
                    assert(track_entries(self.tracks@)[a].0 == self.tracks@[a].0);
                    assert(track_entries(self.tracks@)[b].0 == self.tracks@[b].0);
                }
            }
            assert(self@ =~= (SessionModel { tracks: old(self)@.tracks.remove(r.0), ..old(self)@ }));
        }
        r
    }

    /// Stores track `t` under the fresh key `k`.
    fn put_track(&mut self, k: u64, t: TrackCrdt)
        requires
            old(self).wf(),
            !old(self)@.tracks.contains_key(k),
        ensures
            final(self).wf(),
            final(self)@ == (SessionModel { tracks: old(self)@.tracks.insert(k, t@), ..old(self)@ }),
    {
        let ghost before = self.tracks@;
        let ghost tv = t@;
        self.tracks.push((k, t));
        proof {
            lemma_track_entries(before);
            lemma_track_entries(self.tracks@);
            assert(track_entries(self.tracks@) =~= track_entries(before).push((k, tv)));
            lemma_table_push(track_entries(before), k, tv);
            assert(table_distinct(self.tracks@)) by {
                assert forall|a: int, b: int| 0 <= a < b < self.tracks@.len() implies self.tracks@[a].0 != self.tracks@[b].0 by {
                    assert(track_entries(self.tracks@)[a].0 == self.tracks@[a].0);
                    assert(track_entries(self.tracks@)[b].0 == self.tracks@[b].0);
                }
            }
            assert(self@ =~= (SessionModel { tracks: old(self)@.tracks.insert(k, tv), ..old(self)@ }));
        }
    }
}

impl Session {
    /// Applies `op` to the clip stored under `id`, failing when the clip
    /// does not exist.
    fn apply_to_clip(&mut self, id: ClipId, op: &TimelineOperation, tag: OpTag) -> (r: Result<(), SyncError>)
        requires
            old(self).wf(),
        ensures
            final(self).wf(),
            old(self)@.clips.contains_key(id.0) ==> r is Ok
                && final(self)@ == (SessionModel { clips: old(self)@.clips.insert(id.0, old(self)@.clips[id.0].applied(*op, tag)), ..old(self)@ }),
            !old(self)@.clips.contains_key(id.0) ==> r == Err::<(), SyncError>(missing_error(RequiredTarget::Clip(id)))
                && final(self)@ == old(self)@,
    {
        match self.clip_pos(id.0) {
            Some(i) => {
                let (k, mut c) = self.take_clip(i);
                let _ = c.apply(op, tag);
                self.put_clip(k, c);
                proof {
                    assert(old(self)@.clips.remove(id.0).insert(id.0, c@) =~= old(self)@.clips.insert(id.0, c@));
                }
                Ok(())
            },
            None => Err(SyncError::UnknownTarget { kind: "clip", id: id.0 }),
        }
    }

    /// Applies `op` to the track stored under `id`, failing when the track
    /// does not exist.
    fn apply_to_track(&mut self, id: TrackId, op: &TimelineOperation, tag: OpTag) -> (r: Result<(), SyncError>)
        requires
            old(self).wf(),
        ensures
            final(self).wf(),
            old(self)@.tracks.contains_key(id.0) ==> r is Ok
                && final(self)@ == (SessionModel { tracks: old(self)@.tracks.insert(id.0, old(self)@.tracks[id.0].applied(*op, tag)), ..old(self)@ }),
            !old(self)@.tracks.contains_key(id.0) ==> r == Err::<(), SyncError>(missing_error(RequiredTarget::Track(id)))
                && final(self)@ == old(self)@,
    {
        match self.track_pos(id.0) {
            Some(i) => {
                let (k, mut t) = self.take_track(i);
                let _ = t.apply(op, tag);
                self.put_track(k, t);
                proof {
                    assert(old(self)@.tracks.remove(id.0).insert(id.0, t@) =~= old(self)@.tracks.insert(id.0, t@));
                }
                Ok(())
            },
            None => Err(SyncError::UnknownTarget { kind: "track", id: id.0 }),
        }
    }

    /// Applies an operation to the session state. The only error is
    /// `UnknownTarget`: the operation references an entity that does not
    /// (yet) exist; callers buffer such operations until it arrives.
    pub fn apply(&mut self, op: &TimelineOperation, tag: OpTag) -> (r: Result<(), SyncError>)
        requires
            old(self).wf(),
        ensures
            final(self).wf(),
            final(self)@ == old(self)@.applied(*op, tag).0,
            match old(self)@.applied(*op, tag).1 {
                Some(t) => r == Err::<(), SyncError>(missing_error(t)),
                None => r is Ok,
            },
    {
        match op {
            TimelineOperation::InsertClip { clip_id, track_id, clip, position } => {
                match self.clip_pos(clip_id.0) {
                    Some(_) => self.apply_to_clip(*clip_id, op, tag),
                    None => {
                        let c = ClipCrdt::from_insert(*track_id, clip, *position, tag);
                        self.put_clip(clip_id.0, c);
                        Ok(())
                    },
                }
            },
            TimelineOperation::MoveClip { clip_id, .. }
            | TimelineOperation::DeleteClip { clip_id }
            | TimelineOperation::TrimClip { clip_id, .. }
            | TimelineOperation::UpdateClipMetadata { clip_id, .. } => self.apply_to_clip(*clip_id, op, tag),
            TimelineOperation::SplitClip { clip_id, split_frame, new_clip_id } =>
                self.apply_split(*clip_id, *split_frame, *new_clip_id, tag),
            TimelineOperation::UnsplitClip { clip_id, split_frame, new_clip_id } => {
                if self.clip_pos(clip_id.0).is_none() {
                    return Err(SyncError::UnknownTarget { kind: "clip", id: clip_id.0 });
                }
                if self.clip_pos(new_clip_id.0).is_none() {
                    return Err(SyncError::UnknownTarget { kind: "clip", id: new_clip_id.0 });
                }
                self.drop_stale_split((*clip_id, *split_frame), *new_clip_id);
                self.bury(*new_clip_id, tag);
                Ok(())
            },
            TimelineOperation::InsertTrack { track_id, track, position } => {
                match self.track_pos(track_id.0) {
                    Some(_) => self.apply_to_track(*track_id, op, tag),
                    None => {
                        let t = TrackCrdt::from_insert(track, *position, tag);
                        self.put_track(track_id.0, t);
                        Ok(())
                    },
                }
            },
            TimelineOperation::UpdateTrackMetadata { track_id, .. }
            | TimelineOperation::DeleteTrack { track_id } => self.apply_to_track(*track_id, op, tag),
            TimelineOperation::UpdateEnvelope { target_id, envelope_type, points } => {
                match target_id {
                    TargetId::Clip(c) => {
                        if self.clip_pos(c.0).is_none() {
                            return Err(SyncError::UnknownTarget { kind: "clip", id: c.0 });
                        }
                    },
                    TargetId::Track(t) => {
                        if self.track_pos(t.0).is_none() {
                            return Err(SyncError::UnknownTarget { kind: "track", id: t.0 });
                        }
                    },
                }
                let ghost before = *self;
                self.envelopes.set(*target_id, envelope_type.duplicate(), crate::operation::copy_points(points), tag);
                proof { assert(self@ =~= old(self)@.applied(*op, tag).0); }
                Ok(())
            },
            TimelineOperation::UpdateSessionMetadata { updates } => {
                self.metadata.update(updates, tag);
                proof { assert(self@ =~= old(self)@.applied(*op, tag).0); }
                Ok(())
            },
        }
    }

    /// Removes the split point `owner` recorded for `child`, if it is
    /// still there.
    fn drop_stale_split(&mut self, owner: (ClipId, u64), child: ClipId)
        requires
            old(self).wf(),
        ensures
            final(self).wf(),
            final(self)@ == (SessionModel { clips: without_stale_split(old(self)@.clips, owner, child), ..old(self)@ }),
    {
        let ghost s0 = self@;
        match self.clip_pos(owner.0.0) {
            Some(pi) => {
                let (pk, mut parent) = self.take_clip(pi);
                let ghost pv = parent@;
                let mut j: usize = 0;
                let mut found = false;
                while j < parent.splits.len()
                    invariant
                        parent@ == pv,
                        parent.wf(),
                        j <= parent.splits@.len(),
                        !found,
                        forall|q: int| 0 <= q < j ==> parent.splits@[q].0 != owner.1,
                    decreases parent.splits@.len() - j,
                {
                    if parent.splits[j].0 == owner.1 {
                        found = true;
                        break;
                    }
                    j = j + 1;
                }
                proof {
                    crate::clip_crdt::lemma_sorted_distinct(parent.splits@);
                    if found {
                        crate::clip_crdt::lemma_splits_entry(parent.splits@, j as int);
                    } else {
                        lemma_table_dom(parent.splits@, owner.1);
                    }
                }
                if found && parent.splits[j].1.0 == child.0 {
                    let ghost sp = parent.splits@;
                    proof { assert(parent.splits@[j as int].1 == child); }
                    parent.splits.remove(j);
                    proof {
                        lemma_table_remove(sp, j as int);
                        assert(crate::clip_crdt::splits_sorted(parent.splits@)) by {
                            assert forall|a: int, b: int| 0 <= a < b < parent.splits@.len() implies
                                parent.splits@[a].0 < parent.splits@[b].0 by {
                                let a2 = if a < j { a } else { a + 1 };
                                let b2 = if b < j { b } else { b + 1 };
                                assert(parent.splits@[a] == sp[a2]);
                                assert(parent.splits@[b] == sp[b2]);
                            }
                        }
                        assert(parent@ =~= (ClipModel { splits: pv.splits.remove(owner.1), ..pv }));
                    }
                } else {
                    proof {
                        if found {
                            if parent.splits@[j as int].1 == child {
                                assert(parent.splits@[j as int].1.0 == child.0);
                            }
                        }
                    }
                }
                self.put_clip(pk, parent);
                proof {
                    assert(s0.clips.remove(pk).insert(pk, parent@) =~= s0.clips.insert(pk, parent@));
                    assert(self@ =~= (SessionModel { clips: without_stale_split(s0.clips, owner, child), ..s0 }));
                }
            },
            None => {
                proof { assert(self@ =~= (SessionModel { clips: without_stale_split(s0.clips, owner, child), ..s0 })); }
            },
        }
    }

    /// Hands an existing `child` to `claim`.
    fn reparent(&mut self, child: ClipId, claim: (ClipId, u64))
        requires
            old(self).wf(),
            old(self)@.clips.contains_key(child.0),
        ensures
            final(self).wf(),
            final(self)@ == (SessionModel { clips: reparented(old(self)@.clips, child, claim), ..old(self)@ }),
    {
        let ghost s0 = self@;
        let ci = match self.clip_pos(child.0) {
            Some(x) => x,
            None => { proof { assert(false); } return; },
        };
        let (ck, mut c) = self.take_clip(ci);
        c.origin_claim = Some(claim);
        c.parent = Some(ClipParent { clip: claim.0, offset: claim.1 });
        self.put_clip(ck, c);
        proof {
            assert(s0.clips.remove(ck).insert(ck, c@) =~= s0.clips.insert(ck, c@));
            assert(self@ =~= (SessionModel { clips: reparented(s0.clips, child, claim), ..s0 }));
        }
    }

    /// Marks an existing `child` alive at `tag`.
    fn resurrect(&mut self, child: ClipId, tag: OpTag)
        requires
            old(self).wf(),
            old(self)@.clips.contains_key(child.0),
        ensures
            final(self).wf(),
            final(self)@ == (SessionModel { clips: child_resurrected(old(self)@.clips, child, tag), ..old(self)@ }),
    {
        let ghost s0 = self@;
        let ci = match self.clip_pos(child.0) {
            Some(x) => x,
            None => { proof { assert(false); } return; },
        };
        let (ck, mut c) = self.take_clip(ci);
        c.alive.set(true, tag);
        self.put_clip(ck, c);
        proof {
            assert(s0.clips.remove(ck).insert(ck, c@) =~= s0.clips.insert(ck, c@));
            assert(self@ =~= (SessionModel { clips: child_resurrected(s0.clips, child, tag), ..s0 }));
        }
    }

    /// Marks an existing `child` deleted at `tag`.
    fn bury(&mut self, child: ClipId, tag: OpTag)
        requires
            old(self).wf(),
            old(self)@.clips.contains_key(child.0),
        ensures
            final(self).wf(),
            final(self)@ == (SessionModel { clips: child_buried(old(self)@.clips, child, tag), ..old(self)@ }),
    {
        let ghost s0 = self@;
        let ci = match self.clip_pos(child.0) {
            Some(x) => x,
            None => { proof { assert(false); } return; },
        };
        let (ck, mut c) = self.take_clip(ci);
        c.alive.set(false, tag);
        self.put_clip(ck, c);
        proof {
            assert(s0.clips.remove(ck).insert(ck, c@) =~= s0.clips.insert(ck, c@));
            assert(self@ =~= (SessionModel { clips: child_buried(s0.clips, child, tag), ..s0 }));
        }
    }

    /// Records a split point on `parent`, failing when it does not exist.
    fn add_split_point(&mut self, parent: ClipId, offset: u64, child: ClipId) -> (r: Result<(), SyncError>)
        requires
            old(self).wf(),
        ensures
            final(self).wf(),
            old(self)@.clips.contains_key(parent.0) ==> r is Ok
                && final(self)@ == (SessionModel { clips: split_point_added(old(self)@.clips, parent, offset, child), ..old(self)@ }),
            !old(self)@.clips.contains_key(parent.0) ==> r == Err::<(), SyncError>(missing_error(RequiredTarget::Clip(parent)))
                && final(self)@ == old(self)@,
    {
        let ghost s0 = self@;
        match self.clip_pos(parent.0) {
            Some(pi) => {
                let (pk, mut p) = self.take_clip(pi);
                p.record_split(offset, child);
                self.put_clip(pk, p);
                proof {
                    assert(s0.clips.remove(pk).insert(pk, p@) =~= s0.clips.insert(pk, p@));
                    assert(self@ =~= (SessionModel { clips: split_point_added(s0.clips, parent, offset, child), ..s0 }));
                }
                Ok(())
            },
            None => Err(SyncError::UnknownTarget { kind: "clip", id: parent.0 }),
        }
    }

    /// Records a split point on the parent clip and materializes the child.
    /// The split with the smallest `(parent, offset)` claim owns the child
    /// id; a losing split is a no-op, and a smaller claim arriving later
    /// re-parents the child. Re-delivery resurrects the child at the
    /// operation's tag.
    fn apply_split(&mut self, clip_id: ClipId, split_frame: u64, new_clip_id: ClipId, tag: OpTag) -> (r: Result<(), SyncError>)
        requires
            old(self).wf(),
        ensures
            final(self).wf(),
            final(self)@ == old(self)@.split_applied(clip_id, split_frame, new_clip_id, tag).0,
            match old(self)@.split_applied(clip_id, split_frame, new_clip_id, tag).1 {
                Some(t) => r == Err::<(), SyncError>(missing_error(t)),
                None => r is Ok,
            },
    {
        if clip_id.0 == new_clip_id.0 {
            proof { assert(clip_id == new_clip_id); }
            return Ok(());
        }
        let claim = (clip_id, split_frame);
        match self.clip_pos(new_clip_id.0) {
            Some(ci) => {
                let current = match self.clips[ci].1.origin_claim {
                    Some(c) => c,
                    None => claim,
                };
                if current.0.0 < claim.0.0 || (current.0.0 == claim.0.0 && current.1 < claim.1) {
                    return Ok(());
                }
                if claim.0.0 < current.0.0 || (claim.0.0 == current.0.0 && claim.1 < current.1) {
                    self.drop_stale_split(current, new_clip_id);
                    self.reparent(new_clip_id, claim);
                }
                self.resurrect(new_clip_id, tag);
                self.add_split_point(clip_id, split_frame, new_clip_id)
            },
            None => {
                match self.clip_pos(clip_id.0) {
                    Some(_) => {
                        let _ = self.add_split_point(clip_id, split_frame, new_clip_id);
                        let mut child = ClipCrdt::from_split(tag);
                        child.parent = Some(ClipParent { clip: clip_id, offset: split_frame });
                        child.origin_claim = Some(claim);
                        self.put_clip(new_clip_id.0, child);
                        proof { assert(self@ =~= old(self)@.split_applied(clip_id, split_frame, new_clip_id, tag).0); }
                        Ok(())
                    },
                    None => Err(SyncError::UnknownTarget { kind: "clip", id: clip_id.0 }),
                }
            },
        }
    }
}


/// `a + b`, saturating at `u64::MAX`.
pub open spec fn sat_add(a: u64, b: u64) -> u64 {
    if a + b > u64::MAX { u64::MAX } else { (a + b) as u64 }
}

/// `a - b`, saturating at 0.
pub open spec fn sat_sub(a: u64, b: u64) -> u64 {
    if a < b { 0 } else { (a - b) as u64 }
}

/// The value a clip inherits for one register: walking the parent chain
/// from `cur` (at most `fuel` steps), each link whose own register is
/// unwritten takes the parent's value.
pub open spec fn inherit<T>(clips: Map<u64, ClipModel>, cur: ClipModel, val: T, get: spec_fn(ClipModel) -> LwwReg<T>, fuel: nat) -> T
    decreases fuel,
{
    if fuel == 0 {
        val
    } else {
        match cur.parent {
            None => val,
            Some(link) => if !clips.contains_key(link.clip.0) {
                val
            } else {
                let p = clips[link.clip.0];
                let v2 = if get(cur).stamp() == OpTag::spec_initial() { get(p).val() } else { val };
                inherit(clips, p, v2, get, (fuel - 1) as nat)
            },
        }
    }
}

/// A clip's full `[start, tail)` range: the segment it would occupy
/// without split points of its own. Split children derive it from the
/// parent's full range (following at most `fuel` parent links).
pub open spec fn full_range(clips: Map<u64, ClipModel>, c: ClipModel, fuel: nat) -> Option<(u64, u64)>
    decreases fuel,
{
    match c.parent {
        None => if c.start_frame.stamp() == OpTag::spec_initial() || c.duration_frames.stamp() == OpTag::spec_initial() {
            None
        } else {
            Some((c.start_frame.val(), sat_add(c.start_frame.val(), c.duration_frames.val())))
        },
        Some(link) => if c.detached {
            Some((c.start_frame.val(), sat_add(c.start_frame.val(), c.duration_frames.val())))
        } else if fuel == 0 || !clips.contains_key(link.clip.0) || !clips[link.clip.0].alive.val() {
            None
        } else {
            let p = clips[link.clip.0];
            match full_range(clips, p, (fuel - 1) as nat) {
                None => None,
                Some(range) => {
                    let my_start = sat_add(range.0, link.offset);
                    let len = match crate::clip_crdt::next_boundary(p.splits, link.offset) {
                        Some(b) => b,
                        None => sat_sub(range.1, range.0),
                    };
                    let boundary = sat_add(range.0, len);
                    let end = if boundary < range.1 { boundary } else { range.1 };
                    Some((my_start, if end > my_start { end } else { my_start }))
                },
            }
        },
    }
}

/// A clip's visible geometry `(start, duration)`: its full range capped by
/// its own earliest split point.
pub open spec fn geometry(clips: Map<u64, ClipModel>, c: ClipModel, fuel: nat) -> Option<(u64, u64)> {
    match full_range(clips, c, fuel) {
        None => None,
        Some(range) => {
            let full = sat_sub(range.1, range.0);
            let cap = match crate::clip_crdt::first_split(c.splits) { Some(o) => o, None => full };
            Some((range.0, if cap < full { cap } else { full }))
        },
    }
}

/// A fully resolved clip: inherited values applied, geometry computed,
/// visibility decided. `gain` is the bit pattern of an `f32`.
#[derive(Debug, Clone, PartialEq)]
pub struct ResolvedClip {
    /// The clip id.
    pub clip_id: ClipId,
    /// Resolved track.
    pub track_id: TrackId,
    /// Resolved display name.
    pub name: String,
    /// Resolved media source.
    pub source: String,
    /// Resolved UI color.
    pub color: u32,
    /// Resolved linear gain, as the bit pattern of an `f32`.
    pub gain: u32,
    /// Resolved muted flag.
    pub muted: bool,
    /// Resolved locked flag.
    pub locked: bool,
    /// Resolved ordering hint.
    pub order_hint: u64,
    /// Resolved start frame.
    pub start_frame: u64,
    /// Resolved duration (0 when the clip is not visible).
    pub duration_frames: u64,
    /// Whether the clip appears on the materialized timeline.
    pub visible: bool,
}

/// The resolved values of a clip.
pub struct ResolvedModel {
    pub track_id: TrackId,
    pub name: Seq<char>,
    pub source: Seq<char>,
    pub color: u32,
    pub gain: u32,
    pub muted: bool,
    pub locked: bool,
    pub order_hint: u64,
    pub start_frame: u64,
    pub duration_frames: u64,
    pub visible: bool,
}

impl SessionModel {
    /// The bound on parent-chain walks: the number of clips.
    pub open spec fn fuel(self) -> nat {
        self.clips.dom().len()
    }

    /// How clip `id` resolves: each register inherited along the parent
    /// chain, the geometry derived from the chain, and whether the clip is
    /// visible (alive, with a geometry of positive duration, on a live
    /// track).
    #[verifier::opaque]
    pub open spec fn resolved(self, id: u64) -> ResolvedModel {
        let c = self.clips[id];
        let f = self.fuel();
        let track = inherit(self.clips, c, c.track.val(), |m: ClipModel| m.track, f);
        let g = geometry(self.clips, c, f);
        let dur = match g { Some(x) => x.1, None => 0 };
        let visible = c.alive.val() && g is Some && dur > 0
            && self.tracks.contains_key(track.0) && self.tracks[track.0].alive.val();
        ResolvedModel {
            track_id: track,
            name: inherit(self.clips, c, c.name.val(), |m: ClipModel| m.name, f),
            source: inherit(self.clips, c, c.source.val(), |m: ClipModel| m.source, f),
            color: inherit(self.clips, c, c.color.val(), |m: ClipModel| m.color, f),
            gain: inherit(self.clips, c, c.gain.val(), |m: ClipModel| m.gain, f),
            muted: inherit(self.clips, c, c.muted.val(), |m: ClipModel| m.muted, f),
            locked: inherit(self.clips, c, c.locked.val(), |m: ClipModel| m.locked, f),
            order_hint: inherit(self.clips, c, c.order_hint.val(), |m: ClipModel| m.order_hint, f),
            start_frame: match g { Some(x) => x.0, None => 0 },
            duration_frames: if visible { dur } else { 0 },
            visible,
        }
    }

    /// `r` is the resolution of clip `id`.
    pub open spec fn resolved_ok(self, id: ClipId, r: ResolvedClip) -> bool {
        let m = self.resolved(id.0);
        &&& r.clip_id == id
        &&& r.track_id == m.track_id
        &&& r.name@ == m.name
        &&& r.source@ == m.source
        &&& r.color == m.color
        &&& r.gain == m.gain
        &&& r.muted == m.muted
        &&& r.locked == m.locked
        &&& r.order_hint == m.order_hint
        &&& r.start_frame == m.start_frame
        &&& r.duration_frames == m.duration_frames
        &&& r.visible == m.visible
    }
}

impl Session {
    /// Read-only access to a track's CRDT record.
    pub fn track(&self, track_id: &TrackId) -> (r: Option<&TrackCrdt>)
        requires
            self.wf(),
        ensures
            match r {
                Some(t) => self@.tracks.contains_key(track_id.0) && t@ == self@.tracks[track_id.0],
                None => !self@.tracks.contains_key(track_id.0),
            },
    {
        match self.track_pos(track_id.0) {
            Some(i) => Some(&self.tracks[i].1),
            None => None,
        }
    }

    /// Read-only access to a clip's CRDT record.
    pub fn clip(&self, clip_id: &ClipId) -> (r: Option<&ClipCrdt>)
        requires
            self.wf(),
        ensures
            match r {
                Some(c) => self@.clips.contains_key(clip_id.0) && c@ == self@.clips[clip_id.0] && c.wf(),
                None => !self@.clips.contains_key(clip_id.0),
            },
    {
        match self.clip_pos(clip_id.0) {
            Some(i) => {
                proof { self.lemma_clip_at(i as int); }
                Some(&self.clips[i].1)
            },
            None => None,
        }
    }

    /// All track records with their ids, each track once.
    pub fn tracks(&self) -> (r: Vec<(TrackId, &TrackCrdt)>)
        requires
            self.wf(),
        ensures
            forall|i: int| 0 <= i < r@.len() ==> self@.tracks.contains_key((#[trigger] r@[i]).0.0)
                && r@[i].1@ == self@.tracks[r@[i].0.0],
            forall|id: u64| #[trigger] self@.tracks.contains_key(id) ==> exists|i: int| 0 <= i < r@.len() && r@[i].0.0 == id,
            forall|i: int, j: int| 0 <= i < j < r@.len() ==> r@[i].0 != r@[j].0,
    {
        proof { lemma_track_entries(self.tracks@); }
        let mut r: Vec<(TrackId, &TrackCrdt)> = Vec::new();
        let mut i: usize = 0;
        while i < self.tracks.len()
            invariant
                self.wf(),
                i <= self.tracks@.len(),
                r@.len() == i,
                forall|k: int| 0 <= k < i ==> (#[trigger] r@[k]).0.0 == self.tracks@[k].0 && *r@[k].1 == self.tracks@[k].1,
            decreases self.tracks@.len() - i,
        {
            r.push((TrackId(self.tracks[i].0), &self.tracks[i].1));
            i = i + 1;
        }
        proof {
            assert forall|i: int| 0 <= i < r@.len() implies self@.tracks.contains_key((#[trigger] r@[i]).0.0)
                && r@[i].1@ == self@.tracks[r@[i].0.0] by {
                lemma_table_get(track_entries(self.tracks@), i);
            }
            assert forall|id: u64| #[trigger] self@.tracks.contains_key(id) implies exists|i: int| 0 <= i < r@.len() && r@[i].0.0 == id by {
                lemma_table_dom(track_entries(self.tracks@), id);
                let q = choose|q: int| 0 <= q < track_entries(self.tracks@).len() && track_entries(self.tracks@)[q].0 == id;
                assert(r@[q].0.0 == id);
            }
        }
        r
    }

    /// All clip records with their ids, each clip once.
    pub fn clips(&self) -> (r: Vec<(ClipId, &ClipCrdt)>)
        requires
            self.wf(),
        ensures
            forall|i: int| 0 <= i < r@.len() ==> self@.clips.contains_key((#[trigger] r@[i]).0.0)
                && r@[i].1@ == self@.clips[r@[i].0.0],
            forall|id: u64| #[trigger] self@.clips.contains_key(id) ==> exists|i: int| 0 <= i < r@.len() && r@[i].0.0 == id,
            forall|i: int, j: int| 0 <= i < j < r@.len() ==> r@[i].0 != r@[j].0,
    {
        proof { lemma_clip_entries(self.clips@); }
        let mut r: Vec<(ClipId, &ClipCrdt)> = Vec::new();
        let mut i: usize = 0;
        while i < self.clips.len()
            invariant
                self.wf(),
                i <= self.clips@.len(),
                r@.len() == i,
                forall|k: int| 0 <= k < i ==> (#[trigger] r@[k]).0.0 == self.clips@[k].0 && *r@[k].1 == self.clips@[k].1,
            decreases self.clips@.len() - i,
        {
            r.push((ClipId(self.clips[i].0), &self.clips[i].1));
            i = i + 1;
        }
        proof {
            assert forall|i: int| 0 <= i < r@.len() implies self@.clips.contains_key((#[trigger] r@[i]).0.0)
                && r@[i].1@ == self@.clips[r@[i].0.0] by {
                lemma_table_get(clip_entries(self.clips@), i);
            }
            assert forall|id: u64| #[trigger] self@.clips.contains_key(id) implies exists|i: int| 0 <= i < r@.len() && r@[i].0.0 == id by {
                lemma_table_dom(clip_entries(self.clips@), id);
                let q = choose|q: int| 0 <= q < clip_entries(self.clips@).len() && clip_entries(self.clips@)[q].0 == id;
                assert(r@[q].0.0 == id);
            }
        }
        r
    }

    /// The automation envelope store.
    pub fn envelopes(&self) -> (r: &EnvelopeStore)
        requires
            self.wf(),
        ensures
            r@ == self@.envelopes,
            r.wf(),
            r.entries() == self.envelope_entries(),
    {
        &self.envelopes
    }

    /// The tags of the five session-metadata registers (name, sample rate,
    /// tempo, time-signature numerator and denominator).
    pub fn session_metadata_tags(&self) -> (r: [OpTag; 5])
        ensures
            r@ == seq![self@.metadata.name.stamp(), self@.metadata.sample_rate.stamp(),
                self@.metadata.tempo_bpm.stamp(), self@.metadata.ts_numerator.stamp(),
                self@.metadata.ts_denominator.stamp()],
    {
        proof { crate::clip_crdt::lemma_text_reg(self.metadata.name); }
        let r = [
            self.metadata.name.tag(),
            self.metadata.sample_rate.tag(),
            self.metadata.tempo_bpm.tag(),
            self.metadata.ts_numerator.tag(),
            self.metadata.ts_denominator.tag(),
        ];
        proof { assert(r@ =~= seq![self@.metadata.name.stamp(), self@.metadata.sample_rate.stamp(),
                self@.metadata.tempo_bpm.stamp(), self@.metadata.ts_numerator.stamp(),
                self@.metadata.ts_denominator.stamp()]); }
        r
    }
}

/// The tag `(lamport, peer 0)`, for applying operations without a full
/// replica.
pub fn tag_for(lamport: u64) -> (t: OpTag)
    ensures
        t.lamport == lamport,
        t.peer == crate::clock::PeerId(0),
{
    OpTag::new(lamport, crate::clock::PeerId(0))
}

impl Session {
    /// The number of clips bounds every parent-chain walk.
    proof fn lemma_fuel(&self)
        requires
            self.wf(),
        ensures
            self@.fuel() == self.clips@.len(),
            self@.clips.dom().finite(),
    {
        lemma_clip_entries(self.clips@);
        crate::table::lemma_table_len(clip_entries(self.clips@));
    }

    /// The clip at position `i` is the model's clip under its key.
    proof fn lemma_clip_at(&self, i: int)
        requires
            self.wf(),
            0 <= i < self.clips@.len(),
        ensures
            self@.clips.contains_key(self.clips@[i].0),
            self@.clips[self.clips@[i].0] == self.clips@[i].1@,
            self.clips@[i].1.wf(),
    {
        lemma_clip_entries(self.clips@);
        lemma_table_get(clip_entries(self.clips@), i);
    }

    /// A clip's full range, following at most `fuel` parent links.
    #[verifier::spinoff_prover]
    #[verifier::rlimit(40)]
    fn full_range_of(&self, c: &ClipCrdt, fuel: usize) -> (r: Option<(u64, u64)>)
        requires
            self.wf(),
            c.wf(),
        ensures
            r == full_range(self@.clips, c@, fuel as nat),
        decreases fuel,
    {
        match c.parent {
            None => {
                if c.start_frame.tag() == OpTag::initial() || c.duration_frames.tag() == OpTag::initial() {
                    None
                } else {
                    let start = *c.start_frame.get();
                    Some((start, start.saturating_add(*c.duration_frames.get())))
                }
            },
            Some(link) => {
                if c.detached {
                    let start = *c.start_frame.get();
                    return Some((start, start.saturating_add(*c.duration_frames.get())));
                }
                if fuel == 0 {
                    return None;
                }
                let pi = match self.clip_pos(link.clip.0) {
                    Some(x) => x,
                    None => return None,
                };
                let parent = &self.clips[pi].1;
                proof { self.lemma_clip_at(pi as int); }
                if !*parent.alive.get() {
                    return None;
                }
                match self.full_range_of(parent, fuel - 1) {
                    None => None,
                    Some((p_start, p_tail)) => {
                        let my_start = p_start.saturating_add(link.offset);
                        let len = match parent.next_split_boundary_after(link.offset) {
                            Some(b) => b,
                            None => p_tail.saturating_sub(p_start),
                        };
                        let boundary = p_start.saturating_add(len);
                        let end = if boundary < p_tail { boundary } else { p_tail };
                        Some((my_start, if end > my_start { end } else { my_start }))
                    },
                }
            },
        }
    }

    /// A clip's visible geometry `(start, duration)`.
    fn geometry_of(&self, c: &ClipCrdt, fuel: usize) -> (r: Option<(u64, u64)>)
        requires
            self.wf(),
            c.wf(),
        ensures
            r == geometry(self@.clips, c@, fuel as nat),
    {
        match self.full_range_of(c, fuel) {
            None => None,
            Some((start, tail)) => {
                let full = tail.saturating_sub(start);
                let cap = match c.first_split_offset() {
                    Some(o) => o,
                    None => full,
                };
                Some((start, if cap < full { cap } else { full }))
            },
        }
    }

    /// Fully resolves a clip's inherited field values, geometry, and
    /// visibility. Returns `None` if the clip record does not exist.
    pub fn resolve_clip(&self, clip_id: &ClipId) -> (r: Option<ResolvedClip>)
        requires
            self.wf(),
        ensures
            match r {
                Some(rc) => self@.clips.contains_key(clip_id.0) && self@.resolved_ok(*clip_id, rc),
                None => !self@.clips.contains_key(clip_id.0),
            },
    {
        let ri = match self.clip_pos(clip_id.0) {
            Some(x) => x,
            None => return None,
        };
        let rec = &self.clips[ri].1;
        proof {
            self.lemma_clip_at(ri as int);
            self.lemma_fuel();
            crate::clip_crdt::lemma_text_reg(rec.name);
            crate::clip_crdt::lemma_text_reg(rec.source);
        }
        let n = self.clips.len();
        let ghost clips = self@.clips;
        let mut name: &String = rec.name.get();
        let mut source: &String = rec.source.get();
        let mut color = *rec.color.get();
        let mut gain = *rec.gain.get();
        let mut muted = *rec.muted.get();
        let mut locked = *rec.locked.get();
        let mut order_hint = *rec.order_hint.get();
        let mut track_id = *rec.track.get();
        let mut cur: &ClipCrdt = rec;
        let mut steps: usize = 0;
        let mut done = false;
        while !done && steps < n
            invariant
                self.wf(),
                cur.wf(),
                steps <= n,
                n == self.clips@.len(),
                clips == self@.clips,
                inherit(clips, rec@, rec@.name.val(), |m: ClipModel| m.name, n as nat)
                    == inherit(clips, cur@, name@, |m: ClipModel| m.name, (n - steps) as nat),
                inherit(clips, rec@, rec@.source.val(), |m: ClipModel| m.source, n as nat)
                    == inherit(clips, cur@, source@, |m: ClipModel| m.source, (n - steps) as nat),
                inherit(clips, rec@, rec@.color.val(), |m: ClipModel| m.color, n as nat)
                    == inherit(clips, cur@, color, |m: ClipModel| m.color, (n - steps) as nat),
                inherit(clips, rec@, rec@.gain.val(), |m: ClipModel| m.gain, n as nat)
                    == inherit(clips, cur@, gain, |m: ClipModel| m.gain, (n - steps) as nat),
                inherit(clips, rec@, rec@.muted.val(), |m: ClipModel| m.muted, n as nat)
                    == inherit(clips, cur@, muted, |m: ClipModel| m.muted, (n - steps) as nat),
                inherit(clips, rec@, rec@.locked.val(), |m: ClipModel| m.locked, n as nat)
                    == inherit(clips, cur@, locked, |m: ClipModel| m.locked, (n - steps) as nat),
                inherit(clips, rec@, rec@.order_hint.val(), |m: ClipModel| m.order_hint, n as nat)
                    == inherit(clips, cur@, order_hint, |m: ClipModel| m.order_hint, (n - steps) as nat),
                inherit(clips, rec@, rec@.track.val(), |m: ClipModel| m.track, n as nat)
                    == inherit(clips, cur@, track_id, |m: ClipModel| m.track, (n - steps) as nat),
                done ==> (cur@.parent is None || !clips.contains_key(cur@.parent->0.clip.0)),
            decreases 2 * (n - steps) + (if done { 0int } else { 1int }),
        {
            match cur.parent {
                None => { done = true; },
                Some(link) => {
                    match self.clip_pos(link.clip.0) {
                        None => { done = true; },
                        Some(pi) => {
                            let parent = &self.clips[pi].1;
                            proof {
                                self.lemma_clip_at(pi as int);
                                crate::clip_crdt::lemma_text_reg(parent.name);
                                crate::clip_crdt::lemma_text_reg(parent.source);
                                crate::clip_crdt::lemma_text_reg(cur.name);
                                crate::clip_crdt::lemma_text_reg(cur.source);
                            }
                            if cur.name.tag() == OpTag::initial() { name = parent.name.get(); }
                            if cur.source.tag() == OpTag::initial() { source = parent.source.get(); }
                            if cur.color.tag() == OpTag::initial() { color = *parent.color.get(); }
                            if cur.gain.tag() == OpTag::initial() { gain = *parent.gain.get(); }
                            if cur.muted.tag() == OpTag::initial() { muted = *parent.muted.get(); }
                            if cur.locked.tag() == OpTag::initial() { locked = *parent.locked.get(); }
                            if cur.order_hint.tag() == OpTag::initial() { order_hint = *parent.order_hint.get(); }
                            if cur.track.tag() == OpTag::initial() { track_id = *parent.track.get(); }
                            cur = parent;
                            steps = steps + 1;
                        },
                    }
                },
            }
        }
        let geometry = self.geometry_of(rec, n);
        let alive = *rec.alive.get();
        let track_ok = match self.track_pos(track_id.0) {
            Some(ti) => *self.tracks[ti].1.alive.get(),
            None => false,
        };
        let (start_frame, duration_frames) = match geometry {
            Some(g) => g,
            None => (0, 0),
        };
        let visible = alive && geometry.is_some() && track_ok && duration_frames > 0;
        let duration_frames = if visible { duration_frames } else { 0 };
        proof { reveal(SessionModel::resolved); }
        Some(ResolvedClip {
            clip_id: *clip_id,
            track_id,
            name: name.clone(),
            source: source.clone(),
            color,
            gain,
            muted,
            locked,
            order_hint,
            start_frame,
            duration_frames,
            visible,
        })
    }
}

/// Materialized session metadata. `tempo_bpm` is the bit pattern of an
/// `f64`.
#[derive(Debug, PartialEq)]
pub struct SessionMetadata {
    /// Session name.
    pub name: String,
    /// Sample rate in Hz.
    pub sample_rate: u32,
    /// Tempo in BPM, as the bit pattern of an `f64`.
    pub tempo_bpm: u64,
    /// Time signature `(numerator, denominator)`.
    pub time_signature: (u32, u32),
}

/// One materialized track. `volume_db` is the bit pattern of an `f32`.
#[derive(Debug, Clone, PartialEq)]
pub struct TrackView {
    /// Track id.
    pub track_id: TrackId,
    /// Display name.
    pub name: String,
    /// Content kind.
    pub kind: crate::operation::TrackKind,
    /// Fader in dB, as the bit pattern of an `f32`.
    pub volume_db: u32,
    /// Muted flag.
    pub muted: bool,
    /// Solo flag.
    pub solo: bool,
    /// Ordering position.
    pub position: u64,
}

/// One materialized (visible) clip. `gain` is the bit pattern of an `f32`.
#[derive(Debug, Clone, PartialEq)]
pub struct ClipView {
    /// Clip id.
    pub clip_id: ClipId,
    /// Track the clip sits on.
    pub track_id: TrackId,
    /// Display name.
    pub name: String,
    /// Media source.
    pub source: String,
    /// UI color.
    pub color: u32,
    /// Linear gain, as the bit pattern of an `f32`.
    pub gain: u32,
    /// Muted flag.
    pub muted: bool,
    /// Locked flag.
    pub locked: bool,
    /// Start frame on the timeline.
    pub start_frame: u64,
    /// Duration in frames.
    pub duration_frames: u64,
    /// Ordering hint.
    pub order_hint: u64,
}

/// The materialized, ordered view of a session — what applications render.
#[derive(Debug, PartialEq)]
pub struct SessionView {
    /// Session metadata.
    pub metadata: SessionMetadata,
    /// Visible tracks, ordered by `(position, id)`.
    pub tracks: Vec<TrackView>,
    /// Visible clips, ordered by track then time.
    pub clips: Vec<ClipView>,
    /// All automation envelopes, ordered by `(target, type)`.
    pub envelopes: Vec<(TargetId, crate::operation::EnvelopeType, Vec<EnvelopePoint>)>,
}

/// The sort key of a materialized track.
pub open spec fn track_key(t: TrackView) -> SortKey {
    (t.position, t.track_id.0, 0, 0, 0)
}

/// The ordering rank of a track: its position while it is live,
/// `u64::MAX` otherwise.
pub open spec fn track_rank(m: SessionModel, t: TrackId) -> u64 {
    if m.tracks.contains_key(t.0) && m.tracks[t.0].alive.val() { m.tracks[t.0].order_hint.val() } else { u64::MAX }
}

/// The sort key of a materialized clip.
pub open spec fn clip_key(m: SessionModel, c: ClipView) -> SortKey {
    (track_rank(m, c.track_id), c.track_id.0, c.start_frame, c.order_hint, c.clip_id.0)
}

/// `t` is the materialization of a live track of `m`.
pub open spec fn track_view_ok(m: SessionModel, t: TrackView) -> bool {
    let tr = m.tracks[t.track_id.0];
    &&& m.tracks.contains_key(t.track_id.0)
    &&& tr.alive.val()
    &&& t.name@ == tr.name.val()
    &&& t.kind == tr.kind.val()
    &&& t.volume_db == tr.volume_db.val()
    &&& t.muted == tr.muted.val()
    &&& t.solo == tr.solo.val()
    &&& t.position == tr.order_hint.val()
}

/// `c` is the materialization of a visible clip of `m`.
pub open spec fn clip_view_ok(m: SessionModel, c: ClipView) -> bool {
    let r = m.resolved(c.clip_id.0);
    &&& m.clips.contains_key(c.clip_id.0)
    &&& r.visible
    &&& c.track_id == r.track_id
    &&& c.name@ == r.name
    &&& c.source@ == r.source
    &&& c.color == r.color
    &&& c.gain == r.gain
    &&& c.muted == r.muted
    &&& c.locked == r.locked
    &&& c.start_frame == r.start_frame
    &&& c.duration_frames == r.duration_frames
    &&& c.order_hint == r.order_hint
}

/// Every live track of `m` appears in `tracks`.
pub open spec fn tracks_cover(m: SessionModel, tracks: Seq<TrackView>) -> bool {
    forall|id: u64| m.tracks.contains_key(id) && #[trigger] m.tracks[id].alive.val()
        ==> exists|i: int| 0 <= i < tracks.len() && tracks[i].track_id.0 == id
}

/// Every visible clip of `m` appears in `clips`.
pub open spec fn clips_cover(m: SessionModel, clips: Seq<ClipView>) -> bool {
    forall|id: u64| m.clips.contains_key(id) && #[trigger] m.resolved(id).visible
        ==> exists|i: int| 0 <= i < clips.len() && clips[i].clip_id.0 == id
}

/// `v` is the materialization of `m`, with envelopes `env` (in key order).
pub open spec fn materializes(m: SessionModel, env: Seq<(EnvelopeKey, LwwReg<Seq<EnvelopePoint>>)>, v: SessionView) -> bool {
    &&& v.metadata.name@ == m.metadata.name.val()
    &&& v.metadata.sample_rate == m.metadata.sample_rate.val()
    &&& v.metadata.tempo_bpm == m.metadata.tempo_bpm.val()
    &&& v.metadata.time_signature == (m.metadata.ts_numerator.val(), m.metadata.ts_denominator.val())
    &&& forall|i: int| 0 <= i < v.tracks@.len() ==> track_view_ok(m, #[trigger] v.tracks@[i])
    &&& tracks_cover(m, v.tracks@)
    &&& forall|a: int, b: int| 0 <= a < b < v.tracks@.len() ==> key_lt(track_key(v.tracks@[a]), track_key(v.tracks@[b]))
    &&& forall|i: int| 0 <= i < v.clips@.len() ==> clip_view_ok(m, #[trigger] v.clips@[i])
    &&& clips_cover(m, v.clips@)
    &&& forall|a: int, b: int| 0 <= a < b < v.clips@.len() ==> key_lt(clip_key(m, v.clips@[a]), clip_key(m, v.clips@[b]))
    &&& v.envelopes@.len() == env.len()
    &&& forall|i: int| 0 <= i < env.len() ==> (#[trigger] v.envelopes@[i]).0 == env[i].0.0
        && v.envelopes@[i].1@ == env[i].0.1 && v.envelopes@[i].2@ == env[i].1.val()
}

impl Session {
    /// The envelope entries, in key order.
    pub closed spec fn envelope_entries(&self) -> Seq<(EnvelopeKey, LwwReg<Seq<EnvelopePoint>>)> {
        self.envelopes.entries()
    }

    /// The envelope entries of a well-formed session are in strictly
    /// increasing key order and list its envelope map.
    pub proof fn lemma_envelope_entries(&self)
        requires
            self.wf(),
        ensures
            crate::envelope_crdt::env_sorted(self.envelope_entries()),
            table_distinct(self.envelope_entries()),
            table_map(self.envelope_entries()) == self@.envelopes,
    {
        self.envelopes.lemma_view();
    }

    /// The visible tracks, sorted by `(position, id)`.
    fn materialize_tracks(&self) -> (r: Vec<TrackView>)
        requires
            self.wf(),
        ensures
            forall|i: int| 0 <= i < r@.len() ==> track_view_ok(self@, #[trigger] r@[i]),
            tracks_cover(self@, r@),
            forall|a: int, b: int| 0 <= a < b < r@.len() ==> key_lt(track_key(r@[a]), track_key(r@[b])),
    {
        let mut cand: Vec<(SortKey, TrackView)> = Vec::new();
        let mut j: usize = 0;
        proof { lemma_track_entries(self.tracks@); }
        while j < self.tracks.len()
            invariant
                self.wf(),
                j <= self.tracks@.len(),
                forall|a: int| 0 <= a < cand@.len() ==> track_view_ok(self@, #[trigger] cand@[a].1)
                    && cand@[a].0 == track_key(cand@[a].1)
                    && exists|q: int| 0 <= q < j && self.tracks@[q].0 == cand@[a].1.track_id.0,
                forall|q: int| 0 <= q < j && #[trigger] self.tracks@[q].1.alive.val()
                    ==> exists|a: int| 0 <= a < cand@.len() && cand@[a].1.track_id.0 == self.tracks@[q].0,
                keys_distinct(cand@),
            decreases self.tracks@.len() - j,
        {
            let (id, t) = (self.tracks[j].0, &self.tracks[j].1);
            proof {
                lemma_table_get(track_entries(self.tracks@), j as int);
                crate::clip_crdt::lemma_text_reg(t.name);
            }
            if *t.alive.get() {
                let view = TrackView {
                    track_id: TrackId(id),
                    name: t.name.get().clone(),
                    kind: *t.kind.get(),
                    volume_db: *t.volume_db.get(),
                    muted: *t.muted.get(),
                    solo: *t.solo.get(),
                    position: *t.order_hint.get(),
                };
                let ghost old_cand = cand@;
                proof {
                    assert forall|a: int| 0 <= a < old_cand.len() implies old_cand[a].0 != track_key(view) by {
                        let q = choose|q: int| 0 <= q < j && self.tracks@[q].0 == old_cand[a].1.track_id.0;
                        assert(self.tracks@[q].0 != self.tracks@[j as int].0);
                    }
                }
                cand.push(((view.position, id, 0, 0, 0), view));
                proof {
                    assert forall|a: int| 0 <= a < cand@.len() implies track_view_ok(self@, #[trigger] cand@[a].1)
                        && cand@[a].0 == track_key(cand@[a].1)
                        && exists|q: int| 0 <= q < j + 1 && self.tracks@[q].0 == cand@[a].1.track_id.0 by {
                        if a < old_cand.len() {
                            assert(cand@[a] == old_cand[a]);
                            let q = choose|q: int| 0 <= q < j && self.tracks@[q].0 == old_cand[a].1.track_id.0;
                        } else {
                            assert(self.tracks@[j as int].0 == cand@[a].1.track_id.0);
                        }
                    }
                    assert forall|q: int| 0 <= q < j + 1 && #[trigger] self.tracks@[q].1.alive.val()
                        implies exists|a: int| 0 <= a < cand@.len() && cand@[a].1.track_id.0 == self.tracks@[q].0 by {
                        if q < j {
                            let a = choose|a: int| 0 <= a < old_cand.len() && old_cand[a].1.track_id.0 == self.tracks@[q].0;
                            assert(cand@[a] == old_cand[a]);
                        } else {
                            assert(cand@[cand@.len() - 1].1.track_id.0 == self.tracks@[q].0);
                        }
                    }
                }
            } else {
                proof {
                    assert forall|a: int| 0 <= a < cand@.len() implies track_view_ok(self@, #[trigger] cand@[a].1)
                        && cand@[a].0 == track_key(cand@[a].1)
                        && exists|q: int| 0 <= q < j + 1 && self.tracks@[q].0 == cand@[a].1.track_id.0 by {
                        let q = choose|q: int| 0 <= q < j && self.tracks@[q].0 == cand@[a].1.track_id.0;
                    }
                }
            }
            j = j + 1;
        }
        let (sorted, Ghost(perm), Ghost(inv)) = sort_rows(cand);
        let ghost sv = sorted@;
        let r = strip_keys(sorted);
        proof {
            assert forall|i: int| 0 <= i < r@.len() implies track_view_ok(self@, #[trigger] r@[i]) by {
                assert(r@[i] == sv[i].1);
                assert(sv[i] == cand@[perm[i]]);
            }
            assert forall|id: u64| self@.tracks.contains_key(id) && #[trigger] self@.tracks[id].alive.val()
                implies exists|i: int| 0 <= i < r@.len() && r@[i].track_id.0 == id by {
                lemma_table_dom(track_entries(self.tracks@), id);
                let q = choose|q: int| 0 <= q < track_entries(self.tracks@).len() && track_entries(self.tracks@)[q].0 == id;
                lemma_table_get(track_entries(self.tracks@), q);
                assert(self.tracks@[q].1.alive.val());
                let a = choose|a: int| 0 <= a < cand@.len() && cand@[a].1.track_id.0 == self.tracks@[q].0;
                let i = inv[a];
                assert(r@[i] == sv[i].1);
                assert(sv[i] == cand@[perm[i]]);
            }
            assert forall|a: int, b: int| 0 <= a < b < r@.len() implies key_lt(track_key(r@[a]), track_key(r@[b])) by {
                assert(sv[a] == cand@[perm[a]]);
                assert(sv[b] == cand@[perm[b]]);
                assert(track_view_ok(self@, cand@[perm[a]].1));
                assert(track_view_ok(self@, cand@[perm[b]].1));
                assert(key_lt(sv[a].0, sv[b].0));
            }
        }
        r
    }
}

impl Session {
    /// The ordering rank of a track.
    fn rank_of_track(&self, t: TrackId) -> (r: u64)
        requires
            self.wf(),
        ensures
            r == track_rank(self@, t),
    {
        match self.track_pos(t.0) {
            Some(i) => {
                if *self.tracks[i].1.alive.get() { *self.tracks[i].1.order_hint.get() } else { u64::MAX }
            },
            None => u64::MAX,
        }
    }

    /// The visible clips, each with its sort key, in table order.
    #[verifier::spinoff_prover]
    #[verifier::rlimit(40)]
    fn clip_candidates(&self) -> (cand: Vec<(SortKey, ClipView)>)
        requires
            self.wf(),
        ensures
            forall|a: int| 0 <= a < cand@.len() ==> clip_view_ok(self@, #[trigger] cand@[a].1)
                && cand@[a].0 == clip_key(self@, cand@[a].1),
            forall|q: int| 0 <= q < self.clips@.len() && #[trigger] self@.resolved(self.clips@[q].0).visible
                ==> exists|a: int| 0 <= a < cand@.len() && cand@[a].1.clip_id.0 == self.clips@[q].0,
            keys_distinct(cand@),
    {
        let mut cand: Vec<(SortKey, ClipView)> = Vec::new();
        let mut j: usize = 0;
        proof { lemma_clip_entries(self.clips@); }
        while j < self.clips.len()
            invariant
                self.wf(),
                j <= self.clips@.len(),
                forall|a: int| 0 <= a < cand@.len() ==> clip_view_ok(self@, #[trigger] cand@[a].1)
                    && cand@[a].0 == clip_key(self@, cand@[a].1)
                    && exists|q: int| 0 <= q < j && self.clips@[q].0 == cand@[a].1.clip_id.0,
                forall|q: int| 0 <= q < j && #[trigger] self@.resolved(self.clips@[q].0).visible
                    ==> exists|a: int| 0 <= a < cand@.len() && cand@[a].1.clip_id.0 == self.clips@[q].0,
                keys_distinct(cand@),
            decreases self.clips@.len() - j,
        {
            let id = self.clips[j].0;
            proof { lemma_table_get(clip_entries(self.clips@), j as int); }
            match self.resolve_clip(&ClipId(id)) {
                Some(rc) => {
                    if rc.visible {
                        let rank = self.rank_of_track(rc.track_id);
                        let view = ClipView {
                            clip_id: rc.clip_id,
                            track_id: rc.track_id,
                            name: rc.name,
                            source: rc.source,
                            color: rc.color,
                            gain: rc.gain,
                            muted: rc.muted,
                            locked: rc.locked,
                            start_frame: rc.start_frame,
                            duration_frames: rc.duration_frames,
                            order_hint: rc.order_hint,
                        };
                        let key = (rank, view.track_id.0, view.start_frame, view.order_hint, id);
                        let ghost old_cand = cand@;
                        proof {
                            assert forall|a: int| 0 <= a < old_cand.len() implies old_cand[a].0 != key by {
                                let q = choose|q: int| 0 <= q < j && self.clips@[q].0 == old_cand[a].1.clip_id.0;
                                assert(self.clips@[q].0 != self.clips@[j as int].0);
                            }
                        }
                        cand.push((key, view));
                        proof {
                            assert forall|a: int| 0 <= a < cand@.len() implies clip_view_ok(self@, #[trigger] cand@[a].1)
                                && cand@[a].0 == clip_key(self@, cand@[a].1)
                                && exists|q: int| 0 <= q < j + 1 && self.clips@[q].0 == cand@[a].1.clip_id.0 by {
                                if a < old_cand.len() {
                                    assert(cand@[a] == old_cand[a]);
                                    let q = choose|q: int| 0 <= q < j && self.clips@[q].0 == old_cand[a].1.clip_id.0;
                                } else {
                                    assert(self.clips@[j as int].0 == cand@[a].1.clip_id.0);
                                }
                            }
                            assert forall|q: int| 0 <= q < j + 1 && #[trigger] self@.resolved(self.clips@[q].0).visible
                                implies exists|a: int| 0 <= a < cand@.len() && cand@[a].1.clip_id.0 == self.clips@[q].0 by {
                                if q < j {
                                    let a = choose|a: int| 0 <= a < old_cand.len() && old_cand[a].1.clip_id.0 == self.clips@[q].0;
                                    assert(cand@[a] == old_cand[a]);
                                } else {
                                    assert(cand@[cand@.len() - 1].1.clip_id.0 == self.clips@[q].0);
                                }
                            }
                        }
                    } else {
                        proof {
                            assert forall|a: int| 0 <= a < cand@.len() implies clip_view_ok(self@, #[trigger] cand@[a].1)
                                && cand@[a].0 == clip_key(self@, cand@[a].1)
                                && exists|q: int| 0 <= q < j + 1 && self.clips@[q].0 == cand@[a].1.clip_id.0 by {
                                let q = choose|q: int| 0 <= q < j && self.clips@[q].0 == cand@[a].1.clip_id.0;
                            }
                        }
                    }
                },
                None => { proof { assert(false); } },
            }
            j = j + 1;
        }
        cand
    }

    /// The visible clips, sorted by track rank, track, start, hint, id.
    fn materialize_clips(&self) -> (r: Vec<ClipView>)
        requires
            self.wf(),
        ensures
            forall|i: int| 0 <= i < r@.len() ==> clip_view_ok(self@, #[trigger] r@[i]),
            clips_cover(self@, r@),
            forall|a: int, b: int| 0 <= a < b < r@.len() ==> key_lt(clip_key(self@, r@[a]), clip_key(self@, r@[b])),
    {
        let cand = self.clip_candidates();
        let ghost c = cand@;
        let (sorted, Ghost(perm), Ghost(inv)) = sort_rows(cand);
        let ghost sv = sorted@;
        let r = strip_keys(sorted);
        proof {
            lemma_clip_entries(self.clips@);
            assert forall|i: int| 0 <= i < r@.len() implies clip_view_ok(self@, #[trigger] r@[i]) by {
                assert(r@[i] == sv[i].1);
                assert(sv[i] == c[perm[i]]);
            }
            assert forall|id: u64| self@.clips.contains_key(id) && #[trigger] self@.resolved(id).visible
                implies exists|i: int| 0 <= i < r@.len() && r@[i].clip_id.0 == id by {
                lemma_table_dom(clip_entries(self.clips@), id);
                let q = choose|q: int| 0 <= q < clip_entries(self.clips@).len() && clip_entries(self.clips@)[q].0 == id;
                assert(self.clips@[q].0 == id);
                let a = choose|a: int| 0 <= a < c.len() && c[a].1.clip_id.0 == self.clips@[q].0;
                let i = inv[a];
                assert(r@[i] == sv[i].1);
                assert(sv[i] == c[perm[i]]);
            }
            assert forall|a: int, b: int| 0 <= a < b < r@.len() implies key_lt(clip_key(self@, r@[a]), clip_key(self@, r@[b])) by {
                assert(sv[a] == c[perm[a]]);
                assert(sv[b] == c[perm[b]]);
                assert(r@[a] == sv[a].1);
                assert(r@[b] == sv[b].1);
                assert(key_lt(sv[a].0, sv[b].0));
            }
        }
        r
    }

    /// Materializes the session into the plain, ordered view that
    /// applications render.
    pub fn materialize(&self) -> (v: SessionView)
        requires
            self.wf(),
        ensures
            materializes(self@, self.envelope_entries(), v),
    {
        proof { crate::clip_crdt::lemma_text_reg(self.metadata.name); }
        let metadata = SessionMetadata {
            name: self.metadata.name.get().clone(),
            sample_rate: *self.metadata.sample_rate.get(),
            tempo_bpm: *self.metadata.tempo_bpm.get(),
            time_signature: (*self.metadata.ts_numerator.get(), *self.metadata.ts_denominator.get()),
        };
        let tracks = self.materialize_tracks();
        let clips = self.materialize_clips();
        let envelopes = self.envelopes.iter();
        SessionView { metadata, tracks, clips, envelopes }
    }
}

/// The position of the first clip with id `id` in `clips`.
pub open spec fn clip_index(clips: Seq<ClipView>, id: ClipId) -> Option<int>
    decreases clips.len(),
{
    if clips.len() == 0 {
        None
    } else {
        match clip_index(clips.drop_last(), id) {
            Some(i) => Some(i),
            None => if clips.last().clip_id == id { Some(clips.len() - 1) } else { None },
        }
    }
}

/// The position of the first track with id `id` in `tracks`.
pub open spec fn track_index(tracks: Seq<TrackView>, id: TrackId) -> Option<int>
    decreases tracks.len(),
{
    if tracks.len() == 0 {
        None
    } else {
        match track_index(tracks.drop_last(), id) {
            Some(i) => Some(i),
            None => if tracks.last().track_id == id { Some(tracks.len() - 1) } else { None },
        }
    }
}

impl SessionView {
    /// Finds a clip by id (the first one listed).
    pub fn clip(&self, clip_id: &ClipId) -> (r: Option<&ClipView>)
        ensures
            match clip_index(self.clips@, *clip_id) {
                Some(i) => 0 <= i < self.clips@.len() && r == Some(&self.clips@[i]),
                None => r is None,
            },
    {
        let mut i: usize = 0;
        while i < self.clips.len()
            invariant
                i <= self.clips@.len(),
                clip_index(self.clips@.take(i as int), *clip_id) is None,
            decreases self.clips@.len() - i,
        {
            proof {
                assert(self.clips@.take(i + 1).drop_last() =~= self.clips@.take(i as int));
            }
            if self.clips[i].clip_id == *clip_id {
                proof { lemma_clip_index_prefix(self.clips@, i as int + 1, *clip_id, i as int); }
                return Some(&self.clips[i]);
            }
            i = i + 1;
        }
        proof { assert(self.clips@.take(i as int) =~= self.clips@); }
        None
    }

    /// Finds a track by id (the first one listed).
    pub fn track(&self, track_id: &TrackId) -> (r: Option<&TrackView>)
        ensures
            match track_index(self.tracks@, *track_id) {
                Some(i) => 0 <= i < self.tracks@.len() && r == Some(&self.tracks@[i]),
                None => r is None,
            },
    {
        let mut i: usize = 0;
        while i < self.tracks.len()
            invariant
                i <= self.tracks@.len(),
                track_index(self.tracks@.take(i as int), *track_id) is None,
            decreases self.tracks@.len() - i,
        {
            proof {
                assert(self.tracks@.take(i + 1).drop_last() =~= self.tracks@.take(i as int));
            }
            if self.tracks[i].track_id == *track_id {
                proof { lemma_track_index_prefix(self.tracks@, i as int + 1, *track_id, i as int); }
                return Some(&self.tracks[i]);
            }
            i = i + 1;
        }
        proof { assert(self.tracks@.take(i as int) =~= self.tracks@); }
        None
    }
}

/// A match found in a prefix is the first match of the whole sequence.
proof fn lemma_clip_index_prefix(clips: Seq<ClipView>, n: int, id: ClipId, j: int)
    requires
        0 <= n <= clips.len(),
        clip_index(clips.take(n), id) == Some(j),
    ensures
        clip_index(clips, id) == Some(j),
    decreases clips.len() - n,
{
    if n < clips.len() {
        assert(clips.take(n + 1).drop_last() =~= clips.take(n));
        lemma_clip_index_prefix(clips, n + 1, id, j);
    } else {
        assert(clips.take(n) =~= clips);
    }
}

/// A match found in a prefix is the first match of the whole sequence.
proof fn lemma_track_index_prefix(tracks: Seq<TrackView>, n: int, id: TrackId, j: int)
    requires
        0 <= n <= tracks.len(),
        track_index(tracks.take(n), id) == Some(j),
    ensures
        track_index(tracks, id) == Some(j),
    decreases tracks.len() - n,
{
    if n < tracks.len() {
        assert(tracks.take(n + 1).drop_last() =~= tracks.take(n));
        lemma_track_index_prefix(tracks, n + 1, id, j);
    } else {
        assert(tracks.take(n) =~= tracks);
    }
}
/// Walking at most `n` parent links from `c` reaches a clip with no
/// parent, or whose parent is missing.
pub open spec fn chain_ends_within(clips: Map<u64, ClipModel>, c: ClipModel, n: nat) -> bool
    decreases n,
{
    match c.parent {
        None => true,
        Some(link) => if !clips.contains_key(link.clip.0) {
            true
        } else if n == 0 {
            false
        } else {
            chain_ends_within(clips, clips[link.clip.0], (n - 1) as nat)
        },
    }
}

/// Inheriting along a chain that ends within `n` links gives the same
/// value with any larger bound.
proof fn lemma_inherit_fuel<T>(clips: Map<u64, ClipModel>, c: ClipModel, v: T, get: spec_fn(ClipModel) -> LwwReg<T>,
    n: nat, n2: nat)
    requires
        chain_ends_within(clips, c, n),
        n <= n2,
    ensures
        inherit(clips, c, v, get, n2) == inherit(clips, c, v, get, n),
    decreases n,
{
    match c.parent {
        None => {},
        Some(link) => {
            if clips.contains_key(link.clip.0) {
                let p = clips[link.clip.0];
                let v2 = if get(c).stamp() == OpTag::spec_initial() { get(p).val() } else { v };
                lemma_inherit_fuel(clips, p, v2, get, (n - 1) as nat, (n2 - 1) as nat);
            }
        },
    }
}

/// Law of split pieces: a clip with a parent resolves each field whose
/// own register was never written to what its parent resolves it to (the
/// piece of a split shows the clip's name, gain, mute and the rest until
/// it is given its own), provided the parent's chain of parents ends.
pub proof fn lemma_unwritten_fields_inherited(s: Session, id: u64)
    requires
        s.wf(),
        s@.clips.contains_key(id),
        s@.clips[id].parent is Some,
        s@.clips.contains_key(s@.clips[id].parent->0.clip.0),
        chain_ends_within(s@.clips, s@.clips[s@.clips[id].parent->0.clip.0], (s@.fuel() - 1) as nat),
    ensures
        ({
            let p = s@.clips[id].parent->0.clip.0;
            &&& (s@.clips[id].track.stamp() == OpTag::spec_initial() ==> s@.resolved(id).track_id == s@.resolved(p).track_id)
            &&& (s@.clips[id].name.stamp() == OpTag::spec_initial() ==> s@.resolved(id).name == s@.resolved(p).name)
            &&& (s@.clips[id].source.stamp() == OpTag::spec_initial() ==> s@.resolved(id).source == s@.resolved(p).source)
            &&& (s@.clips[id].color.stamp() == OpTag::spec_initial() ==> s@.resolved(id).color == s@.resolved(p).color)
            &&& (s@.clips[id].gain.stamp() == OpTag::spec_initial() ==> s@.resolved(id).gain == s@.resolved(p).gain)
            &&& (s@.clips[id].muted.stamp() == OpTag::spec_initial() ==> s@.resolved(id).muted == s@.resolved(p).muted)
            &&& (s@.clips[id].locked.stamp() == OpTag::spec_initial() ==> s@.resolved(id).locked == s@.resolved(p).locked)
            &&& (s@.clips[id].order_hint.stamp() == OpTag::spec_initial() ==> s@.resolved(id).order_hint == s@.resolved(p).order_hint)
        }),
{
    reveal(SessionModel::resolved);
    s.lemma_fuel();
    let clips = s@.clips;
    let p = clips[id].parent->0.clip.0;
    let pc = clips[p];
    let f = s@.fuel();
    if f == 0 {
        clips.dom().lemma_len0_is_empty();
        assert(clips.dom().contains(id));
    }
    lemma_inherit_fuel(clips, pc, pc.track.val(), |m: ClipModel| m.track, (f - 1) as nat, f);
    lemma_inherit_fuel(clips, pc, pc.name.val(), |m: ClipModel| m.name, (f - 1) as nat, f);
    lemma_inherit_fuel(clips, pc, pc.source.val(), |m: ClipModel| m.source, (f - 1) as nat, f);
    lemma_inherit_fuel(clips, pc, pc.color.val(), |m: ClipModel| m.color, (f - 1) as nat, f);
    lemma_inherit_fuel(clips, pc, pc.gain.val(), |m: ClipModel| m.gain, (f - 1) as nat, f);
    lemma_inherit_fuel(clips, pc, pc.muted.val(), |m: ClipModel| m.muted, (f - 1) as nat, f);
    lemma_inherit_fuel(clips, pc, pc.locked.val(), |m: ClipModel| m.locked, (f - 1) as nat, f);
    lemma_inherit_fuel(clips, pc, pc.order_hint.val(), |m: ClipModel| m.order_hint, (f - 1) as nat, f);
}

/// Law of view order: a materialized view lists its tracks by position,
/// ties broken by id, and the clips of one track by start frame, then
/// ordering hint, then id.
pub proof fn lemma_view_order(m: SessionModel, env: Seq<(EnvelopeKey, LwwReg<Seq<EnvelopePoint>>)>, v: SessionView)
    requires
        materializes(m, env, v),
    ensures
        forall|a: int, b: int| 0 <= a < b < v.tracks@.len() ==> {
            let x = #[trigger] v.tracks@[a];
            let y = #[trigger] v.tracks@[b];
            x.position < y.position || (x.position == y.position && x.track_id.0 < y.track_id.0)
        },
        forall|a: int, b: int| 0 <= a < b < v.clips@.len() && (#[trigger] v.clips@[a]).track_id == (#[trigger] v.clips@[b]).track_id
            ==> {
            let x = v.clips@[a];
            let y = v.clips@[b];
            x.start_frame < y.start_frame || (x.start_frame == y.start_frame && (x.order_hint < y.order_hint
                || (x.order_hint == y.order_hint && x.clip_id.0 < y.clip_id.0)))
        },
{
    assert forall|a: int, b: int| 0 <= a < b < v.tracks@.len() implies {
        let x = #[trigger] v.tracks@[a];
        let y = #[trigger] v.tracks@[b];
        x.position < y.position || (x.position == y.position && x.track_id.0 < y.track_id.0)
    } by {
        assert(key_lt(track_key(v.tracks@[a]), track_key(v.tracks@[b])));
    }
    assert forall|a: int, b: int| 0 <= a < b < v.clips@.len() && (#[trigger] v.clips@[a]).track_id == (#[trigger] v.clips@[b]).track_id
        implies {
        let x = v.clips@[a];
        let y = v.clips@[b];
        x.start_frame < y.start_frame || (x.start_frame == y.start_frame && (x.order_hint < y.order_hint
            || (x.order_hint == y.order_hint && x.clip_id.0 < y.clip_id.0)))
    } by {
        assert(key_lt(clip_key(m, v.clips@[a]), clip_key(m, v.clips@[b])));
    }
}

/// Law of visibility: a clip shows only while it is alive, on a live
/// track, with a positive duration; a hidden clip has duration 0; and a
/// piece of a split that keeps its parent's geometry hides with its
/// parent.
pub proof fn lemma_visibility(m: SessionModel, id: u64)
    requires
        m.clips.contains_key(id),
    ensures
        m.resolved(id).visible ==> m.clips[id].alive.val()
            && m.tracks.contains_key(m.resolved(id).track_id.0)
            && m.tracks[m.resolved(id).track_id.0].alive.val()
            && m.resolved(id).duration_frames > 0,
        !m.resolved(id).visible ==> m.resolved(id).duration_frames == 0,
        !m.clips[id].alive.val() ==> !m.resolved(id).visible,
        ({
            let c = m.clips[id];
            c.parent is Some && !c.detached && m.clips.contains_key(c.parent->0.clip.0)
                && !m.clips[c.parent->0.clip.0].alive.val() ==> !m.resolved(id).visible
        }),
{
    reveal(SessionModel::resolved);
}

/// Law of envelope order: a materialized view lists clip envelopes before
/// track envelopes, each group by increasing target id, and the envelopes
/// of one target as volume, pan, mute, then custom parameters.
pub proof fn lemma_envelope_view_order(s: Session, v: SessionView)
    requires
        s.wf(),
        materializes(s@, s.envelope_entries(), v),
    ensures
        forall|a: int, b: int| 0 <= a < b < v.envelopes@.len() ==> {
            let x = #[trigger] v.envelopes@[a];
            let y = #[trigger] v.envelopes@[b];
            match (x.0, y.0) {
                (TargetId::Clip(p), TargetId::Clip(q)) => p.0 < q.0 || (p == q && !(y.1 is Volume)
                    && (x.1 is Pan ==> !(y.1 is Pan)) && (x.1 is Mute ==> !(y.1 is Pan || y.1 is Mute))
                    && (x.1 is Custom ==> y.1 is Custom)),
                (TargetId::Clip(_), TargetId::Track(_)) => true,
                (TargetId::Track(_), TargetId::Clip(_)) => false,
                (TargetId::Track(p), TargetId::Track(q)) => p.0 < q.0 || (p == q && !(y.1 is Volume)
                    && (x.1 is Pan ==> !(y.1 is Pan)) && (x.1 is Mute ==> !(y.1 is Pan || y.1 is Mute))
                    && (x.1 is Custom ==> y.1 is Custom)),
            }
        },
{
    s.lemma_envelope_entries();
    let env = s.envelope_entries();
    assert forall|a: int, b: int| 0 <= a < b < v.envelopes@.len() implies {
        let x = #[trigger] v.envelopes@[a];
        let y = #[trigger] v.envelopes@[b];
        match (x.0, y.0) {
            (TargetId::Clip(p), TargetId::Clip(q)) => p.0 < q.0 || (p == q && !(y.1 is Volume)
                && (x.1 is Pan ==> !(y.1 is Pan)) && (x.1 is Mute ==> !(y.1 is Pan || y.1 is Mute))
                && (x.1 is Custom ==> y.1 is Custom)),
            (TargetId::Clip(_), TargetId::Track(_)) => true,
            (TargetId::Track(_), TargetId::Clip(_)) => false,
            (TargetId::Track(p), TargetId::Track(q)) => p.0 < q.0 || (p == q && !(y.1 is Volume)
                && (x.1 is Pan ==> !(y.1 is Pan)) && (x.1 is Mute ==> !(y.1 is Pan || y.1 is Mute))
                && (x.1 is Custom ==> y.1 is Custom)),
        }
    } by {
        assert(crate::envelope_crdt::env_key_lt(env[a].0, env[b].0));
        assert(v.envelopes@[a].0 == env[a].0.0 && v.envelopes@[a].1@ == env[a].0.1);
        assert(v.envelopes@[b].0 == env[b].0.0 && v.envelopes@[b].1@ == env[b].0.1);
    }
}

} // verus!
