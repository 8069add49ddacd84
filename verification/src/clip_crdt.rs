//! CRDT state for an individual clip.
//!
//! A clip is a bag of [`LwwReg`] fields plus an optional parent link (clips
//! created by a split remember which clip they came from), the set of split
//! points recorded on the clip, and a `detached` flag set once the clip
//! receives its own geometry.

use vstd::prelude::*;
use crate::error::SyncError;
use crate::merge::{LwwReg, OpTag, effect, lemma_effects_commute, lemma_effect_idempotent};
use crate::operation::{ClipData, ClipId, ClipMetadataUpdate, TimelineOperation, TrackId, TrimEdge, UNITY_GAIN_BITS};
use crate::table::{table_distinct, table_map, lemma_table_get, lemma_table_dom, lemma_table_same_entries, lemma_table_push};

verus! {

/// The parent link of a clip created by a split.
#[derive(Debug, Clone, Copy, PartialEq, Eq, Structural)]
pub struct ClipParent {
    /// The clip this clip was split from.
    pub clip: ClipId,
    /// Offset of this clip's start, relative to the parent clip's start.
    pub offset: u64,
}

/// Split points in strictly increasing offset order.
pub open spec fn splits_sorted(s: Seq<(u64, ClipId)>) -> bool {
    forall|i: int, j: int| 0 <= i < j < s.len() ==> s[i].0 < s[j].0
}

/// CRDT state for one clip.
#[derive(Debug, Clone)]
pub struct ClipCrdt {
    /// Present when this clip was created by a split.
    pub parent: Option<ClipParent>,
    /// Liveness register: `true` while the clip exists.
    pub alive: LwwReg<bool>,
    /// The track the clip sits on.
    pub track: LwwReg<TrackId>,
    /// Start frame (authoritative only while `detached`, or for root clips).
    pub start_frame: LwwReg<u64>,
    /// Duration in frames.
    pub duration_frames: LwwReg<u64>,
    /// Display name.
    pub name: LwwReg<String>,
    /// Media source.
    pub source: LwwReg<String>,
    /// UI color.
    pub color: LwwReg<u32>,
    /// Linear gain, as the bit pattern of an `f32`.
    pub gain: LwwReg<u32>,
    /// Muted flag.
    pub muted: LwwReg<bool>,
    /// Locked flag.
    pub locked: LwwReg<bool>,
    /// Informational ordering hint within the track.
    pub order_hint: LwwReg<u64>,
    /// True once the clip carries its own explicit geometry.
    pub detached: bool,
    /// Split points recorded on this clip, `(offset, new clip id)`, in
    /// increasing offset order.
    pub splits: Vec<(u64, ClipId)>,
    /// The `(parent, offset)` claim that currently owns this clip; `None`
    /// for root clips.
    pub origin_claim: Option<(ClipId, u64)>,
}

/// The mathematical state of a clip: its registers, with the split points
/// as a map from offset to new clip id.
#[verifier::ext_equal]
pub struct ClipModel {
    pub parent: Option<ClipParent>,
    pub alive: LwwReg<bool>,
    pub track: LwwReg<TrackId>,
    pub start_frame: LwwReg<u64>,
    pub duration_frames: LwwReg<u64>,
    pub name: LwwReg<Seq<char>>,
    pub source: LwwReg<Seq<char>>,
    pub color: LwwReg<u32>,
    pub gain: LwwReg<u32>,
    pub muted: LwwReg<bool>,
    pub locked: LwwReg<bool>,
    pub order_hint: LwwReg<u64>,
    pub detached: bool,
    pub splits: Map<u64, ClipId>,
    pub origin_claim: Option<(ClipId, u64)>,
}

impl View for ClipCrdt {
    type V = ClipModel;

    open spec fn view(&self) -> ClipModel {
        ClipModel {
            parent: self.parent,
            alive: self.alive,
            track: self.track,
            start_frame: self.start_frame,
            duration_frames: self.duration_frames,
            name: text_reg(self.name),
            source: text_reg(self.source),
            color: self.color,
            gain: self.gain,
            muted: self.muted,
            locked: self.locked,
            order_hint: self.order_hint,
            detached: self.detached,
            splits: table_map(self.splits@),
            origin_claim: self.origin_claim,
        }
    }
}

/// A register of strings, viewed as a register of character sequences.
pub open spec fn text_reg(r: LwwReg<String>) -> LwwReg<Seq<char>> {
    LwwReg::holding(r.val()@, r.stamp())
}

/// The value and tag of a viewed text register.
pub proof fn lemma_text_reg(r: LwwReg<String>)
    ensures
        #[trigger] text_reg(r).val() == r.val()@,
        text_reg(r).stamp() == r.stamp(),
{
    LwwReg::lemma_holding(r.val()@, r.stamp());
}

/// Viewing a register holding a string.
pub proof fn lemma_text_reg_holding(s: String, t: OpTag)
    ensures
        #[trigger] text_reg(LwwReg::holding(s, t)) == LwwReg::holding(s@, t),
{
    LwwReg::lemma_holding(s, t);
}

/// Viewing a register after a write of a string.
pub proof fn lemma_text_reg_written(r: LwwReg<String>, s: String, t: OpTag)
    ensures
        #[trigger] text_reg(r.written(s, t)) == text_reg(r).written(s@, t),
{
    LwwReg::lemma_holding(s, t);
    LwwReg::lemma_holding(r.val()@, r.stamp());
    LwwReg::lemma_holding(s@, t);
    r.lemma_ext();
}

/// The split map after recording a split at `offset` for `new_clip_id`:
/// the smaller clip id wins a shared offset.
pub open spec fn split_recorded(splits: Map<u64, ClipId>, offset: u64, new_clip_id: ClipId) -> Map<u64, ClipId> {
    if splits.contains_key(offset) && splits[offset].0 <= new_clip_id.0 {
        splits
    } else {
        splits.insert(offset, new_clip_id)
    }
}

/// The smallest split offset, if any.
pub open spec fn first_split(splits: Map<u64, ClipId>) -> Option<u64> {
    if exists|k: u64| splits.contains_key(k) {
        Some(choose|k: u64| splits.contains_key(k) && forall|k2: u64| splits.contains_key(k2) ==> k <= k2)
    } else {
        None
    }
}

/// The smallest split offset at or above `bound`, if any.
pub open spec fn first_split_from(splits: Map<u64, ClipId>, bound: u64) -> Option<u64> {
    if exists|k: u64| splits.contains_key(k) && k >= bound {
        Some(choose|k: u64| splits.contains_key(k) && k >= bound
            && forall|k2: u64| splits.contains_key(k2) && k2 >= bound ==> k <= k2)
    } else {
        None
    }
}

/// The smallest split offset strictly after `offset` (for `u64::MAX`, at
/// or after it).
pub open spec fn next_boundary(splits: Map<u64, ClipId>, offset: u64) -> Option<u64> {
    first_split_from(splits, if offset < u64::MAX { (offset + 1) as u64 } else { u64::MAX })
}

impl ClipModel {
    /// A clip freshly created by `InsertClip`.
    pub open spec fn inserted(track_id: TrackId, clip: ClipData, position: u64, tag: OpTag) -> ClipModel {
        ClipModel {
            parent: None,
            alive: LwwReg::holding(true, tag),
            track: LwwReg::holding(track_id, tag),
            start_frame: LwwReg::holding(clip.start_frame, tag),
            duration_frames: LwwReg::holding(clip.duration_frames, tag),
            name: LwwReg::holding(clip.name@, tag),
            source: LwwReg::holding(clip.source@, tag),
            color: LwwReg::holding(clip.color, tag),
            gain: LwwReg::holding(clip.gain, tag),
            muted: LwwReg::holding(clip.muted, tag),
            locked: LwwReg::holding(clip.locked, tag),
            order_hint: LwwReg::holding(position, tag),
            detached: false,
            splits: Map::empty(),
            origin_claim: None,
        }
    }

    /// A clip freshly created by a split: alive at `tag`, every other
    /// register unwritten, no parent yet.
    pub open spec fn split_child(tag: OpTag) -> ClipModel {
        ClipModel {
            parent: None,
            alive: LwwReg::holding(true, tag),
            track: LwwReg::holding(TrackId(0), OpTag::spec_initial()),
            start_frame: LwwReg::holding(0u64, OpTag::spec_initial()),
            duration_frames: LwwReg::holding(0u64, OpTag::spec_initial()),
            name: LwwReg::holding(Seq::<char>::empty(), OpTag::spec_initial()),
            source: LwwReg::holding(Seq::<char>::empty(), OpTag::spec_initial()),
            color: LwwReg::holding(0u32, OpTag::spec_initial()),
            gain: LwwReg::holding(UNITY_GAIN_BITS, OpTag::spec_initial()),
            muted: LwwReg::holding(false, OpTag::spec_initial()),
            locked: LwwReg::holding(false, OpTag::spec_initial()),
            order_hint: LwwReg::holding(0u64, OpTag::spec_initial()),
            detached: false,
            splits: Map::empty(),
            origin_claim: None,
        }
    }

    /// The clip after applying `op` at `tag`: each register receives the
    /// write the operation carries for it, if any. Operations on other
    /// entities leave the clip unchanged.
    pub open spec fn applied(self, op: TimelineOperation, tag: OpTag) -> ClipModel {
        ClipModel {
            parent: self.parent,
            alive: effect(self.alive, alive_write(op), tag),
            track: effect(self.track, track_write(op), tag),
            start_frame: effect(self.start_frame, start_write(op), tag),
            duration_frames: effect(self.duration_frames, duration_write(op), tag),
            name: effect(self.name, name_write(op), tag),
            source: effect(self.source, source_write(op), tag),
            color: effect(self.color, color_write(op), tag),
            gain: effect(self.gain, gain_write(op), tag),
            muted: effect(self.muted, muted_write(op), tag),
            locked: effect(self.locked, locked_write(op), tag),
            order_hint: effect(self.order_hint, hint_write(op), tag),
            detached: self.detached || detaches(op),
            splits: match op {
                TimelineOperation::SplitClip { split_frame, new_clip_id, .. } =>
                    split_recorded(self.splits, split_frame, new_clip_id),
                _ => self.splits,
            },
            origin_claim: self.origin_claim,
        }
    }
}

/// The liveness write an operation carries for a clip.
pub open spec fn alive_write(op: TimelineOperation) -> Option<bool> {
    match op {
        TimelineOperation::InsertClip { .. } => Some(true),
        TimelineOperation::DeleteClip { .. } => Some(false),
        _ => None,
    }
}

/// The track write an operation carries for a clip.
pub open spec fn track_write(op: TimelineOperation) -> Option<TrackId> {
    match op {
        TimelineOperation::InsertClip { track_id, .. } => Some(track_id),
        TimelineOperation::MoveClip { new_track_id, .. } => Some(new_track_id),
        _ => None,
    }
}

/// The start-frame write an operation carries for a clip.
pub open spec fn start_write(op: TimelineOperation) -> Option<u64> {
    match op {
        TimelineOperation::InsertClip { clip, .. } => Some(clip.start_frame),
        TimelineOperation::MoveClip { new_start_frame, .. } => Some(new_start_frame),
        TimelineOperation::TrimClip { new_start_frame, .. } => Some(new_start_frame),
        _ => None,
    }
}

/// The duration write an operation carries for a clip.
pub open spec fn duration_write(op: TimelineOperation) -> Option<u64> {
    match op {
        TimelineOperation::InsertClip { clip, .. } => Some(clip.duration_frames),
        TimelineOperation::TrimClip { new_duration, .. } => Some(new_duration),
        _ => None,
    }
}

/// The name write an operation carries for a clip.
pub open spec fn name_write(op: TimelineOperation) -> Option<Seq<char>> {
    match op {
        TimelineOperation::InsertClip { clip, .. } => Some(clip.name@),
        TimelineOperation::UpdateClipMetadata { updates, .. } => match updates.name {
            Some(v) => Some(v@),
            None => None,
        },
        _ => None,
    }
}

/// The source write an operation carries for a clip.
pub open spec fn source_write(op: TimelineOperation) -> Option<Seq<char>> {
    match op {
        TimelineOperation::InsertClip { clip, .. } => Some(clip.source@),
        TimelineOperation::UpdateClipMetadata { updates, .. } => match updates.source {
            Some(v) => Some(v@),
            None => None,
        },
        _ => None,
    }
}

/// The color write an operation carries for a clip.
pub open spec fn color_write(op: TimelineOperation) -> Option<u32> {
    match op {
        TimelineOperation::InsertClip { clip, .. } => Some(clip.color),
        TimelineOperation::UpdateClipMetadata { updates, .. } => updates.color,
        _ => None,
    }
}

/// The gain write an operation carries for a clip.
pub open spec fn gain_write(op: TimelineOperation) -> Option<u32> {
    match op {
        TimelineOperation::InsertClip { clip, .. } => Some(clip.gain),
        TimelineOperation::UpdateClipMetadata { updates, .. } => updates.gain,
        _ => None,
    }
}

/// The muted write an operation carries for a clip.
pub open spec fn muted_write(op: TimelineOperation) -> Option<bool> {
    match op {
        TimelineOperation::InsertClip { clip, .. } => Some(clip.muted),
        TimelineOperation::UpdateClipMetadata { updates, .. } => updates.muted,
        _ => None,
    }
}

/// The locked write an operation carries for a clip.
pub open spec fn locked_write(op: TimelineOperation) -> Option<bool> {
    match op {
        TimelineOperation::InsertClip { clip, .. } => Some(clip.locked),
        TimelineOperation::UpdateClipMetadata { updates, .. } => updates.locked,
        _ => None,
    }
}

/// The ordering-hint write an operation carries for a clip.
pub open spec fn hint_write(op: TimelineOperation) -> Option<u64> {
    match op {
        TimelineOperation::InsertClip { position, .. } => Some(position),
        TimelineOperation::MoveClip { new_position, .. } => Some(new_position),
        _ => None,
    }
}

/// Whether an operation gives a clip its own explicit geometry.
pub open spec fn detaches(op: TimelineOperation) -> bool {
    op is MoveClip || op is TrimClip
}

impl ClipCrdt {
    /// Well-formedness: split points in strictly increasing offset order.
    pub open spec fn wf(&self) -> bool {
        splits_sorted(self.splits@)
    }

    /// Creates a clip from an `InsertClip` operation.
    pub fn from_insert(track_id: TrackId, clip: &ClipData, position: u64, tag: OpTag) -> (c: ClipCrdt)
        ensures
            c.wf(),
            c@ == ClipModel::inserted(track_id, *clip, position, tag),
    {
        let c = ClipCrdt {
            parent: None,
            alive: LwwReg::new(true, tag),
            track: LwwReg::new(track_id, tag),
            start_frame: LwwReg::new(clip.start_frame, tag),
            duration_frames: LwwReg::new(clip.duration_frames, tag),
            name: LwwReg::new(clip.name.clone(), tag),
            source: LwwReg::new(clip.source.clone(), tag),
            color: LwwReg::new(clip.color, tag),
            gain: LwwReg::new(clip.gain, tag),
            muted: LwwReg::new(clip.muted, tag),
            locked: LwwReg::new(clip.locked, tag),
            order_hint: LwwReg::new(position, tag),
            detached: false,
            splits: Vec::new(),
            origin_claim: None,
        };
        proof {
            assert(table_map(c.splits@) =~= Map::empty());
            lemma_text_reg_holding(clip.name, tag);
            lemma_text_reg_holding(clip.source, tag);
        }
        c
    }

    /// Creates the right-hand clip produced by a split. Apart from the
    /// liveness register, every register starts unwritten: its value is
    /// inherited from the parent chain until the clip receives a write.
    pub fn from_split(tag: OpTag) -> (c: ClipCrdt)
        ensures
            c.wf(),
            c@ == ClipModel::split_child(tag),
    {
        let blank_name = String::new();
        let blank_source = String::new();
        let c = ClipCrdt {
            parent: None,
            alive: LwwReg::new(true, tag),
            track: LwwReg::new_initial(TrackId(0)),
            start_frame: LwwReg::new_initial(0),
            duration_frames: LwwReg::new_initial(0),
            name: LwwReg::new_initial(blank_name),
            source: LwwReg::new_initial(blank_source),
            color: LwwReg::new_initial(0),
            gain: LwwReg::new_initial(UNITY_GAIN_BITS),
            muted: LwwReg::new_initial(false),
            locked: LwwReg::new_initial(false),
            order_hint: LwwReg::new_initial(0),
            detached: false,
            splits: Vec::new(),
            origin_claim: None,
        };
        proof {
            assert(table_map(c.splits@) =~= Map::empty());
            lemma_text_reg_holding(blank_name, OpTag::spec_initial());
            lemma_text_reg_holding(blank_source, OpTag::spec_initial());
        }
        c
    }
}


/// Sorted split lists have distinct offsets.
pub proof fn lemma_sorted_distinct(s: Seq<(u64, ClipId)>)
    requires
        splits_sorted(s),
    ensures
        table_distinct(s),
{
}

/// The split map's keys are exactly the listed offsets, each mapped to its
/// listed id.
pub proof fn lemma_splits_entry(s: Seq<(u64, ClipId)>, i: int)
    requires
        splits_sorted(s),
        0 <= i < s.len(),
    ensures
        table_map(s).contains_key(s[i].0),
        table_map(s)[s[i].0] == s[i].1,
{
    lemma_table_get(s, i);
}

/// The minimum offset of a sorted split list is its first entry.
proof fn lemma_first_split(s: Seq<(u64, ClipId)>)
    requires
        splits_sorted(s),
    ensures
        first_split(table_map(s)) == (if s.len() == 0 { None } else { Some(s[0].0) }),
{
    let m = table_map(s);
    if s.len() == 0 {
        assert forall|k: u64| !m.contains_key(k) by { lemma_table_dom(s, k); }
    } else {
        lemma_table_get(s, 0);
        assert forall|k2: u64| m.contains_key(k2) implies s[0].0 <= k2 by {
            lemma_table_dom(s, k2);
            let j = choose|j: int| 0 <= j < s.len() && s[j].0 == k2;
        }
        let k = choose|k: u64| m.contains_key(k) && forall|k2: u64| m.contains_key(k2) ==> k <= k2;
        assert(k <= s[0].0);
        lemma_table_dom(s, k);
    }
}

/// The first offset at or above `bound` in a sorted split list is the first
/// such entry.
proof fn lemma_first_split_from(s: Seq<(u64, ClipId)>, bound: u64, i: int)
    requires
        splits_sorted(s),
        0 <= i <= s.len(),
        forall|j: int| 0 <= j < i ==> s[j].0 < bound,
        i < s.len() ==> s[i].0 >= bound,
    ensures
        first_split_from(table_map(s), bound) == (if i == s.len() { None } else { Some(s[i].0) }),
{
    let m = table_map(s);
    if i == s.len() {
        assert forall|k: u64| !(m.contains_key(k) && k >= bound) by { lemma_table_dom(s, k); }
    } else {
        lemma_table_get(s, i);
        assert forall|k2: u64| m.contains_key(k2) && k2 >= bound implies s[i].0 <= k2 by {
            lemma_table_dom(s, k2);
            let j = choose|j: int| 0 <= j < s.len() && s[j].0 == k2;
        }
        let k = choose|k: u64| m.contains_key(k) && k >= bound
            && forall|k2: u64| m.contains_key(k2) && k2 >= bound ==> k <= k2;
        assert(k <= s[i].0);
        lemma_table_dom(s, k);
    }
}

/// Rewriting the entry at `i` of a table with a new value.
proof fn lemma_table_update(s: Seq<(u64, ClipId)>, i: int, v: ClipId)
    requires
        table_distinct(s),
        0 <= i < s.len(),
    ensures
        table_distinct(s.update(i, (s[i].0, v))),
        table_map(s.update(i, (s[i].0, v))) == table_map(s).insert(s[i].0, v),
{
    let t = s.update(i, (s[i].0, v));
    let u = s.remove(i).push((s[i].0, v));
    crate::table::lemma_table_replace(s, i, v);
    assert forall|a: int| 0 <= a < t.len() implies u.contains(#[trigger] t[a]) by {
        if a == i {
            assert(u[u.len() - 1] == t[a]);
        } else if a < i {
            assert(u[a] == t[a]);
        } else {
            assert(u[a - 1] == t[a]);
        }
    }
    assert forall|b: int| 0 <= b < u.len() implies t.contains(#[trigger] u[b]) by {
        if b == u.len() - 1 {
            assert(t[i] == u[b]);
        } else if b < i {
            assert(t[b] == u[b]);
        } else {
            assert(t[b + 1] == u[b]);
        }
    }
    lemma_table_same_entries(t, u);
}

impl ClipCrdt {
    /// Records a split point; when two splits share an offset the smaller
    /// new clip id wins.
    pub fn record_split(&mut self, offset: u64, new_clip_id: ClipId)
        requires
            old(self).wf(),
        ensures
            final(self).wf(),
            final(self)@ == (ClipModel { splits: split_recorded(old(self)@.splits, offset, new_clip_id), ..old(self)@ }),
    {
        let ghost s = self.splits@;
        let mut i: usize = 0;
        while i < self.splits.len() && self.splits[i].0 < offset
            invariant
                s == self.splits@,
                i <= s.len(),
                forall|j: int| 0 <= j < i ==> s[j].0 < offset,
            decreases s.len() - i,
        {
            i = i + 1;
        }
        proof { lemma_table_dom(s, offset); }
        if i < self.splits.len() && self.splits[i].0 == offset {
            proof { lemma_table_get(s, i as int); }
            if new_clip_id.0 < self.splits[i].1.0 {
                self.splits.set(i, (offset, new_clip_id));
                proof {
                    lemma_table_update(s, i as int, new_clip_id);
                    assert(self.splits@ == s.update(i as int, (s[i as int].0, new_clip_id)));
                }
            }
        } else {
            proof {
                assert forall|j: int| 0 <= j < s.len() implies s[j].0 != offset by {
                    if j >= i {
                        assert(s[i as int].0 > offset);
                    }
                }
            }
            self.splits.insert(i, (offset, new_clip_id));
            proof {
                let t = self.splits@;
                let u = s.push((offset, new_clip_id));
                lemma_table_push(s, offset, new_clip_id);
                assert(splits_sorted(t)) by {
                    assert forall|a: int, b: int| 0 <= a < b < t.len() implies t[a].0 < t[b].0 by {
                        if b < i {
                        } else if a < i && b == i {
                        } else if a < i {
                            assert(t[b] == s[b - 1]);
                        } else if a == i {
                            assert(t[b] == s[b - 1]);
                            assert(s[i as int].0 > offset);
                        } else {
                            assert(t[a] == s[a - 1]);
                            assert(t[b] == s[b - 1]);
                        }
                    }
                }
                assert forall|a: int| 0 <= a < t.len() implies u.contains(#[trigger] t[a]) by {
                    if a == i {
                        assert(u[u.len() - 1] == t[a]);
                    } else if a < i {
                        assert(u[a] == t[a]);
                    } else {
                        assert(u[a - 1] == t[a]);
                    }
                }
                assert forall|b: int| 0 <= b < u.len() implies t.contains(#[trigger] u[b]) by {
                    if b == u.len() - 1 {
                        assert(t[i as int] == u[b]);
                    } else if b < i {
                        assert(t[b] == u[b]);
                    } else {
                        assert(t[b + 1] == u[b]);
                    }
                }
                lemma_table_same_entries(t, u);
            }
        }
        proof { assert(self@ =~= (ClipModel { splits: split_recorded(old(self)@.splits, offset, new_clip_id), ..old(self)@ })); }
    }

    /// The clip created by the split recorded at `offset`, if any.
    pub fn split_at(&self, offset: u64) -> (r: Option<ClipId>)
        requires
            self.wf(),
        ensures
            r == (if self@.splits.contains_key(offset) { Some(self@.splits[offset]) } else { None }),
    {
        proof { lemma_sorted_distinct(self.splits@); }
        match crate::table::table_find(&self.splits, offset) {
            Some(i) => Some(self.splits[i].1),
            None => None,
        }
    }

    /// The earliest split point on this clip, if any.
    pub fn first_split_offset(&self) -> (r: Option<u64>)
        requires
            self.wf(),
        ensures
            r == first_split(self@.splits),
    {
        proof { lemma_first_split(self.splits@); }
        if self.splits.len() == 0 {
            None
        } else {
            Some(self.splits[0].0)
        }
    }

    /// The boundary of the next split point after `offset` — where the
    /// segment starting at `offset` ends.
    pub fn next_split_boundary_after(&self, offset: u64) -> (r: Option<u64>)
        requires
            self.wf(),
        ensures
            r == next_boundary(self@.splits, offset),
    {
        let bound = offset.saturating_add(1);
        let mut i: usize = 0;
        while i < self.splits.len() && self.splits[i].0 < bound
            invariant
                self.wf(),
                i <= self.splits@.len(),
                bound == (if offset < u64::MAX { (offset + 1) as u64 } else { u64::MAX }),
                forall|j: int| 0 <= j < i ==> self.splits@[j].0 < bound,
            decreases self.splits@.len() - i,
        {
            i = i + 1;
        }
        proof { lemma_first_split_from(self.splits@, bound, i as int); }
        if i < self.splits.len() {
            Some(self.splits[i].0)
        } else {
            None
        }
    }

    /// Applies per-field metadata updates.
    pub fn apply_metadata(&mut self, updates: &ClipMetadataUpdate, tag: OpTag)
        requires
            old(self).wf(),
        ensures
            final(self).wf(),
            final(self)@ == old(self)@.applied(TimelineOperation::UpdateClipMetadata { clip_id: ClipId(0), updates: *updates }, tag),
    {
        let ghost o = *self;
        if let Some(v) = &updates.name {
            self.name.set(v.clone(), tag);
            proof { lemma_text_reg_written(o.name, *v, tag); }
        }
        if let Some(v) = &updates.source {
            self.source.set(v.clone(), tag);
            proof { lemma_text_reg_written(o.source, *v, tag); }
        }
        if let Some(v) = updates.color {
            self.color.set(v, tag);
        }
        if let Some(v) = updates.gain {
            self.gain.set(v, tag);
        }
        if let Some(v) = updates.muted {
            self.muted.set(v, tag);
        }
        if let Some(v) = updates.locked {
            self.locked.set(v, tag);
        }
        proof { assert(self@ =~= o@.applied(TimelineOperation::UpdateClipMetadata { clip_id: ClipId(0), updates: *updates }, tag)); }
    }

    /// Applies an operation to this clip. Split-child creation is handled
    /// by the session; here a split only records the split point.
    pub fn apply(&mut self, op: &TimelineOperation, tag: OpTag) -> (r: Result<(), SyncError>)
        requires
            old(self).wf(),
        ensures
            r is Ok,
            final(self).wf(),
            final(self)@ == old(self)@.applied(*op, tag),
    {
        let ghost o = *self;
        match op {
            TimelineOperation::InsertClip { clip_id: _, track_id, clip, position } => {
                self.alive.set(true, tag);
                self.track.set(*track_id, tag);
                self.start_frame.set(clip.start_frame, tag);
                self.duration_frames.set(clip.duration_frames, tag);
                self.name.set(clip.name.clone(), tag);
                self.source.set(clip.source.clone(), tag);
                self.color.set(clip.color, tag);
                self.gain.set(clip.gain, tag);
                self.muted.set(clip.muted, tag);
                self.locked.set(clip.locked, tag);
                self.order_hint.set(*position, tag);
                proof {
                    lemma_text_reg_written(o.name, clip.name, tag);
                    lemma_text_reg_written(o.source, clip.source, tag);
                    assert(self@ =~= o@.applied(*op, tag));
                }
            },
            TimelineOperation::MoveClip { new_track_id, new_start_frame, new_position, .. } => {
                self.track.set(*new_track_id, tag);
                self.start_frame.set(*new_start_frame, tag);
                self.order_hint.set(*new_position, tag);
                self.detached = true;
                proof { assert(self@ =~= o@.applied(*op, tag)); }
            },
            TimelineOperation::DeleteClip { .. } => {
                self.alive.set(false, tag);
                proof { assert(self@ =~= o@.applied(*op, tag)); }
            },
            TimelineOperation::SplitClip { split_frame, new_clip_id, .. } => {
                self.record_split(*split_frame, *new_clip_id);
                proof { assert(self@ =~= o@.applied(*op, tag)); }
            },
            TimelineOperation::TrimClip { new_start_frame, new_duration, .. } => {
                self.start_frame.set(*new_start_frame, tag);
                self.duration_frames.set(*new_duration, tag);
                self.detached = true;
                proof { assert(self@ =~= o@.applied(*op, tag)); }
            },
            TimelineOperation::UpdateClipMetadata { updates, .. } => {
                self.apply_metadata(updates, tag);
                proof { assert(self@ =~= o@.applied(*op, tag)); }
            },
            _ => {
                proof { assert(self@ =~= o@.applied(*op, tag)); }
            },
        }
        Ok(())
    }

    /// Rebuilds this clip's creation payload from its own registers.
    pub fn to_clip_data(&self) -> (d: ClipData)
        ensures
            d.name == self.name.val(),
            d.source == self.source.val(),
            d.start_frame == self.start_frame.val(),
            d.duration_frames == self.duration_frames.val(),
            d.color == self.color.val(),
            d.gain == self.gain.val(),
            d.muted == self.muted.val(),
            d.locked == self.locked.val(),
    {
        ClipData {
            name: self.name.get().clone(),
            source: self.source.get().clone(),
            start_frame: *self.start_frame.get(),
            duration_frames: *self.duration_frames.get(),
            color: *self.color.get(),
            gain: *self.gain.get(),
            muted: *self.muted.get(),
            locked: *self.locked.get(),
        }
    }

    /// Whether a trim grabs the start edge.
    pub fn trim_edge_is_start(edge: TrimEdge) -> (r: bool)
        ensures
            r == (edge == TrimEdge::Start),
    {
        match edge {
            TrimEdge::Start => true,
            TrimEdge::End => false,
        }
    }
}

/// Recording two split points commutes.
pub proof fn lemma_split_recorded_commutes(m: Map<u64, ClipId>, o1: u64, n1: ClipId, o2: u64, n2: ClipId)
    ensures
        split_recorded(split_recorded(m, o1, n1), o2, n2) == split_recorded(split_recorded(m, o2, n2), o1, n1),
{
    assert(split_recorded(split_recorded(m, o1, n1), o2, n2) =~= split_recorded(split_recorded(m, o2, n2), o1, n1));
}

/// Clip-level application commutes: any two operations with distinct tags
/// leave a clip in the same state whichever is applied first.
pub proof fn lemma_clip_apply_commutes(c: ClipModel, op1: TimelineOperation, t1: OpTag, op2: TimelineOperation, t2: OpTag)
    requires
        t1 != t2,
    ensures
        c.applied(op1, t1).applied(op2, t2) == c.applied(op2, t2).applied(op1, t1),
{
    lemma_effects_commute(c.alive, alive_write(op1), t1, alive_write(op2), t2);
    lemma_effects_commute(c.track, track_write(op1), t1, track_write(op2), t2);
    lemma_effects_commute(c.start_frame, start_write(op1), t1, start_write(op2), t2);
    lemma_effects_commute(c.duration_frames, duration_write(op1), t1, duration_write(op2), t2);
    lemma_effects_commute(c.name, name_write(op1), t1, name_write(op2), t2);
    lemma_effects_commute(c.source, source_write(op1), t1, source_write(op2), t2);
    lemma_effects_commute(c.color, color_write(op1), t1, color_write(op2), t2);
    lemma_effects_commute(c.gain, gain_write(op1), t1, gain_write(op2), t2);
    lemma_effects_commute(c.muted, muted_write(op1), t1, muted_write(op2), t2);
    lemma_effects_commute(c.locked, locked_write(op1), t1, locked_write(op2), t2);
    lemma_effects_commute(c.order_hint, hint_write(op1), t1, hint_write(op2), t2);
    if let (TimelineOperation::SplitClip { split_frame: o1, new_clip_id: n1, .. },
            TimelineOperation::SplitClip { split_frame: o2, new_clip_id: n2, .. }) = (op1, op2) {
        lemma_split_recorded_commutes(c.splits, o1, n1, o2, n2);
    }
    assert(c.applied(op1, t1).applied(op2, t2) =~= c.applied(op2, t2).applied(op1, t1));
}

/// Clip-level application is idempotent: repeating an operation with the
/// same tag changes nothing.
pub proof fn lemma_clip_apply_idempotent(c: ClipModel, op: TimelineOperation, t: OpTag)
    ensures
        c.applied(op, t).applied(op, t) == c.applied(op, t),
{
    lemma_effect_idempotent(c.alive, alive_write(op), t);
    lemma_effect_idempotent(c.track, track_write(op), t);
    lemma_effect_idempotent(c.start_frame, start_write(op), t);
    lemma_effect_idempotent(c.duration_frames, duration_write(op), t);
    lemma_effect_idempotent(c.name, name_write(op), t);
    lemma_effect_idempotent(c.source, source_write(op), t);
    lemma_effect_idempotent(c.color, color_write(op), t);
    lemma_effect_idempotent(c.gain, gain_write(op), t);
    lemma_effect_idempotent(c.muted, muted_write(op), t);
    lemma_effect_idempotent(c.locked, locked_write(op), t);
    lemma_effect_idempotent(c.order_hint, hint_write(op), t);
    if let TimelineOperation::SplitClip { split_frame, new_clip_id, .. } = op {
        assert(split_recorded(split_recorded(c.splits, split_frame, new_clip_id), split_frame, new_clip_id)
            =~= split_recorded(c.splits, split_frame, new_clip_id));
    }
    assert(c.applied(op, t).applied(op, t) =~= c.applied(op, t));
}
} // verus!
