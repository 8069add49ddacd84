//! CRDT state for an individual track.

use vstd::prelude::*;
use crate::clip_crdt::{text_reg, lemma_text_reg_holding, lemma_text_reg_written};
use crate::error::SyncError;
use crate::merge::{LwwReg, OpTag, effect, lemma_effects_commute, lemma_effect_idempotent};
use crate::operation::{TimelineOperation, TrackData, TrackKind};

verus! {

/// CRDT state for one track: every field is a last-writer-wins register.
/// `alive` gates visibility of the track and of the clips on it.
#[derive(Debug, Clone)]
pub struct TrackCrdt {
    /// Liveness register: `true` while the track exists.
    pub alive: LwwReg<bool>,
    /// Display name.
    pub name: LwwReg<String>,
    /// Content kind.
    pub kind: LwwReg<TrackKind>,
    /// Fader position in dB, as the bit pattern of an `f32`.
    pub volume_db: LwwReg<u32>,
    /// Muted flag.
    pub muted: LwwReg<bool>,
    /// Solo flag.
    pub solo: LwwReg<bool>,
    /// Ordering position within the session.
    pub order_hint: LwwReg<u64>,
}

/// The mathematical state of a track.
#[verifier::ext_equal]
pub struct TrackModel {
    pub alive: LwwReg<bool>,
    pub name: LwwReg<Seq<char>>,
    pub kind: LwwReg<TrackKind>,
    pub volume_db: LwwReg<u32>,
    pub muted: LwwReg<bool>,
    pub solo: LwwReg<bool>,
    pub order_hint: LwwReg<u64>,
}

impl View for TrackCrdt {
    type V = TrackModel;

    open spec fn view(&self) -> TrackModel {
        TrackModel {
            alive: self.alive,
            name: text_reg(self.name),
            kind: self.kind,
            volume_db: self.volume_db,
            muted: self.muted,
            solo: self.solo,
            order_hint: self.order_hint,
        }
    }
}

/// The liveness write an operation carries for a track.
pub open spec fn track_alive_write(op: TimelineOperation) -> Option<bool> {
    match op {
        TimelineOperation::InsertTrack { .. } => Some(true),
        TimelineOperation::DeleteTrack { .. } => Some(false),
        _ => None,
    }
}

/// The name write an operation carries for a track.
pub open spec fn track_name_write(op: TimelineOperation) -> Option<Seq<char>> {
    match op {
        TimelineOperation::InsertTrack { track, .. } => Some(track.name@),
        TimelineOperation::UpdateTrackMetadata { updates, .. } => match updates.name {
            Some(v) => Some(v@),
            None => None,
        },
        _ => None,
    }
}

/// The kind write an operation carries for a track.
pub open spec fn track_kind_write(op: TimelineOperation) -> Option<TrackKind> {
    match op {
        TimelineOperation::InsertTrack { track, .. } => Some(track.kind),
        _ => None,
    }
}

/// The volume write an operation carries for a track.
pub open spec fn track_volume_write(op: TimelineOperation) -> Option<u32> {
    match op {
        TimelineOperation::InsertTrack { track, .. } => Some(track.volume_db),
        TimelineOperation::UpdateTrackMetadata { updates, .. } => updates.volume_db,
        _ => None,
    }
}

/// The muted write an operation carries for a track.
pub open spec fn track_muted_write(op: TimelineOperation) -> Option<bool> {
    match op {
        TimelineOperation::InsertTrack { track, .. } => Some(track.muted),
        TimelineOperation::UpdateTrackMetadata { updates, .. } => updates.muted,
        _ => None,
    }
}

/// The solo write an operation carries for a track.
pub open spec fn track_solo_write(op: TimelineOperation) -> Option<bool> {
    match op {
        TimelineOperation::InsertTrack { track, .. } => Some(track.solo),
        TimelineOperation::UpdateTrackMetadata { updates, .. } => updates.solo,
        _ => None,
    }
}

/// The position write an operation carries for a track.
pub open spec fn track_hint_write(op: TimelineOperation) -> Option<u64> {
    match op {
        TimelineOperation::InsertTrack { position, .. } => Some(position),
        TimelineOperation::UpdateTrackMetadata { updates, .. } => updates.position,
        _ => None,
    }
}

impl TrackModel {
    /// A track freshly created by `InsertTrack`.
    pub open spec fn inserted(track: TrackData, position: u64, tag: OpTag) -> TrackModel {
        TrackModel {
            alive: LwwReg::holding(true, tag),
            name: LwwReg::holding(track.name@, tag),
            kind: LwwReg::holding(track.kind, tag),
            volume_db: LwwReg::holding(track.volume_db, tag),
            muted: LwwReg::holding(track.muted, tag),
            solo: LwwReg::holding(track.solo, tag),
            order_hint: LwwReg::holding(position, tag),
        }
    }

    /// The track after applying `op` at `tag`.
    pub open spec fn applied(self, op: TimelineOperation, tag: OpTag) -> TrackModel {
        TrackModel {
            alive: effect(self.alive, track_alive_write(op), tag),
            name: effect(self.name, track_name_write(op), tag),
            kind: effect(self.kind, track_kind_write(op), tag),
            volume_db: effect(self.volume_db, track_volume_write(op), tag),
            muted: effect(self.muted, track_muted_write(op), tag),
            solo: effect(self.solo, track_solo_write(op), tag),
            order_hint: effect(self.order_hint, track_hint_write(op), tag),
        }
    }
}

impl TrackCrdt {
    /// Creates a track from an `InsertTrack` operation.
    pub fn from_insert(track: &TrackData, position: u64, tag: OpTag) -> (t: TrackCrdt)
        ensures
            t@ == TrackModel::inserted(*track, position, tag),
    {
        let t = TrackCrdt {
            alive: LwwReg::new(true, tag),
            name: LwwReg::new(track.name.clone(), tag),
            kind: LwwReg::new(track.kind, tag),
            volume_db: LwwReg::new(track.volume_db, tag),
            muted: LwwReg::new(track.muted, tag),
            solo: LwwReg::new(track.solo, tag),
            order_hint: LwwReg::new(position, tag),
        };
        proof { lemma_text_reg_holding(track.name, tag); }
        t
    }

    /// Applies an operation to this track.
    pub fn apply(&mut self, op: &TimelineOperation, tag: OpTag) -> (r: Result<(), SyncError>)
        ensures
            r is Ok,
            final(self)@ == old(self)@.applied(*op, tag),
    {
        let ghost o = *self;
        match op {
            TimelineOperation::InsertTrack { track, position, .. } => {
                self.alive.set(true, tag);
                self.name.set(track.name.clone(), tag);
                self.kind.set(track.kind, tag);
                self.volume_db.set(track.volume_db, tag);
                self.muted.set(track.muted, tag);
                self.solo.set(track.solo, tag);
                self.order_hint.set(*position, tag);
                proof { lemma_text_reg_written(o.name, track.name, tag); }
            },
            TimelineOperation::UpdateTrackMetadata { updates, .. } => {
                if let Some(v) = &updates.name {
                    self.name.set(v.clone(), tag);
                    proof { lemma_text_reg_written(o.name, *v, tag); }
                }
                if let Some(v) = updates.volume_db {
                    self.volume_db.set(v, tag);
                }
                if let Some(v) = updates.muted {
                    self.muted.set(v, tag);
                }
                if let Some(v) = updates.solo {
                    self.solo.set(v, tag);
                }
                if let Some(v) = updates.position {
                    self.order_hint.set(v, tag);
                }
            },
            TimelineOperation::DeleteTrack { .. } => {
                self.alive.set(false, tag);
            },
            _ => {},
        }
        proof { assert(self@ =~= o@.applied(*op, tag)); }
        Ok(())
    }

    /// Rebuilds this track's creation payload as it currently stands.
    pub fn to_track_data(&self) -> (d: TrackData)
        ensures
            d.name == self.name.val(),
            d.kind == self.kind.val(),
            d.volume_db == self.volume_db.val(),
            d.muted == self.muted.val(),
            d.solo == self.solo.val(),
    {
        TrackData {
            name: self.name.get().clone(),
            kind: *self.kind.get(),
            volume_db: *self.volume_db.get(),
            muted: *self.muted.get(),
            solo: *self.solo.get(),
        }
    }
}

/// Track-level application commutes for operations with distinct tags.
pub proof fn lemma_track_apply_commutes(t: TrackModel, op1: TimelineOperation, t1: OpTag, op2: TimelineOperation, t2: OpTag)
    requires
        t1 != t2,
    ensures
        t.applied(op1, t1).applied(op2, t2) == t.applied(op2, t2).applied(op1, t1),
{
    lemma_effects_commute(t.alive, track_alive_write(op1), t1, track_alive_write(op2), t2);
    lemma_effects_commute(t.name, track_name_write(op1), t1, track_name_write(op2), t2);
    lemma_effects_commute(t.kind, track_kind_write(op1), t1, track_kind_write(op2), t2);
    lemma_effects_commute(t.volume_db, track_volume_write(op1), t1, track_volume_write(op2), t2);
    lemma_effects_commute(t.muted, track_muted_write(op1), t1, track_muted_write(op2), t2);
    lemma_effects_commute(t.solo, track_solo_write(op1), t1, track_solo_write(op2), t2);
    lemma_effects_commute(t.order_hint, track_hint_write(op1), t1, track_hint_write(op2), t2);
    assert(t.applied(op1, t1).applied(op2, t2) =~= t.applied(op2, t2).applied(op1, t1));
}

/// Track-level application is idempotent.
pub proof fn lemma_track_apply_idempotent(t: TrackModel, op: TimelineOperation, tag: OpTag)
    ensures
        t.applied(op, tag).applied(op, tag) == t.applied(op, tag),
{
    lemma_effect_idempotent(t.alive, track_alive_write(op), tag);
    lemma_effect_idempotent(t.name, track_name_write(op), tag);
    lemma_effect_idempotent(t.kind, track_kind_write(op), tag);
    lemma_effect_idempotent(t.volume_db, track_volume_write(op), tag);
    lemma_effect_idempotent(t.muted, track_muted_write(op), tag);
    lemma_effect_idempotent(t.solo, track_solo_write(op), tag);
    lemma_effect_idempotent(t.order_hint, track_hint_write(op), tag);
    assert(t.applied(op, tag).applied(op, tag) =~= t.applied(op, tag));
}

} // verus!
