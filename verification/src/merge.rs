//! Conflict resolution primitives: tagged last-writer-wins registers.
//!
//! Every mutable field of the timeline is an [`LwwReg`]. A write carries
//! the [`OpTag`] — *(Lamport timestamp, peer id)* — of the operation that
//! produced it; a write is accepted only when its tag is strictly greater
//! than the register's current tag. Tags are totally ordered, so concurrent
//! writes resolve to the same winner on every replica.

use vstd::prelude::*;
use crate::clock::PeerId;
use crate::operation::ClipId;

verus! {

/// The total-order tag attached to every register write.
#[derive(Debug, Clone, Copy, PartialEq, Eq, Structural, PartialOrd, Ord, Hash)]
pub struct OpTag {
    /// Lamport timestamp of the writing operation.
    pub lamport: u64,
    /// Peer that performed the writing operation.
    pub peer: PeerId,
}

impl OpTag {
    /// `self` ranks strictly above `other`: larger Lamport time, ties broken
    /// by the larger peer id.
    pub open spec fn above(self, other: OpTag) -> bool {
        self.lamport > other.lamport || (self.lamport == other.lamport && self.peer.0 > other.peer.0)
    }

    /// The tag of a register's initial value, `(0, peer 0)`.
    pub open spec fn spec_initial() -> OpTag {
        OpTag { lamport: 0, peer: PeerId(0) }
    }

    /// Creates a tag.
    pub fn new(lamport: u64, peer: PeerId) -> (t: OpTag)
        ensures
            t.lamport == lamport,
            t.peer == peer,
    {
        OpTag { lamport, peer }
    }

    /// The tag carried by a register's initial value: `(0, peer 0)`. Any
    /// real operation supersedes it.
    pub fn initial() -> (t: OpTag)
        ensures
            t == OpTag::spec_initial(),
    {
        OpTag { lamport: 0, peer: PeerId(0) }
    }

    /// Whether `self` ranks strictly above `other`.
    pub fn is_above(self, other: OpTag) -> (r: bool)
        ensures
            r == self.above(other),
    {
        self.lamport > other.lamport || (self.lamport == other.lamport && self.peer.0 > other.peer.0)
    }
}

/// A last-writer-wins register: a value paired with the tag of the
/// operation that last set it.
#[derive(Debug, Clone, PartialEq, Eq)]
pub struct LwwReg<T> {
    value: T,
    tag: OpTag,
}

impl<T> LwwReg<T> {
    /// The current value.
    pub closed spec fn val(self) -> T {
        self.value
    }

    /// The tag of the last accepted write.
    pub closed spec fn stamp(self) -> OpTag {
        self.tag
    }

    /// The register holding `value` at `tag`.
    pub closed spec fn holding(value: T, tag: OpTag) -> LwwReg<T> {
        LwwReg { value, tag }
    }

    /// The register after a write of `value` at `tag`.
    pub open spec fn written(self, value: T, tag: OpTag) -> LwwReg<T> {
        if tag.above(self.stamp()) {
            LwwReg::holding(value, tag)
        } else {
            self
        }
    }

    /// A register is determined by its value and tag.
    pub proof fn lemma_holding(value: T, tag: OpTag)
        ensures
            #[trigger] LwwReg::holding(value, tag).val() == value,
            LwwReg::holding(value, tag).stamp() == tag,
    {
    }

    /// A register equals the one holding its value and tag.
    pub proof fn lemma_ext(self)
        ensures
            self == LwwReg::holding(self.val(), self.stamp()),
    {
    }

    /// Creates a register with an initial value tagged [`OpTag::initial`].
    pub fn new_initial(value: T) -> (r: LwwReg<T>)
        ensures
            r == LwwReg::holding(value, OpTag::spec_initial()),
    {
        LwwReg { value, tag: OpTag::initial() }
    }

    /// Creates a register with an explicit tag.
    pub fn new(value: T, tag: OpTag) -> (r: LwwReg<T>)
        ensures
            r == LwwReg::holding(value, tag),
    {
        LwwReg { value, tag }
    }

    /// The current value.
    pub fn get(&self) -> (v: &T)
        ensures
            *v == self.val(),
    {
        &self.value
    }

    /// The tag of the last accepted write.
    pub fn tag(&self) -> (t: OpTag)
        ensures
            t == self.stamp(),
    {
        self.tag
    }

    /// Attempts to write `value` at `tag`. Returns `true` when the write
    /// won (its tag is strictly greater than the current one) and the value
    /// was replaced.
    pub fn set(&mut self, value: T, tag: OpTag) -> (won: bool)
        ensures
            won == tag.above(old(self).stamp()),
            *final(self) == old(self).written(value, tag),
    {
        if tag.is_above(self.tag) {
            self.value = value;
            self.tag = tag;
            true
        } else {
            false
        }
    }
}

/// Register writes commute: two writes with distinct tags leave the same
/// register whichever is applied first.
pub proof fn lemma_lww_writes_commute<T>(r: LwwReg<T>, v1: T, t1: OpTag, v2: T, t2: OpTag)
    requires
        t1 != t2,
    ensures
        r.written(v1, t1).written(v2, t2) == r.written(v2, t2).written(v1, t1),
{
    LwwReg::lemma_holding(v1, t1);
    LwwReg::lemma_holding(v2, t2);
}

/// Register writes are idempotent: repeating a write changes nothing.
pub proof fn lemma_lww_write_idempotent<T>(r: LwwReg<T>, v: T, t: OpTag)
    ensures
        r.written(v, t).written(v, t) == r.written(v, t),
{
    LwwReg::lemma_holding(v, t);
}

/// The register's final state is the write with the highest tag, whatever
/// the order: a write at a tag below the current one is lost.
pub proof fn lemma_lww_stale_write_lost<T>(r: LwwReg<T>, v: T, t: OpTag)
    requires
        !t.above(r.stamp()),
    ensures
        r.written(v, t) == r,
{
}

/// The register after an optional write: `None` leaves it unchanged.
pub open spec fn effect<T>(r: LwwReg<T>, w: Option<T>, t: OpTag) -> LwwReg<T> {
    match w {
        Some(v) => r.written(v, t),
        None => r,
    }
}

/// Optional writes with distinct tags commute.
pub proof fn lemma_effects_commute<T>(r: LwwReg<T>, w1: Option<T>, t1: OpTag, w2: Option<T>, t2: OpTag)
    requires
        t1 != t2,
    ensures
        effect(effect(r, w1, t1), w2, t2) == effect(effect(r, w2, t2), w1, t1),
{
    if let (Some(v1), Some(v2)) = (w1, w2) {
        lemma_lww_writes_commute(r, v1, t1, v2, t2);
    }
}

/// Repeating an optional write changes nothing.
pub proof fn lemma_effect_idempotent<T>(r: LwwReg<T>, w: Option<T>, t: OpTag)
    ensures
        effect(effect(r, w, t), w, t) == effect(r, w, t),
{
    if let Some(v) = w {
        lemma_lww_write_idempotent(r, v, t);
    }
}

/// A structured record of how a conflict on a clip was resolved.
#[derive(Debug, Clone, Copy, PartialEq, Eq)]
pub struct ResolutionEvent {
    /// What kind of conflict this is: `"move"`, `"delete"`, or `"split"`.
    pub kind: &'static str,
    /// The clip the conflict is about.
    pub clip_id: ClipId,
    /// The tag of the operation being applied when the conflict was seen.
    pub op: OpTag,
    /// Whether `op` won the conflict.
    pub op_won: bool,
    /// One-line explanation of why.
    pub reason: &'static str,
}

/// The mathematical content of a resolution event.
pub struct EventModel {
    pub kind: Seq<char>,
    pub clip_id: ClipId,
    pub op: OpTag,
    pub op_won: bool,
    pub reason: Seq<char>,
}

impl View for ResolutionEvent {
    type V = EventModel;

    open spec fn view(&self) -> EventModel {
        EventModel { kind: self.kind@, clip_id: self.clip_id, op: self.op, op_won: self.op_won, reason: self.reason@ }
    }
}

/// Decides the winner between two tagged writes already known to be
/// concurrent: the higher `(lamport, peer)` tag wins, exactly as
/// [`LwwReg::set`] decides.
pub fn resolve_tag_conflict(
    kind: &'static str,
    clip_id: ClipId,
    previous: OpTag,
    incoming: OpTag,
) -> (e: ResolutionEvent)
    ensures
        e.kind == kind,
        e.clip_id == clip_id,
        e.op == incoming,
        e.op_won == incoming.above(previous),
        e.reason@ == "higher (lamport, peer) tag wins"@,
{
    ResolutionEvent {
        kind,
        clip_id,
        op: incoming,
        op_won: incoming.is_above(previous),
        reason: "higher (lamport, peer) tag wins",
    }
}

} // verus!
