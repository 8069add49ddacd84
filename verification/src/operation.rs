//! Timeline operations — the replicated vocabulary of the timeline.

use vstd::prelude::*;
use crate::clock::{OperationId, PeerId, VectorClock};

verus! {

/// Unique identifier for a clip.
#[derive(Debug, Clone, Copy, PartialEq, Eq, Structural, PartialOrd, Ord, Hash)]
pub struct ClipId(pub u64);

impl ClipId {
    /// Wraps a raw value.
    pub fn from_u64(raw: u64) -> (c: ClipId)
        ensures
            c.0 == raw,
    {
        ClipId(raw)
    }

    /// The raw value.
    pub fn as_u64(self) -> (raw: u64)
        ensures
            raw == self.0,
    {
        self.0
    }
}

/// Unique identifier for a track.
#[derive(Debug, Clone, Copy, PartialEq, Eq, Structural, PartialOrd, Ord, Hash)]
pub struct TrackId(pub u64);

impl TrackId {
    /// Wraps a raw value.
    pub fn from_u64(raw: u64) -> (t: TrackId)
        ensures
            t.0 == raw,
    {
        TrackId(raw)
    }

    /// The raw value.
    pub fn as_u64(self) -> (raw: u64)
        ensures
            raw == self.0,
    {
        self.0
    }
}

} // verus!

verus! {

/// Which edge of a clip a trim operation grabs.
#[derive(Debug, Clone, Copy, PartialEq, Eq, Structural)]
pub enum TrimEdge {
    /// The in-point (left edge) of the clip.
    Start,
    /// The out-point (right edge) of the clip.
    End,
}

/// The kind of content a track carries.
#[derive(Debug, Clone, Copy, PartialEq, Eq, Structural, PartialOrd, Ord, Hash)]
pub enum TrackKind {
    /// Audio track.
    Audio,
    /// Video track.
    Video,
    /// MIDI / instrument track.
    Midi,
    /// Bus / mix bus track.
    Bus,
}

/// The default clip color (packed RGBA).
pub const DEFAULT_CLIP_COLOR: u32 = 0xFF_AA_CC_88u32;

/// IEEE-754 bit pattern of the gain `1.0`, the default clip gain.
pub const UNITY_GAIN_BITS: u32 = 0x3F80_0000u32;

/// Data describing a newly created clip.
#[derive(Debug, Clone, PartialEq)]
pub struct ClipData {
    /// Display name.
    pub name: String,
    /// Media source (path, URL, or asset id).
    pub source: String,
    /// First frame of the clip on the timeline.
    pub start_frame: u64,
    /// Length of the clip in frames/samples.
    pub duration_frames: u64,
    /// UI color (packed RGBA).
    pub color: u32,
    /// Linear gain, as the IEEE-754 bit pattern of an `f32`.
    pub gain: u32,
    /// Whether the clip is muted.
    pub muted: bool,
    /// Whether the clip is locked against edits.
    pub locked: bool,
}

impl ClipData {
    /// Creates clip data with default styling: empty source, default
    /// color, unity gain, neither muted nor locked.
    pub fn new(name: &str, start_frame: u64, duration_frames: u64) -> (c: ClipData)
        ensures
            c.name@ == name@,
            c.source@ == Seq::<char>::empty(),
            c.start_frame == start_frame,
            c.duration_frames == duration_frames,
            c.color == DEFAULT_CLIP_COLOR,
            c.gain == UNITY_GAIN_BITS,
            !c.muted,
            !c.locked,
    {
        ClipData {
            name: name.to_owned(),
            source: String::new(),
            start_frame,
            duration_frames,
            color: DEFAULT_CLIP_COLOR,
            gain: UNITY_GAIN_BITS,
            muted: false,
            locked: false,
        }
    }

    /// An independent copy.
    pub fn duplicate(&self) -> (c: ClipData)
        ensures
            c == *self,
    {
        ClipData {
            name: self.name.clone(),
            source: self.source.clone(),
            start_frame: self.start_frame,
            duration_frames: self.duration_frames,
            color: self.color,
            gain: self.gain,
            muted: self.muted,
            locked: self.locked,
        }
    }
}

/// Per-field metadata updates for a clip. `None` fields are left unchanged.
/// `gain` holds the IEEE-754 bit pattern of the linear gain (`f32`).
#[derive(Debug, Clone, Default, PartialEq)]
pub struct ClipMetadataUpdate {
    /// New display name.
    pub name: Option<String>,
    /// New media source.
    pub source: Option<String>,
    /// New UI color.
    pub color: Option<u32>,
    /// New linear gain, as the bit pattern of an `f32`.
    pub gain: Option<u32>,
    /// Muted flag.
    pub muted: Option<bool>,
    /// Locked flag.
    pub locked: Option<bool>,
}

/// Data describing a newly created track. `volume_db` holds the IEEE-754
/// bit pattern of the fader position in dB (`f32`).
#[derive(Debug, Clone, PartialEq)]
pub struct TrackData {
    /// Display name.
    pub name: String,
    /// Content kind.
    pub kind: TrackKind,
    /// Fader position in dB, as the bit pattern of an `f32`.
    pub volume_db: u32,
    /// Muted flag.
    pub muted: bool,
    /// Solo flag.
    pub solo: bool,
}

impl TrackData {
    /// Creates an audio track with unity gain (0 dB), unmuted, not soloed.
    pub fn new(name: &str) -> (t: TrackData)
        ensures
            t.name@ == name@,
            t.kind == TrackKind::Audio,
            t.volume_db == 0,
            !t.muted,
            !t.solo,
    {
        TrackData { name: name.to_owned(), kind: TrackKind::Audio, volume_db: 0, muted: false, solo: false }
    }

    /// An independent copy.
    pub fn duplicate(&self) -> (t: TrackData)
        ensures
            t == *self,
    {
        TrackData {
            name: self.name.clone(),
            kind: self.kind,
            volume_db: self.volume_db,
            muted: self.muted,
            solo: self.solo,
        }
    }
}

/// Per-field metadata updates for a track.
#[derive(Debug, Clone, Default, PartialEq)]
pub struct TrackMetadataUpdate {
    /// New display name.
    pub name: Option<String>,
    /// New fader position in dB, as the bit pattern of an `f32`.
    pub volume_db: Option<u32>,
    /// Muted flag.
    pub muted: Option<bool>,
    /// Solo flag.
    pub solo: Option<bool>,
    /// New ordering position in the session.
    pub position: Option<u64>,
}

/// Per-field updates for session-level metadata.
#[derive(Debug, Clone, Default, PartialEq)]
pub struct SessionMetadataUpdate {
    /// Session name.
    pub name: Option<String>,
    /// Sample rate in Hz.
    pub sample_rate: Option<u32>,
    /// Tempo in beats per minute, as the bit pattern of an `f64`.
    pub tempo_bpm: Option<u64>,
    /// Time signature numerator.
    pub time_signature_numerator: Option<u32>,
    /// Time signature denominator.
    pub time_signature_denominator: Option<u32>,
}

/// What an automation envelope is attached to.
#[derive(Debug, Clone, Copy, PartialEq, Eq, Structural, PartialOrd, Ord, Hash)]
pub enum TargetId {
    /// A clip-level envelope.
    Clip(ClipId),
    /// A track-level envelope.
    Track(TrackId),
}

/// The parameter an automation envelope controls.
#[derive(Debug, Clone, PartialEq, Eq, PartialOrd, Ord, Hash)]
pub enum EnvelopeType {
    /// Volume automation.
    Volume,
    /// Pan automation.
    Pan,
    /// Mute automation.
    Mute,
    /// Any custom parameter.
    Custom(String),
}

impl EnvelopeType {
    /// An independent copy.
    pub fn duplicate(&self) -> (e: EnvelopeType)
        ensures
            e == *self,
            e@ == self@,
    {
        match self {
            EnvelopeType::Volume => EnvelopeType::Volume,
            EnvelopeType::Pan => EnvelopeType::Pan,
            EnvelopeType::Mute => EnvelopeType::Mute,
            EnvelopeType::Custom(s) => EnvelopeType::Custom(s.clone()),
        }
    }

    /// Compares two envelope types by the parameter they name.
    pub fn same_as(&self, other: &EnvelopeType) -> (r: bool)
        ensures
            r == (self@ == other@),
    {
        match (self, other) {
            (EnvelopeType::Volume, EnvelopeType::Volume) => true,
            (EnvelopeType::Pan, EnvelopeType::Pan) => true,
            (EnvelopeType::Mute, EnvelopeType::Mute) => true,
            (EnvelopeType::Custom(a), EnvelopeType::Custom(b)) => a.eq(b),
            _ => false,
        }
    }
}

/// The parameter an envelope controls, with custom names as text.
pub enum EnvelopeKind {
    /// Volume automation.
    Volume,
    /// Pan automation.
    Pan,
    /// Mute automation.
    Mute,
    /// A custom parameter, by name.
    Custom(Seq<char>),
}

impl View for EnvelopeType {
    type V = EnvelopeKind;

    open spec fn view(&self) -> EnvelopeKind {
        match self {
            EnvelopeType::Volume => EnvelopeKind::Volume,
            EnvelopeType::Pan => EnvelopeKind::Pan,
            EnvelopeType::Mute => EnvelopeKind::Mute,
            EnvelopeType::Custom(s) => EnvelopeKind::Custom(s@),
        }
    }
}

/// Curve shape between automation points.
#[derive(Debug, Clone, Copy, PartialEq, Eq, Structural, Default)]
pub enum Interpolation {
    /// Straight line between points.
    #[default]
    Linear,
    /// Hold the previous value until the next point.
    Step,
    /// Smooth (spline) transition.
    Smooth,
}

/// A single point on an automation envelope. `value` holds the IEEE-754
/// bit pattern of the parameter value (`f32`).
#[derive(Debug, Clone, Copy, PartialEq, Eq, Structural)]
pub struct EnvelopePoint {
    /// Timeline frame of the point.
    pub frame: u64,
    /// Parameter value at that frame, as the bit pattern of an `f32`.
    pub value: u32,
    /// Curve shape leaving this point.
    pub interpolation: Interpolation,
}

/// Copies a list of envelope points.
pub fn copy_points(points: &Vec<EnvelopePoint>) -> (r: Vec<EnvelopePoint>)
    ensures
        r@ == points@,
{
    let mut r: Vec<EnvelopePoint> = Vec::new();
    let mut i: usize = 0;
    while i < points.len()
        invariant
            i <= points@.len(),
            r@ == points@.subrange(0, i as int),
        decreases points@.len() - i,
    {
        r.push(points[i]);
        i = i + 1;
        proof { assert(r@ =~= points@.subrange(0, i as int)); }
    }
    proof { assert(r@ =~= points@); }
    r
}

/// A timeline operation that can be replicated across peers. All payload
/// values are absolute, so application order does not matter.
#[derive(Debug, Clone, PartialEq)]
pub enum TimelineOperation {
    /// Insert a new clip into a track. Re-inserting an existing clip id
    /// overwrites its fields and resurrects it if it was deleted.
    InsertClip {
        /// Unique clip id.
        clip_id: ClipId,
        /// Target track id.
        track_id: TrackId,
        /// Clip data.
        clip: ClipData,
        /// Ordering hint within the track.
        position: u64,
    },
    /// Move a clip to a new track and/or start time.
    MoveClip {
        /// Clip id.
        clip_id: ClipId,
        /// New track id.
        new_track_id: TrackId,
        /// New start time in frames.
        new_start_frame: u64,
        /// New ordering hint within the track.
        new_position: u64,
    },
    /// Delete (tombstone) a clip.
    DeleteClip {
        /// Clip id.
        clip_id: ClipId,
    },
    /// Split a clip at a frame offset relative to the clip start; the new
    /// clip `new_clip_id` covers the range from the split point to the end.
    SplitClip {
        /// The clip being split.
        clip_id: ClipId,
        /// Split offset in frames, relative to the clip start.
        split_frame: u64,
        /// Id for the new (right-hand) clip.
        new_clip_id: ClipId,
    },
    /// Undo a split: remove the split point at `split_frame` that
    /// `clip_id` recorded for `new_clip_id` (if it still records it there),
    /// and delete `new_clip_id`.
    UnsplitClip {
        /// The clip that was split.
        clip_id: ClipId,
        /// The split offset, relative to the clip start.
        split_frame: u64,
        /// The clip the split created.
        new_clip_id: ClipId,
    },
    /// Trim a clip by writing its absolute geometry.
    TrimClip {
        /// Clip id.
        clip_id: ClipId,
        /// Resulting start frame.
        new_start_frame: u64,
        /// Resulting duration in frames.
        new_duration: u64,
        /// Which edge is being trimmed.
        edge: TrimEdge,
    },
    /// Update clip metadata fields.
    UpdateClipMetadata {
        /// Clip id.
        clip_id: ClipId,
        /// Metadata updates.
        updates: ClipMetadataUpdate,
    },
    /// Insert a new track. Re-inserting an existing track id overwrites its
    /// fields and resurrects it if it was deleted.
    InsertTrack {
        /// Track id.
        track_id: TrackId,
        /// Track data.
        track: TrackData,
        /// Ordering position in the session.
        position: u64,
    },
    /// Update track metadata fields.
    UpdateTrackMetadata {
        /// Track id.
        track_id: TrackId,
        /// Metadata updates.
        updates: TrackMetadataUpdate,
    },
    /// Delete (tombstone) a track.
    DeleteTrack {
        /// Track id.
        track_id: TrackId,
    },
    /// Replace the points of an automation envelope.
    UpdateEnvelope {
        /// Clip or track the envelope is attached to.
        target_id: TargetId,
        /// Envelope type.
        envelope_type: EnvelopeType,
        /// The complete new set of envelope points.
        points: Vec<EnvelopePoint>,
    },
    /// Update session-level metadata.
    UpdateSessionMetadata {
        /// Metadata updates.
        updates: SessionMetadataUpdate,
    },
}

/// A target entity an operation requires to already exist.
#[derive(Debug, Clone, Copy, PartialEq, Eq, Structural)]
pub enum RequiredTarget {
    /// A clip that must exist.
    Clip(ClipId),
    /// A track that must exist.
    Track(TrackId),
}

impl TimelineOperation {
    /// Operations are equal, envelope point lists compared by contents.
    pub open spec fn same(self, other: TimelineOperation) -> bool {
        match (self, other) {
            (
                TimelineOperation::UpdateEnvelope { target_id: a, envelope_type: b, points: c },
                TimelineOperation::UpdateEnvelope { target_id: x, envelope_type: y, points: z },
            ) => a == x && b@ == y@ && c@ == z@,
            _ => self == other,
        }
    }

    /// The ids this operation reads or mutates.
    pub open spec fn targets(self) -> Seq<RequiredTarget> {
        match self {
            TimelineOperation::InsertClip { .. } => Seq::empty(),
            TimelineOperation::MoveClip { clip_id, .. } => seq![RequiredTarget::Clip(clip_id)],
            TimelineOperation::SplitClip { clip_id, .. } => seq![RequiredTarget::Clip(clip_id)],
            TimelineOperation::UnsplitClip { clip_id, new_clip_id, .. } =>
                seq![RequiredTarget::Clip(clip_id), RequiredTarget::Clip(new_clip_id)],
            TimelineOperation::TrimClip { clip_id, .. } => seq![RequiredTarget::Clip(clip_id)],
            TimelineOperation::UpdateClipMetadata { clip_id, .. } => seq![RequiredTarget::Clip(clip_id)],
            TimelineOperation::DeleteClip { clip_id } => seq![RequiredTarget::Clip(clip_id)],
            TimelineOperation::InsertTrack { .. } => Seq::empty(),
            TimelineOperation::UpdateTrackMetadata { track_id, .. } => seq![RequiredTarget::Track(track_id)],
            TimelineOperation::DeleteTrack { track_id } => seq![RequiredTarget::Track(track_id)],
            TimelineOperation::UpdateEnvelope { target_id, .. } => match target_id {
                TargetId::Clip(c) => seq![RequiredTarget::Clip(c)],
                TargetId::Track(t) => seq![RequiredTarget::Track(t)],
            },
            TimelineOperation::UpdateSessionMetadata { .. } => Seq::empty(),
        }
    }

    /// Returns the ids this operation reads or mutates, used for causal
    /// buffering of operations that arrive before their targets.
    pub fn required_targets(&self) -> (r: Vec<RequiredTarget>)
        ensures
            r@ == self.targets(),
    {
        let mut r: Vec<RequiredTarget> = Vec::new();
        match self {
            TimelineOperation::MoveClip { clip_id, .. }
            | TimelineOperation::SplitClip { clip_id, .. }
            | TimelineOperation::TrimClip { clip_id, .. }
            | TimelineOperation::UpdateClipMetadata { clip_id, .. }
            | TimelineOperation::DeleteClip { clip_id } => r.push(RequiredTarget::Clip(*clip_id)),
            TimelineOperation::UnsplitClip { clip_id, new_clip_id, .. } => {
                r.push(RequiredTarget::Clip(*clip_id));
                r.push(RequiredTarget::Clip(*new_clip_id));
            },
            TimelineOperation::UpdateTrackMetadata { track_id, .. }
            | TimelineOperation::DeleteTrack { track_id } => r.push(RequiredTarget::Track(*track_id)),
            TimelineOperation::UpdateEnvelope { target_id, .. } => match *target_id {
                TargetId::Clip(c) => r.push(RequiredTarget::Clip(c)),
                TargetId::Track(t) => r.push(RequiredTarget::Track(t)),
            },
            _ => {},
        }
        proof { assert(r@ =~= self.targets()); }
        r
    }

    /// An independent copy.
    pub fn duplicate(&self) -> (r: TimelineOperation)
        ensures
            r.same(*self),
    {
        match self {
            TimelineOperation::InsertClip { clip_id, track_id, clip, position } =>
                TimelineOperation::InsertClip {
                    clip_id: *clip_id,
                    track_id: *track_id,
                    clip: clip.duplicate(),
                    position: *position,
                },
            TimelineOperation::MoveClip { clip_id, new_track_id, new_start_frame, new_position } =>
                TimelineOperation::MoveClip {
                    clip_id: *clip_id,
                    new_track_id: *new_track_id,
                    new_start_frame: *new_start_frame,
                    new_position: *new_position,
                },
            TimelineOperation::DeleteClip { clip_id } => TimelineOperation::DeleteClip { clip_id: *clip_id },
            TimelineOperation::SplitClip { clip_id, split_frame, new_clip_id } =>
                TimelineOperation::SplitClip {
                    clip_id: *clip_id,
                    split_frame: *split_frame,
                    new_clip_id: *new_clip_id,
                },
            TimelineOperation::UnsplitClip { clip_id, split_frame, new_clip_id } =>
                TimelineOperation::UnsplitClip {
                    clip_id: *clip_id,
                    split_frame: *split_frame,
                    new_clip_id: *new_clip_id,
                },
            TimelineOperation::TrimClip { clip_id, new_start_frame, new_duration, edge } =>
                TimelineOperation::TrimClip {
                    clip_id: *clip_id,
                    new_start_frame: *new_start_frame,
                    new_duration: *new_duration,
                    edge: *edge,
                },
            TimelineOperation::UpdateClipMetadata { clip_id, updates } =>
                TimelineOperation::UpdateClipMetadata {
                    clip_id: *clip_id,
                    updates: ClipMetadataUpdate {
                        name: copy_opt_string(&updates.name),
                        source: copy_opt_string(&updates.source),
                        color: updates.color,
                        gain: updates.gain,
                        muted: updates.muted,
                        locked: updates.locked,
                    },
                },
            TimelineOperation::InsertTrack { track_id, track, position } =>
                TimelineOperation::InsertTrack {
                    track_id: *track_id,
                    track: track.duplicate(),
                    position: *position,
                },
            TimelineOperation::UpdateTrackMetadata { track_id, updates } =>
                TimelineOperation::UpdateTrackMetadata {
                    track_id: *track_id,
                    updates: TrackMetadataUpdate {
                        name: copy_opt_string(&updates.name),
                        volume_db: updates.volume_db,
                        muted: updates.muted,
                        solo: updates.solo,
                        position: updates.position,
                    },
                },
            TimelineOperation::DeleteTrack { track_id } => TimelineOperation::DeleteTrack { track_id: *track_id },
            TimelineOperation::UpdateEnvelope { target_id, envelope_type, points } =>
                TimelineOperation::UpdateEnvelope {
                    target_id: *target_id,
                    envelope_type: envelope_type.duplicate(),
                    points: copy_points(points),
                },
            TimelineOperation::UpdateSessionMetadata { updates } =>
                TimelineOperation::UpdateSessionMetadata {
                    updates: SessionMetadataUpdate {
                        name: copy_opt_string(&updates.name),
                        sample_rate: updates.sample_rate,
                        tempo_bpm: updates.tempo_bpm,
                        time_signature_numerator: updates.time_signature_numerator,
                        time_signature_denominator: updates.time_signature_denominator,
                    },
                },
        }
    }
}

/// An operation with the metadata needed for ordering and conflict
/// resolution. `timestamp` is the wall-clock capture time in nanoseconds
/// since the Unix epoch (display and replay pacing only, never ordering).
#[derive(Debug, Clone, PartialEq)]
pub struct TaggedOperation {
    /// Unique operation id (Lamport timestamp + peer id).
    pub op_id: OperationId,
    /// The operation itself.
    pub operation: TimelineOperation,
    /// Lamport timestamp for causal ordering.
    pub lamport_ts: u64,
    /// Vector clock of the creating peer at operation time.
    pub vector_clock: VectorClock,
    /// Peer id of the creator.
    pub peer_id: PeerId,
    /// Wall-clock capture time, in nanoseconds since the Unix epoch.
    pub timestamp: u64,
}

impl TaggedOperation {
    /// The two tagged operations carry the same data.
    pub open spec fn same(self, other: TaggedOperation) -> bool {
        &&& self.op_id == other.op_id
        &&& self.operation.same(other.operation)
        &&& self.lamport_ts == other.lamport_ts
        &&& self.vector_clock@ == other.vector_clock@
        &&& self.peer_id == other.peer_id
        &&& self.timestamp == other.timestamp
    }

    /// The deterministic application rank of this operation:
    /// `(lamport, peer)`.
    pub fn rank(&self) -> (r: (u64, PeerId))
        ensures
            r == (self.lamport_ts, self.peer_id),
    {
        (self.lamport_ts, self.peer_id)
    }

    /// An independent copy.
    pub fn duplicate(&self) -> (r: TaggedOperation)
        ensures
            r.same(*self),
    {
        TaggedOperation {
            op_id: self.op_id,
            operation: self.operation.duplicate(),
            lamport_ts: self.lamport_ts,
            vector_clock: self.vector_clock.duplicate(),
            peer_id: self.peer_id,
            timestamp: self.timestamp,
        }
    }
}

/// Operations carrying the same data: an equivalence.
pub proof fn lemma_op_same_equiv(a: TimelineOperation, b: TimelineOperation, c: TimelineOperation)
    ensures
        a.same(a),
        a.same(b) ==> b.same(a),
        a.same(b) && b.same(c) ==> a.same(c),
{
}

/// Carrying the same data is an equivalence.
pub proof fn lemma_same_equiv(a: TaggedOperation, b: TaggedOperation, c: TaggedOperation)
    ensures
        a.same(a),
        a.same(b) ==> b.same(a),
        a.same(b) && b.same(c) ==> a.same(c),
{
}

/// Two sequences of tagged operations carry the same data, position by
/// position.
pub open spec fn seqs_same(a: Seq<TaggedOperation>, b: Seq<TaggedOperation>) -> bool {
    &&& a.len() == b.len()
    &&& forall|i: int| 0 <= i < a.len() ==> (#[trigger] a[i]).same(b[i])
}

/// Copies an optional string.
pub fn copy_opt_string(s: &Option<String>) -> (r: Option<String>)
    ensures
        r == *s,
{
    match s {
        Some(v) => Some(v.clone()),
        None => None,
    }
}

} // verus!
