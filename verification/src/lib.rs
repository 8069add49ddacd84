//! A conflict-free replicated timeline for collaborative media editing, and
//! the replication engine that carries it between peers.
//!
//! - [`TimelineOperation`]: the replicated edit vocabulary (insert, move,
//!   delete, split, trim, metadata, envelopes).
//! - [`TimelineCrdt`]: stamps local edits, applies remote edits
//!   idempotently and order-tolerantly, and produces and installs
//!   snapshots.
//! - [`Session`]: the state model, with conflicts resolved by per-field
//!   last-writer-wins registers ([`merge`]).
//! - [`history`], [`delta`], [`compaction`], [`replay`]: undo/redo,
//!   state diffs, log compaction and session playback.
//! - [`SyncEngine`]: the replication protocol (acks and resends, snapshots
//!   on join, the offline-first queue), driven by its caller's transport.
//!
//! Laws proved of the model: [`convergence`] (edits commute, and every
//! application is idempotent), [`reorder`] and [`split_order`] (any order
//! of application agrees, splits included when each makes a clip nothing
//! else makes), [`delivery`] (replicas that receive the same edits
//! converge; snapshots restore and exchange faithfully), [`retention`] and
//! [`compaction`] (compaction keeps every register, and compacting twice
//! is compacting once), [`undo`] and [`freshness`] (undo restores what an
//! edit overwrote, a deleted clip in full and a split clip to its whole
//! length; local edits are newer than everything a replica holds and
//! logs), [`diff_apply`] (a delta applied to the state it was computed
//! from reproduces the target view; every operation of a delta is needed;
//! the delta from a view to itself is empty). Laws of the parts: resends
//! are paced by the ack timeout and spend the budget ([`reliability`]);
//! split pieces inherit unwritten fields, views are ordered by position
//! and start, and visibility needs a live clip on a live track
//! ([`state`]); conflict events name the write that stands
//! ([`timeline_crdt`]); competing splits go to the smaller parent
//! ([`split_order`]); replay paces by capture time ([`replay`]).

#![verifier::loop_isolation(false)]

pub mod clock;
pub mod error;
pub mod merge;
pub mod table;
pub mod text;
pub mod sort;
pub mod operation;
pub mod clip_crdt;
pub mod track_crdt;
pub mod envelope_crdt;
pub mod state;
pub mod history;
pub mod timeline_crdt;
pub mod compaction;
pub mod delta;
pub mod replay;
pub mod message;
pub mod offline;
pub mod peer;
pub mod reliability;
pub mod batcher;
pub mod engine;
pub mod convergence;
pub mod reorder;
pub mod delivery;
pub mod undo;
pub mod freshness;
pub mod retention;
pub mod diff_apply;
pub mod split_order;

pub use clip_crdt::{ClipCrdt, ClipParent};
pub use clock::{LamportClock, OperationId, PeerId, VectorClock};
pub use delta::{apply_delta, compute_delta};
pub use envelope_crdt::EnvelopeStore;
pub use error::SyncError;
pub use history::{compute_inverse, compute_session_metadata_inverse, History, HistoryEntry};
pub use merge::{resolve_tag_conflict, LwwReg, OpTag, ResolutionEvent};
pub use operation::{
    ClipData, ClipId, ClipMetadataUpdate, EnvelopePoint, EnvelopeType, Interpolation, RequiredTarget,
    SessionMetadataUpdate, TaggedOperation, TargetId, TimelineOperation, TrackData, TrackId, TrackKind,
    TrackMetadataUpdate, TrimEdge,
};
pub use replay::SessionRecording;
pub use state::{tag_for, ClipView, ResolvedClip, Session, SessionMetadata, SessionView, TrackView};
pub use timeline_crdt::{missing_targets, TimelineCrdt, TimelineSnapshot};
pub use track_crdt::TrackCrdt;
pub use batcher::OperationBatcher;
pub use engine::{EngineConfig, Outgoing, SyncEngine, SyncEvent};
pub use message::{SyncMessage, WireFrame, PROTOCOL_VERSION};
pub use offline::OfflineQueue;
pub use peer::{PeerInfo, PeerRegistry};
pub use reliability::ReliabilityManager;
