//! Network message types exchanged between synced peers, and the outer
//! frame of the length-prefixed transports.
//!
//! Playhead, transport-control, presence and clock-sync messages are
//! carried as the encoded bytes of their payload: the engine passes them
//! through to the application without reading them.

use vstd::prelude::*;
use crate::clock::{OperationId, PeerId};
use crate::error::SyncError;
use crate::operation::TaggedOperation;
use crate::timeline_crdt::TimelineSnapshot;

verus! {

/// Protocol version negotiated in the handshake; transports reject peers
/// with another version.
pub const PROTOCOL_VERSION: u16 = 2u16;

/// A message exchanged between synced peers.
#[derive(Debug, Clone, PartialEq)]
pub enum SyncMessage {
    /// A timeline operation to replicate.
    Operation(TaggedOperation),
    /// Several operations batched together.
    Batch(Vec<TaggedOperation>),
    /// A request for the current state snapshot (sent by joining peers).
    RequestSnapshot,
    /// A state snapshot (sent to new peers, or on reconnect).
    Snapshot(TimelineSnapshot),
    /// Playhead position update (encoded payload).
    PlayheadUpdate(Vec<u8>),
    /// Transport control: play, stop, record, locate (encoded payload).
    TransportControl(Vec<u8>),
    /// Presence update: user info, cursor, leaving (encoded payload).
    PresenceUpdate(Vec<u8>),
    /// Clock synchronization message (encoded payload).
    ClockSync(Vec<u8>),
    /// Acknowledgment that an operation was received and applied.
    Ack(OperationId),
}

/// The outermost frame of the length-prefixed transports.
#[derive(Debug, Clone, PartialEq)]
pub enum WireFrame {
    /// First frame on a newly established connection.
    Hello {
        /// Sender's peer id.
        peer_id: PeerId,
        /// Sender's protocol version.
        protocol: u16,
        /// Encoded ownership proof, present when the sender authenticates.
        identity: Option<Vec<u8>>,
    },
    /// Liveness challenge: the dialer asks the acceptor to sign a nonce.
    Challenge {
        /// Random nonce.
        nonce: Vec<u8>,
    },
    /// Response to a challenge.
    ChallengeResponse {
        /// Signature over the challenge context and nonce.
        signature: Vec<u8>,
    },
    /// A sync message.
    Message(SyncMessage),
    /// Sent before closing a connection cleanly.
    Goodbye,
}

/// Largest frame body accepted by the length-prefixed transports (64 MiB),
/// a guard against corrupt or garbage lengths.
pub const MAX_FRAME_BYTES: u32 = 67_108_864u32;

/// The big-endian value of a 4-byte length prefix.
pub open spec fn prefix_value(p: [u8; 4]) -> int {
    p[0] * 16_777_216 + p[1] * 65_536 + p[2] * 256 + p[3]
}

/// The 4-byte big-endian length prefix of a frame body of `len` bytes, or
/// the transport error for a body too large to describe.
pub fn frame_prefix(len: usize) -> (r: Result<[u8; 4], SyncError>)
    ensures
        len > u32::MAX ==> r == Err::<[u8; 4], SyncError>(SyncError::Transport),
        len <= u32::MAX ==> (r matches Ok(p) && prefix_value(p) == len),
{
    if len > 4_294_967_295usize {
        return Err(SyncError::Transport);
    }
    let b0 = (len / 16_777_216) as u8;
    let r0 = len % 16_777_216;
    let b1 = (r0 / 65_536) as u8;
    let r1 = r0 % 65_536;
    let b2 = (r1 / 256) as u8;
    let b3 = (r1 % 256) as u8;
    let p = [b0, b1, b2, b3];
    proof {
        assert(len == (len / 16_777_216) * 16_777_216 + r0) by (nonlinear_arith)
            requires r0 == len % 16_777_216;
        assert(r0 == (r0 / 65_536) * 65_536 + r1) by (nonlinear_arith)
            requires r1 == r0 % 65_536;
        assert(r1 == (r1 / 256) * 256 + r1 % 256) by (nonlinear_arith);
        assert(p[0] == len / 16_777_216 && p[1] == r0 / 65_536 && p[2] == r1 / 256 && p[3] == r1 % 256);
    }
    Ok(p)
}

/// The body length a 4-byte big-endian prefix announces, or the transport
/// error when it exceeds [`MAX_FRAME_BYTES`].
pub fn frame_length(prefix: [u8; 4]) -> (r: Result<u32, SyncError>)
    ensures
        prefix_value(prefix) > MAX_FRAME_BYTES ==> r == Err::<u32, SyncError>(SyncError::Transport),
        prefix_value(prefix) <= MAX_FRAME_BYTES ==> r == Ok::<u32, SyncError>(prefix_value(prefix) as u32),
{
    let len: u64 = prefix[0] as u64 * 16_777_216 + prefix[1] as u64 * 65_536 + prefix[2] as u64 * 256 + prefix[3] as u64;
    if len > MAX_FRAME_BYTES as u64 {
        Err(SyncError::Transport)
    } else {
        Ok(len as u32)
    }
}

} // verus!
