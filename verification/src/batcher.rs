//! Operation batching to reduce network overhead: operations collected
//! between flushes travel as one [`SyncMessage::Batch`].
//!
//! A flush is two steps around the broadcast, which the caller performs:
//! [`OperationBatcher::begin_flush`] hands out the batch message when the
//! interval has elapsed, and [`OperationBatcher::end_flush`] takes the
//! broadcast's outcome. Times are monotonic milliseconds.

use vstd::prelude::*;
use crate::error::SyncError;
use crate::message::SyncMessage;
use crate::operation::{TaggedOperation, seqs_same};
use crate::reliability::elapsed;
use crate::timeline_crdt::copy_ops;

verus! {

/// Collects operations and sends them as one batch at a fixed interval.
#[derive(Debug)]
pub struct OperationBatcher {
    pending: Vec<TaggedOperation>,
    in_flight: Vec<TaggedOperation>,
    interval_ms: u64,
    last_flush_ms: u64,
}

/// The batcher's state.
pub struct BatcherModel {
    /// Operations waiting to be flushed.
    pub pending: Seq<TaggedOperation>,
    /// The batch being broadcast, if a flush has begun.
    pub in_flight: Seq<TaggedOperation>,
    /// The flush interval.
    pub interval_ms: u64,
    /// When the last successful flush ended.
    pub last_flush_ms: u64,
}

impl OperationBatcher {
    /// The batcher's state.
    pub closed spec fn model(&self) -> BatcherModel {
        BatcherModel {
            pending: self.pending@,
            in_flight: self.in_flight@,
            interval_ms: self.interval_ms,
            last_flush_ms: self.last_flush_ms,
        }
    }

    /// Creates a batcher flushing every `interval_ms`, starting its first
    /// interval at `now_ms`.
    pub fn new(interval_ms: u64, now_ms: u64) -> (b: OperationBatcher)
        ensures
            b.model().pending.len() == 0,
            b.model().in_flight.len() == 0,
            b.model().interval_ms == interval_ms,
            b.model().last_flush_ms == now_ms,
    {
        OperationBatcher { pending: Vec::new(), in_flight: Vec::new(), interval_ms, last_flush_ms: now_ms }
    }

    /// Adds an operation to the batch.
    pub fn add(&mut self, op: TaggedOperation)
        ensures
            final(self).model() == (BatcherModel { pending: old(self).model().pending.push(op), ..old(self).model() }),
    {
        self.pending.push(op);
    }

    /// Number of operations waiting to be flushed.
    pub fn pending_len(&self) -> (n: usize)
        ensures
            n == self.model().pending.len(),
    {
        self.pending.len()
    }

    /// True when nothing is waiting.
    pub fn is_empty(&self) -> (b: bool)
        ensures
            b == (self.model().pending.len() == 0),
    {
        self.pending.len() == 0
    }

    /// Starts a flush at `now_ms`: when operations are waiting and the
    /// interval has elapsed since the last flush, they move to the
    /// in-flight batch and the message to broadcast is returned; otherwise
    /// nothing changes and `None` is returned.
    pub fn begin_flush(&mut self, now_ms: u64) -> (r: Option<SyncMessage>)
        ensures
            ({
                let m = old(self).model();
                let ready = m.pending.len() > 0 && elapsed(now_ms, m.last_flush_ms) >= m.interval_ms;
                if ready {
                    &&& r matches Some(SyncMessage::Batch(ops)) && seqs_same(ops@, m.pending)
                    &&& final(self).model() == (BatcherModel { pending: Seq::empty(), in_flight: m.pending, ..m })
                } else {
                    r is None && final(self).model() == m
                }
            }),
    {
        let elapsed = now_ms.saturating_sub(self.last_flush_ms);
        if self.pending.len() == 0 || elapsed < self.interval_ms {
            return None;
        }
        let mut batch: Vec<TaggedOperation> = Vec::new();
        std::mem::swap(&mut batch, &mut self.pending);
        let copy = copy_ops(&batch);
        self.in_flight = batch;
        proof { assert(self.pending@ =~= Seq::<TaggedOperation>::empty()); }
        Some(SyncMessage::Batch(copy))
    }

    /// Ends a flush with the broadcast's outcome at `now_ms`: on success
    /// the in-flight batch is done, the interval restarts and the number of
    /// operations flushed is returned; on failure the batch is retained for
    /// a later retry, ahead of any operation added since the flush began,
    /// and the error is returned.
    pub fn end_flush(&mut self, sent: Result<(), SyncError>, now_ms: u64) -> (r: Result<usize, SyncError>)
        ensures
            ({
                let m = old(self).model();
                match sent {
                    Ok(()) => r == Ok::<usize, SyncError>(m.in_flight.len() as usize)
                        && final(self).model() == (BatcherModel { in_flight: Seq::empty(), last_flush_ms: now_ms, ..m }),
                    Err(e) => r == Err::<usize, SyncError>(e)
                        && final(self).model() == (BatcherModel { pending: m.in_flight + m.pending, in_flight: Seq::empty(), ..m }),
                }
            }),
    {
        let mut batch: Vec<TaggedOperation> = Vec::new();
        std::mem::swap(&mut batch, &mut self.in_flight);
        proof { assert(self.in_flight@ =~= Seq::<TaggedOperation>::empty()); }
        match sent {
            Ok(()) => {
                self.last_flush_ms = now_ms;
                Ok(batch.len())
            },
            Err(e) => {
                let mut newer: Vec<TaggedOperation> = Vec::new();
                std::mem::swap(&mut newer, &mut self.pending);
                batch.append(&mut newer);
                self.pending = batch;
                Err(e)
            },
        }
    }
}

} // verus!
