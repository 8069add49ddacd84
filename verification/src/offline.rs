//! Offline-first support: queuing messages while disconnected.

use vstd::prelude::*;
use crate::message::SyncMessage;

verus! {

/// A bounded FIFO of messages captured while the peer has no connections;
/// the oldest are dropped beyond the capacity. Replaying the queue on
/// reconnect needs no coordination, since operations are idempotent.
#[derive(Debug)]
pub struct OfflineQueue {
    queue: Vec<SyncMessage>,
    capacity: usize,
}

/// The queue after enqueuing `m` with capacity `cap`.
pub open spec fn enqueued(q: Seq<SyncMessage>, m: SyncMessage, cap: nat) -> Seq<SyncMessage> {
    if q.len() >= cap && q.len() > 0 { q.drop_first().push(m) } else { q.push(m) }
}

/// Enqueuing keeps the queue within its capacity, with the new message
/// last.
pub proof fn lemma_queue_bounded(q: Seq<SyncMessage>, m: SyncMessage, cap: nat)
    requires
        cap >= 1,
        q.len() <= cap,
    ensures
        enqueued(q, m, cap).len() <= cap,
        enqueued(q, m, cap).last() == m,
{
}

/// Law of the bounded queue: enqueuing keeps the newest messages. The
/// queue after it is the latest `min(cap, |q| + 1)` messages of `q`
/// followed by `m`, in order; only the oldest is dropped when it is full.
pub proof fn lemma_queue_keeps_newest(q: Seq<SyncMessage>, m: SyncMessage, cap: nat)
    requires
        cap >= 1,
        q.len() <= cap,
    ensures
        enqueued(q, m, cap).len() == (if q.len() + 1 <= cap { q.len() + 1 } else { cap }),
        enqueued(q, m, cap) == q.push(m).skip(q.len() + 1 - enqueued(q, m, cap).len()),
{
    if q.len() >= cap && q.len() > 0 {
        assert(q.drop_first().push(m) =~= q.push(m).skip(1));
    } else {
        assert(q.push(m).skip(0) =~= q.push(m));
    }
}

impl OfflineQueue {
    /// The queued messages, oldest first.
    pub closed spec fn queued(&self) -> Seq<SyncMessage> {
        self.queue@
    }

    /// The capacity.
    pub closed spec fn capacity(&self) -> nat {
        self.capacity as nat
    }

    /// Creates a queue holding at most `capacity` messages (at least one).
    pub fn new(capacity: usize) -> (q: OfflineQueue)
        ensures
            q.queued().len() == 0,
            q.capacity() == (if capacity > 1 { capacity as nat } else { 1 }),
    {
        OfflineQueue { queue: Vec::new(), capacity: if capacity > 1 { capacity } else { 1 } }
    }

    /// Enqueues a message, dropping the oldest when full.
    pub fn enqueue(&mut self, message: SyncMessage)
        ensures
            final(self).queued() == enqueued(old(self).queued(), message, old(self).capacity()),
            final(self).capacity() == old(self).capacity(),
    {
        if self.queue.len() >= self.capacity && self.queue.len() > 0 {
            self.queue.remove(0);
        }
        self.queue.push(message);
        proof {
            assert(self.queue@ =~= enqueued(old(self).queued(), message, old(self).capacity()));
        }
    }

    /// Removes and returns all queued messages, in order.
    pub fn drain(&mut self) -> (r: Vec<SyncMessage>)
        ensures
            r@ == old(self).queued(),
            final(self).queued().len() == 0,
            final(self).capacity() == old(self).capacity(),
    {
        let mut r: Vec<SyncMessage> = Vec::new();
        std::mem::swap(&mut r, &mut self.queue);
        r
    }

    /// Number of queued messages.
    pub fn len(&self) -> (n: usize)
        ensures
            n == self.queued().len(),
    {
        self.queue.len()
    }

    /// True when empty.
    pub fn is_empty(&self) -> (b: bool)
        ensures
            b == (self.queued().len() == 0),
    {
        self.queue.len() == 0
    }
}

} // verus!
