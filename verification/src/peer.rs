//! Peer membership tracking.

use vstd::prelude::*;
use crate::clock::PeerId;
use crate::table::{table_distinct, table_map, table_find, lemma_table_get, lemma_table_dom, lemma_table_insert_at,
    lemma_table_update, lemma_table_remove, lemma_table_len};

verus! {

/// What is known about a connected peer.
#[derive(Debug, Clone, Copy, PartialEq, Eq, Structural)]
pub struct PeerInfo {
    /// The peer's id.
    pub peer_id: PeerId,
    /// When the peer joined (unix ms).
    pub first_seen_ms: u64,
    /// When the peer was last observed (unix ms).
    pub last_seen_ms: u64,
}

/// A registry of observed peers, kept in increasing id order.
#[derive(Debug, Default)]
pub struct PeerRegistry {
    peers: Vec<(u64, PeerInfo)>,
}

/// Entries in strictly increasing key order, each filed under its own id.
pub open spec fn registry_ordered(s: Seq<(u64, PeerInfo)>) -> bool {
    &&& forall|i: int, j: int| 0 <= i < j < s.len() ==> s[i].0 < s[j].0
    &&& forall|i: int| 0 <= i < s.len() ==> (#[trigger] s[i]).1.peer_id.0 == s[i].0
}

impl PeerRegistry {
    /// The known peers, by raw id.
    pub closed spec fn known(&self) -> Map<u64, PeerInfo> {
        table_map(self.peers@)
    }

    /// Internal consistency: entries ordered by id, each under its own id.
    pub closed spec fn wf(&self) -> bool {
        registry_ordered(self.peers@)
    }

    /// Every known peer's info names that peer.
    pub proof fn lemma_known(&self)
        requires
            self.wf(),
        ensures
            forall|id: u64| #[trigger] self.known().contains_key(id) ==> self.known()[id].peer_id.0 == id,
            self.known().dom().finite(),
    {
        assert(table_distinct(self.peers@));
        assert forall|id: u64| #[trigger] self.known().contains_key(id) implies self.known()[id].peer_id.0 == id by {
            lemma_table_dom(self.peers@, id);
            let i = choose|i: int| 0 <= i < self.peers@.len() && self.peers@[i].0 == id;
            lemma_table_get(self.peers@, i);
        }
        lemma_table_len(self.peers@);
    }

    /// Creates an empty registry.
    pub fn new() -> (r: PeerRegistry)
        ensures
            r.wf(),
            r.known() == Map::<u64, PeerInfo>::empty(),
    {
        PeerRegistry { peers: Vec::new() }
    }

    /// The position at which an entry for `id` belongs.
    fn slot(&self, id: u64) -> (p: usize)
        requires
            self.wf(),
        ensures
            p <= self.peers@.len(),
            forall|j: int| 0 <= j < p ==> self.peers@[j].0 < id,
            forall|j: int| p <= j < self.peers@.len() ==> self.peers@[j].0 >= id,
    {
        let mut p: usize = 0;
        while p < self.peers.len() && self.peers[p].0 < id
            invariant
                p <= self.peers@.len(),
                forall|j: int| 0 <= j < p ==> self.peers@[j].0 < id,
            decreases self.peers@.len() - p,
        {
            p = p + 1;
        }
        p
    }

    /// Inserts a fresh entry for `peer`.
    fn insert_new(&mut self, peer: PeerId, info: PeerInfo)
        requires
            old(self).wf(),
            !old(self).known().contains_key(peer.0),
            info.peer_id == peer,
        ensures
            final(self).wf(),
            final(self).known() == old(self).known().insert(peer.0, info),
    {
        let p = self.slot(peer.0);
        let ghost s = self.peers@;
        proof {
            lemma_table_dom(s, peer.0);
            assert forall|j: int| 0 <= j < s.len() implies s[j].0 != peer.0 by {}
            lemma_table_insert_at(s, p as int, (peer.0, info));
        }
        self.peers.insert(p, (peer.0, info));
        proof {
            let t = self.peers@;
            assert forall|i: int, j: int| 0 <= i < j < t.len() implies t[i].0 < t[j].0 by {
                if j < p {
                    assert(t[i] == s[i] && t[j] == s[j]);
                } else if j == p {
                    assert(t[i] == s[i]);
                } else if i < p {
                    assert(t[i] == s[i] && t[j] == s[j - 1]);
                } else if i == p {
                    assert(t[j] == s[j - 1]);
                } else {
                    assert(t[i] == s[i - 1] && t[j] == s[j - 1]);
                }
            }
            assert forall|i: int| 0 <= i < t.len() implies (#[trigger] t[i]).1.peer_id.0 == t[i].0 by {
                if i < p {
                    assert(t[i] == s[i]);
                } else if i > p {
                    assert(t[i] == s[i - 1]);
                }
            }
        }
    }

    /// Records a peer joining. A peer already known keeps its record.
    pub fn note_join(&mut self, peer: PeerId, now_ms: u64)
        requires
            old(self).wf(),
        ensures
            final(self).wf(),
            final(self).known() == (if old(self).known().contains_key(peer.0) {
                old(self).known()
            } else {
                old(self).known().insert(peer.0, PeerInfo { peer_id: peer, first_seen_ms: now_ms, last_seen_ms: now_ms })
            }),
    {
        proof { assert(table_distinct(self.peers@)); }
        if table_find(&self.peers, peer.0).is_none() {
            self.insert_new(peer, PeerInfo { peer_id: peer, first_seen_ms: now_ms, last_seen_ms: now_ms });
        }
    }

    /// Refreshes a peer's last-seen time, registering unknown peers.
    pub fn note_seen(&mut self, peer: PeerId, now_ms: u64)
        requires
            old(self).wf(),
        ensures
            final(self).wf(),
            final(self).known() == (if old(self).known().contains_key(peer.0) {
                old(self).known().insert(peer.0, PeerInfo { last_seen_ms: now_ms, ..old(self).known()[peer.0] })
            } else {
                old(self).known().insert(peer.0, PeerInfo { peer_id: peer, first_seen_ms: now_ms, last_seen_ms: now_ms })
            }),
    {
        proof { assert(table_distinct(self.peers@)); }
        match table_find(&self.peers, peer.0) {
            Some(i) => {
                let ghost s = self.peers@;
                let info = PeerInfo { last_seen_ms: now_ms, ..self.peers[i].1 };
                self.peers.set(i, (peer.0, info));
                proof {
                    lemma_table_update(s, i as int, info);
                    assert(self.peers@ =~= s.update(i as int, (s[i as int].0, info)));
                    assert forall|a: int, b: int| 0 <= a < b < self.peers@.len() implies self.peers@[a].0 < self.peers@[b].0 by {
                        assert(self.peers@[a].0 == s[a].0 && self.peers@[b].0 == s[b].0);
                    }
                    assert forall|a: int| 0 <= a < self.peers@.len() implies (#[trigger] self.peers@[a]).1.peer_id.0 == self.peers@[a].0 by {
                        if a != i { assert(self.peers@[a] == s[a]); }
                    }
                }
            },
            None => {
                self.insert_new(peer, PeerInfo { peer_id: peer, first_seen_ms: now_ms, last_seen_ms: now_ms });
            },
        }
    }

    /// Records a peer leaving. Returns whether it was known.
    pub fn note_leave(&mut self, peer: &PeerId) -> (was: bool)
        requires
            old(self).wf(),
        ensures
            final(self).wf(),
            was == old(self).known().contains_key(peer.0),
            final(self).known() == old(self).known().remove(peer.0),
    {
        proof { assert(table_distinct(self.peers@)); }
        match table_find(&self.peers, peer.0) {
            Some(i) => {
                let ghost s = self.peers@;
                self.peers.remove(i);
                proof {
                    lemma_table_remove(s, i as int);
                    let t = self.peers@;
                    assert(t =~= s.remove(i as int));
                    assert forall|a: int, b: int| 0 <= a < b < t.len() implies t[a].0 < t[b].0 by {
                        let a2 = if a < i { a } else { a + 1 };
                        let b2 = if b < i { b } else { b + 1 };
                        assert(t[a] == s[a2] && t[b] == s[b2]);
                    }
                    assert forall|a: int| 0 <= a < t.len() implies (#[trigger] t[a]).1.peer_id.0 == t[a].0 by {
                        let a2 = if a < i { a } else { a + 1 };
                        assert(t[a] == s[a2]);
                    }
                }
                true
            },
            None => {
                proof { assert(old(self).known().remove(peer.0) =~= old(self).known()); }
                false
            },
        }
    }

    /// A peer's info, if known.
    pub fn get(&self, peer: &PeerId) -> (r: Option<&PeerInfo>)
        requires
            self.wf(),
        ensures
            match r {
                Some(info) => self.known().contains_key(peer.0) && *info == self.known()[peer.0],
                None => !self.known().contains_key(peer.0),
            },
    {
        proof { assert(table_distinct(self.peers@)); }
        match table_find(&self.peers, peer.0) {
            Some(i) => Some(&self.peers[i].1),
            None => None,
        }
    }

    /// All known peers, in increasing id order.
    pub fn peers(&self) -> (r: Vec<PeerInfo>)
        requires
            self.wf(),
        ensures
            forall|i: int, j: int| 0 <= i < j < r@.len() ==> r@[i].peer_id.0 < r@[j].peer_id.0,
            forall|i: int| 0 <= i < r@.len() ==> self.known().contains_key((#[trigger] r@[i]).peer_id.0)
                && self.known()[r@[i].peer_id.0] == r@[i],
            forall|id: u64| #[trigger] self.known().contains_key(id) ==> exists|i: int| 0 <= i < r@.len() && r@[i].peer_id.0 == id,
    {
        proof { assert(table_distinct(self.peers@)); }
        let mut r: Vec<PeerInfo> = Vec::new();
        let mut i: usize = 0;
        while i < self.peers.len()
            invariant
                self.wf(),
                table_distinct(self.peers@),
                i <= self.peers@.len(),
                r@.len() == i,
                forall|k: int| 0 <= k < i ==> #[trigger] r@[k] == self.peers@[k].1,
            decreases self.peers@.len() - i,
        {
            r.push(self.peers[i].1);
            i = i + 1;
        }
        proof {
            assert forall|a: int| 0 <= a < r@.len() implies self.known().contains_key((#[trigger] r@[a]).peer_id.0)
                && self.known()[r@[a].peer_id.0] == r@[a] by {
                lemma_table_get(self.peers@, a);
            }
            assert forall|id: u64| #[trigger] self.known().contains_key(id) implies exists|a: int| 0 <= a < r@.len() && r@[a].peer_id.0 == id by {
                lemma_table_dom(self.peers@, id);
                let a = choose|a: int| 0 <= a < self.peers@.len() && self.peers@[a].0 == id;
                assert(r@[a].peer_id.0 == id);
            }
        }
        r
    }

    /// Number of known peers.
    pub fn len(&self) -> (n: usize)
        requires
            self.wf(),
        ensures
            n == self.known().len(),
    {
        proof { lemma_table_len(self.peers@); }
        self.peers.len()
    }

    /// True when no peers are known.
    pub fn is_empty(&self) -> (b: bool)
        requires
            self.wf(),
        ensures
            b == (self.known().len() == 0),
    {
        proof { lemma_table_len(self.peers@); }
        self.peers.len() == 0
    }
}

} // verus!
