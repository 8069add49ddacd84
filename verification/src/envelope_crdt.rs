//! CRDT state for automation envelopes: one last-writer-wins register per
//! `(target, envelope type)` holding the complete point list.

use vstd::prelude::*;
use crate::merge::{LwwReg, OpTag};
use crate::operation::{EnvelopeKind, EnvelopePoint, EnvelopeType, TargetId, copy_points};
use crate::table::{table_distinct, table_map, lemma_table_get, lemma_table_dom, lemma_table_same_entries, lemma_table_push, lemma_table_replace, lemma_table_insert_at};
use crate::text::{text_lt, text_less, lemma_text_lt_irreflexive, lemma_text_lt_transitive, lemma_text_lt_total};

verus! {

/// The key of an envelope: its target and the parameter it controls.
pub type EnvelopeKey = (TargetId, EnvelopeKind);

/// Rank of a target in the key order: clip targets before track targets.
pub open spec fn target_rank(t: TargetId) -> (int, int) {
    match t {
        TargetId::Clip(c) => (0, c.0 as int),
        TargetId::Track(k) => (1, k.0 as int),
    }
}

/// Strict order on targets.
pub open spec fn target_lt(a: TargetId, b: TargetId) -> bool {
    target_rank(a).0 < target_rank(b).0 || (target_rank(a).0 == target_rank(b).0 && target_rank(a).1 < target_rank(b).1)
}

/// Rank of an envelope kind: volume, pan, mute, then custom parameters.
pub open spec fn kind_rank(k: EnvelopeKind) -> int {
    match k {
        EnvelopeKind::Volume => 0,
        EnvelopeKind::Pan => 1,
        EnvelopeKind::Mute => 2,
        EnvelopeKind::Custom(_) => 3,
    }
}

/// Strict order on envelope kinds; custom parameters by name.
pub open spec fn kind_lt(a: EnvelopeKind, b: EnvelopeKind) -> bool {
    kind_rank(a) < kind_rank(b) || match (a, b) {
        (EnvelopeKind::Custom(x), EnvelopeKind::Custom(y)) => text_lt(x, y),
        _ => false,
    }
}

/// Strict order on envelope keys: by target, then by kind.
pub open spec fn env_key_lt(a: EnvelopeKey, b: EnvelopeKey) -> bool {
    target_lt(a.0, b.0) || (a.0 == b.0 && kind_lt(a.1, b.1))
}

/// The key order is a strict total order.
pub proof fn lemma_env_key_order(a: EnvelopeKey, b: EnvelopeKey, c: EnvelopeKey)
    ensures
        !env_key_lt(a, a),
        env_key_lt(a, b) && env_key_lt(b, c) ==> env_key_lt(a, c),
        a != b ==> env_key_lt(a, b) || env_key_lt(b, a),
{
    if let EnvelopeKind::Custom(x) = a.1 {
        lemma_text_lt_irreflexive(x);
    }
    if let (EnvelopeKind::Custom(x), EnvelopeKind::Custom(y), EnvelopeKind::Custom(z)) = (a.1, b.1, c.1) {
        if text_lt(x, y) && text_lt(y, z) {
            lemma_text_lt_transitive(x, y, z);
        }
    }
    if let (EnvelopeKind::Custom(x), EnvelopeKind::Custom(y)) = (a.1, b.1) {
        if x != y {
            lemma_text_lt_total(x, y);
        }
    }
    match (a.0, b.0) {
        (TargetId::Clip(p), TargetId::Clip(q)) => { if p.0 == q.0 { assert(p == q); } },
        (TargetId::Track(p), TargetId::Track(q)) => { if p.0 == q.0 { assert(p == q); } },
        _ => {},
    }
}

/// Whether key `(t1, e1)` sorts strictly before `(t2, e2)`.
pub fn env_key_less(t1: TargetId, e1: &EnvelopeType, t2: TargetId, e2: &EnvelopeType) -> (r: bool)
    ensures
        r == env_key_lt((t1, e1@), (t2, e2@)),
{
    let (r1, i1) = match t1 { TargetId::Clip(c) => (0u8, c.0), TargetId::Track(k) => (1u8, k.0) };
    let (r2, i2) = match t2 { TargetId::Clip(c) => (0u8, c.0), TargetId::Track(k) => (1u8, k.0) };
    if r1 != r2 || i1 != i2 {
        return r1 < r2 || (r1 == r2 && i1 < i2);
    }
    proof {
        match (t1, t2) {
            (TargetId::Clip(p), TargetId::Clip(q)) => { assert(p == q); },
            (TargetId::Track(p), TargetId::Track(q)) => { assert(p == q); },
            _ => {},
        }
    }
    let k1: u8 = match e1 { EnvelopeType::Volume => 0, EnvelopeType::Pan => 1, EnvelopeType::Mute => 2, EnvelopeType::Custom(_) => 3 };
    let k2: u8 = match e2 { EnvelopeType::Volume => 0, EnvelopeType::Pan => 1, EnvelopeType::Mute => 2, EnvelopeType::Custom(_) => 3 };
    if k1 != k2 {
        return k1 < k2;
    }
    match (e1, e2) {
        (EnvelopeType::Custom(x), EnvelopeType::Custom(y)) => text_less(x, y),
        _ => false,
    }
}

/// An envelope's register, viewed with its point list as a sequence.
pub open spec fn points_reg(r: LwwReg<Vec<EnvelopePoint>>) -> LwwReg<Seq<EnvelopePoint>> {
    LwwReg::holding(r.val()@, r.stamp())
}

/// An entry of the store, viewed as key and register.
pub open spec fn entry_view(e: (TargetId, EnvelopeType, LwwReg<Vec<EnvelopePoint>>)) -> (EnvelopeKey, LwwReg<Seq<EnvelopePoint>>) {
    ((e.0, e.1@), points_reg(e.2))
}

/// Entries in strictly increasing key order.
pub open spec fn env_sorted(s: Seq<(EnvelopeKey, LwwReg<Seq<EnvelopePoint>>)>) -> bool {
    forall|i: int, j: int| 0 <= i < j < s.len() ==> env_key_lt(s[i].0, s[j].0)
}

/// Store of all automation envelopes in a session, kept in key order.
#[derive(Debug, Clone)]
pub struct EnvelopeStore {
    envelopes: Vec<(TargetId, EnvelopeType, LwwReg<Vec<EnvelopePoint>>)>,
}

/// The register a fresh envelope starts from: no points, never written.
pub open spec fn blank_envelope() -> LwwReg<Seq<EnvelopePoint>> {
    LwwReg::holding(Seq::empty(), OpTag::spec_initial())
}

impl View for EnvelopeStore {
    type V = Map<EnvelopeKey, LwwReg<Seq<EnvelopePoint>>>;

    closed spec fn view(&self) -> Map<EnvelopeKey, LwwReg<Seq<EnvelopePoint>>> {
        table_map(self.entries())
    }
}

impl EnvelopeStore {
    /// The entries in key order.
    pub closed spec fn entries(&self) -> Seq<(EnvelopeKey, LwwReg<Seq<EnvelopePoint>>)> {
        self.envelopes@.map_values(|e: (TargetId, EnvelopeType, LwwReg<Vec<EnvelopePoint>>)| entry_view(e))
    }

    /// Well-formedness: entries in strictly increasing key order.
    pub closed spec fn wf(&self) -> bool {
        env_sorted(self.entries())
    }

    /// The map a store holds is that of its ordered entries.
    pub proof fn lemma_view(&self)
        ensures
            self@ == table_map(self.entries()),
            self.wf() ==> env_sorted(self.entries()) && table_distinct(self.entries()),
    {
        if self.wf() {
            lemma_env_sorted_distinct(self.entries());
        }
    }

    /// Creates an empty store.
    pub fn new() -> (s: EnvelopeStore)
        ensures
            s.wf(),
            s@ == Map::<EnvelopeKey, LwwReg<Seq<EnvelopePoint>>>::empty(),
            s.entries().len() == 0,
    {
        let s = EnvelopeStore { envelopes: Vec::new() };
        proof { assert(s.entries() =~= Seq::empty()); assert(s@ =~= Map::empty()); }
        s
    }

    /// Position of the first entry whose key is not below `(target, ty)`.
    fn lower_bound(&self, target: TargetId, ty: &EnvelopeType) -> (i: usize)
        requires
            self.wf(),
        ensures
            i <= self.envelopes@.len(),
            forall|j: int| 0 <= j < i ==> env_key_lt(#[trigger] self.entries()[j].0, (target, ty@)),
            i < self.envelopes@.len() ==> !env_key_lt(self.entries()[i as int].0, (target, ty@)),
    {
        let mut i: usize = 0;
        while i < self.envelopes.len() && env_key_less(self.envelopes[i].0, &self.envelopes[i].1, target, ty)
            invariant
                i <= self.envelopes@.len(),
                forall|j: int| 0 <= j < i ==> env_key_lt(#[trigger] self.entries()[j].0, (target, ty@)),
            decreases self.envelopes@.len() - i,
        {
            i = i + 1;
        }
        i
    }

    /// Replaces the points of an envelope (last writer wins).
    pub fn set(&mut self, target: TargetId, envelope_type: EnvelopeType, points: Vec<EnvelopePoint>, tag: OpTag)
        requires
            old(self).wf(),
        ensures
            final(self).wf(),
            final(self)@ == old(self)@.insert(
                (target, envelope_type@),
                (if old(self)@.contains_key((target, envelope_type@)) {
                    old(self)@[(target, envelope_type@)]
                } else {
                    blank_envelope()
                }).written(points@, tag),
            ),
    {
        let ghost k = (target, envelope_type@);
        let ghost s = self.entries();
        let ghost ev = self.envelopes@;
        let i = self.lower_bound(target, &envelope_type);
        let found = i < self.envelopes.len() && !env_key_less(target, &envelope_type, self.envelopes[i].0, &self.envelopes[i].1);
        proof {
            lemma_view_len(ev);
            lemma_env_sorted_distinct(s);
            if found {
                lemma_env_key_order(s[i as int].0, k, k);
                assert(s[i as int].0 == k);
            } else {
                assert forall|j: int| 0 <= j < s.len() implies s[j].0 != k by {
                    if j < i {
                        lemma_env_key_order(s[j].0, s[j].0, k);
                    } else {
                        lemma_env_key_order(s[i as int].0, k, k);
                        if j > i {
                            lemma_env_key_order(k, s[i as int].0, s[j].0);
                            lemma_env_key_order(k, k, s[j].0);
                        }
                    }
                }
                lemma_table_dom(s, k);
            }
        }
        if found {
            let mut e = self.envelopes.remove(i);
            proof { lemma_table_get(s, i as int); }
            let ghost before = e.2;
            e.2.set(points, tag);
            self.envelopes.insert(i, e);
            proof {
                lemma_points_reg_written(before, points, tag);
                assert(self.entries() =~= s.update(i as int, (k, points_reg(e.2))));
                crate::table::lemma_table_update(s, i as int, points_reg(e.2));
                assert(env_sorted(self.entries())) by {
                    assert forall|a: int, b: int| 0 <= a < b < self.entries().len() implies
                        env_key_lt(self.entries()[a].0, self.entries()[b].0) by {
                        assert(self.entries()[a].0 == s[a].0);
                        assert(self.entries()[b].0 == s[b].0);
                    }
                }
            }
        } else {
            let v0: Vec<EnvelopePoint> = Vec::new();
            let ghost g0 = v0;
            let mut reg = LwwReg::new_initial(v0);
            let ghost blank = reg;
            reg.set(points, tag);
            self.envelopes.insert(i, (target, envelope_type, reg));
            proof {
                lemma_points_reg_written(blank, points, tag);
                LwwReg::lemma_holding(g0, OpTag::spec_initial());
                assert(points_reg(blank) =~= blank_envelope()) by {
                    LwwReg::lemma_holding(blank.val()@, OpTag::spec_initial());
                    LwwReg::<Seq<EnvelopePoint>>::lemma_holding(Seq::empty(), OpTag::spec_initial());
                }
                assert(self.entries() =~= s.insert(i as int, (k, points_reg(reg))));
                lemma_table_insert_at(s, i as int, (k, points_reg(reg)));
                assert(env_sorted(self.entries())) by {
                    let t = self.entries();
                    assert forall|a: int, b: int| 0 <= a < b < t.len() implies env_key_lt(t[a].0, t[b].0) by {
                        if b < i {
                            assert(t[a] == s[a] && t[b] == s[b]);
                        } else if a < i && b == i {
                            assert(t[a] == s[a]);
                        } else if a < i {
                            assert(t[a] == s[a] && t[b] == s[b - 1]);
                        } else if a == i {
                            assert(t[b] == s[b - 1]);
                            lemma_env_key_order(k, s[i as int].0, s[b - 1].0);
                            lemma_env_key_order(s[i as int].0, k, k);
                            if b - 1 > i {
                                lemma_env_key_order(k, s[i as int].0, s[b - 1].0);
                            }
                        } else {
                            assert(t[a] == s[a - 1] && t[b] == s[b - 1]);
                        }
                    }
                }
            }
        }
    }
}

impl EnvelopeStore {
    /// The current points of an envelope, if it has ever been set.
    pub fn get(&self, target: &TargetId, envelope_type: &EnvelopeType) -> (r: Option<&[EnvelopePoint]>)
        requires
            self.wf(),
        ensures
            match r {
                Some(p) => self@.contains_key((*target, envelope_type@)) && p@ == self@[(*target, envelope_type@)].val(),
                None => !self@.contains_key((*target, envelope_type@)),
            },
    {
        let ghost k = (*target, envelope_type@);
        let ghost s = self.entries();
        let i = self.lower_bound(*target, envelope_type);
        proof { lemma_env_sorted_distinct(s); lemma_view_len(self.envelopes@); }
        if i < self.envelopes.len() && !env_key_less(*target, envelope_type, self.envelopes[i].0, &self.envelopes[i].1) {
            proof {
                lemma_env_key_order(s[i as int].0, k, k);
                lemma_table_get(s, i as int);
                LwwReg::lemma_holding(self.envelopes@[i as int].2.val()@, self.envelopes@[i as int].2.stamp());
            }
            Some(self.envelopes[i].2.get().as_slice())
        } else {
            proof {
                assert forall|j: int| 0 <= j < s.len() implies s[j].0 != k by {
                    if j < i {
                        lemma_env_key_order(s[j].0, s[j].0, k);
                    } else {
                        lemma_env_key_order(s[i as int].0, k, k);
                        if j > i {
                            lemma_env_key_order(k, s[i as int].0, s[j].0);
                            lemma_env_key_order(k, k, s[j].0);
                        }
                    }
                }
                lemma_table_dom(s, k);
            }
            None
        }
    }

    /// All envelopes that have been set, in key order: target, parameter
    /// and points.
    pub fn iter(&self) -> (r: Vec<(TargetId, EnvelopeType, Vec<EnvelopePoint>)>)
        ensures
            r@.len() == self.entries().len(),
            forall|i: int| 0 <= i < r@.len() ==> (#[trigger] r@[i]).0 == self.entries()[i].0.0
                && r@[i].1@ == self.entries()[i].0.1 && r@[i].2@ == self.entries()[i].1.val(),
    {
        let mut r: Vec<(TargetId, EnvelopeType, Vec<EnvelopePoint>)> = Vec::new();
        let mut i: usize = 0;
        proof { lemma_view_len(self.envelopes@); }
        while i < self.envelopes.len()
            invariant
                i <= self.envelopes@.len(),
                self.envelopes@.len() == self.entries().len(),
                r@.len() == i,
                forall|j: int| 0 <= j < i ==> (#[trigger] r@[j]).0 == self.entries()[j].0.0
                    && r@[j].1@ == self.entries()[j].0.1 && r@[j].2@ == self.entries()[j].1.val(),
            decreases self.envelopes@.len() - i,
        {
            let e = &self.envelopes[i];
            proof { LwwReg::lemma_holding(e.2.val()@, e.2.stamp()); }
            r.push((e.0, e.1.duplicate(), copy_points(e.2.get())));
            i = i + 1;
        }
        r
    }

    /// The tag of each stored envelope's last write, in key order.
    pub fn tags(&self) -> (r: Vec<OpTag>)
        ensures
            r@.len() == self.entries().len(),
            forall|i: int| 0 <= i < r@.len() ==> #[trigger] r@[i] == self.entries()[i].1.stamp(),
    {
        let mut r: Vec<OpTag> = Vec::new();
        let mut i: usize = 0;
        proof { lemma_view_len(self.envelopes@); }
        while i < self.envelopes.len()
            invariant
                i <= self.envelopes@.len(),
                self.envelopes@.len() == self.entries().len(),
                r@.len() == i,
                forall|j: int| 0 <= j < i ==> #[trigger] r@[j] == self.entries()[j].1.stamp(),
            decreases self.envelopes@.len() - i,
        {
            proof { LwwReg::lemma_holding(self.envelopes@[i as int].2.val()@, self.envelopes@[i as int].2.stamp()); }
            r.push(self.envelopes[i].2.tag());
            i = i + 1;
        }
        r
    }

    /// Number of stored envelopes.
    pub fn len(&self) -> (n: usize)
        ensures
            n == self.entries().len(),
    {
        proof { lemma_view_len(self.envelopes@); }
        self.envelopes.len()
    }

    /// True when no envelope has been set.
    pub fn is_empty(&self) -> (b: bool)
        ensures
            b == (self.entries().len() == 0),
    {
        proof { lemma_view_len(self.envelopes@); }
        self.envelopes.len() == 0
    }
}

/// Sorted entries have distinct keys.
pub proof fn lemma_env_sorted_distinct(s: Seq<(EnvelopeKey, LwwReg<Seq<EnvelopePoint>>)>)
    requires
        env_sorted(s),
    ensures
        table_distinct(s),
{
    assert forall|i: int, j: int| 0 <= i < j < s.len() implies s[i].0 != s[j].0 by {
        lemma_env_key_order(s[i].0, s[i].0, s[i].0);
    }
}

/// The number of entries matches the store's length.
proof fn lemma_view_len(ev: Seq<(TargetId, EnvelopeType, LwwReg<Vec<EnvelopePoint>>)>)
    ensures
        ev.map_values(|e: (TargetId, EnvelopeType, LwwReg<Vec<EnvelopePoint>>)| entry_view(e)).len() == ev.len(),
{
}

/// Viewing a point-list register after a write.
proof fn lemma_points_reg_written(r: LwwReg<Vec<EnvelopePoint>>, v: Vec<EnvelopePoint>, t: OpTag)
    ensures
        points_reg(r.written(v, t)) == points_reg(r).written(v@, t),
{
    LwwReg::lemma_holding(v, t);
    LwwReg::lemma_holding(r.val()@, r.stamp());
    LwwReg::lemma_holding(v@, t);
    r.lemma_ext();
}

} // verus!
