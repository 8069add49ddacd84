//! Convergence of replicas: replicas that receive the same edits (each
//! split making a clip that nothing else makes), in any order and with any
//! repetitions, hold the same timeline.

use vstd::prelude::*;
use crate::clock::{OperationId, PeerId};
use crate::merge::EventModel;
use crate::operation::{TaggedOperation, lemma_same_equiv};
use crate::reorder::{
    all_apply, all_plain, apply_seq, applied_op, clip_made, coherent, distinct_ids, enabled, ids, lemma_apply_concat,
    lemma_apply_push, lemma_enabled_grows, lemma_entry_keys, lemma_in_ids, lemma_step, plain, track_made,
};
use crate::split_order::{
    all_covered, covered, lemma_keys_made, lemma_none_make_from, lemma_orders_agree_with_splits, lemma_seq_grows,
    lemma_step_covered, lemma_step_keys, makes_clip, reorderable, split_new, unique_makers,
};
use crate::state::SessionModel;
use crate::timeline_crdt::{
    CrdtModel, attempt, drain, lemma_pass_shrinks, local_step, logged, pass, remote_step, replay_trace, replays,
    sorted_perm, stably_sorted, stamps, tag_of,
};
use crate::operation::TimelineOperation;
use crate::operation::seqs_same;

verus! {

/// The ids of `x` with one more operation.
pub proof fn lemma_ids_push(x: Seq<TaggedOperation>, z: TaggedOperation)
    ensures
        ids(x.push(z)) == ids(x).insert(z.op_id),
{
    let y = x.push(z);
    assert forall|id: OperationId| ids(y).contains(id) implies ids(x).insert(z.op_id).contains(id) by {
        let i = choose|i: int| 0 <= i < y.len() && (#[trigger] y[i]).op_id == id;
        if i < x.len() {
            assert(y[i] == x[i]);
            lemma_in_ids(x, i);
        }
    }
    assert forall|id: OperationId| ids(x).insert(z.op_id).contains(id) implies ids(y).contains(id) by {
        if id == z.op_id {
            lemma_in_ids(y, x.len() as int);
        } else {
            let i = choose|i: int| 0 <= i < x.len() && (#[trigger] x[i]).op_id == id;
            assert(y[i] == x[i]);
            lemma_in_ids(y, i);
        }
    }
    assert(ids(y) =~= ids(x).insert(z.op_id));
}

/// The ids of a concatenation.
pub proof fn lemma_ids_concat(x: Seq<TaggedOperation>, y: Seq<TaggedOperation>)
    ensures
        ids(x + y) == ids(x).union(ids(y)),
{
    let c = x + y;
    assert forall|id: OperationId| ids(c).contains(id) implies ids(x).union(ids(y)).contains(id) by {
        let i = choose|i: int| 0 <= i < c.len() && (#[trigger] c[i]).op_id == id;
        if i < x.len() {
            lemma_in_ids(x, i);
        } else {
            assert(c[i] == y[i - x.len()]);
            lemma_in_ids(y, i - x.len());
        }
    }
    assert forall|id: OperationId| ids(x).union(ids(y)).contains(id) implies ids(c).contains(id) by {
        if ids(x).contains(id) {
            let i = choose|i: int| 0 <= i < x.len() && (#[trigger] x[i]).op_id == id;
            assert(c[i] == x[i]);
            lemma_in_ids(c, i);
        } else {
            let i = choose|i: int| 0 <= i < y.len() && (#[trigger] y[i]).op_id == id;
            assert(c[x.len() + i] == y[i]);
            lemma_in_ids(c, x.len() + i);
        }
    }
    assert(ids(c) =~= ids(x).union(ids(y)));
}

/// Concatenating sequences with distinct ids, none shared, keeps ids
/// distinct.
pub proof fn lemma_distinct_concat(x: Seq<TaggedOperation>, y: Seq<TaggedOperation>)
    requires
        distinct_ids(x),
        distinct_ids(y),
        ids(x).disjoint(ids(y)),
    ensures
        distinct_ids(x + y),
{
    let c = x + y;
    assert forall|i: int, j: int| 0 <= i < c.len() && 0 <= j < c.len() && i != j implies
        (#[trigger] c[i]).op_id != (#[trigger] c[j]).op_id by {
        if i < x.len() && j < x.len() {
        } else if i >= x.len() && j >= x.len() {
            assert(c[i] == y[i - x.len()] && c[j] == y[j - x.len()]);
        } else if i < x.len() {
            lemma_in_ids(x, i);
            assert(c[j] == y[j - x.len()]);
            lemma_in_ids(y, j - x.len());
        } else {
            lemma_in_ids(x, j);
            assert(c[i] == y[i - x.len()]);
            lemma_in_ids(y, i - x.len());
        }
    }
}

/// Sequences of covered operations concatenate to one.
pub proof fn lemma_covered_concat(x: Seq<TaggedOperation>, y: Seq<TaggedOperation>)
    requires
        all_covered(x),
        all_covered(y),
    ensures
        all_covered(x + y),
{
    assert forall|i: int| 0 <= i < (x + y).len() implies covered(#[trigger] (x + y)[i]) by {
        if i >= x.len() {
            assert((x + y)[i] == y[i - x.len()]);
        }
    }
}

/// One more operation, enabled when its turn comes, keeps every
/// operation finding its targets.
pub proof fn lemma_all_apply_push(m: SessionModel, x: Seq<TaggedOperation>, z: TaggedOperation)
    requires
        all_apply(m, x),
        enabled(apply_seq(m, x), z.operation),
    ensures
        all_apply(m, x.push(z)),
{
    let y = x.push(z);
    assert forall|i: int| 0 <= i < y.len() implies enabled(apply_seq(m, y.take(i)), (#[trigger] y[i]).operation) by {
        if i < x.len() {
            assert(y.take(i) =~= x.take(i));
        } else {
            assert(y.take(i) =~= x);
        }
    }
}

/// What one pass over the pending operations `ops` did, when the session
/// before it was `a` applied from the start: it applied `q`, drawn from
/// `ops`, and kept the rest; when it applied none, none of the kept ones
/// is enabled.
pub open spec fn pass_done(
    a: Seq<TaggedOperation>,
    ops: Seq<TaggedOperation>,
    q: Seq<TaggedOperation>,
    r: (SessionModel, Seq<EventModel>, Seq<TaggedOperation>, bool),
) -> bool {
    &&& r.0 == apply_seq(SessionModel::initial(), a + q)
    &&& all_apply(SessionModel::initial(), a + q)
    &&& forall|i: int| 0 <= i < q.len() ==> ops.contains(#[trigger] q[i])
    &&& forall|i: int| 0 <= i < r.2.len() ==> ops.contains(#[trigger] r.2[i])
    &&& distinct_ids(q)
    &&& distinct_ids(r.2)
    &&& ids(q).disjoint(ids(r.2))
    &&& ids(q).union(ids(r.2)) == ids(ops)
    &&& r.3 == (q.len() > 0)
    &&& q.len() == 0 ==> forall|i: int| 0 <= i < r.2.len() ==> !enabled(r.0, (#[trigger] r.2[i]).operation)
}

/// A pass that applies one more operation `z`.
proof fn lemma_pass_take(
    a: Seq<TaggedOperation>,
    ops: Seq<TaggedOperation>,
    z: TaggedOperation,
    q: Seq<TaggedOperation>,
    p: (SessionModel, Seq<EventModel>, Seq<TaggedOperation>, bool),
    ev: Seq<EventModel>,
)
    requires
        pass_done(a, ops, q, p),
        !ids(ops).contains(z.op_id),
        enabled(p.0, z.operation),
    ensures
        pass_done(a, ops.push(z), q.push(z), (applied_op(p.0, z), ev, p.2, true)),
{
    let q1 = q.push(z);
    let ops1 = ops.push(z);
    lemma_ids_push(ops, z);
    lemma_ids_push(q, z);
    assert((a + q).push(z) =~= a + q1);
    lemma_apply_push(SessionModel::initial(), a + q, z);
    lemma_all_apply_push(SessionModel::initial(), a + q, z);
    assert forall|x: TaggedOperation| ops.contains(x) implies ops1.contains(x) by {
        let i = choose|i: int| 0 <= i < ops.len() && ops[i] == x;
        assert(ops1[i] == ops[i]);
    }
    assert(ops1[ops.len() as int] == z);
    assert forall|i: int, j: int| 0 <= i < q1.len() && 0 <= j < q1.len() && i != j implies
        (#[trigger] q1[i]).op_id != (#[trigger] q1[j]).op_id by {
        if i < q.len() && j < q.len() {
            assert(q1[i] == q[i] && q1[j] == q[j]);
        } else if i < q.len() {
            assert(q1[i] == q[i]);
            lemma_in_ids(q, i);
        } else {
            assert(q1[j] == q[j]);
            lemma_in_ids(q, j);
        }
    }
    assert forall|i: int| 0 <= i < q1.len() implies ops1.contains(#[trigger] q1[i]) by {
        if i < q.len() {
            assert(q1[i] == q[i]);
        }
    }
    assert(ids(q1).union(ids(p.2)) =~= ids(ops1));
    assert(ids(q1).disjoint(ids(p.2)));
}

/// A pass that keeps one more operation `z` waiting.
proof fn lemma_pass_keep(
    a: Seq<TaggedOperation>,
    ops: Seq<TaggedOperation>,
    z: TaggedOperation,
    q: Seq<TaggedOperation>,
    p: (SessionModel, Seq<EventModel>, Seq<TaggedOperation>, bool),
    ev: Seq<EventModel>,
)
    requires
        pass_done(a, ops, q, p),
        !ids(ops).contains(z.op_id),
        !enabled(p.0, z.operation),
    ensures
        pass_done(a, ops.push(z), q, (p.0, ev, p.2.push(z), p.3)),
{
    let ops1 = ops.push(z);
    let kept = p.2.push(z);
    lemma_ids_push(ops, z);
    lemma_ids_push(p.2, z);
    assert forall|x: TaggedOperation| ops.contains(x) implies ops1.contains(x) by {
        let i = choose|i: int| 0 <= i < ops.len() && ops[i] == x;
        assert(ops1[i] == ops[i]);
    }
    assert(ops1[ops.len() as int] == z);
    assert forall|i: int, j: int| 0 <= i < kept.len() && 0 <= j < kept.len() && i != j implies
        (#[trigger] kept[i]).op_id != (#[trigger] kept[j]).op_id by {
        if i < p.2.len() && j < p.2.len() {
            assert(kept[i] == p.2[i] && kept[j] == p.2[j]);
        } else if i < p.2.len() {
            assert(kept[i] == p.2[i]);
            lemma_in_ids(p.2, i);
        } else {
            assert(kept[j] == p.2[j]);
            lemma_in_ids(p.2, j);
        }
    }
    assert forall|i: int| 0 <= i < kept.len() implies ops1.contains(#[trigger] kept[i]) by {
        if i < p.2.len() {
            assert(kept[i] == p.2[i]);
        }
    }
    assert forall|i: int| 0 <= i < kept.len() && q.len() == 0 implies !enabled(p.0, (#[trigger] kept[i]).operation) by {
        if i < p.2.len() {
            assert(kept[i] == p.2[i]);
        }
    }
    assert(ids(q).union(ids(kept)) =~= ids(ops1));
    assert(ids(q).disjoint(ids(kept)));
}

/// One pass over pending covered operations, copies of operations of `u`.
pub proof fn lemma_pass(a: Seq<TaggedOperation>, ev: Seq<EventModel>, log: Seq<TaggedOperation>, ops: Seq<TaggedOperation>,
    u: Seq<TaggedOperation>) -> (q: Seq<TaggedOperation>)
    requires
        all_covered(a),
        all_covered(ops),
        unique_makers(u),
        copies(a, u),
        copies(ops, u),
        distinct_ids(a),
        distinct_ids(ops),
        ids(a).disjoint(ids(ops)),
        all_apply(SessionModel::initial(), a),
    ensures
        pass_done(a, ops, q, pass(apply_seq(SessionModel::initial(), a), ev, log, ops)),
    decreases ops.len(),
{
    let s = apply_seq(SessionModel::initial(), a);
    if ops.len() == 0 {
        let q = Seq::<TaggedOperation>::empty();
        assert(a + q =~= a);
        assert(ids(q) =~= Set::<OperationId>::empty());
        assert(ids(ops) =~= Set::<OperationId>::empty());
        assert(ids(q).union(ids(q)) =~= ids(ops));
        q
    } else {
        let n = ops.len() - 1;
        let ops2 = ops.drop_last();
        let z = ops.last();
        assert(ops =~= ops2.push(z));
        lemma_ids_push(ops2, z);
        assert forall|i: int| 0 <= i < ops2.len() implies covered(#[trigger] ops2[i]) && copy_in(ops2[i], u) by {
            assert(ops2[i] == ops[i]);
        }
        assert forall|i: int, j: int| 0 <= i < ops2.len() && 0 <= j < ops2.len() && i != j implies
            (#[trigger] ops2[i]).op_id != (#[trigger] ops2[j]).op_id by {
            assert(ops2[i] == ops[i] && ops2[j] == ops[j]);
        }
        assert(!ids(ops2).contains(z.op_id)) by {
            if ids(ops2).contains(z.op_id) {
                let i = choose|i: int| 0 <= i < ops2.len() && (#[trigger] ops2[i]).op_id == z.op_id;
                assert(ops[i] == ops2[i]);
                assert(ops[n] == z);
            }
        }
        let q2 = lemma_pass(a, ev, log, ops2, u);
        let p = pass(s, ev, log, ops2);
        assert(covered(ops[n]) && copy_in(ops[n], u));
        if z.operation is SplitClip {
            let s2 = a + q2;
            assert forall|i: int| 0 <= i < s2.len() implies copy_in(#[trigger] s2[i], u) && s2[i].op_id != z.op_id by {
                if i < a.len() {
                    assert(s2[i] == a[i]);
                    lemma_in_ids(a, i);
                    lemma_in_ids(ops, n);
                } else {
                    assert(s2[i] == q2[i - a.len()]);
                    assert(ops2.contains(q2[i - a.len()]));
                    let k = choose|k: int| 0 <= k < ops2.len() && ops2[k] == q2[i - a.len()];
                    assert(ops2[k] == ops[k]);
                }
            }
            lemma_none_make_from(u, s2, z);
            lemma_keys_made(SessionModel::initial(), s2, split_new(z.operation));
        }
        lemma_step_covered(p.0, z.operation, tag_of(z));
        let att = crate::timeline_crdt::attempt(p.0, p.1, log, z);
        assert(pass(s, ev, log, ops) == (att.0, att.1, if att.2 { p.2 } else { p.2.push(z) }, p.3 || att.2));
        if enabled(p.0, z.operation) {
            lemma_pass_take(a, ops2, z, q2, p, att.1);
            q2.push(z)
        } else {
            lemma_pass_keep(a, ops2, z, q2, p, att.1);
            q2
        }
    }
}


/// What draining the pending operations `pend` did, when the session
/// before was `a` applied from the start: it applied `q`, drawn from
/// `pend`, and left the rest waiting, none of them enabled.
pub open spec fn drain_done(
    a: Seq<TaggedOperation>,
    pend: Seq<TaggedOperation>,
    q: Seq<TaggedOperation>,
    r: (SessionModel, Seq<EventModel>, Seq<TaggedOperation>),
) -> bool {
    &&& r.0 == apply_seq(SessionModel::initial(), a + q)
    &&& all_apply(SessionModel::initial(), a + q)
    &&& forall|i: int| 0 <= i < q.len() ==> pend.contains(#[trigger] q[i])
    &&& forall|i: int| 0 <= i < r.2.len() ==> pend.contains(#[trigger] r.2[i])
    &&& distinct_ids(q)
    &&& distinct_ids(r.2)
    &&& ids(q).disjoint(ids(r.2))
    &&& ids(q).union(ids(r.2)) == ids(pend)
    &&& forall|i: int| 0 <= i < r.2.len() ==> !enabled(r.0, (#[trigger] r.2[i]).operation)
}

/// Draining pending covered operations, copies of operations of `u`.
#[verifier::spinoff_prover]
#[verifier::rlimit(40)]
pub proof fn lemma_drain(a: Seq<TaggedOperation>, ev: Seq<EventModel>, log: Seq<TaggedOperation>, pend: Seq<TaggedOperation>,
    u: Seq<TaggedOperation>) -> (q: Seq<TaggedOperation>)
    requires
        all_covered(a),
        all_covered(pend),
        unique_makers(u),
        copies(a, u),
        copies(pend, u),
        distinct_ids(a),
        distinct_ids(pend),
        ids(a).disjoint(ids(pend)),
        all_apply(SessionModel::initial(), a),
    ensures
        drain_done(a, pend, q, drain(apply_seq(SessionModel::initial(), a), ev, log, pend)),
    decreases pend.len(),
{
    let s = apply_seq(SessionModel::initial(), a);
    let q1 = lemma_pass(a, ev, log, pend, u);
    let p = pass(s, ev, log, pend);
    lemma_pass_shrinks(s, ev, log, pend);
    if p.3 && p.2.len() < pend.len() {
        let a1 = a + q1;
        lemma_ids_concat(a, q1);
        assert(ids(q1).subset_of(ids(pend)));
        assert(ids(p.2).subset_of(ids(pend)));
        assert forall|i: int| 0 <= i < q1.len() implies covered(#[trigger] q1[i]) && copy_in(q1[i], u) by {
            assert(pend.contains(q1[i]));
            let k = choose|k: int| 0 <= k < pend.len() && pend[k] == q1[i];
        }
        assert forall|i: int| 0 <= i < p.2.len() implies covered(#[trigger] p.2[i]) && copy_in(p.2[i], u) by {
            assert(pend.contains(p.2[i]));
            let k = choose|k: int| 0 <= k < pend.len() && pend[k] == p.2[i];
        }
        lemma_covered_concat(a, q1);
        lemma_distinct_concat(a, q1);
        assert forall|i: int| 0 <= i < a1.len() implies copy_in(#[trigger] a1[i], u) by {
            if i >= a.len() {
                assert(a1[i] == q1[i - a.len()]);
            }
        }
        assert(ids(a1).disjoint(ids(p.2)));
        let q2 = lemma_drain(a1, p.1, log, p.2, u);
        let r = drain(p.0, p.1, log, p.2);
        let q = q1 + q2;
        assert(a1 + q2 =~= a + q);
        lemma_ids_concat(q1, q2);
        assert(ids(q2).subset_of(ids(p.2)));
        lemma_distinct_concat(q1, q2);
        assert forall|i: int| 0 <= i < q.len() implies pend.contains(#[trigger] q[i]) by {
            if i >= q1.len() {
                assert(q[i] == q2[i - q1.len()]);
                assert(p.2.contains(q2[i - q1.len()]));
                let k = choose|k: int| 0 <= k < p.2.len() && p.2[k] == q2[i - q1.len()];
                assert(pend.contains(p.2[k]));
            }
        }
        assert forall|i: int| 0 <= i < r.2.len() implies pend.contains(#[trigger] r.2[i]) by {
            assert(p.2.contains(r.2[i]));
            let k = choose|k: int| 0 <= k < p.2.len() && p.2[k] == r.2[i];
            assert(pend.contains(p.2[k]));
        }
        assert(ids(q).union(ids(r.2)) =~= ids(pend));
        assert(ids(q).disjoint(ids(r.2)));
        q
    } else {
        q1
    }
}


/// One more operation with a new id keeps ids distinct.
pub proof fn lemma_distinct_push(x: Seq<TaggedOperation>, z: TaggedOperation)
    requires
        distinct_ids(x),
        !ids(x).contains(z.op_id),
    ensures
        distinct_ids(x.push(z)),
{
    let y = x.push(z);
    assert forall|i: int, j: int| 0 <= i < y.len() && 0 <= j < y.len() && i != j implies
        (#[trigger] y[i]).op_id != (#[trigger] y[j]).op_id by {
        if i < x.len() && j < x.len() {
            assert(y[i] == x[i] && y[j] == x[j]);
        } else if i < x.len() {
            assert(y[i] == x[i]);
            lemma_in_ids(x, i);
        } else {
            assert(y[j] == x[j]);
            lemma_in_ids(x, j);
        }
    }
}

/// `y` carries the same data as some operation of `u`.
pub open spec fn copy_in(y: TaggedOperation, u: Seq<TaggedOperation>) -> bool {
    exists|j: int| 0 <= j < u.len() && y.same(#[trigger] u[j])
}

/// Each operation of `x` carries the same data as some operation of `u`.
pub open spec fn copies(x: Seq<TaggedOperation>, u: Seq<TaggedOperation>) -> bool {
    forall|i: int| 0 <= i < x.len() ==> copy_in(#[trigger] x[i], u)
}

/// What a replica that started empty holds after observing `rcvd` (by
/// receipt or as its own edits): its session is the operations `a` that
/// found their targets, applied in order; the other observed operations
/// wait; every observed id is logged, and is applied or waiting, not
/// both; what is applied, waiting or logged copies observed operations;
/// and no logged operation is later than the Lamport clock.
pub open spec fn received(m: CrdtModel, rcvd: Seq<TaggedOperation>, a: Seq<TaggedOperation>) -> bool {
    &&& m.session == apply_seq(SessionModel::initial(), a)
    &&& all_apply(SessionModel::initial(), a)
    &&& all_covered(a)
    &&& all_covered(m.pending)
    &&& distinct_ids(a)
    &&& distinct_ids(m.pending)
    &&& ids(a).disjoint(ids(m.pending))
    &&& ids(a).union(ids(m.pending)) == ids(rcvd)
    &&& copies(a, rcvd)
    &&& copies(m.pending, rcvd)
    &&& forall|id: OperationId| #[trigger] logged(m.log, id) == ids(rcvd).contains(id)
    &&& copies(m.log, rcvd)
    &&& forall|i: int| 0 <= i < m.log.len() ==> (#[trigger] m.log[i]).lamport_ts <= m.lamport
}

/// No operation waiting in `m` finds its targets.
pub open spec fn settled(m: CrdtModel) -> bool {
    forall|i: int| 0 <= i < m.pending.len() ==> !enabled(m.session, (#[trigger] m.pending[i]).operation)
}

/// A copy of an operation of `u` is a copy of an operation of `u` with
/// one more operation.
pub proof fn lemma_copy_in_push(x: TaggedOperation, u: Seq<TaggedOperation>, z: TaggedOperation)
    requires
        copy_in(x, u),
    ensures
        copy_in(x, u.push(z)),
{
    let j = choose|j: int| 0 <= j < u.len() && x.same(u[j]);
    assert(u.push(z)[j] == u[j]);
}

/// The last operation of `u.push(z)` copies itself.
pub proof fn lemma_copy_in_last(u: Seq<TaggedOperation>, z: TaggedOperation)
    ensures
        copy_in(z, u.push(z)),
{
    lemma_same_equiv(z, z, z);
    assert(u.push(z)[u.len() as int] == z);
}

/// Receiving an operation with a new id.
proof fn lemma_receive_new(m: CrdtModel, n: CrdtModel, op: TaggedOperation, rcvd: Seq<TaggedOperation>, a: Seq<TaggedOperation>)
    -> (a2: Seq<TaggedOperation>)
    requires
        received(m, rcvd, a),
        remote_step(m, n, op),
        !logged(m.log, op.op_id),
        covered(op),
        unique_makers(rcvd.push(op)),
    ensures
        received(n, rcvd.push(op), a2),
        settled(n),
{
    let init = SessionModel::initial();
    let r1 = rcvd.push(op);
    lemma_ids_push(rcvd, op);
    lemma_copy_in_last(rcvd, op);
    let att = attempt(m.session, m.events, n.log, op);
    assert(!ids(a).contains(op.op_id) && !ids(m.pending).contains(op.op_id));
    assert forall|i: int| 0 <= i < a.len() implies copy_in(#[trigger] a[i], r1) by {
        lemma_copy_in_push(a[i], rcvd, op);
    }
    if op.operation is SplitClip {
        assert forall|i: int| 0 <= i < a.len() implies (#[trigger] a[i]).op_id != op.op_id by {
            lemma_in_ids(a, i);
        }
        lemma_none_make_from(r1, a, op);
        lemma_keys_made(init, a, split_new(op.operation));
    }
    lemma_step_covered(m.session, op.operation, tag_of(op));
    let a1 = if att.2 { a.push(op) } else { a };
    let p1 = if att.2 { m.pending } else { m.pending.push(op) };
    assert forall|i: int| 0 <= i < m.pending.len() implies copy_in(#[trigger] m.pending[i], r1) by {
        lemma_copy_in_push(m.pending[i], rcvd, op);
    }
    if att.2 {
        lemma_apply_push(init, a, op);
        lemma_all_apply_push(init, a, op);
        lemma_ids_push(a, op);
        lemma_distinct_push(a, op);
    } else {
        lemma_ids_push(m.pending, op);
        lemma_distinct_push(m.pending, op);
    }
    assert(att.0 == apply_seq(init, a1));
    assert(ids(a1).disjoint(ids(p1)));
    assert(ids(a1).union(ids(p1)) == ids(r1));
    assert forall|i: int| 0 <= i < a1.len() implies covered(#[trigger] a1[i]) && copy_in(a1[i], r1) by {
        if i < a.len() {
            assert(a1[i] == a[i]);
        }
    }
    assert forall|i: int| 0 <= i < p1.len() implies covered(#[trigger] p1[i]) && copy_in(p1[i], r1) by {
        if i < m.pending.len() {
            assert(p1[i] == m.pending[i]);
        }
    }
    let q = lemma_drain(a1, att.1, n.log, p1, r1);
    let r = drain(att.0, att.1, n.log, p1);
    let a2 = a1 + q;
    lemma_ids_concat(a1, q);
    assert(ids(q).subset_of(ids(p1)));
    assert(ids(r.2).subset_of(ids(p1)));
    assert forall|i: int| 0 <= i < q.len() implies covered(#[trigger] q[i]) && copy_in(q[i], r1) by {
        assert(p1.contains(q[i]));
        let k = choose|k: int| 0 <= k < p1.len() && p1[k] == q[i];
        assert(covered(p1[k]) && copy_in(p1[k], r1));
    }
    assert forall|i: int| 0 <= i < r.2.len() implies covered(#[trigger] r.2[i]) && copy_in(r.2[i], r1) by {
        assert(p1.contains(r.2[i]));
        let k = choose|k: int| 0 <= k < p1.len() && p1[k] == r.2[i];
        assert(covered(p1[k]) && copy_in(p1[k], r1));
    }
    lemma_covered_concat(a1, q);
    lemma_distinct_concat(a1, q);
    assert forall|i: int| 0 <= i < a2.len() implies copy_in(#[trigger] a2[i], r1) by {
        if i < a1.len() {
            assert(a2[i] == a1[i]);
        } else {
            assert(a2[i] == q[i - a1.len()]);
        }
    }
    assert(ids(a2).disjoint(ids(r.2)));
    assert(ids(a2).union(ids(r.2)) =~= ids(r1));
    lemma_log_push(m, n, op, rcvd);
    a2
}

/// The log after logging a copy of `op`: its ids are the observed ids
/// with `op`'s, its entries copy observed operations, and none is later
/// than the clock.
proof fn lemma_log_push(m: CrdtModel, n: CrdtModel, op: TaggedOperation, rcvd: Seq<TaggedOperation>)
    requires
        forall|id: OperationId| #[trigger] logged(m.log, id) == ids(rcvd).contains(id),
        copies(m.log, rcvd),
        forall|i: int| 0 <= i < m.log.len() ==> (#[trigger] m.log[i]).lamport_ts <= m.lamport,
        seqs_same(n.log, m.log.push(op)),
        n.lamport >= m.lamport,
        n.lamport >= op.lamport_ts,
    ensures
        forall|id: OperationId| #[trigger] logged(n.log, id) == ids(rcvd.push(op)).contains(id),
        copies(n.log, rcvd.push(op)),
        forall|i: int| 0 <= i < n.log.len() ==> (#[trigger] n.log[i]).lamport_ts <= n.lamport,
{
    let r1 = rcvd.push(op);
    lemma_ids_push(rcvd, op);
    lemma_copy_in_last(rcvd, op);
    assert forall|id: OperationId| #[trigger] logged(n.log, id) == ids(r1).contains(id) by {
        if logged(n.log, id) {
            let i = choose|i: int| 0 <= i < n.log.len() && (#[trigger] n.log[i]).op_id == id;
            assert(n.log[i].same(m.log.push(op)[i]));
            if i < m.log.len() {
                assert(m.log.push(op)[i] == m.log[i]);
                assert(logged(m.log, id));
            }
        }
        if ids(r1).contains(id) {
            if id == op.op_id {
                let i = m.log.len() as int;
                assert(n.log[i].same(m.log.push(op)[i]));
                assert(n.log[i].op_id == id);
            } else {
                assert(logged(m.log, id));
                let i = choose|i: int| 0 <= i < m.log.len() && (#[trigger] m.log[i]).op_id == id;
                assert(n.log[i].same(m.log.push(op)[i]));
                assert(m.log.push(op)[i] == m.log[i]);
                assert(n.log[i].op_id == id);
            }
        }
    }
    assert forall|i: int| 0 <= i < n.log.len() implies copy_in(#[trigger] n.log[i], r1)
        && n.log[i].lamport_ts <= n.lamport by {
        assert(n.log[i].same(m.log.push(op)[i]));
        if i < m.log.len() {
            assert(m.log.push(op)[i] == m.log[i]);
            let j = choose|j: int| 0 <= j < rcvd.len() && m.log[i].same(rcvd[j]);
            lemma_same_equiv(n.log[i], m.log[i], rcvd[j]);
            assert(r1[j] == rcvd[j]);
        } else {
            assert(n.log[i].same(r1[rcvd.len() as int]));
        }
    }
}

/// Receiving an operation keeps what `received` says; a replica with
/// nothing waiting that finds its targets stays so.
pub proof fn lemma_receive(m: CrdtModel, n: CrdtModel, op: TaggedOperation, rcvd: Seq<TaggedOperation>, a: Seq<TaggedOperation>)
    -> (a2: Seq<TaggedOperation>)
    requires
        received(m, rcvd, a),
        remote_step(m, n, op),
        covered(op),
        unique_makers(rcvd.push(op)),
    ensures
        received(n, rcvd.push(op), a2),
        settled(m) ==> settled(n),
{
    if logged(m.log, op.op_id) {
        let r1 = rcvd.push(op);
        lemma_ids_push(rcvd, op);
        assert(ids(r1) =~= ids(rcvd));
        assert forall|i: int| 0 <= i < a.len() implies copy_in(#[trigger] a[i], r1) by {
            lemma_copy_in_push(a[i], rcvd, op);
        }
        assert forall|i: int| 0 <= i < m.pending.len() implies copy_in(#[trigger] m.pending[i], r1) by {
            lemma_copy_in_push(m.pending[i], rcvd, op);
        }
        assert forall|i: int| 0 <= i < m.log.len() implies copy_in(#[trigger] m.log[i], r1) by {
            lemma_copy_in_push(m.log[i], rcvd, op);
        }
        a
    } else {
        lemma_receive_new(m, n, op, rcvd, a)
    }
}

/// Along a replay from a new replica, the replica holds what `received`
/// says of the operations received so far, with nothing waiting that
/// finds its targets.
pub proof fn lemma_trace_received(p: PeerId, ops: Seq<TaggedOperation>, ms: Seq<CrdtModel>, k: int) -> (a: Seq<TaggedOperation>)
    requires
        replay_trace(CrdtModel::initial(p), ops, ms),
        all_covered(ops),
        unique_makers(ops),
        0 <= k <= ops.len(),
    ensures
        received(ms[k], ops.take(k), a),
        settled(ms[k]),
    decreases k,
{
    if k == 0 {
        let a = Seq::<TaggedOperation>::empty();
        let m = ms[0];
        assert(ids(a) =~= Set::<OperationId>::empty());
        assert(ids(m.pending) =~= Set::<OperationId>::empty());
        assert(ids(ops.take(0)) =~= Set::<OperationId>::empty());
        assert(ids(a).union(ids(m.pending)) =~= ids(ops.take(0)));
        assert forall|id: OperationId| #[trigger] logged(m.log, id) == ids(ops.take(0)).contains(id) by {}
        a
    } else {
        let a0 = lemma_trace_received(p, ops, ms, k - 1);
        assert(remote_step(ms[k - 1], ms[k], ops[k - 1]));
        assert(ops.take(k) =~= ops.take(k - 1).push(ops[k - 1]));
        crate::split_order::lemma_covered_take(ops, k);
        lemma_receive(ms[k - 1], ms[k], ops[k - 1], ops.take(k - 1), a0)
    }
}

/// Copies of an operation need the same targets and insert the same
/// entries.
pub proof fn lemma_same_needs(m: SessionModel, x: TaggedOperation, y: TaggedOperation)
    requires
        x.same(y),
    ensures
        enabled(m, x.operation) == enabled(m, y.operation),
        forall|k: u64| clip_made(x.operation, k) == #[trigger] clip_made(y.operation, k),
        forall|k: u64| track_made(x.operation, k) == #[trigger] track_made(y.operation, k),
{
}

/// In a replica that started empty and has nothing waiting that finds its
/// targets, an observed operation has been applied exactly when it is
/// enabled.
#[verifier::spinoff_prover]
#[verifier::rlimit(40)]
pub proof fn lemma_applied_iff_enabled(m: CrdtModel, rcvd: Seq<TaggedOperation>, a: Seq<TaggedOperation>, j: int)
    requires
        received(m, rcvd, a),
        settled(m),
        coherent(rcvd, rcvd),
        0 <= j < rcvd.len(),
    ensures
        ids(a).contains(rcvd[j].op_id) == enabled(m.session, rcvd[j].operation),
{
    let init = SessionModel::initial();
    let y = rcvd[j];
    lemma_in_ids(rcvd, j);
    if ids(a).contains(y.op_id) {
        let i = choose|i: int| 0 <= i < a.len() && (#[trigger] a[i]).op_id == y.op_id;
        assert(copy_in(a[i], rcvd));
        let p = choose|p: int| 0 <= p < rcvd.len() && a[i].same(rcvd[p]);
        assert(rcvd[p].same(rcvd[j]));
        lemma_same_needs(m.session, a[i], rcvd[p]);
        lemma_same_needs(m.session, rcvd[p], y);
        assert(enabled(apply_seq(init, a.take(i)), a[i].operation));
        assert(a =~= a.take(i) + a.skip(i));
        lemma_apply_concat(init, a.take(i), a.skip(i));
        lemma_seq_grows(apply_seq(init, a.take(i)), a.skip(i));
        lemma_enabled_grows(apply_seq(init, a.take(i)), m.session, a[i].operation);
    } else {
        assert(ids(m.pending).contains(y.op_id));
        let l = choose|l: int| 0 <= l < m.pending.len() && (#[trigger] m.pending[l]).op_id == y.op_id;
        assert(copy_in(m.pending[l], rcvd));
        let p = choose|p: int| 0 <= p < rcvd.len() && m.pending[l].same(rcvd[p]);
        assert(rcvd[p].same(rcvd[j]));
        lemma_same_needs(m.session, m.pending[l], rcvd[p]);
        lemma_same_needs(m.session, rcvd[p], y);
    }
}

/// An operation applied in a replica names an entry key that some observed
/// operation names too.
proof fn lemma_applied_made(m: CrdtModel, rcvd: Seq<TaggedOperation>, a: Seq<TaggedOperation>, i: int, k: u64, w: bool)
    requires
        received(m, rcvd, a),
        0 <= i < a.len(),
        w ==> clip_made(a[i].operation, k),
        !w ==> track_made(a[i].operation, k),
    ensures
        w ==> exists|j: int| 0 <= j < rcvd.len() && clip_made((#[trigger] rcvd[j]).operation, k),
        !w ==> exists|j: int| 0 <= j < rcvd.len() && track_made((#[trigger] rcvd[j]).operation, k),
{
    assert(copy_in(a[i], rcvd));
    let j = choose|j: int| 0 <= j < rcvd.len() && a[i].same(rcvd[j]);
    lemma_same_needs(m.session, a[i], rcvd[j]);
}

/// An entry some observed operation inserts is inserted by an applied one.
proof fn lemma_observed_made(m: CrdtModel, rcvd: Seq<TaggedOperation>, a: Seq<TaggedOperation>, j: int, k: u64, w: bool)
    requires
        received(m, rcvd, a),
        settled(m),
        coherent(rcvd, rcvd),
        0 <= j < rcvd.len(),
        w ==> clip_made(rcvd[j].operation, k),
        !w ==> track_made(rcvd[j].operation, k),
    ensures
        w ==> exists|i: int| 0 <= i < a.len() && clip_made((#[trigger] a[i]).operation, k),
        !w ==> exists|i: int| 0 <= i < a.len() && track_made((#[trigger] a[i]).operation, k),
{
    lemma_applied_iff_enabled(m, rcvd, a, j);
    let i = choose|i: int| 0 <= i < a.len() && (#[trigger] a[i]).op_id == rcvd[j].op_id;
    assert(copy_in(a[i], rcvd));
    let p = choose|p: int| 0 <= p < rcvd.len() && a[i].same(rcvd[p]);
    assert(rcvd[p].same(rcvd[j]));
    lemma_same_needs(m.session, a[i], rcvd[p]);
    lemma_same_needs(m.session, rcvd[p], rcvd[j]);
}

/// In a replica that started empty and has nothing waiting that finds its
/// targets, the clips and tracks are those some observed operation
/// inserts.
pub proof fn lemma_received_keys(m: CrdtModel, rcvd: Seq<TaggedOperation>, a: Seq<TaggedOperation>)
    requires
        received(m, rcvd, a),
        settled(m),
        coherent(rcvd, rcvd),
        all_plain(rcvd),
    ensures
        forall|k: u64| #[trigger] m.session.clips.contains_key(k)
            == exists|j: int| 0 <= j < rcvd.len() && clip_made((#[trigger] rcvd[j]).operation, k),
        forall|k: u64| #[trigger] m.session.tracks.contains_key(k)
            == exists|j: int| 0 <= j < rcvd.len() && track_made((#[trigger] rcvd[j]).operation, k),
{
    lemma_copies_plain(a, rcvd);
    lemma_entry_keys(SessionModel::initial(), a);
    assert forall|k: u64| #[trigger] m.session.clips.contains_key(k)
        == exists|j: int| 0 <= j < rcvd.len() && clip_made((#[trigger] rcvd[j]).operation, k) by {
        if exists|i: int| 0 <= i < a.len() && clip_made((#[trigger] a[i]).operation, k) {
            let i = choose|i: int| 0 <= i < a.len() && clip_made((#[trigger] a[i]).operation, k);
            lemma_applied_made(m, rcvd, a, i, k, true);
        }
        if exists|j: int| 0 <= j < rcvd.len() && clip_made((#[trigger] rcvd[j]).operation, k) {
            let j = choose|j: int| 0 <= j < rcvd.len() && clip_made((#[trigger] rcvd[j]).operation, k);
            lemma_observed_made(m, rcvd, a, j, k, true);
        }
    }
    assert forall|k: u64| #[trigger] m.session.tracks.contains_key(k)
        == exists|j: int| 0 <= j < rcvd.len() && track_made((#[trigger] rcvd[j]).operation, k) by {
        if exists|i: int| 0 <= i < a.len() && track_made((#[trigger] a[i]).operation, k) {
            let i = choose|i: int| 0 <= i < a.len() && track_made((#[trigger] a[i]).operation, k);
            lemma_applied_made(m, rcvd, a, i, k, false);
        }
        if exists|j: int| 0 <= j < rcvd.len() && track_made((#[trigger] rcvd[j]).operation, k) {
            let j = choose|j: int| 0 <= j < rcvd.len() && track_made((#[trigger] rcvd[j]).operation, k);
            lemma_observed_made(m, rcvd, a, j, k, false);
        }
    }
}

/// A track exists after a sequence only if it did before or an operation
/// of the sequence inserts it.
pub proof fn lemma_tracks_made(m: SessionModel, a: Seq<TaggedOperation>, k: u64)
    requires
        !m.tracks.contains_key(k),
        forall|i: int| 0 <= i < a.len() ==> !track_made((#[trigger] a[i]).operation, k),
    ensures
        !apply_seq(m, a).tracks.contains_key(k),
    decreases a.len(),
{
    if a.len() > 0 {
        let a2 = a.drop_last();
        assert forall|i: int| 0 <= i < a2.len() implies !track_made((#[trigger] a2[i]).operation, k) by {
            assert(a2[i] == a[i]);
        }
        lemma_tracks_made(m, a2, k);
        assert(!track_made(a[a.len() - 1].operation, k));
        lemma_step_keys(apply_seq(m, a2), a.last().operation, tag_of(a.last()));
    }
}

/// Two copies of observed operations with one id carry the same data.
proof fn lemma_copies_agree(x: TaggedOperation, r1: Seq<TaggedOperation>, y: TaggedOperation, r2: Seq<TaggedOperation>)
    requires
        copy_in(x, r1),
        copy_in(y, r2),
        x.op_id == y.op_id,
        coherent(r1, r2),
    ensures
        x.same(y),
        forall|k: u64| makes_clip(x.operation, k) == #[trigger] makes_clip(y.operation, k),
        forall|k: u64| track_made(x.operation, k) == #[trigger] track_made(y.operation, k),
        forall|m: SessionModel| enabled(m, x.operation) == #[trigger] enabled(m, y.operation),
{
    let p = choose|p: int| 0 <= p < r1.len() && x.same(r1[p]);
    let q = choose|q: int| 0 <= q < r2.len() && y.same(r2[q]);
    assert(r1[p].same(r2[q]));
    lemma_same_equiv(x, r1[p], r2[q]);
    lemma_same_equiv(y, r2[q], x);
    lemma_same_equiv(x, r2[q], y);
    crate::split_order::lemma_enabled_same(SessionModel::initial(), x.operation, y.operation);
    assert forall|m: SessionModel| enabled(m, x.operation) == #[trigger] enabled(m, y.operation) by {
        crate::split_order::lemma_enabled_same(m, x.operation, y.operation);
    }
}

/// An entry that an operation applied in a replica makes stays in the
/// replica.
proof fn lemma_applied_makes(m: CrdtModel, rcvd: Seq<TaggedOperation>, a: Seq<TaggedOperation>, l: int, k: u64, w: bool)
    requires
        received(m, rcvd, a),
        unique_makers(rcvd),
        0 <= l < a.len(),
        w ==> makes_clip(a[l].operation, k),
        !w ==> track_made(a[l].operation, k),
    ensures
        w ==> m.session.clips.contains_key(k),
        !w ==> m.session.tracks.contains_key(k),
{
    let init = SessionModel::initial();
    let x = a[l];
    let before = apply_seq(init, a.take(l));
    let after = applied_op(before, x);
    assert(enabled(before, x.operation));
    assert(covered(x));
    if x.operation is SplitClip {
        assert forall|i: int| 0 <= i < a.take(l).len() implies copy_in(#[trigger] a.take(l)[i], rcvd)
            && a.take(l)[i].op_id != x.op_id by {
            assert(a.take(l)[i] == a[i]);
        }
        assert(copies(a.take(l), rcvd));
        lemma_none_make_from(rcvd, a.take(l), x);
        lemma_keys_made(init, a.take(l), split_new(x.operation));
        assert(crate::convergence::fresh_split(before, x.operation));
        crate::convergence::lemma_fresh_split_applied(before, x.operation, tag_of(x));
    } else {
        lemma_step(before, x.operation, tag_of(x));
    }
    assert(a.take(l + 1) =~= a.take(l).push(x));
    lemma_apply_push(init, a.take(l), x);
    assert(a =~= a.take(l + 1) + a.skip(l + 1));
    lemma_apply_concat(init, a.take(l + 1), a.skip(l + 1));
    lemma_seq_grows(after, a.skip(l + 1));
}

/// Every operation that one replica applied, among the first `i`, the
/// other replica applied too.
#[verifier::spinoff_prover]
#[verifier::rlimit(40)]
proof fn lemma_applied_in_other(
    m1: CrdtModel,
    r1: Seq<TaggedOperation>,
    a1: Seq<TaggedOperation>,
    m2: CrdtModel,
    r2: Seq<TaggedOperation>,
    a2: Seq<TaggedOperation>,
    i: int,
)
    requires
        received(m1, r1, a1),
        received(m2, r2, a2),
        settled(m2),
        coherent(r1, r2),
        ids(r1) == ids(r2),
        unique_makers(r2),
        0 <= i <= a1.len(),
    ensures
        forall|k: int| 0 <= k < i ==> ids(a2).contains(#[trigger] a1[k].op_id),
    decreases i,
{
    if i > 0 {
        lemma_applied_in_other(m1, r1, a1, m2, r2, a2, i - 1);
        let j = i - 1;
        let x = a1[j];
        let init = SessionModel::initial();
        let pre = a1.take(j);
        let s = apply_seq(init, pre);
        assert(enabled(s, x.operation));
        crate::retention::lemma_needed(s, x.operation);
        crate::retention::lemma_needed(m2.session, x.operation);
        if let Some(nd) = crate::retention::needed(x.operation) {
            let w = nd.0;
            let k = nd.1;
            let q: int = if w {
                if forall|q: int| 0 <= q < pre.len() ==> !makes_clip((#[trigger] pre[q]).operation, k) {
                    lemma_keys_made(init, pre, k);
                }
                choose|q: int| 0 <= q < pre.len() && makes_clip((#[trigger] pre[q]).operation, k)
            } else {
                if forall|q: int| 0 <= q < pre.len() ==> !track_made((#[trigger] pre[q]).operation, k) {
                    lemma_tracks_made(init, pre, k);
                }
                choose|q: int| 0 <= q < pre.len() && track_made((#[trigger] pre[q]).operation, k)
            };
            assert(pre[q] == a1[q]);
            assert(ids(a2).contains(a1[q].op_id));
            let l = choose|l: int| 0 <= l < a2.len() && (#[trigger] a2[l]).op_id == a1[q].op_id;
            assert(copy_in(a1[q], r1) && copy_in(a2[l], r2));
            lemma_copies_agree(a1[q], r1, a2[l], r2);
            lemma_applied_makes(m2, r2, a2, l, k, w);
        }
        assert(enabled(m2.session, x.operation));
        assert(copy_in(x, r1));
        let p = choose|p: int| 0 <= p < r1.len() && x.same(r1[p]);
        lemma_in_ids(r1, p);
        assert(ids(r2).contains(x.op_id));
        if !ids(a2).contains(x.op_id) {
            assert(ids(m2.pending).contains(x.op_id));
            let l = choose|l: int| 0 <= l < m2.pending.len() && (#[trigger] m2.pending[l]).op_id == x.op_id;
            assert(copy_in(m2.pending[l], r2));
            lemma_copies_agree(x, r1, m2.pending[l], r2);
            assert(!enabled(m2.session, m2.pending[l].operation));
        }
    }
}

/// Two replicas that started empty, observed the same operations (by id)
/// and have nothing waiting that finds its targets have applied the same
/// operations.
proof fn lemma_same_applied(
    m1: CrdtModel,
    r1: Seq<TaggedOperation>,
    a1: Seq<TaggedOperation>,
    m2: CrdtModel,
    r2: Seq<TaggedOperation>,
    a2: Seq<TaggedOperation>,
)
    requires
        received(m1, r1, a1),
        received(m2, r2, a2),
        settled(m1),
        settled(m2),
        coherent(r1, r1),
        coherent(r2, r2),
        coherent(r1, r2),
        ids(r1) == ids(r2),
        unique_makers(r1),
        unique_makers(r2),
    ensures
        ids(a1) == ids(a2),
        coherent(a1, a2),
{
    assert forall|i: int, j: int| 0 <= i < r2.len() && 0 <= j < r1.len() && (#[trigger] r2[i]).op_id == (#[trigger] r1[j]).op_id
        implies r2[i].same(r1[j]) by {
        assert(r1[j].same(r2[i]));
        lemma_same_equiv(r1[j], r2[i], r1[j]);
    }
    lemma_applied_in_other(m1, r1, a1, m2, r2, a2, a1.len() as int);
    lemma_applied_in_other(m2, r2, a2, m1, r1, a1, a2.len() as int);
    assert forall|id: OperationId| ids(a1).contains(id) implies ids(a2).contains(id) by {
        let i = choose|i: int| 0 <= i < a1.len() && (#[trigger] a1[i]).op_id == id;
    }
    assert forall|id: OperationId| ids(a2).contains(id) implies ids(a1).contains(id) by {
        let i = choose|i: int| 0 <= i < a2.len() && (#[trigger] a2[i]).op_id == id;
    }
    assert(ids(a1) =~= ids(a2));
    assert forall|i: int, j: int| 0 <= i < a1.len() && 0 <= j < a2.len() && (#[trigger] a1[i]).op_id == (#[trigger] a2[j]).op_id
        implies a1[i].same(a2[j]) by {
        assert(copy_in(a1[i], r1));
        assert(copy_in(a2[j], r2));
        lemma_copies_agree(a1[i], r1, a2[j], r2);
    }
}

/// No other applied operation makes the clip an applied split makes.
#[verifier::spinoff_prover]
proof fn lemma_applied_split_fresh(rcvd: Seq<TaggedOperation>, a: Seq<TaggedOperation>, i: int)
    requires
        unique_makers(rcvd),
        copies(a, rcvd),
        distinct_ids(a),
        0 <= i < a.len(),
        a[i].operation is SplitClip,
    ensures
        forall|k: int| 0 <= k < a.len() && k != i ==> !makes_clip((#[trigger] a[k]).operation, split_new(a[i].operation)),
{
    let rest = a.remove(i);
    assert forall|k: int| 0 <= k < rest.len() implies copy_in(#[trigger] rest[k], rcvd) && rest[k].op_id != a[i].op_id by {
        let kk = if k < i { k } else { k + 1 };
        assert(rest[k] == a[kk]);
    }
    lemma_none_make_from(rcvd, rest, a[i]);
    assert forall|k: int| 0 <= k < a.len() && k != i implies !makes_clip((#[trigger] a[k]).operation, split_new(a[i].operation)) by {
        let kr = if k < i { k } else { k - 1 };
        assert(rest[kr] == a[k]);
    }
}

/// The applied operations of a replica whose observed splits each make a
/// clip that nothing else makes can be reordered.
#[verifier::spinoff_prover]
proof fn lemma_applied_reorderable(m: CrdtModel, rcvd: Seq<TaggedOperation>, a: Seq<TaggedOperation>)
    requires
        received(m, rcvd, a),
        unique_makers(rcvd),
    ensures
        reorderable(SessionModel::initial(), a),
{
    assert forall|i: int| 0 <= i < a.len() implies crate::split_order::well_tagged(#[trigger] a[i]) by {
        assert(covered(a[i]));
    }
    assert forall|i: int| 0 <= i < a.len() && (#[trigger] a[i]).operation is SplitClip implies {
        &&& a[i].operation->SplitClip_new_clip_id != a[i].operation->SplitClip_clip_id
        &&& !SessionModel::initial().clips.contains_key(split_new(a[i].operation))
        &&& forall|k: int| 0 <= k < a.len() && k != i ==> !makes_clip((#[trigger] a[k]).operation, split_new(a[i].operation))
    } by {
        assert(covered(a[i]));
        lemma_applied_split_fresh(rcvd, a, i);
    }
}

/// Convergence: two new replicas that receive the same edits (the same
/// ids, each id always carrying the same data, each split making a clip
/// that no other edit makes), in any order and with any repetitions, hold
/// the same timeline.
pub proof fn lemma_replicas_converge(
    p1: PeerId,
    ops1: Seq<TaggedOperation>,
    m1: CrdtModel,
    p2: PeerId,
    ops2: Seq<TaggedOperation>,
    m2: CrdtModel,
)
    requires
        replays(CrdtModel::initial(p1), ops1, m1),
        replays(CrdtModel::initial(p2), ops2, m2),
        all_covered(ops1),
        all_covered(ops2),
        unique_makers(ops1),
        unique_makers(ops2),
        coherent(ops1, ops1),
        coherent(ops2, ops2),
        coherent(ops1, ops2),
        ids(ops1) == ids(ops2),
    ensures
        m1.session == m2.session,
{
    let ms1 = choose|ms: Seq<CrdtModel>| #[trigger] replay_trace(CrdtModel::initial(p1), ops1, ms) && ms.last() == m1;
    let ms2 = choose|ms: Seq<CrdtModel>| #[trigger] replay_trace(CrdtModel::initial(p2), ops2, ms) && ms.last() == m2;
    let a1 = lemma_trace_received(p1, ops1, ms1, ops1.len() as int);
    let a2 = lemma_trace_received(p2, ops2, ms2, ops2.len() as int);
    assert(ops1.take(ops1.len() as int) =~= ops1);
    assert(ops2.take(ops2.len() as int) =~= ops2);
    lemma_same_applied(m1, ops1, a1, m2, ops2, a2);
    lemma_applied_reorderable(m1, ops1, a1);
    lemma_applied_reorderable(m2, ops2, a2);
    lemma_orders_agree_with_splits(SessionModel::initial(), a1, a2);
}

/// Copies of covered operations whose splits make clips nothing else
/// makes are such operations too.
pub proof fn lemma_copies_covered(x: Seq<TaggedOperation>, u: Seq<TaggedOperation>)
    requires
        copies(x, u),
        all_covered(u),
        unique_makers(u),
    ensures
        all_covered(x),
        unique_makers(x),
{
    assert forall|i: int| 0 <= i < x.len() implies covered(#[trigger] x[i]) by {
        assert(copy_in(x[i], u));
        let j = choose|j: int| 0 <= j < u.len() && x[i].same(u[j]);
        assert(covered(u[j]));
        crate::split_order::lemma_enabled_same(SessionModel::initial(), x[i].operation, u[j].operation);
    }
    assert forall|i: int, k: int| 0 <= i < x.len() && 0 <= k < x.len() && (#[trigger] x[i]).operation is SplitClip
        && (#[trigger] x[k]).op_id != x[i].op_id implies !makes_clip(x[k].operation, split_new(x[i].operation)) by {
        assert(copy_in(x[i], u));
        assert(copy_in(x[k], u));
        let a = choose|a: int| 0 <= a < u.len() && x[i].same(u[a]);
        let b = choose|b: int| 0 <= b < u.len() && x[k].same(u[b]);
        crate::split_order::lemma_enabled_same(SessionModel::initial(), x[i].operation, u[a].operation);
        crate::split_order::lemma_enabled_same(SessionModel::initial(), x[k].operation, u[b].operation);
        assert(!makes_clip(u[b].operation, split_new(u[a].operation)));
    }
}


/// Copies of plain operations are plain.
pub proof fn lemma_copies_plain(x: Seq<TaggedOperation>, u: Seq<TaggedOperation>)
    requires
        copies(x, u),
        all_plain(u),
    ensures
        all_plain(x),
{
    assert forall|i: int| 0 <= i < x.len() implies plain(#[trigger] x[i]) by {
        let j = choose|j: int| 0 <= j < u.len() && x[i].same(u[j]);
        assert(plain(u[j]));
    }
}

/// Copies of operations of a coherent sequence are coherent.
pub proof fn lemma_copies_coherent(x: Seq<TaggedOperation>, y: Seq<TaggedOperation>, u: Seq<TaggedOperation>)
    requires
        copies(x, u),
        copies(y, u),
        coherent(u, u),
    ensures
        coherent(x, y),
{
    assert forall|i: int, j: int| 0 <= i < x.len() && 0 <= j < y.len() && (#[trigger] x[i]).op_id == (#[trigger] y[j]).op_id
        implies x[i].same(y[j]) by {
        let p = choose|p: int| 0 <= p < u.len() && x[i].same(u[p]);
        let q = choose|q: int| 0 <= q < u.len() && y[j].same(u[q]);
        assert(u[p].same(u[q]));
        lemma_same_equiv(x[i], u[p], u[q]);
        lemma_same_equiv(y[j], u[q], u[q]);
        lemma_same_equiv(x[i], u[q], y[j]);
    }
}

/// Copies of copies are copies.
pub proof fn lemma_copies_trans(x: Seq<TaggedOperation>, y: Seq<TaggedOperation>, u: Seq<TaggedOperation>)
    requires
        copies(x, y),
        copies(y, u),
    ensures
        copies(x, u),
{
    assert forall|i: int| 0 <= i < x.len() implies copy_in(#[trigger] x[i], u) by {
        let p = choose|p: int| 0 <= p < y.len() && x[i].same(y[p]);
        let q = choose|q: int| 0 <= q < u.len() && y[p].same(u[q]);
        lemma_same_equiv(x[i], y[p], u[q]);
    }
}

/// A one-to-one map of `n` positions into `n` positions reaches every
/// position.
pub proof fn lemma_perm_onto(perm: Seq<int>, i: int)
    requires
        forall|k: int| 0 <= k < perm.len() ==> 0 <= #[trigger] perm[k] < perm.len(),
        forall|a: int, b: int| 0 <= a < b < perm.len() ==> perm[a] != perm[b],
        0 <= i < perm.len(),
    ensures
        exists|k: int| 0 <= k < perm.len() && perm[k] == i,
{
    let n = perm.len() as int;
    assert(perm.no_duplicates()) by {
        assert forall|a: int, b: int| 0 <= a < perm.len() && 0 <= b < perm.len() && a != b implies perm[a] != perm[b] by {
            if a > b {
                assert(perm[b] != perm[a]);
            }
        }
    }
    perm.unique_seq_to_set();
    vstd::set_lib::lemma_int_range(0, n);
    let range = vstd::set_lib::set_int_range(0, n);
    assert(perm.to_set().subset_of(range));
    vstd::seq_lib::seq_to_set_is_finite(perm);
    vstd::set_lib::lemma_subset_equality(perm.to_set(), range);
    assert(range.contains(i));
    assert(perm.to_set().contains(i));
}

/// A stable sort of copies of `u` holds copies of `u`, with the same ids.
pub proof fn lemma_sorted_copies(snap: Seq<TaggedOperation>, t: Seq<TaggedOperation>, u: Seq<TaggedOperation>, by_time: bool)
    requires
        stably_sorted(snap, t, by_time),
        copies(snap, u),
    ensures
        copies(t, u),
        ids(t) == ids(snap),
{
    let perm = choose|perm: Seq<int>| #[trigger] sorted_perm(snap, t, perm, by_time);
    assert forall|k: int| 0 <= k < t.len() implies copy_in(#[trigger] t[k], u) by {
        assert(0 <= perm[k] < snap.len() && t[k].same(snap[perm[k]]));
        let j = choose|j: int| 0 <= j < u.len() && snap[perm[k]].same(u[j]);
        lemma_same_equiv(t[k], snap[perm[k]], u[j]);
    }
    assert forall|id: OperationId| ids(t).contains(id) implies ids(snap).contains(id) by {
        let k = choose|k: int| 0 <= k < t.len() && (#[trigger] t[k]).op_id == id;
        assert(0 <= perm[k] < snap.len() && t[k].same(snap[perm[k]]));
        lemma_in_ids(snap, perm[k]);
    }
    assert forall|id: OperationId| ids(snap).contains(id) implies ids(t).contains(id) by {
        let i = choose|i: int| 0 <= i < snap.len() && (#[trigger] snap[i]).op_id == id;
        assert forall|k: int| 0 <= k < perm.len() implies 0 <= #[trigger] perm[k] < perm.len() by {
            assert(0 <= perm[k] < snap.len() && t[k].same(snap[perm[k]]));
        }
        lemma_perm_onto(perm, i);
        let k = choose|k: int| 0 <= k < perm.len() && perm[k] == i;
        assert(0 <= perm[k] < snap.len() && t[k].same(snap[perm[k]]));
        lemma_in_ids(t, k);
    }
    assert(ids(t) =~= ids(snap));
}

/// A copy of a sequence, position by position, has its ids and copies
/// its operations.
pub proof fn lemma_same_seq(x: Seq<TaggedOperation>, y: Seq<TaggedOperation>)
    requires
        seqs_same(x, y),
    ensures
        copies(x, y),
        ids(x) == ids(y),
{
    assert forall|i: int| 0 <= i < x.len() implies copy_in(#[trigger] x[i], y) by {
        assert(x[i].same(y[i]));
    }
    assert forall|id: OperationId| ids(x).contains(id) == ids(y).contains(id) by {
        if ids(x).contains(id) {
            let i = choose|i: int| 0 <= i < x.len() && (#[trigger] x[i]).op_id == id;
            assert(x[i].same(y[i]));
            lemma_in_ids(y, i);
        }
        if ids(y).contains(id) {
            let i = choose|i: int| 0 <= i < y.len() && (#[trigger] y[i]).op_id == id;
            assert(x[i].same(y[i]));
            lemma_in_ids(x, i);
        }
    }
    assert(ids(x) =~= ids(y));
}

/// Each operation is a copy of itself.
pub proof fn lemma_copies_self(x: Seq<TaggedOperation>)
    ensures
        copies(x, x),
{
    assert forall|i: int| 0 <= i < x.len() implies copy_in(#[trigger] x[i], x) by {
        lemma_same_equiv(x[i], x[i], x[i]);
    }
}

/// What a replica that received covered operations logged, a snapshot of
/// it holds and a stable sort of that snapshot holds: copies of the
/// received operations, with their ids.
proof fn lemma_snapshot_of_received(
    p: PeerId,
    ops: Seq<TaggedOperation>,
    m: CrdtModel,
    snap: Seq<TaggedOperation>,
    t: Seq<TaggedOperation>,
)
    requires
        replays(CrdtModel::initial(p), ops, m),
        all_covered(ops),
        unique_makers(ops),
        seqs_same(snap, m.log),
        stably_sorted(snap, t, false),
    ensures
        copies(t, ops),
        ids(t) == ids(ops),
{
    let ms = choose|ms: Seq<CrdtModel>| #[trigger] replay_trace(CrdtModel::initial(p), ops, ms) && ms.last() == m;
    let a = lemma_trace_received(p, ops, ms, ops.len() as int);
    assert(ops.take(ops.len() as int) =~= ops);
    lemma_same_seq(snap, m.log);
    lemma_copies_trans(snap, m.log, ops);
    lemma_sorted_copies(snap, t, ops, false);
    assert(ids(m.log) =~= ids(ops)) by {
        assert forall|id: OperationId| ids(m.log).contains(id) == ids(ops).contains(id) by {
            assert(logged(m.log, id) == ids(ops).contains(id));
            if ids(m.log).contains(id) {
                let i = choose|i: int| 0 <= i < m.log.len() && (#[trigger] m.log[i]).op_id == id;
                assert(logged(m.log, id));
            }
            if logged(m.log, id) {
                let i = choose|i: int| 0 <= i < m.log.len() && (#[trigger] m.log[i]).op_id == id;
                lemma_in_ids(m.log, i);
            }
        }
    }
}

/// Restoring a snapshot reproduces the timeline: a new replica that
/// replays, in `(lamport, peer)` order, the snapshot of a replica that
/// received covered operations (each split making a clip nothing else
/// makes) holds that replica's timeline.
pub proof fn lemma_restore_reproduces(
    p: PeerId,
    ops: Seq<TaggedOperation>,
    m: CrdtModel,
    snap: Seq<TaggedOperation>,
    t: Seq<TaggedOperation>,
    q: PeerId,
    c: CrdtModel,
)
    requires
        replays(CrdtModel::initial(p), ops, m),
        all_covered(ops),
        unique_makers(ops),
        coherent(ops, ops),
        seqs_same(snap, m.log),
        stably_sorted(snap, t, false),
        replays(CrdtModel::initial(q), t, c),
    ensures
        c.session == m.session,
{
    lemma_snapshot_of_received(p, ops, m, snap, t);
    lemma_copies_self(ops);
    lemma_copies_covered(t, ops);
    lemma_copies_coherent(t, t, ops);
    lemma_copies_coherent(ops, t, ops);
    lemma_replicas_converge(p, ops, m, q, t, c);
}


/// Receiving `x` and then `y` is receiving `x + y`.
#[verifier::spinoff_prover]
#[verifier::rlimit(60)]
pub proof fn lemma_replays_concat(m0: CrdtModel, x: Seq<TaggedOperation>, m: CrdtModel, y: Seq<TaggedOperation>, n: CrdtModel)
    requires
        replays(m0, x, m),
        replays(m, y, n),
    ensures
        replays(m0, x + y, n),
{
    let msx = choose|ms: Seq<CrdtModel>| #[trigger] replay_trace(m0, x, ms) && ms.last() == m;
    let msy = choose|ms: Seq<CrdtModel>| #[trigger] replay_trace(m, y, ms) && ms.last() == n;
    let ms = msx + msy.skip(1);
    let xy = x + y;
    assert forall|i: int| 0 <= i < xy.len() implies remote_step(#[trigger] ms[i], ms[i + 1], xy[i]) by {
        if i < x.len() {
            assert(ms[i] == msx[i] && ms[i + 1] == msx[i + 1] && xy[i] == x[i]);
            assert(remote_step(msx[i], msx[i + 1], x[i]));
        } else {
            let k = i - x.len();
            assert(ms[i] == msy[k]) by {
                if k == 0 {
                    assert(ms[i] == msx[x.len() as int]);
                    assert(msx[x.len() as int] == msx.last());
                } else {
                    assert(ms[i] == msy.skip(1)[k - 1]);
                }
            }
            assert(ms[i + 1] == msy.skip(1)[k]);
            assert(xy[i] == y[k]);
            assert(remote_step(msy[k], msy[k + 1], y[k]));
        }
    }
    assert(ms.last() == n) by {
        if y.len() == 0 {
            assert(msy.skip(1).len() == 0);
            assert(ms =~= msx);
        } else {
            assert(ms.last() == msy.skip(1).last());
        }
    }
    assert(replay_trace(m0, xy, ms));
}

/// Exchanging snapshots converges: two new replicas that received covered
/// operations (each id always carrying the same data, each split making a
/// clip nothing else makes), each then merging
/// a snapshot of the other in `(lamport, peer)` order, hold the same
/// timeline.
pub proof fn lemma_snapshot_exchange_converges(
    p1: PeerId,
    ops1: Seq<TaggedOperation>,
    m1: CrdtModel,
    p2: PeerId,
    ops2: Seq<TaggedOperation>,
    m2: CrdtModel,
    s1: Seq<TaggedOperation>,
    t1: Seq<TaggedOperation>,
    s2: Seq<TaggedOperation>,
    t2: Seq<TaggedOperation>,
    n1: CrdtModel,
    n2: CrdtModel,
)
    requires
        replays(CrdtModel::initial(p1), ops1, m1),
        replays(CrdtModel::initial(p2), ops2, m2),
        all_covered(ops1 + ops2),
        unique_makers(ops1 + ops2),
        coherent(ops1 + ops2, ops1 + ops2),
        seqs_same(s1, m1.log),
        seqs_same(s2, m2.log),
        stably_sorted(s2, t2, false),
        replays(m1, t2, n1),
        stably_sorted(s1, t1, false),
        replays(m2, t1, n2),
    ensures
        n1.session == n2.session,
{
    let u = ops1 + ops2;
    assert forall|i: int| 0 <= i < ops1.len() implies copy_in(#[trigger] ops1[i], u) by {
        assert(u[i] == ops1[i]);
        lemma_same_equiv(ops1[i], ops1[i], ops1[i]);
    }
    assert forall|i: int| 0 <= i < ops2.len() implies copy_in(#[trigger] ops2[i], u) by {
        assert(u[ops1.len() + i] == ops2[i]);
        lemma_same_equiv(ops2[i], ops2[i], ops2[i]);
    }
    lemma_copies_covered(ops1, u);
    lemma_copies_covered(ops2, u);
    lemma_snapshot_of_received(p1, ops1, m1, s1, t1);
    lemma_snapshot_of_received(p2, ops2, m2, s2, t2);
    lemma_copies_trans(t1, ops1, u);
    lemma_copies_trans(t2, ops2, u);
    let x1 = ops1 + t2;
    let x2 = ops2 + t1;
    assert forall|i: int| 0 <= i < x1.len() implies copy_in(#[trigger] x1[i], u) by {
        if i >= ops1.len() {
            assert(x1[i] == t2[i - ops1.len()]);
        }
    }
    assert forall|i: int| 0 <= i < x2.len() implies copy_in(#[trigger] x2[i], u) by {
        if i >= ops2.len() {
            assert(x2[i] == t1[i - ops2.len()]);
        }
    }
    lemma_copies_covered(x1, u);
    lemma_copies_covered(x2, u);
    lemma_copies_coherent(x1, x1, u);
    lemma_copies_coherent(x2, x2, u);
    lemma_copies_coherent(x1, x2, u);
    lemma_ids_concat(ops1, t2);
    lemma_ids_concat(ops2, t1);
    assert(ids(x1) =~= ids(x2));
    lemma_replays_concat(CrdtModel::initial(p1), ops1, m1, t2, n1);
    lemma_replays_concat(CrdtModel::initial(p2), ops2, m2, t1, n2);
    lemma_replicas_converge(p1, x1, n1, p2, x2, n2);
}


/// A position-by-position copy of operations with distinct ids has
/// distinct ids, and copies covered operations as covered ones.
proof fn lemma_same_seq_keeps(x: Seq<TaggedOperation>, y: Seq<TaggedOperation>)
    requires
        seqs_same(x, y),
    ensures
        distinct_ids(y) ==> distinct_ids(x),
        all_covered(y) ==> all_covered(x),
{
    assert forall|i: int| 0 <= i < x.len() && all_covered(y) implies covered(#[trigger] x[i]) by {
        assert(x[i].same(y[i]));
        assert(covered(y[i]));
        crate::split_order::lemma_enabled_same(SessionModel::initial(), x[i].operation, y[i].operation);
    }
    assert forall|i: int, j: int| 0 <= i < x.len() && 0 <= j < x.len() && i != j && distinct_ids(y) implies
        (#[trigger] x[i]).op_id != (#[trigger] x[j]).op_id by {
        assert(x[i].same(y[i]) && x[j].same(y[j]));
    }
}

/// A local edit keeps what `received` says, with the stamped operation
/// observed: its id is new while the clock has not reached its last value.
pub proof fn lemma_local_observed(m: CrdtModel, n: CrdtModel, op: TimelineOperation, ts: u64, r: TaggedOperation,
    rcvd: Seq<TaggedOperation>, a: Seq<TaggedOperation>) -> (a2: Seq<TaggedOperation>)
    requires
        received(m, rcvd, a),
        all_covered(rcvd),
        covered(r),
        unique_makers(rcvd.push(r)),
        stamps(m, op, ts, r),
        local_step(m, n, op, r),
        m.lamport < u64::MAX,
    ensures
        received(n, rcvd.push(r), a2),
{
    let init = SessionModel::initial();
    let r1 = rcvd.push(r);
    lemma_ids_push(rcvd, r);
    lemma_copy_in_last(rcvd, r);
    // the stamped id is new
    assert(!logged(m.log, r.op_id)) by {
        if logged(m.log, r.op_id) {
            let i = choose|i: int| 0 <= i < m.log.len() && (#[trigger] m.log[i]).op_id == r.op_id;
            assert(copy_in(m.log[i], rcvd));
            let j = choose|j: int| 0 <= j < rcvd.len() && m.log[i].same(rcvd[j]);
            assert(covered(rcvd[j]));
        }
    }
    assert(!ids(a).contains(r.op_id) && !ids(m.pending).contains(r.op_id));
    crate::state::lemma_applied_same(m.session, op, r.operation, tag_of(r));
    assert forall|i: int| 0 <= i < a.len() implies copy_in(#[trigger] a[i], r1) by {
        lemma_copy_in_push(a[i], rcvd, r);
    }
    if r.operation is SplitClip {
        assert forall|i: int| 0 <= i < a.len() implies (#[trigger] a[i]).op_id != r.op_id by {
            lemma_in_ids(a, i);
        }
        lemma_none_make_from(r1, a, r);
        lemma_keys_made(init, a, split_new(r.operation));
    }
    lemma_step_covered(m.session, r.operation, tag_of(r));
    assert forall|i: int| 0 <= i < m.pending.len() implies copy_in(#[trigger] m.pending[i], r1) by {
        lemma_copy_in_push(m.pending[i], rcvd, r);
    }
    let p1 = if m.session.applied(op, tag_of(r)).1 is Some { m.pending.push(r) } else { m.pending };
    lemma_same_seq(n.pending, p1);
    lemma_same_seq_keeps(n.pending, p1);
    lemma_log_push(m, n, r, rcvd);
    if enabled(m.session, r.operation) {
        let a2 = a.push(r);
        lemma_apply_push(init, a, r);
        lemma_all_apply_push(init, a, r);
        lemma_ids_push(a, r);
        lemma_distinct_push(a, r);
        assert forall|i: int| 0 <= i < a2.len() implies covered(#[trigger] a2[i]) && copy_in(a2[i], r1) by {
            if i < a.len() {
                assert(a2[i] == a[i]);
            }
        }
        lemma_copies_trans(n.pending, p1, r1);
        assert(ids(a2).union(ids(n.pending)) =~= ids(r1));
        a2
    } else {
        lemma_ids_push(m.pending, r);
        lemma_distinct_push(m.pending, r);
        assert forall|i: int| 0 <= i < p1.len() implies covered(#[trigger] p1[i]) && copy_in(p1[i], r1) by {
            if i < m.pending.len() {
                assert(p1[i] == m.pending[i]);
            }
        }
        lemma_same_seq_keeps(n.pending, p1);
        lemma_copies_trans(n.pending, p1, r1);
        assert(ids(a).union(ids(n.pending)) =~= ids(r1));
        a
    }
}

/// One step of a replica: receiving `x`, or, when `local` is
/// `Some((op, ts))`, making the local edit `op` at wall-clock time `ts`,
/// stamped as `x`.
pub open spec fn observe_step(m: CrdtModel, n: CrdtModel, x: TaggedOperation, local: Option<(TimelineOperation, u64)>) -> bool {
    match local {
        None => remote_step(m, n, x),
        Some(l) => stamps(m, l.0, l.1, x) && local_step(m, n, l.0, x),
    }
}

/// `ms` traces the replica states while it observes `xs` in order,
/// starting from `m0`, by receipt or by local edits as `locals` says.
pub open spec fn history_trace(m0: CrdtModel, xs: Seq<TaggedOperation>, locals: Seq<Option<(TimelineOperation, u64)>>,
    ms: Seq<CrdtModel>) -> bool {
    &&& ms.len() == xs.len() + 1
    &&& locals.len() == xs.len()
    &&& ms[0] == m0
    &&& forall|i: int| 0 <= i < xs.len() ==> observe_step(#[trigger] ms[i], ms[i + 1], xs[i], locals[i])
}

/// `m` is `m0` after observing `xs` in order, each by receipt or as a
/// local edit.
pub open spec fn observes(m0: CrdtModel, xs: Seq<TaggedOperation>, m: CrdtModel) -> bool {
    exists|locals: Seq<Option<(TimelineOperation, u64)>>, ms: Seq<CrdtModel>|
        #[trigger] history_trace(m0, xs, locals, ms) && ms.last() == m
}

/// Along a history the Lamport clock never goes back.
proof fn lemma_history_clock(m0: CrdtModel, xs: Seq<TaggedOperation>, locals: Seq<Option<(TimelineOperation, u64)>>,
    ms: Seq<CrdtModel>, k: int)
    requires
        history_trace(m0, xs, locals, ms),
        0 <= k <= xs.len(),
    ensures
        ms[k].lamport <= ms[xs.len() as int].lamport,
    decreases xs.len() - k,
{
    if k < xs.len() {
        lemma_history_clock(m0, xs, locals, ms, k + 1);
        assert(observe_step(ms[k], ms[k + 1], xs[k], locals[k]));
    }
}

/// Along a history from a new replica whose clock ends below its last
/// value, the replica holds what `received` says of the operations
/// observed so far.
proof fn lemma_history_received(p: PeerId, xs: Seq<TaggedOperation>, locals: Seq<Option<(TimelineOperation, u64)>>,
    ms: Seq<CrdtModel>, k: int) -> (a: Seq<TaggedOperation>)
    requires
        history_trace(CrdtModel::initial(p), xs, locals, ms),
        all_covered(xs),
        unique_makers(xs),
        ms[xs.len() as int].lamport < u64::MAX,
        0 <= k <= xs.len(),
    ensures
        received(ms[k], xs.take(k), a),
    decreases k,
{
    if k == 0 {
        let a = Seq::<TaggedOperation>::empty();
        let m = ms[0];
        assert(ids(a) =~= Set::<OperationId>::empty());
        assert(ids(m.pending) =~= Set::<OperationId>::empty());
        assert(ids(xs.take(0)) =~= Set::<OperationId>::empty());
        assert(ids(a).union(ids(m.pending)) =~= ids(xs.take(0)));
        assert forall|id: OperationId| #[trigger] logged(m.log, id) == ids(xs.take(0)).contains(id) by {}
        a
    } else {
        let a0 = lemma_history_received(p, xs, locals, ms, k - 1);
        assert(observe_step(ms[k - 1], ms[k], xs[k - 1], locals[k - 1]));
        assert(xs.take(k) =~= xs.take(k - 1).push(xs[k - 1]));
        assert(covered(xs[k - 1]));
        crate::split_order::lemma_covered_take(xs, k - 1);
        crate::split_order::lemma_covered_take(xs, k);
        match locals[k - 1] {
            None => lemma_receive(ms[k - 1], ms[k], xs[k - 1], xs.take(k - 1), a0),
            Some(l) => {
                lemma_history_clock(CrdtModel::initial(p), xs, locals, ms, k);
                lemma_local_observed(ms[k - 1], ms[k], l.0, l.1, xs[k - 1], xs.take(k - 1), a0)
            },
        }
    }
}

/// Convergence with local edits: two new replicas that observed the same
/// edits (the same ids, each id always carrying the same data, each split
/// making a clip that no other edit makes), each by receipt or as its own
/// local edit, in any order and
/// with any repetitions, and in which nothing waiting finds its targets
/// (as when nothing waits), hold the same timeline, provided their Lamport
/// clocks are below their last value.
pub proof fn lemma_observers_converge(
    p1: PeerId,
    xs1: Seq<TaggedOperation>,
    m1: CrdtModel,
    p2: PeerId,
    xs2: Seq<TaggedOperation>,
    m2: CrdtModel,
)
    requires
        observes(CrdtModel::initial(p1), xs1, m1),
        observes(CrdtModel::initial(p2), xs2, m2),
        all_covered(xs1),
        all_covered(xs2),
        unique_makers(xs1),
        unique_makers(xs2),
        coherent(xs1, xs1),
        coherent(xs2, xs2),
        coherent(xs1, xs2),
        ids(xs1) == ids(xs2),
        settled(m1),
        settled(m2),
        m1.lamport < u64::MAX,
        m2.lamport < u64::MAX,
    ensures
        m1.session == m2.session,
{
    let (l1, ms1) = choose|l: Seq<Option<(TimelineOperation, u64)>>, ms: Seq<CrdtModel>|
        #[trigger] history_trace(CrdtModel::initial(p1), xs1, l, ms) && ms.last() == m1;
    let (l2, ms2) = choose|l: Seq<Option<(TimelineOperation, u64)>>, ms: Seq<CrdtModel>|
        #[trigger] history_trace(CrdtModel::initial(p2), xs2, l, ms) && ms.last() == m2;
    let a1 = lemma_history_received(p1, xs1, l1, ms1, xs1.len() as int);
    let a2 = lemma_history_received(p2, xs2, l2, ms2, xs2.len() as int);
    assert(xs1.take(xs1.len() as int) =~= xs1);
    assert(xs2.take(xs2.len() as int) =~= xs2);
    lemma_same_applied(m1, xs1, a1, m2, xs2, a2);
    lemma_applied_reorderable(m1, xs1, a1);
    lemma_applied_reorderable(m2, xs2, a2);
    lemma_orders_agree_with_splits(SessionModel::initial(), a1, a2);
}

} // verus!
