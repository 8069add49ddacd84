//! Order independence with splits: a set of edits in which each split
//! makes a clip that nothing else makes, each applied once its targets
//! exist, leaves the session in the same state whatever the order of
//! application.

use vstd::prelude::*;
use crate::convergence::{fresh_split, lemma_fresh_split_applied, lemma_fresh_split_commutes};
use crate::merge::OpTag;
use crate::operation::{TaggedOperation, TimelineOperation};
use crate::delivery::{copies, copy_in};
use crate::reorder::{
    adds_entry, all_apply, all_plain, applied_op, apply_seq, coherent, distinct_ids, enabled, grows, ids,
    lemma_apply_concat, lemma_apply_push, lemma_enabled_grows, lemma_in_ids, lemma_step, plain, track_made,
};
use crate::state::{SessionModel, lemma_applied_same, child_resurrected, reparented, split_point_added, without_stale_split};
use crate::timeline_crdt::tag_of;

verus! {

/// An operation these laws take: not an unsplit, written with the tag
/// its id names, above the initial tag.
pub open spec fn well_tagged(x: TaggedOperation) -> bool {
    &&& !(x.operation is UnsplitClip)
    &&& x.lamport_ts == x.op_id.lamport
    &&& x.peer_id == x.op_id.peer
    &&& tag_of(x).above(OpTag::spec_initial())
}

/// Every operation of `a` is well tagged.
pub open spec fn all_well_tagged(a: Seq<TaggedOperation>) -> bool {
    forall|i: int| 0 <= i < a.len() ==> well_tagged(#[trigger] a[i])
}

/// Whether `op` makes the clip with key `k`: inserts it or splits into it.
pub open spec fn makes_clip(op: TimelineOperation, k: u64) -> bool {
    match op {
        TimelineOperation::InsertClip { clip_id, .. } => clip_id.0 == k,
        TimelineOperation::SplitClip { new_clip_id, .. } => new_clip_id.0 == k,
        _ => false,
    }
}

/// The clip a split makes, as a key.
pub open spec fn split_new(op: TimelineOperation) -> u64 {
    match op {
        TimelineOperation::SplitClip { new_clip_id, .. } => new_clip_id.0,
        _ => 0,
    }
}

/// No operation of `a` makes the clip with key `k`.
pub open spec fn none_make(a: Seq<TaggedOperation>, k: u64) -> bool {
    forall|i: int| 0 <= i < a.len() ==> !makes_clip((#[trigger] a[i]).operation, k)
}

/// Each split of `a` makes a clip that is new to `m`, is not its own
/// parent, and that no other operation of `a` makes.
pub open spec fn splits_fresh(m: SessionModel, a: Seq<TaggedOperation>) -> bool {
    forall|i: int| 0 <= i < a.len() && (#[trigger] a[i]).operation is SplitClip ==> {
        &&& a[i].operation->SplitClip_new_clip_id != a[i].operation->SplitClip_clip_id
        &&& !m.clips.contains_key(split_new(a[i].operation))
        &&& forall|k: int| 0 <= k < a.len() && k != i ==> !makes_clip((#[trigger] a[k]).operation, split_new(a[i].operation))
    }
}

/// Any operation grows the entries; it adds only the clip it makes and the
/// track it inserts; only inserts and splits add entries.
pub proof fn lemma_step_keys(m: SessionModel, op: TimelineOperation, t: OpTag)
    ensures
        grows(m, m.applied(op, t).0),
        forall|k: u64| #[trigger] m.applied(op, t).0.clips.contains_key(k) ==> m.clips.contains_key(k) || makes_clip(op, k),
        forall|k: u64| #[trigger] m.applied(op, t).0.tracks.contains_key(k) ==> m.tracks.contains_key(k) || track_made(op, k),
        !adds_entry(op) && !(op is SplitClip) ==> m.applied(op, t).0.clips.dom() == m.clips.dom(),
        !adds_entry(op) ==> m.applied(op, t).0.tracks.dom() == m.tracks.dom(),
{
    if let TimelineOperation::SplitClip { clip_id, split_frame, new_clip_id } = op {
        let n = m.applied(op, t).0;
        assert(n.tracks == m.tracks);
        let claim = (clip_id, split_frame);
        if clip_id == new_clip_id {
        } else if m.clips.contains_key(new_clip_id.0) {
            let current = match m.clips[new_clip_id.0].origin_claim {
                Some(c) => c,
                None => claim,
            };
            if !crate::state::claim_lt(current, claim) {
                let clips0 = without_stale_split(m.clips, current, new_clip_id);
                assert(clips0.dom() =~= m.clips.dom());
                let clips1 = if crate::state::claim_lt(claim, current) {
                    reparented(clips0, new_clip_id, claim)
                } else {
                    m.clips
                };
                assert(clips1.dom() =~= m.clips.dom());
                let clips2 = child_resurrected(clips1, new_clip_id, t);
                assert(clips2.dom() =~= m.clips.dom());
                if clips2.contains_key(clip_id.0) {
                    assert(split_point_added(clips2, clip_id, split_frame, new_clip_id).dom() =~= m.clips.dom());
                }
            }
        } else if m.clips.contains_key(clip_id.0) {
            let clips1 = split_point_added(m.clips, clip_id, split_frame, new_clip_id);
            assert(clips1.dom() =~= m.clips.dom());
            assert(n.clips.dom() =~= m.clips.dom().insert(new_clip_id.0));
        }
    } else {
        lemma_step(m, op, t);
    }
}

/// After a sequence, a clip exists only if it did before or an operation
/// of the sequence makes it; entries only grow.
pub proof fn lemma_keys_made(m: SessionModel, a: Seq<TaggedOperation>, k: u64)
    requires
        !m.clips.contains_key(k),
        none_make(a, k),
    ensures
        !apply_seq(m, a).clips.contains_key(k),
    decreases a.len(),
{
    if a.len() > 0 {
        let a2 = a.drop_last();
        assert forall|i: int| 0 <= i < a2.len() implies !makes_clip((#[trigger] a2[i]).operation, k) by {
            assert(a2[i] == a[i]);
        }
        lemma_keys_made(m, a2, k);
        assert(!makes_clip(a[a.len() - 1].operation, k));
        lemma_step_keys(apply_seq(m, a2), a.last().operation, tag_of(a.last()));
    }
}

/// Any sequence grows the entries.
pub proof fn lemma_seq_grows(m: SessionModel, a: Seq<TaggedOperation>)
    ensures
        grows(m, apply_seq(m, a)),
    decreases a.len(),
{
    if a.len() > 0 {
        lemma_seq_grows(m, a.drop_last());
        lemma_step_keys(apply_seq(m, a.drop_last()), a.last().operation, tag_of(a.last()));
    }
}

/// A sequence without inserts and splits leaves the clip and track keys
/// as they are.
pub proof fn lemma_seq_keeps_keys(m: SessionModel, a: Seq<TaggedOperation>)
    requires
        forall|i: int| 0 <= i < a.len() ==> !adds_entry((#[trigger] a[i]).operation) && !(a[i].operation is SplitClip),
    ensures
        apply_seq(m, a).clips.dom() == m.clips.dom(),
        apply_seq(m, a).tracks.dom() == m.tracks.dom(),
    decreases a.len(),
{
    if a.len() > 0 {
        let a2 = a.drop_last();
        assert forall|i: int| 0 <= i < a2.len() implies !adds_entry((#[trigger] a2[i]).operation)
            && !(a2[i].operation is SplitClip) by {
            assert(a2[i] == a[i]);
        }
        lemma_seq_keeps_keys(m, a2);
        assert(!adds_entry(a[a.len() - 1].operation) && !(a[a.len() - 1].operation is SplitClip));
        lemma_step_keys(apply_seq(m, a2), a.last().operation, tag_of(a.last()));
    }
}

/// The split facts `push_front` needs of `z` and `pre` from `u`.
pub open spec fn split_ready(u: SessionModel, x: TaggedOperation, others: Seq<TaggedOperation>) -> bool {
    x.operation is SplitClip ==> {
        &&& x.operation->SplitClip_new_clip_id != x.operation->SplitClip_clip_id
        &&& !u.clips.contains_key(split_new(x.operation))
        &&& none_make(others, split_new(x.operation))
    }
}

/// Two operations applied in either order from `w`, both finding their
/// targets in either order, give one state: plain edits commute, and a
/// split commutes with anything when neither makes the other's clip and
/// its own clip is new.
proof fn lemma_pair_commutes(w: SessionModel, z: TaggedOperation, y: TaggedOperation)
    requires
        well_tagged(z),
        well_tagged(y),
        tag_of(z) != tag_of(y),
        enabled(w, z.operation),
        enabled(w, y.operation),
        z.operation is SplitClip ==> z.operation->SplitClip_new_clip_id != z.operation->SplitClip_clip_id
            && !w.clips.contains_key(split_new(z.operation)) && !makes_clip(y.operation, split_new(z.operation)),
        y.operation is SplitClip ==> y.operation->SplitClip_new_clip_id != y.operation->SplitClip_clip_id
            && !w.clips.contains_key(split_new(y.operation)) && !makes_clip(z.operation, split_new(y.operation)),
    ensures
        applied_op(applied_op(w, z), y) == applied_op(applied_op(w, y), z),
        enabled(applied_op(w, z), y.operation),
        enabled(applied_op(w, y), z.operation),
{
    let tz = tag_of(z);
    let ty = tag_of(y);
    let wz = applied_op(w, z);
    let wy = applied_op(w, y);
    lemma_step_keys(w, z.operation, tz);
    lemma_step_keys(w, y.operation, ty);
    lemma_enabled_grows(w, wz, y.operation);
    lemma_enabled_grows(w, wy, z.operation);
    lemma_applies(w, z.operation, tz);
    lemma_applies(w, y.operation, ty);
    lemma_applies(wz, y.operation, ty);
    lemma_applies(wy, z.operation, tz);
    if z.operation is SplitClip {
        lemma_fresh_split_commutes(w, z.operation, tz, y.operation, ty);
    } else if y.operation is SplitClip {
        lemma_fresh_split_commutes(w, y.operation, ty, z.operation, tz);
    } else {
        crate::convergence::lemma_edits_commute(w, z.operation, tz, y.operation, ty);
    }
}

/// An enabled operation applies without error, provided a split among
/// them makes a new clip.
proof fn lemma_applies(w: SessionModel, op: TimelineOperation, t: OpTag)
    requires
        enabled(w, op),
        op is SplitClip ==> op->SplitClip_new_clip_id != op->SplitClip_clip_id && !w.clips.contains_key(split_new(op)),
    ensures
        w.applied(op, t).1 is None,
{
    if op is SplitClip {
        assert(fresh_split(w, op));
        lemma_fresh_split_applied(w, op, t);
    } else {
        lemma_step(w, op, t);
    }
}

/// The operations of `pre` found their targets in turn from `u`, and `z`
/// found its target in `u`: applying `z` first and then `pre` gives what
/// applying `pre` and then `z` gives, and `pre` still finds its targets.
proof fn lemma_push_front(u: SessionModel, z: TaggedOperation, pre: Seq<TaggedOperation>)
    requires
        well_tagged(z),
        all_well_tagged(pre),
        forall|i: int| 0 <= i < pre.len() ==> tag_of(#[trigger] pre[i]) != tag_of(z),
        enabled(u, z.operation),
        all_apply(u, pre),
        split_ready(u, z, pre),
        forall|i: int| 0 <= i < pre.len() ==> split_ready(u, #[trigger] pre[i], pre.remove(i).push(z)),
    ensures
        apply_seq(applied_op(u, z), pre) == applied_op(apply_seq(u, pre), z),
        all_apply(applied_op(u, z), pre),
    decreases pre.len(),
{
    if pre.len() > 0 {
        let n = pre.len() - 1;
        let pre2 = pre.drop_last();
        let y = pre[n];
        assert forall|i: int| 0 <= i < pre2.len() implies well_tagged(#[trigger] pre2[i]) && tag_of(pre2[i]) != tag_of(z) by {
            assert(pre2[i] == pre[i]);
        }
        assert forall|i: int| 0 <= i < pre2.len() implies enabled(apply_seq(u, pre2.take(i)), (#[trigger] pre2[i]).operation) by {
            assert(pre2[i] == pre[i]);
            assert(pre2.take(i) =~= pre.take(i));
        }
        assert(split_ready(u, z, pre2)) by {
            if z.operation is SplitClip {
                assert forall|i: int| 0 <= i < pre2.len() implies !makes_clip((#[trigger] pre2[i]).operation, split_new(z.operation)) by {
                    assert(pre2[i] == pre[i]);
                }
            }
        }
        assert forall|i: int| 0 <= i < pre2.len() implies split_ready(u, #[trigger] pre2[i], pre2.remove(i).push(z)) by {
            assert(pre2[i] == pre[i]);
            assert(split_ready(u, pre[i], pre.remove(i).push(z)));
            if pre[i].operation is SplitClip {
                let others = pre.remove(i).push(z);
                let others2 = pre2.remove(i).push(z);
                assert forall|k: int| 0 <= k < others2.len() implies !makes_clip((#[trigger] others2[k]).operation, split_new(pre[i].operation)) by {
                    if k < others2.len() - 1 {
                        assert(others2[k] == others[k]);
                    } else {
                        assert(others2[k] == z);
                        assert(others[others.len() - 1] == z);
                    }
                }
            }
        }
        lemma_push_front(u, z, pre2);
        let w = apply_seq(u, pre2);
        assert(pre.take(n) =~= pre2);
        assert(enabled(w, y.operation));
        lemma_seq_grows(u, pre2);
        lemma_enabled_grows(u, w, z.operation);
        assert(well_tagged(pre[n]) && tag_of(pre[n]) != tag_of(z));
        assert(split_ready(u, y, pre.remove(n).push(z)));
        assert(pre.remove(n) =~= pre2);
        if z.operation is SplitClip {
            assert(!makes_clip(pre[n].operation, split_new(z.operation)));
            assert forall|i: int| 0 <= i < pre2.len() implies !makes_clip((#[trigger] pre2[i]).operation, split_new(z.operation)) by {
                assert(pre2[i] == pre[i]);
            }
            lemma_keys_made(u, pre2, split_new(z.operation));
        }
        if y.operation is SplitClip {
            let others = pre.remove(n).push(z);
            assert(others[others.len() - 1] == z);
            assert(!makes_clip(others[others.len() - 1].operation, split_new(y.operation)));
            assert forall|i: int| 0 <= i < pre2.len() implies !makes_clip((#[trigger] pre2[i]).operation, split_new(y.operation)) by {
                assert(pre2[i] == others[i]);
            }
            lemma_keys_made(u, pre2, split_new(y.operation));
        }
        lemma_pair_commutes(w, z, y);
        lemma_apply_push(applied_op(u, z), pre2, y);
        assert(pre2.push(y) =~= pre);
        lemma_apply_push(u, pre2, y);
        assert forall|i: int| 0 <= i < pre.len() implies enabled(apply_seq(applied_op(u, z), pre.take(i)), (#[trigger] pre[i]).operation) by {
            if i < n {
                assert(pre.take(i) =~= pre2.take(i));
                assert(pre2[i] == pre[i]);
            } else {
                assert(pre.take(i) =~= pre2);
            }
        }
    }
}

/// Well-tagged operations with distinct ids have distinct tags.
proof fn lemma_tags_differ(x: TaggedOperation, y: TaggedOperation)
    requires
        well_tagged(x),
        well_tagged(y),
        x.op_id != y.op_id,
    ensures
        tag_of(x) != tag_of(y),
{
    assert(x.op_id == crate::clock::OperationId { lamport: tag_of(x).lamport, peer: tag_of(x).peer });
    assert(y.op_id == crate::clock::OperationId { lamport: tag_of(y).lamport, peer: tag_of(y).peer });
}

/// Operations that carry the same data find their targets alike.
pub proof fn lemma_enabled_same(m: SessionModel, x: TimelineOperation, z: TimelineOperation)
    requires
        x.same(z),
    ensures
        enabled(m, x) == enabled(m, z),
        makes_clip(x, split_new(x)) == makes_clip(z, split_new(z)),
        forall|k: u64| makes_clip(x, k) == makes_clip(z, k),
        x is SplitClip == z is SplitClip,
        x is SplitClip ==> x == z,
{
}

/// What the operations of `a` need to be reordered from `m`.
pub open spec fn reorderable(m: SessionModel, a: Seq<TaggedOperation>) -> bool {
    &&& all_well_tagged(a)
    &&& distinct_ids(a)
    &&& splits_fresh(m, a)
    &&& all_apply(m, a)
}

/// Bringing `b[j]` to the front of `b`: from `m`, `b` gives what the rest
/// of `b` gives after `b[j]`, and the rest still finds its targets.
#[verifier::spinoff_prover]
#[verifier::rlimit(40)]
proof fn lemma_bring_front(m: SessionModel, b: Seq<TaggedOperation>, j: int)
    requires
        0 <= j < b.len(),
        reorderable(m, b),
        enabled(m, b[j].operation),
    ensures
        apply_seq(m, b) == apply_seq(applied_op(m, b[j]), b.take(j) + b.skip(j + 1)),
        all_apply(applied_op(m, b[j]), b.take(j) + b.skip(j + 1)),
{
    let z = b[j];
    let pre = b.take(j);
    let post = b.skip(j + 1);
    let b2 = pre + post;
    assert(b =~= pre.push(z) + post);
    assert forall|i: int| 0 <= i < pre.len() implies well_tagged(#[trigger] pre[i]) && tag_of(pre[i]) != tag_of(z) by {
        assert(pre[i] == b[i]);
        lemma_tags_differ(pre[i], z);
    }
    assert forall|i: int| 0 <= i < pre.len() implies enabled(apply_seq(m, pre.take(i)), (#[trigger] pre[i]).operation) by {
        assert(pre[i] == b[i]);
        assert(pre.take(i) =~= b.take(i));
    }
    assert(split_ready(m, z, pre)) by {
        if z.operation is SplitClip {
            assert forall|i: int| 0 <= i < pre.len() implies !makes_clip((#[trigger] pre[i]).operation, split_new(z.operation)) by {
                assert(pre[i] == b[i]);
            }
        }
    }
    assert forall|i: int| 0 <= i < pre.len() implies split_ready(m, #[trigger] pre[i], pre.remove(i).push(z)) by {
        assert(pre[i] == b[i]);
        if b[i].operation is SplitClip {
            let others = pre.remove(i).push(z);
            assert forall|k: int| 0 <= k < others.len() implies !makes_clip((#[trigger] others[k]).operation, split_new(b[i].operation)) by {
                if k < others.len() - 1 {
                    let kb = if k < i { k } else { k + 1 };
                    assert(others[k] == b[kb]);
                } else {
                    assert(others[k] == b[j]);
                }
            }
        }
    }
    lemma_push_front(m, z, pre);
    let mz = applied_op(m, z);
    lemma_apply_concat(m, pre.push(z), post);
    lemma_apply_push(m, pre, z);
    lemma_apply_concat(mz, pre, post);
    assert forall|i: int| 0 <= i < b2.len() implies enabled(apply_seq(mz, b2.take(i)), (#[trigger] b2[i]).operation) by {
        if i < j {
            assert(b2.take(i) =~= pre.take(i));
            assert(b2[i] == pre[i]);
        } else {
            let q = post.take(i - j);
            assert(b2.take(i) =~= pre + q);
            lemma_apply_concat(mz, pre, q);
            assert(b.take(i + 1) =~= pre.push(z) + q);
            lemma_apply_concat(m, pre.push(z), q);
            assert(b2[i] == b[i + 1]);
        }
    }
}

/// The rest of `b` without `b[j]` is reorderable after `b[j]`.
#[verifier::spinoff_prover]
proof fn lemma_rest_fresh(m: SessionModel, b: Seq<TaggedOperation>, j: int)
    requires
        0 <= j < b.len(),
        all_well_tagged(b),
        distinct_ids(b),
        splits_fresh(m, b),
    ensures
        all_well_tagged(b.take(j) + b.skip(j + 1)),
        distinct_ids(b.take(j) + b.skip(j + 1)),
        splits_fresh(applied_op(m, b[j]), b.take(j) + b.skip(j + 1)),
        forall|k: int| 0 <= k < b.len() - 1 ==> #[trigger] (b.take(j) + b.skip(j + 1))[k] == (if k < j { b[k] } else { b[k + 1] }),
{
    let b2 = b.take(j) + b.skip(j + 1);
    let mz = applied_op(m, b[j]);
    lemma_step_keys(m, b[j].operation, tag_of(b[j]));
    assert forall|k: int| 0 <= k < b2.len() implies #[trigger] b2[k] == (if k < j { b[k] } else { b[k + 1] }) by {}
    assert forall|i: int| 0 <= i < b2.len() implies well_tagged(#[trigger] b2[i]) by {}
    assert forall|i: int, k: int| 0 <= i < b2.len() && 0 <= k < b2.len() && i != k implies
        (#[trigger] b2[i]).op_id != (#[trigger] b2[k]).op_id by {
        let ib = if i < j { i } else { i + 1 };
        let kb = if k < j { k } else { k + 1 };
        assert(b2[i] == b[ib] && b2[k] == b[kb]);
    }
    assert forall|i: int| 0 <= i < b2.len() && (#[trigger] b2[i]).operation is SplitClip implies {
        &&& b2[i].operation->SplitClip_new_clip_id != b2[i].operation->SplitClip_clip_id
        &&& !mz.clips.contains_key(split_new(b2[i].operation))
        &&& forall|k: int| 0 <= k < b2.len() && k != i ==> !makes_clip((#[trigger] b2[k]).operation, split_new(b2[i].operation))
    } by {
        let ib = if i < j { i } else { i + 1 };
        assert(b2[i] == b[ib]);
        assert(!makes_clip(b[j].operation, split_new(b[ib].operation)));
        assert forall|k: int| 0 <= k < b2.len() && k != i implies !makes_clip((#[trigger] b2[k]).operation, split_new(b2[i].operation)) by {
            let kb = if k < j { k } else { k + 1 };
            assert(b2[k] == b[kb]);
        }
    }
}

/// Removing the operations with one id from two coherent sequences with
/// the same ids leaves coherent sequences with the same ids.
#[verifier::spinoff_prover]
proof fn lemma_ids_without(a: Seq<TaggedOperation>, b: Seq<TaggedOperation>, j: int)
    requires
        a.len() > 0,
        0 <= j < b.len(),
        b[j].op_id == a[0].op_id,
        distinct_ids(a),
        distinct_ids(b),
        ids(a) == ids(b),
        coherent(a, b),
    ensures
        ids(a.drop_first()) == ids(b.take(j) + b.skip(j + 1)),
        coherent(a.drop_first(), b.take(j) + b.skip(j + 1)),
{
    let a2 = a.drop_first();
    let b2 = b.take(j) + b.skip(j + 1);
    assert forall|k: int| 0 <= k < b2.len() implies #[trigger] b2[k] == (if k < j { b[k] } else { b[k + 1] }) by {}
    assert forall|id: crate::clock::OperationId| ids(a2).contains(id) implies ids(b2).contains(id) by {
        let i = choose|i: int| 0 <= i < a2.len() && (#[trigger] a2[i]).op_id == id;
        assert(a2[i] == a[i + 1]);
        lemma_in_ids(a, i + 1);
        let k = choose|k: int| 0 <= k < b.len() && (#[trigger] b[k]).op_id == id;
        assert(k != j);
        if k < j {
            assert(b2[k] == b[k]);
            lemma_in_ids(b2, k);
        } else {
            assert(b2[k - 1] == b[k]);
            lemma_in_ids(b2, k - 1);
        }
    }
    assert forall|id: crate::clock::OperationId| ids(b2).contains(id) implies ids(a2).contains(id) by {
        let k = choose|k: int| 0 <= k < b2.len() && (#[trigger] b2[k]).op_id == id;
        let kb = if k < j { k } else { k + 1 };
        assert(b2[k] == b[kb]);
        lemma_in_ids(b, kb);
        let i = choose|i: int| 0 <= i < a.len() && (#[trigger] a[i]).op_id == id;
        assert(i != 0);
        assert(a2[i - 1] == a[i]);
        lemma_in_ids(a2, i - 1);
    }
    assert(ids(a2) =~= ids(b2));
    assert forall|i: int, k: int| 0 <= i < a2.len() && 0 <= k < b2.len() && (#[trigger] a2[i]).op_id == (#[trigger] b2[k]).op_id
        implies a2[i].same(b2[k]) by {
        let kb = if k < j { k } else { k + 1 };
        assert(b2[k] == b[kb]);
        assert(a2[i] == a[i + 1]);
    }
}

/// Order independence, splits included: two sequences of the same
/// operations (by id, with distinct ids, each written with the tag its id
/// names), in which each split makes a clip that is new and that nothing
/// else makes, each applied from `m` with every operation finding its
/// targets when its turn comes, give the same session.
pub proof fn lemma_orders_agree_with_splits(m: SessionModel, a: Seq<TaggedOperation>, b: Seq<TaggedOperation>)
    requires
        reorderable(m, a),
        reorderable(m, b),
        ids(a) == ids(b),
        coherent(a, b),
    ensures
        apply_seq(m, a) == apply_seq(m, b),
    decreases a.len(),
{
    if a.len() == 0 {
        if b.len() > 0 {
            lemma_in_ids(b, 0);
            assert(ids(a).contains(b[0].op_id));
        }
    } else {
        let x = a[0];
        lemma_in_ids(a, 0);
        assert(ids(b).contains(x.op_id));
        let j = choose|j: int| 0 <= j < b.len() && (#[trigger] b[j]).op_id == x.op_id;
        let z = b[j];
        assert(x.same(z));
        assert(tag_of(x) == tag_of(z));
        lemma_enabled_same(m, x.operation, z.operation);
        assert(a.take(0) =~= Seq::<TaggedOperation>::empty());
        lemma_bring_front(m, b, j);
        lemma_rest_fresh(m, b, j);
        lemma_ids_without(a, b, j);
        lemma_applied_same(m, x.operation, z.operation, tag_of(x));
        let mz = applied_op(m, z);
        assert(applied_op(m, x) == mz);
        // a without its first operation
        assert(a =~= a.take(1) + a.skip(1));
        assert(a.take(0) + a.skip(1) =~= a.drop_first());
        lemma_bring_front(m, a, 0);
        lemma_rest_fresh(m, a, 0);
        lemma_orders_agree_with_splits(mz, a.drop_first(), b.take(j) + b.skip(j + 1));
    }
}

/// An operation the replica laws cover: written with the tag its id names,
/// above the initial tag, and, for a split, into a clip other than its
/// parent.
pub open spec fn covered(x: TaggedOperation) -> bool {
    &&& well_tagged(x)
    &&& x.operation is SplitClip ==> x.operation->SplitClip_new_clip_id != x.operation->SplitClip_clip_id
}

/// Every operation of `a` is covered.
pub open spec fn all_covered(a: Seq<TaggedOperation>) -> bool {
    forall|i: int| 0 <= i < a.len() ==> covered(#[trigger] a[i])
}

/// Each split of `u` makes a clip that no operation of `u` with another id
/// makes.
pub open spec fn unique_makers(u: Seq<TaggedOperation>) -> bool {
    forall|i: int, k: int| 0 <= i < u.len() && 0 <= k < u.len() && (#[trigger] u[i]).operation is SplitClip
        && (#[trigger] u[k]).op_id != u[i].op_id ==> !makes_clip(u[k].operation, split_new(u[i].operation))
}

/// Operations other than splits are covered, and make no clip a split
/// makes.
pub proof fn lemma_plain_covered(a: Seq<TaggedOperation>)
    requires
        all_plain(a),
    ensures
        all_covered(a),
        unique_makers(a),
{
    assert forall|i: int| 0 <= i < a.len() implies covered(#[trigger] a[i]) by {
        assert(plain(a[i]));
    }
    assert forall|i: int, k: int| 0 <= i < a.len() && 0 <= k < a.len() && (#[trigger] a[i]).operation is SplitClip
        && (#[trigger] a[k]).op_id != a[i].op_id implies !makes_clip(a[k].operation, split_new(a[i].operation)) by {
        assert(plain(a[i]));
    }
}

/// Covered operations of a prefix.
pub proof fn lemma_covered_take(u: Seq<TaggedOperation>, k: int)
    requires
        0 <= k <= u.len(),
        all_covered(u),
        unique_makers(u),
    ensures
        all_covered(u.take(k)),
        unique_makers(u.take(k)),
{
    assert forall|i: int| 0 <= i < u.take(k).len() implies covered(#[trigger] u.take(k)[i]) by {
        assert(u.take(k)[i] == u[i]);
    }
    assert forall|i: int, j: int| 0 <= i < u.take(k).len() && 0 <= j < u.take(k).len()
        && (#[trigger] u.take(k)[i]).operation is SplitClip && (#[trigger] u.take(k)[j]).op_id != u.take(k)[i].op_id
        implies !makes_clip(u.take(k)[j].operation, split_new(u.take(k)[i].operation)) by {
        assert(u.take(k)[i] == u[i] && u.take(k)[j] == u[j]);
    }
}

/// A non-split operation, or a split into a clip new to `m` other than its
/// parent, applies exactly when it is enabled, changes nothing otherwise,
/// and only grows the entries.
pub proof fn lemma_step_covered(m: SessionModel, op: TimelineOperation, t: OpTag)
    requires
        op is SplitClip ==> op->SplitClip_new_clip_id != op->SplitClip_clip_id && !m.clips.contains_key(split_new(op)),
    ensures
        (m.applied(op, t).1 is None) == enabled(m, op),
        !enabled(m, op) ==> m.applied(op, t).0 == m,
        grows(m, m.applied(op, t).0),
{
    lemma_step_keys(m, op, t);
    if op is SplitClip {
        if enabled(m, op) {
            assert(fresh_split(m, op));
            lemma_fresh_split_applied(m, op, t);
        }
    } else {
        lemma_step(m, op, t);
    }
}

/// No copy of an operation of `u` with another id than `z` makes the clip
/// that the split `z` makes.
pub proof fn lemma_none_make_from(u: Seq<TaggedOperation>, s: Seq<TaggedOperation>, z: TaggedOperation)
    requires
        unique_makers(u),
        copies(s, u),
        copy_in(z, u),
        z.operation is SplitClip,
        forall|i: int| 0 <= i < s.len() ==> (#[trigger] s[i]).op_id != z.op_id,
    ensures
        none_make(s, split_new(z.operation)),
{
    let l = choose|l: int| 0 <= l < u.len() && z.same(u[l]);
    assert forall|i: int| 0 <= i < s.len() implies !makes_clip((#[trigger] s[i]).operation, split_new(z.operation)) by {
        assert(copy_in(s[i], u));
        let k = choose|k: int| 0 <= k < u.len() && s[i].same(u[k]);
        assert(u[k].op_id != u[l].op_id);
        assert(!makes_clip(u[k].operation, split_new(u[l].operation)));
        if s[i].operation is UpdateEnvelope {
        } else {
            assert(s[i].operation == u[k].operation);
        }
    }
}

/// No split point of `m` is filed for the clip `n`.
pub open spec fn unclaimed(m: SessionModel, n: crate::operation::ClipId) -> bool {
    forall|id: u64, o: u64| m.clips.contains_key(id) && #[trigger] m.clips[id].splits.contains_key(o)
        ==> m.clips[id].splits[o] != n
}

/// The claim of a split: its parent and offset.
pub open spec fn claim_of(op: TimelineOperation) -> (crate::operation::ClipId, u64) {
    (op->SplitClip_clip_id, op->SplitClip_split_frame)
}

/// Two splits of different clips compete for one new clip id.
pub open spec fn competing(m: SessionModel, x: TimelineOperation, y: TimelineOperation) -> bool {
    &&& x is SplitClip && y is SplitClip
    &&& x->SplitClip_new_clip_id == y->SplitClip_new_clip_id
    &&& x->SplitClip_clip_id != y->SplitClip_clip_id
    &&& x->SplitClip_clip_id != x->SplitClip_new_clip_id
    &&& y->SplitClip_clip_id != y->SplitClip_new_clip_id
    &&& m.clips.contains_key(x->SplitClip_clip_id.0)
    &&& m.clips.contains_key(y->SplitClip_clip_id.0)
    &&& !m.clips.contains_key(x->SplitClip_new_clip_id.0)
    &&& unclaimed(m, x->SplitClip_new_clip_id)
}

/// The outcome of `x` then `y`, two competing splits.
proof fn lemma_competing_pair(m: SessionModel, x: TimelineOperation, t1: OpTag, y: TimelineOperation, t2: OpTag)
    requires
        competing(m, x, y),
    ensures
        ({
            let n = x->SplitClip_new_clip_id;
            let a = m.applied(x, t1);
            let r = a.0.applied(y, t2);
            let w = if crate::state::claim_lt(claim_of(x), claim_of(y)) { claim_of(x) } else { claim_of(y) };
            let l = if crate::state::claim_lt(claim_of(x), claim_of(y)) { claim_of(y) } else { claim_of(x) };
            &&& a.1 is None && r.1 is None
            &&& r.0.clips.contains_key(n.0)
            &&& r.0.clips[n.0].parent == Some(crate::clip_crdt::ClipParent { clip: w.0, offset: w.1 })
            &&& r.0.clips[n.0].origin_claim == Some(w)
            &&& r.0.clips.contains_key(l.0.0)
            &&& !(r.0.clips[l.0.0].splits.contains_key(l.1) && r.0.clips[l.0.0].splits[l.1] == n)
        }),
{
    let n = x->SplitClip_new_clip_id;
    let pa = x->SplitClip_clip_id;
    let pb = y->SplitClip_clip_id;
    let cx = claim_of(x);
    let cy = claim_of(y);
    assert(fresh_split(m, x));
    lemma_fresh_split_applied(m, x, t1);
    let a = m.applied(x, t1).0;
    let ma = m.clips[pa.0];
    assert(a.clips[pa.0].splits == crate::clip_crdt::split_recorded(ma.splits, cx.1, n));
    assert(a.clips[pb.0] == m.clips[pb.0]);
    assert(a.clips[n.0].origin_claim == Some(cx));
    assert(a.clips[n.0].parent == Some(crate::clip_crdt::ClipParent { clip: pa, offset: cx.1 }));
    if crate::state::claim_lt(cx, cy) {
        assert(a.applied(y, t2) == (a, Option::<crate::operation::RequiredTarget>::None));
        assert(!(m.clips[pb.0].splits.contains_key(cy.1) && m.clips[pb.0].splits[cy.1] == n));
    } else {
        assert(crate::state::claim_lt(cy, cx));
        let c1 = reparented(without_stale_split(a.clips, cx, n), n, cy);
        let c2 = child_resurrected(c1, n, t2);
        assert(c2.contains_key(pb.0));
        let r = a.applied(y, t2).0;
        assert(r.clips == split_point_added(c2, pb, cy.1, n));
        assert(r.clips[n.0].parent == Some(crate::clip_crdt::ClipParent { clip: pb, offset: cy.1 }));
        assert(r.clips[pa.0] == without_stale_split(a.clips, cx, n)[pa.0]);
        if ma.splits.contains_key(cx.1) && ma.splits[cx.1].0 <= n.0 {
            assert(ma.splits[cx.1] != n);
        }
    }
}

/// Law of competing splits: two splits of different clips that claim the
/// same new clip id, applied in either order, give the new clip to the
/// split of the parent with the smaller id: it becomes that parent's
/// piece at that split's offset, and the other parent keeps no split
/// point for it.
pub proof fn lemma_competing_splits(m: SessionModel, x: TimelineOperation, t1: OpTag, y: TimelineOperation, t2: OpTag)
    requires
        competing(m, x, y),
    ensures
        ({
            let n = x->SplitClip_new_clip_id;
            let w = if x->SplitClip_clip_id.0 < y->SplitClip_clip_id.0 { claim_of(x) } else { claim_of(y) };
            let l = if x->SplitClip_clip_id.0 < y->SplitClip_clip_id.0 { claim_of(y) } else { claim_of(x) };
            let r1 = m.applied(x, t1).0.applied(y, t2).0;
            let r2 = m.applied(y, t2).0.applied(x, t1).0;
            &&& r1.clips[n.0].parent == Some(crate::clip_crdt::ClipParent { clip: w.0, offset: w.1 })
            &&& r2.clips[n.0].parent == Some(crate::clip_crdt::ClipParent { clip: w.0, offset: w.1 })
            &&& r1.clips[n.0].origin_claim == Some(w) && r2.clips[n.0].origin_claim == Some(w)
            &&& !(r1.clips[l.0.0].splits.contains_key(l.1) && r1.clips[l.0.0].splits[l.1] == n)
            &&& !(r2.clips[l.0.0].splits.contains_key(l.1) && r2.clips[l.0.0].splits[l.1] == n)
        }),
{
    lemma_competing_pair(m, x, t1, y, t2);
    assert(competing(m, y, x));
    lemma_competing_pair(m, y, t2, x, t1);
    assert(claim_of(x) != claim_of(y));
    assert(x->SplitClip_clip_id.0 != y->SplitClip_clip_id.0);
}

} // verus!
