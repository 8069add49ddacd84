//! Order independence of the timeline model: a set of edits other than
//! splits, each applied once its targets exist, leaves the session in the
//! same state whatever the order of application.

use vstd::prelude::*;
use crate::clock::OperationId;
use crate::convergence::lemma_edits_commute;
use crate::merge::OpTag;
use crate::operation::{TaggedOperation, TargetId, TimelineOperation};
use crate::state::{SessionModel, lemma_applied_same};
use crate::timeline_crdt::tag_of;

verus! {

/// Whether the clips and tracks that `op` needs exist in `m`.
pub open spec fn enabled(m: SessionModel, op: TimelineOperation) -> bool {
    match op {
        TimelineOperation::MoveClip { clip_id, .. } => m.clips.contains_key(clip_id.0),
        TimelineOperation::DeleteClip { clip_id } => m.clips.contains_key(clip_id.0),
        TimelineOperation::SplitClip { clip_id, .. } => m.clips.contains_key(clip_id.0),
        TimelineOperation::UnsplitClip { clip_id, new_clip_id, .. } =>
            m.clips.contains_key(clip_id.0) && m.clips.contains_key(new_clip_id.0),
        TimelineOperation::TrimClip { clip_id, .. } => m.clips.contains_key(clip_id.0),
        TimelineOperation::UpdateClipMetadata { clip_id, .. } => m.clips.contains_key(clip_id.0),
        TimelineOperation::UpdateTrackMetadata { track_id, .. } => m.tracks.contains_key(track_id.0),
        TimelineOperation::DeleteTrack { track_id } => m.tracks.contains_key(track_id.0),
        TimelineOperation::UpdateEnvelope { target_id, .. } => match target_id {
            TargetId::Clip(c) => m.clips.contains_key(c.0),
            TargetId::Track(t) => m.tracks.contains_key(t.0),
        },
        _ => true,
    }
}

/// Whether `op` creates a clip or track entry.
pub open spec fn adds_entry(op: TimelineOperation) -> bool {
    op is InsertClip || op is InsertTrack
}

/// Whether `op` inserts the clip with key `k`.
pub open spec fn clip_made(op: TimelineOperation, k: u64) -> bool {
    match op {
        TimelineOperation::InsertClip { clip_id, .. } => clip_id.0 == k,
        _ => false,
    }
}

/// Whether `op` inserts the track with key `k`.
pub open spec fn track_made(op: TimelineOperation, k: u64) -> bool {
    match op {
        TimelineOperation::InsertTrack { track_id, .. } => track_id.0 == k,
        _ => false,
    }
}

/// `n` has every clip and track entry of `m`.
pub open spec fn grows(m: SessionModel, n: SessionModel) -> bool {
    &&& m.clips.dom().subset_of(n.clips.dom())
    &&& m.tracks.dom().subset_of(n.tracks.dom())
}

/// An operation these laws cover: not a split, written with the tag its
/// id names, above the initial tag.
pub open spec fn plain(x: TaggedOperation) -> bool {
    &&& !(x.operation is SplitClip)
    &&& !(x.operation is UnsplitClip)
    &&& x.lamport_ts == x.op_id.lamport
    &&& x.peer_id == x.op_id.peer
    &&& tag_of(x).above(OpTag::spec_initial())
}

/// Every operation of `a` is plain.
pub open spec fn all_plain(a: Seq<TaggedOperation>) -> bool {
    forall|i: int| 0 <= i < a.len() ==> plain(#[trigger] a[i])
}

/// Every operation of `a` is enabled in `m`.
pub open spec fn all_enabled(m: SessionModel, a: Seq<TaggedOperation>) -> bool {
    forall|i: int| 0 <= i < a.len() ==> enabled(m, (#[trigger] a[i]).operation)
}

/// The session after applying `x` at its tag.
pub open spec fn applied_op(m: SessionModel, x: TaggedOperation) -> SessionModel {
    m.applied(x.operation, tag_of(x)).0
}

/// The session after applying `ops` in order.
pub open spec fn apply_seq(m: SessionModel, ops: Seq<TaggedOperation>) -> SessionModel
    decreases ops.len(),
{
    if ops.len() == 0 {
        m
    } else {
        applied_op(apply_seq(m, ops.drop_last()), ops.last())
    }
}

/// Each operation of `ops` is enabled when its turn comes.
pub open spec fn all_apply(m: SessionModel, ops: Seq<TaggedOperation>) -> bool {
    forall|i: int| 0 <= i < ops.len() ==> enabled(apply_seq(m, ops.take(i)), (#[trigger] ops[i]).operation)
}

/// The ids of the operations of `a`.
pub open spec fn ids(a: Seq<TaggedOperation>) -> Set<OperationId> {
    Set::new(|id: OperationId| exists|i: int| 0 <= i < a.len() && (#[trigger] a[i]).op_id == id)
}

/// No two operations of `a` share an id.
pub open spec fn distinct_ids(a: Seq<TaggedOperation>) -> bool {
    forall|i: int, j: int| 0 <= i < a.len() && 0 <= j < a.len() && i != j ==> (#[trigger] a[i]).op_id != (#[trigger] a[j]).op_id
}

/// Operations of `a` and `b` with one id carry the same data.
pub open spec fn coherent(a: Seq<TaggedOperation>, b: Seq<TaggedOperation>) -> bool {
    forall|i: int, j: int| 0 <= i < a.len() && 0 <= j < b.len() && (#[trigger] a[i]).op_id == (#[trigger] b[j]).op_id
        ==> a[i].same(b[j])
}

/// The operations of `a` that create entries (`w`) or that do not (`!w`),
/// in their order.
pub open spec fn part(a: Seq<TaggedOperation>, w: bool) -> Seq<TaggedOperation> {
    a.filter(|x: TaggedOperation| adds_entry(x.operation) == w)
}

/// A non-split operation applies exactly when it is enabled and changes
/// nothing otherwise; entries only grow, and only inserts add them.
pub proof fn lemma_step(m: SessionModel, op: TimelineOperation, t: OpTag)
    requires
        !(op is SplitClip),
    ensures
        (m.applied(op, t).1 is None) == enabled(m, op),
        !enabled(m, op) ==> m.applied(op, t).0 == m,
        grows(m, m.applied(op, t).0),
        !adds_entry(op) ==> m.applied(op, t).0.clips.dom() == m.clips.dom(),
        !adds_entry(op) ==> m.applied(op, t).0.tracks.dom() == m.tracks.dom(),
        forall|k: u64| m.applied(op, t).0.clips.contains_key(k) == (m.clips.contains_key(k) || clip_made(op, k)),
        forall|k: u64| m.applied(op, t).0.tracks.contains_key(k) == (m.tracks.contains_key(k) || track_made(op, k)),
{
    let n = m.applied(op, t).0;
    match op {
        TimelineOperation::InsertClip { clip_id, .. } => {
            assert(n.clips.dom() =~= m.clips.dom().insert(clip_id.0));
        },
        TimelineOperation::InsertTrack { track_id, .. } => {
            assert(n.tracks.dom() =~= m.tracks.dom().insert(track_id.0));
        },
        TimelineOperation::UpdateEnvelope { .. } => {},
        TimelineOperation::UpdateSessionMetadata { .. } => {},
        TimelineOperation::UpdateTrackMetadata { track_id, .. } => {
            assert(n.tracks.dom() =~= m.tracks.dom());
        },
        TimelineOperation::DeleteTrack { track_id } => {
            assert(n.tracks.dom() =~= m.tracks.dom());
        },
        TimelineOperation::MoveClip { clip_id, .. } => {
            assert(n.clips.dom() =~= m.clips.dom());
        },
        TimelineOperation::DeleteClip { clip_id } => {
            assert(n.clips.dom() =~= m.clips.dom());
        },
        TimelineOperation::TrimClip { clip_id, .. } => {
            assert(n.clips.dom() =~= m.clips.dom());
        },
        TimelineOperation::UpdateClipMetadata { clip_id, .. } => {
            assert(n.clips.dom() =~= m.clips.dom());
        },
        TimelineOperation::SplitClip { .. } => {},
        TimelineOperation::UnsplitClip { .. } => {
            assert(n.clips.dom() =~= m.clips.dom());
        },
    }
}

/// Enabledness depends only on which entries exist, and survives growth.
pub proof fn lemma_enabled_grows(m: SessionModel, n: SessionModel, op: TimelineOperation)
    requires
        grows(m, n),
        enabled(m, op),
    ensures
        enabled(n, op),
{
}


/// Applying `a` then `b` is applying their concatenation.
pub proof fn lemma_apply_concat(m: SessionModel, a: Seq<TaggedOperation>, b: Seq<TaggedOperation>)
    ensures
        apply_seq(m, a + b) == apply_seq(apply_seq(m, a), b),
    decreases b.len(),
{
    if b.len() > 0 {
        assert((a + b).drop_last() =~= a + b.drop_last());
        assert((a + b).last() == b.last());
        lemma_apply_concat(m, a, b.drop_last());
    } else {
        assert(a + b =~= a);
    }
}

/// Applying one more operation.
pub proof fn lemma_apply_push(m: SessionModel, a: Seq<TaggedOperation>, x: TaggedOperation)
    ensures
        apply_seq(m, a.push(x)) == applied_op(apply_seq(m, a), x),
{
    assert(a.push(x).drop_last() =~= a);
}

/// Applying plain operations only grows the entries; without inserts the
/// entries stay as they are.
pub proof fn lemma_apply_grows(m: SessionModel, a: Seq<TaggedOperation>)
    requires
        all_plain(a),
    ensures
        grows(m, apply_seq(m, a)),
        (forall|i: int| 0 <= i < a.len() ==> !adds_entry((#[trigger] a[i]).operation))
            ==> apply_seq(m, a).clips.dom() == m.clips.dom() && apply_seq(m, a).tracks.dom() == m.tracks.dom(),
    decreases a.len(),
{
    if a.len() > 0 {
        let a2 = a.drop_last();
        assert forall|i: int| 0 <= i < a2.len() implies plain(#[trigger] a2[i]) by {
            assert(a2[i] == a[i]);
        }
        lemma_apply_grows(m, a2);
        assert(plain(a[a.len() - 1]));
        lemma_step(apply_seq(m, a2), a.last().operation, tag_of(a.last()));
        if forall|i: int| 0 <= i < a.len() ==> !adds_entry((#[trigger] a[i]).operation) {
            assert forall|i: int| 0 <= i < a2.len() implies !adds_entry((#[trigger] a2[i]).operation) by {
                assert(a2[i] == a[i]);
            }
            assert(!adds_entry(a[a.len() - 1].operation));
        }
    }
}

/// Plain operations with distinct ids have distinct tags.
pub proof fn lemma_tags_differ(x: TaggedOperation, y: TaggedOperation)
    requires
        plain(x),
        plain(y),
        x.op_id != y.op_id,
    ensures
        tag_of(x) != tag_of(y),
{
    assert(x.op_id == OperationId { lamport: tag_of(x).lamport, peer: tag_of(x).peer });
    assert(y.op_id == OperationId { lamport: tag_of(y).lamport, peer: tag_of(y).peer });
}

/// An operation `z` enabled in `u` may be applied after operations
/// enabled in `u` instead of before them, when its tag differs from
/// theirs.
pub proof fn lemma_pull_back(u: SessionModel, z: TaggedOperation, ys: Seq<TaggedOperation>)
    requires
        plain(z),
        all_plain(ys),
        enabled(u, z.operation),
        all_enabled(u, ys),
        forall|i: int| 0 <= i < ys.len() ==> tag_of(#[trigger] ys[i]) != tag_of(z),
    ensures
        apply_seq(applied_op(u, z), ys) == applied_op(apply_seq(u, ys), z),
    decreases ys.len(),
{
    if ys.len() > 0 {
        let ys2 = ys.drop_last();
        let y = ys.last();
        assert forall|i: int| 0 <= i < ys2.len() implies plain(#[trigger] ys2[i]) && enabled(u, ys2[i].operation)
            && tag_of(ys2[i]) != tag_of(z) by {
            assert(ys2[i] == ys[i]);
        }
        lemma_pull_back(u, z, ys2);
        let w = apply_seq(u, ys2);
        assert(plain(ys[ys.len() - 1]) && enabled(u, ys[ys.len() - 1].operation) && tag_of(ys[ys.len() - 1]) != tag_of(z));
        lemma_apply_grows(u, ys2);
        lemma_enabled_grows(u, w, z.operation);
        lemma_enabled_grows(u, w, y.operation);
        lemma_step(w, z.operation, tag_of(z));
        lemma_step(w, y.operation, tag_of(y));
        let wz = applied_op(w, z);
        let wy = applied_op(w, y);
        lemma_enabled_grows(w, wz, y.operation);
        lemma_enabled_grows(w, wy, z.operation);
        lemma_step(wz, y.operation, tag_of(y));
        lemma_step(wy, z.operation, tag_of(z));
        lemma_edits_commute(w, z.operation, tag_of(z), y.operation, tag_of(y));
    }
}


/// The id of each operation of `a` is among `ids(a)`.
pub proof fn lemma_in_ids(a: Seq<TaggedOperation>, i: int)
    requires
        0 <= i < a.len(),
    ensures
        ids(a).contains(a[i].op_id),
{
}

/// Operations enabled in `s` give the same session in any order: when
/// `a` and `b` hold the same operations (by id, with distinct ids), every
/// one of them enabled in `s`, applying either from `s` gives one state.
pub proof fn lemma_reorder(s: SessionModel, a: Seq<TaggedOperation>, b: Seq<TaggedOperation>)
    requires
        all_plain(a),
        all_plain(b),
        distinct_ids(a),
        distinct_ids(b),
        ids(a) == ids(b),
        coherent(a, b),
        all_enabled(s, a),
        all_enabled(s, b),
    ensures
        apply_seq(s, a) == apply_seq(s, b),
    decreases a.len(),
{
    if a.len() == 0 {
        if b.len() > 0 {
            lemma_in_ids(b, 0);
            assert(ids(a).contains(b[0].op_id));
        }
    } else {
        let n = a.len() - 1;
        let x = a[n];
        lemma_in_ids(a, n);
        assert(ids(b).contains(x.op_id));
        let j = choose|j: int| 0 <= j < b.len() && (#[trigger] b[j]).op_id == x.op_id;
        let a2 = a.drop_last();
        let b2 = b.remove(j);
        let z = b[j];
        // the remaining operations
        assert forall|k: int| 0 <= k < b2.len() implies #[trigger] b2[k] == (if k < j { b[k] } else { b[k + 1] }) by {}
        assert forall|id: OperationId| ids(a2).contains(id) implies ids(b2).contains(id) by {
            let i = choose|i: int| 0 <= i < a2.len() && (#[trigger] a2[i]).op_id == id;
            assert(a2[i] == a[i]);
            lemma_in_ids(a, i);
            let k = choose|k: int| 0 <= k < b.len() && (#[trigger] b[k]).op_id == id;
            assert(k != j);
            if k < j {
                assert(b2[k] == b[k]);
                lemma_in_ids(b2, k);
            } else {
                assert(b2[k - 1] == b[k]);
                lemma_in_ids(b2, k - 1);
            }
        }
        assert forall|id: OperationId| ids(b2).contains(id) implies ids(a2).contains(id) by {
            let k = choose|k: int| 0 <= k < b2.len() && (#[trigger] b2[k]).op_id == id;
            let kb = if k < j { k } else { k + 1 };
            assert(b2[k] == b[kb]);
            lemma_in_ids(b, kb);
            let i = choose|i: int| 0 <= i < a.len() && (#[trigger] a[i]).op_id == id;
            assert(i != n);
            assert(a2[i] == a[i]);
            lemma_in_ids(a2, i);
        }
        assert(ids(a2) =~= ids(b2));
        assert forall|i: int| 0 <= i < a2.len() implies plain(#[trigger] a2[i]) && enabled(s, a2[i].operation) by {
            assert(a2[i] == a[i]);
        }
        assert forall|k: int| 0 <= k < b2.len() implies plain(#[trigger] b2[k]) && enabled(s, b2[k].operation) by {
            let kb = if k < j { k } else { k + 1 };
            assert(b2[k] == b[kb]);
        }
        assert forall|i: int, k: int| 0 <= i < a2.len() && 0 <= k < a2.len() && i != k implies
            (#[trigger] a2[i]).op_id != (#[trigger] a2[k]).op_id by {
            assert(a2[i] == a[i] && a2[k] == a[k]);
        }
        assert forall|i: int, k: int| 0 <= i < b2.len() && 0 <= k < b2.len() && i != k implies
            (#[trigger] b2[i]).op_id != (#[trigger] b2[k]).op_id by {
            let ib = if i < j { i } else { i + 1 };
            let kb = if k < j { k } else { k + 1 };
            assert(b2[i] == b[ib] && b2[k] == b[kb]);
        }
        assert forall|i: int, k: int| 0 <= i < a2.len() && 0 <= k < b2.len() && (#[trigger] a2[i]).op_id == (#[trigger] b2[k]).op_id
            implies a2[i].same(b2[k]) by {
            let kb = if k < j { k } else { k + 1 };
            assert(b2[k] == b[kb]);
            assert(a2[i] == a[i]);
        }
        lemma_reorder(s, a2, b2);
        // move b[j] to the end of b
        let pre = b.take(j);
        let post = b.skip(j + 1);
        assert(b =~= pre.push(z) + post);
        assert(b2 =~= pre + post);
        lemma_apply_concat(s, pre.push(z), post);
        lemma_apply_push(s, pre, z);
        lemma_apply_concat(s, pre, post);
        let u = apply_seq(s, pre);
        assert forall|i: int| 0 <= i < pre.len() implies plain(#[trigger] pre[i]) by {
            assert(pre[i] == b[i]);
        }
        lemma_apply_grows(s, pre);
        assert(plain(b[j]) && enabled(s, b[j].operation));
        lemma_enabled_grows(s, u, z.operation);
        assert forall|i: int| 0 <= i < post.len() implies plain(#[trigger] post[i]) && enabled(u, post[i].operation)
            && tag_of(post[i]) != tag_of(z) by {
            assert(post[i] == b[j + 1 + i]);
            assert(plain(b[j + 1 + i]) && enabled(s, b[j + 1 + i].operation));
            lemma_enabled_grows(s, u, post[i].operation);
            lemma_tags_differ(post[i], z);
        }
        lemma_pull_back(u, z, post);
        // the last operations carry the same data
        assert(x.same(z));
        lemma_applied_same(apply_seq(s, a2), x.operation, z.operation, tag_of(x));
        assert(tag_of(x) == tag_of(z));
    }
}


/// One step of `part`.
pub proof fn lemma_part_step(a: Seq<TaggedOperation>, w: bool)
    requires
        a.len() > 0,
    ensures
        part(a, w) == (if adds_entry(a.last().operation) == w {
            part(a.drop_last(), w).push(a.last())
        } else {
            part(a.drop_last(), w)
        }),
{
    reveal(Seq::filter);
}

/// The operations `part` keeps are operations of `a` of the kind asked
/// for, with distinct ids when `a` has them; it keeps every such one.
pub proof fn lemma_part_elems(a: Seq<TaggedOperation>, w: bool)
    ensures
        forall|i: int| 0 <= i < part(a, w).len() ==> a.contains(#[trigger] part(a, w)[i])
            && adds_entry(part(a, w)[i].operation) == w,
        forall|k: int| 0 <= k < a.len() && adds_entry((#[trigger] a[k]).operation) == w ==> part(a, w).contains(a[k]),
        distinct_ids(a) ==> distinct_ids(part(a, w)),
    decreases a.len(),
{
    reveal(Seq::filter);
    if a.len() > 0 {
        let a2 = a.drop_last();
        let z = a.last();
        let p2 = part(a2, w);
        let p = part(a, w);
        lemma_part_elems(a2, w);
        lemma_part_step(a, w);
        assert forall|i: int| 0 <= i < p.len() implies a.contains(#[trigger] p[i]) && adds_entry(p[i].operation) == w by {
            if i < p2.len() {
                assert(p[i] == p2[i]);
                assert(a2.contains(p2[i]));
                let k = choose|k: int| 0 <= k < a2.len() && a2[k] == p2[i];
                assert(a[k] == a2[k]);
            } else {
                assert(p[i] == z);
                assert(a[a.len() - 1] == z);
            }
        }
        assert forall|k: int| 0 <= k < a.len() && adds_entry((#[trigger] a[k]).operation) == w implies p.contains(a[k]) by {
            if k < a2.len() {
                assert(a2[k] == a[k]);
                assert(p2.contains(a2[k]));
                let i = choose|i: int| 0 <= i < p2.len() && p2[i] == a2[k];
                if adds_entry(z.operation) == w {
                    assert(p[i] == p2[i]);
                }
            } else {
                assert(p[p.len() - 1] == z);
            }
        }
        if distinct_ids(a) {
            assert forall|i: int, k: int| 0 <= i < a2.len() && 0 <= k < a2.len() && i != k implies
                (#[trigger] a2[i]).op_id != (#[trigger] a2[k]).op_id by {
                assert(a2[i] == a[i] && a2[k] == a[k]);
            }
            assert forall|i: int, k: int| 0 <= i < p.len() && 0 <= k < p.len() && i != k implies
                (#[trigger] p[i]).op_id != (#[trigger] p[k]).op_id by {
                if adds_entry(z.operation) == w && (i == p.len() - 1 || k == p.len() - 1) {
                    let o = if i == p.len() - 1 { k } else { i };
                    assert(p[o] == p2[o]);
                    assert(a2.contains(p2[o]));
                    let q = choose|q: int| 0 <= q < a2.len() && a2[q] == p2[o];
                    assert(a[q] == a2[q]);
                    assert(a[a.len() - 1] == z);
                } else {
                    assert(p[i] == p2[i] && p[k] == p2[k]);
                }
            }
        }
    }
}

/// Parts of the same kind of two coherent sequences with the same ids
/// have the same ids and are coherent.
pub proof fn lemma_parts_match(a: Seq<TaggedOperation>, b: Seq<TaggedOperation>, w: bool)
    requires
        ids(a) == ids(b),
        coherent(a, b),
    ensures
        ids(part(a, w)) == ids(part(b, w)),
        coherent(part(a, w), part(b, w)),
{
    lemma_part_elems(a, w);
    lemma_part_elems(b, w);
    let pa = part(a, w);
    let pb = part(b, w);
    assert forall|id: OperationId| ids(pa).contains(id) implies ids(pb).contains(id) by {
        let i = choose|i: int| 0 <= i < pa.len() && (#[trigger] pa[i]).op_id == id;
        assert(a.contains(pa[i]));
        let ka = choose|ka: int| 0 <= ka < a.len() && a[ka] == pa[i];
        lemma_in_ids(a, ka);
        let kb = choose|kb: int| 0 <= kb < b.len() && (#[trigger] b[kb]).op_id == id;
        assert(a[ka].same(b[kb]));
        assert(adds_entry(b[kb].operation) == w);
        assert(pb.contains(b[kb]));
        let l = choose|l: int| 0 <= l < pb.len() && pb[l] == b[kb];
        lemma_in_ids(pb, l);
    }
    assert forall|id: OperationId| ids(pb).contains(id) implies ids(pa).contains(id) by {
        let i = choose|i: int| 0 <= i < pb.len() && (#[trigger] pb[i]).op_id == id;
        assert(b.contains(pb[i]));
        let kb = choose|kb: int| 0 <= kb < b.len() && b[kb] == pb[i];
        lemma_in_ids(b, kb);
        let ka = choose|ka: int| 0 <= ka < a.len() && (#[trigger] a[ka]).op_id == id;
        assert(a[ka].same(b[kb]));
        assert(adds_entry(a[ka].operation) == w);
        assert(pa.contains(a[ka]));
        let l = choose|l: int| 0 <= l < pa.len() && pa[l] == a[ka];
        lemma_in_ids(pa, l);
    }
    assert(ids(pa) =~= ids(pb));
    assert forall|i: int, j: int| 0 <= i < pa.len() && 0 <= j < pb.len() && (#[trigger] pa[i]).op_id == (#[trigger] pb[j]).op_id
        implies pa[i].same(pb[j]) by {
        assert(a.contains(pa[i]));
        assert(b.contains(pb[j]));
        let ka = choose|ka: int| 0 <= ka < a.len() && a[ka] == pa[i];
        let kb = choose|kb: int| 0 <= kb < b.len() && b[kb] == pb[j];
        assert(a[ka].same(b[kb]));
    }
}

/// One more operation keeps the inserts-first form of a sequence.
#[verifier::spinoff_prover]
#[verifier::rlimit(60)]
proof fn lemma_entries_first_step(m: SessionModel, a: Seq<TaggedOperation>)
    requires
        a.len() > 0,
        all_plain(a),
        distinct_ids(a),
        all_apply(m, a),
        apply_seq(m, a.drop_last()) == apply_seq(apply_seq(m, part(a.drop_last(), true)), part(a.drop_last(), false)),
        all_enabled(apply_seq(m, part(a.drop_last(), true)), part(a.drop_last(), false)),
    ensures
        apply_seq(m, a) == apply_seq(apply_seq(m, part(a, true)), part(a, false)),
        all_enabled(apply_seq(m, part(a, true)), part(a, false)),
{
    let n = a.len() - 1;
    let a2 = a.drop_last();
    let z = a.last();
    let e2 = apply_seq(m, part(a2, true));
    let o2 = part(a2, false);
    lemma_part_step(a, true);
    lemma_part_step(a, false);
    lemma_part_elems(a2, false);
    assert(plain(a[n]));
    assert(a.take(n) =~= a2);
    assert(enabled(apply_seq(m, a2), z.operation));
    assert forall|i: int| 0 <= i < o2.len() implies plain(#[trigger] o2[i]) && !adds_entry(o2[i].operation)
        && o2[i].op_id != z.op_id by {
        assert(a2.contains(o2[i]));
        let k = choose|k: int| 0 <= k < a2.len() && a2[k] == o2[i];
        assert(a[k] == a2[k]);
    }
    if !adds_entry(z.operation) {
        lemma_apply_push(e2, o2, z);
        lemma_apply_grows(e2, o2);
        assert(grows(apply_seq(e2, o2), e2));
        lemma_enabled_grows(apply_seq(e2, o2), e2, z.operation);
        let o = o2.push(z);
        assert forall|i: int| 0 <= i < o.len() implies enabled(e2, (#[trigger] o[i]).operation) by {
            if i < o2.len() {
                assert(o[i] == o2[i]);
            }
        }
    } else {
        assert forall|i: int| 0 <= i < o2.len() implies tag_of(#[trigger] o2[i]) != tag_of(z) by {
            lemma_tags_differ(o2[i], z);
        }
        lemma_pull_back(e2, z, o2);
        lemma_apply_push(m, part(a2, true), z);
        lemma_step(e2, z.operation, tag_of(z));
        assert forall|i: int| 0 <= i < o2.len() implies enabled(applied_op(e2, z), (#[trigger] o2[i]).operation) by {
            lemma_enabled_grows(e2, applied_op(e2, z), o2[i].operation);
        }
    }
}

/// Applying a sequence in which each operation finds its targets is
/// applying its inserts first and then the rest, which all find their
/// targets after the inserts.
pub proof fn lemma_entries_first(m: SessionModel, a: Seq<TaggedOperation>)
    requires
        all_plain(a),
        distinct_ids(a),
        all_apply(m, a),
    ensures
        apply_seq(m, a) == apply_seq(apply_seq(m, part(a, true)), part(a, false)),
        all_enabled(apply_seq(m, part(a, true)), part(a, false)),
    decreases a.len(),
{
    if a.len() == 0 {
        reveal(Seq::filter);
    } else {
        let a2 = a.drop_last();
        assert forall|i: int| 0 <= i < a2.len() implies plain(#[trigger] a2[i])
            && enabled(apply_seq(m, a2.take(i)), a2[i].operation) by {
            assert(a2[i] == a[i]);
            assert(a2.take(i) =~= a.take(i));
        }
        assert forall|i: int, k: int| 0 <= i < a2.len() && 0 <= k < a2.len() && i != k implies
            (#[trigger] a2[i]).op_id != (#[trigger] a2[k]).op_id by {
            assert(a2[i] == a[i] && a2[k] == a[k]);
        }
        lemma_entries_first(m, a2);
        lemma_entries_first_step(m, a);
    }
}

/// Parts of the same kind of two sequences of the same operations, all
/// enabled in `s`, give one state from `s`.
proof fn lemma_parts_reorder(s: SessionModel, a: Seq<TaggedOperation>, b: Seq<TaggedOperation>, w: bool)
    requires
        all_plain(a),
        all_plain(b),
        distinct_ids(a),
        distinct_ids(b),
        ids(a) == ids(b),
        coherent(a, b),
        all_enabled(s, part(a, w)),
        all_enabled(s, part(b, w)),
    ensures
        apply_seq(s, part(a, w)) == apply_seq(s, part(b, w)),
{
    lemma_part_elems(a, w);
    lemma_part_elems(b, w);
    lemma_parts_match(a, b, w);
    let pa = part(a, w);
    let pb = part(b, w);
    assert forall|i: int| 0 <= i < pa.len() implies plain(#[trigger] pa[i]) by {
        assert(a.contains(pa[i]));
    }
    assert forall|i: int| 0 <= i < pb.len() implies plain(#[trigger] pb[i]) by {
        assert(b.contains(pb[i]));
    }
    lemma_reorder(s, pa, pb);
}

/// Inserts are enabled anywhere.
proof fn lemma_entries_enabled(m: SessionModel, a: Seq<TaggedOperation>)
    ensures
        all_enabled(m, part(a, true)),
{
    lemma_part_elems(a, true);
}

/// Order independence: two sequences of the same plain operations (by
/// id, with distinct ids), each applied from `m` with every operation
/// finding its targets when its turn comes, give the same session.
pub proof fn lemma_orders_agree(m: SessionModel, a: Seq<TaggedOperation>, b: Seq<TaggedOperation>)
    requires
        all_plain(a),
        all_plain(b),
        distinct_ids(a),
        distinct_ids(b),
        ids(a) == ids(b),
        coherent(a, b),
        all_apply(m, a),
        all_apply(m, b),
    ensures
        apply_seq(m, a) == apply_seq(m, b),
{
    lemma_entries_first(m, a);
    lemma_entries_first(m, b);
    lemma_entries_enabled(m, a);
    lemma_entries_enabled(m, b);
    lemma_parts_reorder(m, a, b, true);
    lemma_parts_reorder(apply_seq(m, part(a, true)), a, b, false);
}


/// The clips and tracks after applying plain operations: those there
/// before and those some operation inserts.
pub proof fn lemma_entry_keys(m: SessionModel, a: Seq<TaggedOperation>)
    requires
        all_plain(a),
    ensures
        forall|k: u64| #[trigger] apply_seq(m, a).clips.contains_key(k) == (m.clips.contains_key(k)
            || exists|i: int| 0 <= i < a.len() && clip_made((#[trigger] a[i]).operation, k)),
        forall|k: u64| #[trigger] apply_seq(m, a).tracks.contains_key(k) == (m.tracks.contains_key(k)
            || exists|i: int| 0 <= i < a.len() && track_made((#[trigger] a[i]).operation, k)),
    decreases a.len(),
{
    if a.len() > 0 {
        let a2 = a.drop_last();
        let z = a.last();
        assert forall|i: int| 0 <= i < a2.len() implies plain(#[trigger] a2[i]) by {
            assert(a2[i] == a[i]);
        }
        lemma_entry_keys(m, a2);
        assert(plain(a[a.len() - 1]));
        lemma_step(apply_seq(m, a2), z.operation, tag_of(z));
        assert forall|k: u64| #[trigger] apply_seq(m, a).clips.contains_key(k) == (m.clips.contains_key(k)
            || exists|i: int| 0 <= i < a.len() && clip_made((#[trigger] a[i]).operation, k)) by {
            if exists|i: int| 0 <= i < a.len() && clip_made((#[trigger] a[i]).operation, k) {
                let i = choose|i: int| 0 <= i < a.len() && clip_made((#[trigger] a[i]).operation, k);
                if i < a2.len() {
                    assert(a2[i] == a[i]);
                }
            }
            if exists|i: int| 0 <= i < a2.len() && clip_made((#[trigger] a2[i]).operation, k) {
                let i = choose|i: int| 0 <= i < a2.len() && clip_made((#[trigger] a2[i]).operation, k);
                assert(a2[i] == a[i]);
            }
        }
        assert forall|k: u64| #[trigger] apply_seq(m, a).tracks.contains_key(k) == (m.tracks.contains_key(k)
            || exists|i: int| 0 <= i < a.len() && track_made((#[trigger] a[i]).operation, k)) by {
            if exists|i: int| 0 <= i < a.len() && track_made((#[trigger] a[i]).operation, k) {
                let i = choose|i: int| 0 <= i < a.len() && track_made((#[trigger] a[i]).operation, k);
                if i < a2.len() {
                    assert(a2[i] == a[i]);
                }
            }
            if exists|i: int| 0 <= i < a2.len() && track_made((#[trigger] a2[i]).operation, k) {
                let i = choose|i: int| 0 <= i < a2.len() && track_made((#[trigger] a2[i]).operation, k);
                assert(a2[i] == a[i]);
            }
        }
    }
}

} // verus!
