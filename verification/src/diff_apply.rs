//! The law of deltas: the operations [`crate::delta::compute_delta`]
//! computes between two materialized views, applied above every tag of the
//! session of the first, materialize the second.

use vstd::prelude::*;
use crate::clock::PeerId;
use crate::clip_crdt::{
    ClipModel, alive_write, color_write, duration_write, gain_write, hint_write, locked_write, muted_write, name_write,
    source_write, start_write, track_write,
};
use crate::delta::{
    EnvelopeEntry, ops_same, clip_delta, clip_removal, concat_map, delta_applied, delta_ops, envelope_delta, envelope_index,
    kind_kept, metadata_delta, track_insert, track_removal, track_update,
};
use crate::envelope_crdt::{EnvelopeKey, env_key_lt, env_sorted, lemma_env_key_order};
use crate::freshness::{clip_within, lemma_applied_within, lemma_within_later, stamps_within, track_within};
use crate::merge::{LwwReg, OpTag};
use crate::operation::{ClipId, EnvelopePoint, TargetId, TimelineOperation, TrackId};
use crate::sort::{SortKey, key_lt, lemma_key_order};
use crate::state::{
    Session, clips_cover, materializes, tracks_cover, ClipView, MetadataModel, SessionMetadata, SessionModel, SessionView, TrackView, clip_index, clip_key, clip_view_ok, track_index,
    track_key, track_rank, track_view_ok,
};
use crate::table::{lemma_table_dom, lemma_table_get, table_distinct, table_map};
use crate::undo::{lemma_resolved_standalone, standalone};
use crate::track_crdt::TrackModel;

verus! {

/// The state after `ops`, operation `i` applied at tag `(l + i, p)`.
pub open spec fn run(m: SessionModel, ops: Seq<TimelineOperation>, l: int, p: PeerId) -> SessionModel
    decreases ops.len(),
{
    if ops.len() == 0 {
        m
    } else {
        run(m, ops.drop_last(), l, p).applied(ops.last(), OpTag { lamport: (l + ops.len() - 1) as u64, peer: p }).0
    }
}

/// Without saturation, a delta applied from `base` runs from its Lamport
/// time.
pub proof fn lemma_run_delta(m: SessionModel, d: Seq<TimelineOperation>, base: OpTag, n: int)
    requires
        0 <= n <= d.len(),
        base.lamport + n <= u64::MAX,
    ensures
        delta_applied(m, d, base, n) == run(m, d.take(n), base.lamport as int, base.peer),
    decreases n,
{
    if n > 0 {
        lemma_run_delta(m, d, base, n - 1);
        assert(d.take(n).drop_last() =~= d.take(n - 1));
    }
}

/// Running a concatenation runs its parts in turn.
pub proof fn lemma_run_concat(m: SessionModel, a: Seq<TimelineOperation>, b: Seq<TimelineOperation>, l: int, p: PeerId)
    ensures
        run(m, a + b, l, p) == run(run(m, a, l, p), b, l + a.len(), p),
    decreases b.len(),
{
    if b.len() == 0 {
        assert(a + b =~= a);
    } else {
        lemma_run_concat(m, a, b.drop_last(), l, p);
        assert((a + b).drop_last() =~= a + b.drop_last());
    }
}

/// Running one operation applies it at `l`.
proof fn lemma_run_one(m: SessionModel, op: TimelineOperation, l: int, p: PeerId)
    ensures
        run(m, seq![op], l, p) == m.applied(op, OpTag { lamport: l as u64, peer: p }).0,
{
    let ops = seq![op];
    assert(ops.drop_last() =~= Seq::<TimelineOperation>::empty());
    assert(run(m, ops.drop_last(), l, p) == m);
    assert(ops.last() == op);
    assert(l + ops.len() - 1 == l);
}

/// The operations of a prefix one element longer.
proof fn lemma_concat_map_take<A>(xs: Seq<A>, f: spec_fn(A) -> Seq<TimelineOperation>, k: int)
    requires
        0 <= k < xs.len(),
    ensures
        concat_map(xs.take(k + 1), f) == concat_map(xs.take(k), f) + f(xs[k]),
{
    assert(xs.take(k + 1).drop_last() =~= xs.take(k));
}

/// Where `track_index` finds a track, and that it finds any listed one.
pub proof fn lemma_track_index(xs: Seq<TrackView>, id: TrackId)
    ensures
        track_index(xs, id) is Some ==> 0 <= track_index(xs, id)->0 < xs.len()
            && xs[track_index(xs, id)->0].track_id == id,
        track_index(xs, id) is None ==> forall|j: int| 0 <= j < xs.len() ==> xs[j].track_id != id,
    decreases xs.len(),
{
    if xs.len() > 0 {
        lemma_track_index(xs.drop_last(), id);
        assert forall|j: int| 0 <= j < xs.len() - 1 implies xs.drop_last()[j] == xs[j] by {}
    }
}

/// The tracks of a materialized view have distinct ids.
pub proof fn lemma_track_ids_distinct(m: SessionModel, ts: Seq<TrackView>)
    requires
        forall|i: int| 0 <= i < ts.len() ==> track_view_ok(m, #[trigger] ts[i]),
        forall|a: int, b: int| 0 <= a < b < ts.len() ==> key_lt(track_key(ts[a]), track_key(ts[b])),
    ensures
        forall|a: int, b: int| 0 <= a < ts.len() && 0 <= b < ts.len() && a != b ==> ts[a].track_id != ts[b].track_id,
{
    assert forall|a: int, b: int| 0 <= a < ts.len() && 0 <= b < ts.len() && a != b
        implies ts[a].track_id != ts[b].track_id by {
        if ts[a].track_id == ts[b].track_id {
            assert(track_view_ok(m, ts[a]) && track_view_ok(m, ts[b]));
            lemma_key_order(track_key(ts[a]), track_key(ts[b]), track_key(ts[a]));
            if a < b {
                assert(key_lt(track_key(ts[a]), track_key(ts[b])));
            } else {
                assert(key_lt(track_key(ts[b]), track_key(ts[a])));
            }
        }
    }
}

/// The session metadata `md` shows `v`.
pub open spec fn metadata_shows(md: MetadataModel, v: SessionMetadata) -> bool {
    &&& md.name.val() == v.name@
    &&& md.sample_rate.val() == v.sample_rate
    &&& md.tempo_bpm.val() == v.tempo_bpm
    &&& md.ts_numerator.val() == v.time_signature.0
    &&& md.ts_denominator.val() == v.time_signature.1
}

/// The metadata section turns metadata showing `old` into metadata showing
/// `new`, touching nothing else.
proof fn lemma_metadata_section(m: SessionModel, old: SessionMetadata, new: SessionMetadata, l: int, p: PeerId)
    requires
        1 <= l <= u64::MAX,
        stamps_within(m, (l - 1) as u64),
        metadata_shows(m.metadata, old),
    ensures
        metadata_shows(run(m, metadata_delta(old, new), l, p).metadata, new),
        run(m, metadata_delta(old, new), l, p).tracks == m.tracks,
        run(m, metadata_delta(old, new), l, p).clips == m.clips,
        run(m, metadata_delta(old, new), l, p).envelopes == m.envelopes,
        stamps_within(run(m, metadata_delta(old, new), l, p), (l + metadata_delta(old, new).len() - 1) as u64),
{
    let ops = metadata_delta(old, new);
    if ops.len() > 0 {
        let op = ops[0];
        assert(ops =~= seq![op]);
        let t = OpTag { lamport: l as u64, peer: p };
        lemma_run_one(m, op, l, p);
        lemma_within_later(m, (l - 1) as u64, l as u64);
        lemma_applied_within(m, op, t, l as u64);
        LwwReg::lemma_holding(new.name@, t);
        LwwReg::lemma_holding(new.sample_rate, t);
        LwwReg::lemma_holding(new.tempo_bpm, t);
        LwwReg::lemma_holding(new.time_signature.0, t);
        LwwReg::lemma_holding(new.time_signature.1, t);
    }
}

/// Track model `k` shows track view `y`.
pub open spec fn track_shows(k: TrackModel, y: TrackView) -> bool {
    &&& k.alive.val()
    &&& k.name.val() == y.name@
    &&& k.kind.val() == y.kind
    &&& k.volume_db.val() == y.volume_db
    &&& k.muted.val() == y.muted
    &&& k.solo.val() == y.solo
    &&& k.order_hint.val() == y.position
}

/// Whether the insert pass (`ins`) or the update pass (`!ins`) writes
/// track `y` of the new view.
pub open spec fn picks(old: Seq<TrackView>, ins: bool, y: TrackView) -> bool {
    if ins { !kind_kept(old, y) } else { kind_kept(old, y) }
}

/// The operations one pass emits for track `y`.
pub open spec fn pass_ops(old: Seq<TrackView>, ins: bool, y: TrackView) -> Seq<TimelineOperation> {
    if ins { track_insert(old, y) } else { track_update(old, y) }
}

/// The pass wrote track `id` among the first `k` of `new`.
pub open spec fn picked_before(old: Seq<TrackView>, new: Seq<TrackView>, k: int, id: u64, ins: bool) -> bool {
    match track_index(new.take(k), TrackId(id)) {
        Some(i) => picks(old, ins, new[i]),
        None => false,
    }
}

/// `m` is `m0` after one pass over the first `k` tracks of `new`.
pub open spec fn tracks_written(m0: SessionModel, m: SessionModel, old: Seq<TrackView>, new: Seq<TrackView>, k: int,
    ins: bool) -> bool {
    &&& m.clips == m0.clips
    &&& m.metadata == m0.metadata
    &&& m.envelopes == m0.envelopes
    &&& forall|j: int| 0 <= j < k && picks(old, ins, #[trigger] new[j]) ==> m.tracks.contains_key(new[j].track_id.0)
        && track_shows(m.tracks[new[j].track_id.0], new[j])
    &&& forall|id: u64| !picked_before(old, new, k, id, ins) ==>
        (#[trigger] m.tracks.contains_key(id) == m0.tracks.contains_key(id))
        && (m0.tracks.contains_key(id) ==> m.tracks[id] == m0.tracks[id])
}

/// What a track pass needs: the new view lists each track once, and a
/// track kept with its kind is one the session shows as `old` lists it.
pub open spec fn tracks_fit(m0: SessionModel, old: Seq<TrackView>, new: Seq<TrackView>) -> bool {
    &&& forall|a: int, b: int| 0 <= a < new.len() && 0 <= b < new.len() && a != b
        ==> new[a].track_id != new[b].track_id
    &&& forall|j: int| 0 <= j < new.len() && kind_kept(old, #[trigger] new[j])
        ==> track_view_ok(m0, old[track_index(old, new[j].track_id)->0])
}

/// One step of a track pass.
#[verifier::spinoff_prover]
proof fn lemma_track_step(m0: SessionModel, m: SessionModel, old: Seq<TrackView>, new: Seq<TrackView>, j: int,
    l: int, p: PeerId, ins: bool)
    requires
        0 <= j < new.len(),
        1 <= l,
        l + pass_ops(old, ins, new[j]).len() <= u64::MAX + 1,
        stamps_within(m, (l - 1) as u64),
        tracks_written(m0, m, old, new, j, ins),
        tracks_fit(m0, old, new),
    ensures
        tracks_written(m0, run(m, pass_ops(old, ins, new[j]), l, p), old, new, j + 1, ins),
        stamps_within(run(m, pass_ops(old, ins, new[j]), l, p), (l + pass_ops(old, ins, new[j]).len() - 1) as u64),
{
    let y = new[j];
    let e = y.track_id.0;
    lemma_track_index(old, y.track_id);
    lemma_track_index(new.take(j), y.track_id);
    assert(new.take(j + 1).drop_last() =~= new.take(j));
    assert(track_index(new.take(j), y.track_id) is None) by {
        if track_index(new.take(j), y.track_id) is Some {
            let i = track_index(new.take(j), y.track_id)->0;
            assert(new.take(j)[i] == new[i]);
        }
    }
    assert(track_index(new.take(j + 1), y.track_id) == Some(j));
    assert(!picked_before(old, new, j, e, ins));
    assert forall|id: u64| id != e implies picked_before(old, new, j + 1, id, ins) == picked_before(old, new, j, id, ins) by {}
    let ops = pass_ops(old, ins, y);
    let t = OpTag { lamport: l as u64, peer: p };
    assert(m.tracks.contains_key(e) == m0.tracks.contains_key(e));
    if ops.len() == 0 {
        if picks(old, ins, y) {
            assert(!ins);
            let i = track_index(old, y.track_id)->0;
            assert(track_view_ok(m0, old[i]));
            assert(old[i].track_id == y.track_id);
            assert(m.tracks[e] == m0.tracks[e]);
            let u = crate::delta::track_updates(old[i], y);
            assert(u.name is None && u.volume_db is None && u.muted is None && u.solo is None && u.position is None);
            assert(track_shows(m.tracks[e], y));
        }
        assert forall|jj: int| 0 <= jj < j + 1 && picks(old, ins, #[trigger] new[jj]) implies
            m.tracks.contains_key(new[jj].track_id.0) && track_shows(m.tracks[new[jj].track_id.0], new[jj]) by {
            if jj == j {
                assert(new[jj] == y);
            }
        }
        assert forall|id: u64| !picked_before(old, new, j + 1, id, ins) implies
            (#[trigger] m.tracks.contains_key(id) == m0.tracks.contains_key(id))
            && (m0.tracks.contains_key(id) ==> m.tracks[id] == m0.tracks[id]) by {
            if id != e {
                assert(!picked_before(old, new, j, id, ins));
            }
        }
    } else {
        let op = ops[0];
        assert(ops =~= seq![op]);
        lemma_run_one(m, op, l, p);
        lemma_within_later(m, (l - 1) as u64, l as u64);
        lemma_applied_within(m, op, t, l as u64);
        let m2 = m.applied(op, t).0;
        LwwReg::lemma_holding(true, t);
        LwwReg::lemma_holding(y.name@, t);
        LwwReg::lemma_holding(y.kind, t);
        LwwReg::lemma_holding(y.volume_db, t);
        LwwReg::lemma_holding(y.muted, t);
        LwwReg::lemma_holding(y.solo, t);
        LwwReg::lemma_holding(y.position, t);
        if m.tracks.contains_key(e) {
            assert(track_within(m.tracks[e], (l - 1) as u64));
        }
        if !ins {
            let i = track_index(old, y.track_id)->0;
            assert(track_view_ok(m0, old[i]));
        }
        assert(track_shows(m2.tracks[e], y));
        assert forall|jj: int| 0 <= jj < j + 1 && picks(old, ins, #[trigger] new[jj]) implies
            m2.tracks.contains_key(new[jj].track_id.0) && track_shows(m2.tracks[new[jj].track_id.0], new[jj]) by {
            if jj < j {
                assert(new[jj].track_id != y.track_id);
            }
        }
        assert forall|id: u64| !picked_before(old, new, j + 1, id, ins) implies
            (#[trigger] m2.tracks.contains_key(id) == m0.tracks.contains_key(id))
            && (m0.tracks.contains_key(id) ==> m2.tracks[id] == m0.tracks[id]) by {
            assert(id != e);
        }
    }
}

/// A track pass writes every track of `new` it picks.
proof fn lemma_tracks_section(m0: SessionModel, old: Seq<TrackView>, new: Seq<TrackView>,
    f: spec_fn(TrackView) -> Seq<TimelineOperation>, l: int, p: PeerId, k: int, ins: bool)
    requires
        0 <= k <= new.len(),
        1 <= l,
        l + concat_map(new.take(k), f).len() <= u64::MAX + 1,
        forall|x: TrackView| #[trigger] f(x) == pass_ops(old, ins, x),
        stamps_within(m0, (l - 1) as u64),
        tracks_fit(m0, old, new),
    ensures
        tracks_written(m0, run(m0, concat_map(new.take(k), f), l, p), old, new, k, ins),
        stamps_within(run(m0, concat_map(new.take(k), f), l, p), (l + concat_map(new.take(k), f).len() - 1) as u64),
    decreases k,
{
    if k == 0 {
        assert(new.take(0) =~= Seq::<TrackView>::empty());
    } else {
        let j = k - 1;
        lemma_concat_map_take(new, f, j);
        let pre = concat_map(new.take(j), f);
        lemma_tracks_section(m0, old, new, f, l, p, j, ins);
        lemma_run_concat(m0, pre, f(new[j]), l, p);
        lemma_track_step(m0, run(m0, pre, l, p), old, new, j, l + pre.len(), p, ins);
    }
}

/// `m` is `m1` after the tracks among the first `k` of `old` that `new`
/// lacks were deleted.
pub open spec fn tracks_removed(m1: SessionModel, m: SessionModel, old: Seq<TrackView>, new: Seq<TrackView>, k: int) -> bool {
    &&& m.clips == m1.clips
    &&& m.metadata == m1.metadata
    &&& m.envelopes == m1.envelopes
    &&& forall|j: int| 0 <= j < k && track_index(new, #[trigger] old[j].track_id) is None
        ==> m.tracks.contains_key(old[j].track_id.0) && !m.tracks[old[j].track_id.0].alive.val()
    &&& forall|id: u64| #[trigger] m.tracks.contains_key(id) == m1.tracks.contains_key(id)
    &&& forall|id: u64| m1.tracks.contains_key(id)
        && (track_index(new, TrackId(id)) is Some || track_index(old.take(k), TrackId(id)) is None)
        ==> #[trigger] m.tracks[id] == m1.tracks[id]
}

/// What the removal section needs.
pub open spec fn removals_fit(m1: SessionModel, old: Seq<TrackView>, new: Seq<TrackView>) -> bool {
    &&& forall|a: int, b: int| 0 <= a < old.len() && 0 <= b < old.len() && a != b
        ==> old[a].track_id != old[b].track_id
    &&& forall|j: int| 0 <= j < old.len() && track_index(new, #[trigger] old[j].track_id) is None
        ==> m1.tracks.contains_key(old[j].track_id.0)
}

/// One step of the track removal section.
proof fn lemma_removal_step(m1: SessionModel, m: SessionModel, old: Seq<TrackView>, new: Seq<TrackView>, j: int,
    l: int, p: PeerId)
    requires
        0 <= j < old.len(),
        1 <= l,
        l + track_removal(new, old[j]).len() <= u64::MAX + 1,
        stamps_within(m, (l - 1) as u64),
        tracks_removed(m1, m, old, new, j),
        removals_fit(m1, old, new),
    ensures
        tracks_removed(m1, run(m, track_removal(new, old[j]), l, p), old, new, j + 1),
        stamps_within(run(m, track_removal(new, old[j]), l, p), (l + track_removal(new, old[j]).len() - 1) as u64),
{
    let x = old[j];
    let e = x.track_id.0;
    assert(old.take(j + 1).drop_last() =~= old.take(j));
    assert forall|id: u64| track_index(old.take(j + 1), TrackId(id)) is None
        implies track_index(old.take(j), TrackId(id)) is None && id != e by {
        lemma_track_index(old.take(j), TrackId(id));
    }
    let ops = track_removal(new, x);
    if ops.len() > 0 {
        let op = ops[0];
        assert(ops =~= seq![op]);
        let t = OpTag { lamport: l as u64, peer: p };
        lemma_run_one(m, op, l, p);
        lemma_within_later(m, (l - 1) as u64, l as u64);
        lemma_applied_within(m, op, t, l as u64);
        let m2 = m.applied(op, t).0;
        assert(m.tracks.contains_key(e));
        assert(track_within(m.tracks[e], (l - 1) as u64));
        LwwReg::lemma_holding(false, t);
        assert forall|jj: int| 0 <= jj < j + 1 && track_index(new, #[trigger] old[jj].track_id) is None
            implies m2.tracks.contains_key(old[jj].track_id.0) && !m2.tracks[old[jj].track_id.0].alive.val() by {
            if jj < j {
                assert(old[jj].track_id != x.track_id);
            }
        }
        assert forall|id: u64| m1.tracks.contains_key(id)
            && (track_index(new, TrackId(id)) is Some || track_index(old.take(j + 1), TrackId(id)) is None)
            implies #[trigger] m2.tracks[id] == m1.tracks[id] by {
            if id == e {
                assert(track_index(new, TrackId(id)) is None);
            }
        }
    }
}

/// The removal section deletes the tracks of `old` that `new` lacks.
proof fn lemma_removals_section(m1: SessionModel, old: Seq<TrackView>, new: Seq<TrackView>,
    f: spec_fn(TrackView) -> Seq<TimelineOperation>, l: int, p: PeerId, k: int)
    requires
        0 <= k <= old.len(),
        1 <= l,
        l + concat_map(old.take(k), f).len() <= u64::MAX + 1,
        forall|x: TrackView| #[trigger] f(x) == track_removal(new, x),
        stamps_within(m1, (l - 1) as u64),
        removals_fit(m1, old, new),
    ensures
        tracks_removed(m1, run(m1, concat_map(old.take(k), f), l, p), old, new, k),
        stamps_within(run(m1, concat_map(old.take(k), f), l, p), (l + concat_map(old.take(k), f).len() - 1) as u64),
    decreases k,
{
    if k == 0 {
        assert(old.take(0) =~= Seq::<TrackView>::empty());
    } else {
        let j = k - 1;
        lemma_concat_map_take(old, f, j);
        let pre = concat_map(old.take(j), f);
        lemma_removals_section(m1, old, new, f, l, p, j);
        lemma_run_concat(m1, pre, f(old[j]), l, p);
        lemma_removal_step(m1, run(m1, pre, l, p), old, new, j, l + pre.len(), p);
    }
}

/// Where `clip_index` finds a clip, and that it finds any listed one.
pub proof fn lemma_clip_index(xs: Seq<ClipView>, id: ClipId)
    ensures
        clip_index(xs, id) is Some ==> 0 <= clip_index(xs, id)->0 < xs.len()
            && xs[clip_index(xs, id)->0].clip_id == id,
        clip_index(xs, id) is None ==> forall|j: int| 0 <= j < xs.len() ==> xs[j].clip_id != id,
    decreases xs.len(),
{
    if xs.len() > 0 {
        lemma_clip_index(xs.drop_last(), id);
        assert forall|j: int| 0 <= j < xs.len() - 1 implies xs.drop_last()[j] == xs[j] by {}
    }
}

/// The clips of a materialized view have distinct ids.
pub proof fn lemma_clip_ids_distinct(m: SessionModel, cs: Seq<ClipView>)
    requires
        forall|i: int| 0 <= i < cs.len() ==> clip_view_ok(m, #[trigger] cs[i]),
        forall|a: int, b: int| 0 <= a < b < cs.len() ==> key_lt(clip_key(m, cs[a]), clip_key(m, cs[b])),
    ensures
        forall|a: int, b: int| 0 <= a < cs.len() && 0 <= b < cs.len() && a != b ==> cs[a].clip_id != cs[b].clip_id,
{
    assert forall|a: int, b: int| 0 <= a < cs.len() && 0 <= b < cs.len() && a != b
        implies cs[a].clip_id != cs[b].clip_id by {
        if cs[a].clip_id == cs[b].clip_id {
            assert(clip_view_ok(m, cs[a]) && clip_view_ok(m, cs[b]));
            lemma_key_order(clip_key(m, cs[a]), clip_key(m, cs[b]), clip_key(m, cs[a]));
            if a < b {
                assert(key_lt(clip_key(m, cs[a]), clip_key(m, cs[b])));
            } else {
                assert(key_lt(clip_key(m, cs[b]), clip_key(m, cs[a])));
            }
        }
    }
}

/// A standalone clip is visible exactly when it is alive, has a positive
/// duration and sits on a live track.
pub proof fn lemma_standalone_visible(m: SessionModel, id: u64)
    requires
        m.clips.contains_key(id),
        standalone(m.clips[id]),
    ensures
        m.resolved(id).visible == (m.clips[id].alive.val() && m.clips[id].duration_frames.val() > 0
            && m.tracks.contains_key(m.clips[id].track.val().0) && m.tracks[m.clips[id].track.val().0].alive.val()),
{
    lemma_resolved_standalone(m, id);
    reveal(SessionModel::resolved);
    let c = m.clips[id];
    assert(crate::clip_crdt::first_split(c.splits) is None);
}

/// Each register of a clip after an operation above all its tags holds
/// what the operation writes to it, or what it held.
proof fn lemma_clip_applied_newer(c: ClipModel, op: TimelineOperation, t: OpTag)
    requires
        t.lamport >= 1,
        clip_within(c, (t.lamport - 1) as u64),
    ensures
        ({
            let d = c.applied(op, t);
            &&& alive_write(op) is Some ==> d.alive.val() == alive_write(op)->0 && d.alive.stamp() == t
            &&& track_write(op) is Some ==> d.track.val() == track_write(op)->0 && d.track.stamp() == t
            &&& start_write(op) is Some ==> d.start_frame.val() == start_write(op)->0 && d.start_frame.stamp() == t
            &&& duration_write(op) is Some ==> d.duration_frames.val() == duration_write(op)->0
                && d.duration_frames.stamp() == t
            &&& name_write(op) is Some ==> d.name.val() == name_write(op)->0
            &&& source_write(op) is Some ==> d.source.val() == source_write(op)->0
            &&& color_write(op) is Some ==> d.color.val() == color_write(op)->0
            &&& gain_write(op) is Some ==> d.gain.val() == gain_write(op)->0
            &&& muted_write(op) is Some ==> d.muted.val() == muted_write(op)->0
            &&& locked_write(op) is Some ==> d.locked.val() == locked_write(op)->0
            &&& hint_write(op) is Some ==> d.order_hint.val() == hint_write(op)->0
        }),
{
    if let Some(v) = alive_write(op) { LwwReg::lemma_holding(v, t); }
    if let Some(v) = track_write(op) { LwwReg::lemma_holding(v, t); }
    if let Some(v) = start_write(op) { LwwReg::lemma_holding(v, t); }
    if let Some(v) = duration_write(op) { LwwReg::lemma_holding(v, t); }
    if let Some(v) = name_write(op) { LwwReg::lemma_holding(v, t); }
    if let Some(v) = source_write(op) { LwwReg::lemma_holding(v, t); }
    if let Some(v) = color_write(op) { LwwReg::lemma_holding(v, t); }
    if let Some(v) = gain_write(op) { LwwReg::lemma_holding(v, t); }
    if let Some(v) = muted_write(op) { LwwReg::lemma_holding(v, t); }
    if let Some(v) = locked_write(op) { LwwReg::lemma_holding(v, t); }
    if let Some(v) = hint_write(op) { LwwReg::lemma_holding(v, t); }
}

/// `op` edits or deletes existing clip `e`.
pub open spec fn edits_clip(op: TimelineOperation, e: u64) -> bool {
    match op {
        TimelineOperation::MoveClip { clip_id, .. } => clip_id.0 == e,
        TimelineOperation::TrimClip { clip_id, .. } => clip_id.0 == e,
        TimelineOperation::UpdateClipMetadata { clip_id, .. } => clip_id.0 == e,
        TimelineOperation::DeleteClip { clip_id } => clip_id.0 == e,
        _ => false,
    }
}

/// Running at most one edit of clip `e` changes that clip alone.
proof fn lemma_clip_edit_run(m: SessionModel, ops: Seq<TimelineOperation>, e: u64, l: int, p: PeerId)
    requires
        ops.len() <= 1,
        ops.len() == 1 ==> edits_clip(ops[0], e),
        m.clips.contains_key(e),
        1 <= l,
        l + ops.len() <= u64::MAX + 1,
        stamps_within(m, (l - 1) as u64),
    ensures
        run(m, ops, l, p).tracks == m.tracks,
        run(m, ops, l, p).metadata == m.metadata,
        run(m, ops, l, p).envelopes == m.envelopes,
        ops.len() == 0 ==> run(m, ops, l, p) == m,
        ops.len() == 1 ==> run(m, ops, l, p).clips == m.clips.insert(e,
            m.clips[e].applied(ops[0], OpTag { lamport: l as u64, peer: p })),
        clip_within(m.clips[e], (l - 1) as u64),
        stamps_within(run(m, ops, l, p), (l + ops.len() - 1) as u64),
{
    if ops.len() == 1 {
        let op = ops[0];
        assert(ops =~= seq![op]);
        let t = OpTag { lamport: l as u64, peer: p };
        lemma_run_one(m, op, l, p);
        lemma_within_later(m, (l - 1) as u64, l as u64);
        lemma_applied_within(m, op, t, l as u64);
    }
}

/// Clip model `c` shows clip view `y`, standing alone.
pub open spec fn clip_shows(c: ClipModel, y: ClipView) -> bool {
    &&& standalone(c)
    &&& c.alive.val()
    &&& c.track.val() == y.track_id
    &&& c.start_frame.val() == y.start_frame
    &&& c.duration_frames.val() == y.duration_frames
    &&& c.name.val() == y.name@
    &&& c.source.val() == y.source@
    &&& c.color.val() == y.color
    &&& c.gain.val() == y.gain
    &&& c.muted.val() == y.muted
    &&& c.locked.val() == y.locked
    &&& c.order_hint.val() == y.order_hint
}

/// `m` is `m0` after the first `k` clips of `new` were written.
pub open spec fn clips_written(m0: SessionModel, m: SessionModel, new: Seq<ClipView>, k: int) -> bool {
    &&& m.tracks == m0.tracks
    &&& m.metadata == m0.metadata
    &&& m.envelopes == m0.envelopes
    &&& forall|j: int| 0 <= j < k ==> m.clips.contains_key(#[trigger] new[j].clip_id.0)
        && clip_shows(m.clips[new[j].clip_id.0], new[j])
    &&& forall|id: u64| clip_index(new.take(k), ClipId(id)) is None ==>
        (#[trigger] m.clips.contains_key(id) == m0.clips.contains_key(id))
        && (m0.clips.contains_key(id) ==> m.clips[id] == m0.clips[id])
}

/// What the clip section needs of the old view, the new one and the
/// session.
pub open spec fn clips_fit(m0: SessionModel, old: Seq<ClipView>, new: Seq<ClipView>) -> bool {
    &&& forall|i: int| 0 <= i < old.len() ==> m0.clips.contains_key((#[trigger] old[i]).clip_id.0)
        && clip_shows(m0.clips[old[i].clip_id.0], old[i])
    &&& forall|id: u64| m0.clips.contains_key(id) ==> standalone(#[trigger] m0.clips[id])
    &&& forall|a: int, b: int| 0 <= a < new.len() && 0 <= b < new.len() && a != b
        ==> new[a].clip_id != new[b].clip_id
    &&& forall|j: int| 0 <= j < new.len() ==> (#[trigger] new[j]).start_frame + new[j].duration_frames <= u64::MAX
}

/// Writing a clip that the old view lacks.
proof fn lemma_clip_insert_step(m: SessionModel, y: ClipView, l: int, p: PeerId)
    requires
        1 <= l <= u64::MAX,
        stamps_within(m, (l - 1) as u64),
        m.clips.contains_key(y.clip_id.0) ==> standalone(m.clips[y.clip_id.0]),
        y.start_frame + y.duration_frames <= u64::MAX,
    ensures
        ({
            let op = TimelineOperation::InsertClip {
                clip_id: y.clip_id,
                track_id: y.track_id,
                clip: crate::operation::ClipData {
                    name: y.name,
                    source: y.source,
                    start_frame: y.start_frame,
                    duration_frames: y.duration_frames,
                    color: y.color,
                    gain: y.gain,
                    muted: y.muted,
                    locked: y.locked,
                },
                position: y.order_hint,
            };
            let m2 = run(m, seq![op], l, p);
            &&& m2.tracks == m.tracks && m2.metadata == m.metadata && m2.envelopes == m.envelopes
            &&& m2.clips.contains_key(y.clip_id.0) && clip_shows(m2.clips[y.clip_id.0], y)
            &&& m2.clips == m.clips.insert(y.clip_id.0, m2.clips[y.clip_id.0])
            &&& stamps_within(m2, l as u64)
        }),
{
    let e = y.clip_id.0;
    let op = TimelineOperation::InsertClip {
        clip_id: y.clip_id,
        track_id: y.track_id,
        clip: crate::operation::ClipData {
            name: y.name,
            source: y.source,
            start_frame: y.start_frame,
            duration_frames: y.duration_frames,
            color: y.color,
            gain: y.gain,
            muted: y.muted,
            locked: y.locked,
        },
        position: y.order_hint,
    };
    let t = OpTag { lamport: l as u64, peer: p };
    lemma_run_one(m, op, l, p);
    lemma_within_later(m, (l - 1) as u64, l as u64);
    lemma_applied_within(m, op, t, l as u64);
    let m2 = m.applied(op, t).0;
    if m.clips.contains_key(e) {
        assert(clip_within(m.clips[e], (l - 1) as u64));
        lemma_clip_applied_newer(m.clips[e], op, t);
        assert(clip_shows(m2.clips[e], y));
    } else {
        LwwReg::lemma_holding(true, t);
        LwwReg::lemma_holding(y.track_id, t);
        LwwReg::lemma_holding(y.start_frame, t);
        LwwReg::lemma_holding(y.duration_frames, t);
        LwwReg::lemma_holding(y.name@, t);
        LwwReg::lemma_holding(y.source@, t);
        LwwReg::lemma_holding(y.color, t);
        LwwReg::lemma_holding(y.gain, t);
        LwwReg::lemma_holding(y.muted, t);
        LwwReg::lemma_holding(y.locked, t);
        LwwReg::lemma_holding(y.order_hint, t);
        assert(clip_shows(m2.clips[e], y));
    }
}

/// Writing a clip that the old view lists as `old[i]`: a move, a trim of
/// the end and a metadata update, each where something changed.
#[verifier::spinoff_prover]
proof fn lemma_clip_change_step(m: SessionModel, old: Seq<ClipView>, i: int, y: ClipView, l: int, p: PeerId)
    requires
        clip_index(old, y.clip_id) == Some(i),
        0 <= i < old.len(),
        old[i].clip_id == y.clip_id,
        m.clips.contains_key(y.clip_id.0),
        clip_shows(m.clips[y.clip_id.0], old[i]),
        y.start_frame + y.duration_frames <= u64::MAX,
        1 <= l,
        l + clip_delta(old, y).len() <= u64::MAX + 1,
        stamps_within(m, (l - 1) as u64),
    ensures
        ({
            let m2 = run(m, clip_delta(old, y), l, p);
            &&& m2.tracks == m.tracks && m2.metadata == m.metadata && m2.envelopes == m.envelopes
            &&& m2.clips.contains_key(y.clip_id.0) && clip_shows(m2.clips[y.clip_id.0], y)
            &&& m2.clips == m.clips.insert(y.clip_id.0, m2.clips[y.clip_id.0])
            &&& stamps_within(m2, (l + clip_delta(old, y).len() - 1) as u64)
        }),
{
    let e = y.clip_id.0;
    let c = y;
    let p0 = old[i];
    let mv = if p0.track_id != c.track_id || p0.start_frame != c.start_frame || p0.order_hint != c.order_hint {
        seq![TimelineOperation::MoveClip {
            clip_id: c.clip_id,
            new_track_id: c.track_id,
            new_start_frame: c.start_frame,
            new_position: c.order_hint,
        }]
    } else {
        Seq::empty()
    };
    let tr = if p0.duration_frames != c.duration_frames {
        seq![TimelineOperation::TrimClip {
            clip_id: c.clip_id,
            new_start_frame: c.start_frame,
            new_duration: c.duration_frames,
            edge: crate::operation::TrimEdge::End,
        }]
    } else {
        Seq::empty()
    };
    let u = crate::delta::clip_updates(p0, c);
    let md = if u.name is None && u.source is None && u.color is None && u.gain is None && u.muted is None
        && u.locked is None {
        Seq::empty()
    } else {
        seq![TimelineOperation::UpdateClipMetadata { clip_id: c.clip_id, updates: u }]
    };
    assert(clip_delta(old, y) == mv + tr + md);
    lemma_run_concat(m, mv + tr, md, l, p);
    lemma_run_concat(m, mv, tr, l, p);
    let la = l + mv.len();
    let lb = la + tr.len();
    lemma_clip_edit_run(m, mv, e, l, p);
    let ma = run(m, mv, l, p);
    lemma_clip_edit_run(ma, tr, e, la, p);
    let mb = run(ma, tr, la, p);
    lemma_clip_edit_run(mb, md, e, lb, p);
    let mc = run(mb, md, lb, p);
    let c0 = m.clips[e];
    let ca = ma.clips[e];
    let cb = mb.clips[e];
    let cc = mc.clips[e];
    if mv.len() == 1 {
        lemma_clip_applied_newer(c0, mv[0], OpTag { lamport: l as u64, peer: p });
    }
    if tr.len() == 1 {
        lemma_clip_applied_newer(ca, tr[0], OpTag { lamport: la as u64, peer: p });
    }
    if md.len() == 1 {
        lemma_clip_applied_newer(cb, md[0], OpTag { lamport: lb as u64, peer: p });
    }
    assert(cc.parent is None);
    assert(forall|k: u64| !cc.splits.contains_key(k));
    assert(cc.start_frame.stamp() != OpTag::spec_initial());
    assert(cc.duration_frames.stamp() != OpTag::spec_initial());
    assert(clip_shows(cc, y));
}

/// One step of the clip section.
#[verifier::spinoff_prover]
#[verifier::rlimit(60)]
proof fn lemma_clip_step(m0: SessionModel, m: SessionModel, old: Seq<ClipView>, new: Seq<ClipView>, j: int,
    l: int, p: PeerId)
    requires
        0 <= j < new.len(),
        1 <= l,
        l + clip_delta(old, new[j]).len() <= u64::MAX + 1,
        stamps_within(m, (l - 1) as u64),
        clips_written(m0, m, new, j),
        clips_fit(m0, old, new),
    ensures
        clips_written(m0, run(m, clip_delta(old, new[j]), l, p), new, j + 1),
        stamps_within(run(m, clip_delta(old, new[j]), l, p), (l + clip_delta(old, new[j]).len() - 1) as u64),
{
    let y = new[j];
    let e = y.clip_id.0;
    lemma_clip_index(old, y.clip_id);
    lemma_clip_index(new.take(j), y.clip_id);
    assert(new.take(j + 1).drop_last() =~= new.take(j));
    assert(clip_index(new.take(j), y.clip_id) is None) by {
        if clip_index(new.take(j), y.clip_id) is Some {
            let i = clip_index(new.take(j), y.clip_id)->0;
            assert(new.take(j)[i] == new[i]);
        }
    }
    assert forall|id: u64| clip_index(new.take(j + 1), ClipId(id)) is None
        implies clip_index(new.take(j), ClipId(id)) is None && id != e by {
        lemma_clip_index(new.take(j), ClipId(id));
    }
    assert(m.clips.contains_key(e) == m0.clips.contains_key(e));
    assert(y.start_frame + y.duration_frames <= u64::MAX);
    let m2 = run(m, clip_delta(old, y), l, p);
    match clip_index(old, y.clip_id) {
        None => {
            lemma_clip_insert_step(m, y, l, p);
            assert(clip_delta(old, y) == seq![TimelineOperation::InsertClip {
                clip_id: y.clip_id,
                track_id: y.track_id,
                clip: crate::operation::ClipData {
                    name: y.name,
                    source: y.source,
                    start_frame: y.start_frame,
                    duration_frames: y.duration_frames,
                    color: y.color,
                    gain: y.gain,
                    muted: y.muted,
                    locked: y.locked,
                },
                position: y.order_hint,
            }]);
            lemma_clip_step_finish(m0, m, m2, new, j, e);
        },
        Some(i) => {
            assert(m0.clips.contains_key(old[i].clip_id.0) && clip_shows(m0.clips[old[i].clip_id.0], old[i]));
            lemma_clip_change_step(m, old, i, y, l, p);
            lemma_clip_step_finish(m0, m, m2, new, j, e);
        },
    }
}

/// A step that wrote clip `new[j]` alone extends the written prefix.
proof fn lemma_clip_step_finish(m0: SessionModel, m: SessionModel, m2: SessionModel, new: Seq<ClipView>, j: int,
    e: u64)
    requires
        0 <= j < new.len(),
        e == new[j].clip_id.0,
        clips_written(m0, m, new, j),
        forall|a: int, b: int| 0 <= a < new.len() && 0 <= b < new.len() && a != b
            ==> new[a].clip_id != new[b].clip_id,
        m2.tracks == m.tracks && m2.metadata == m.metadata && m2.envelopes == m.envelopes,
        m2.clips.contains_key(new[j].clip_id.0) && clip_shows(m2.clips[new[j].clip_id.0], new[j]),
        m2.clips == m.clips.insert(e, m2.clips[e]),
    ensures
        clips_written(m0, m2, new, j + 1),
{
    assert(new.take(j + 1).drop_last() =~= new.take(j));
    assert forall|jj: int| 0 <= jj < j + 1 implies m2.clips.contains_key(#[trigger] new[jj].clip_id.0)
        && clip_shows(m2.clips[new[jj].clip_id.0], new[jj]) by {
        if jj < j {
            assert(new[jj].clip_id != new[j].clip_id);
        }
    }
    assert forall|id: u64| clip_index(new.take(j + 1), ClipId(id)) is None implies
        (#[trigger] m2.clips.contains_key(id) == m0.clips.contains_key(id))
        && (m0.clips.contains_key(id) ==> m2.clips[id] == m0.clips[id]) by {
        lemma_clip_index(new.take(j), ClipId(id));
        assert(clip_index(new.take(j), ClipId(id)) is None && id != e);
    }
}

/// The clip section writes every clip of `new`.
proof fn lemma_clips_section(m0: SessionModel, old: Seq<ClipView>, new: Seq<ClipView>,
    f: spec_fn(ClipView) -> Seq<TimelineOperation>, l: int, p: PeerId, k: int)
    requires
        0 <= k <= new.len(),
        1 <= l,
        l + concat_map(new.take(k), f).len() <= u64::MAX + 1,
        forall|x: ClipView| #[trigger] f(x) == clip_delta(old, x),
        stamps_within(m0, (l - 1) as u64),
        clips_fit(m0, old, new),
    ensures
        clips_written(m0, run(m0, concat_map(new.take(k), f), l, p), new, k),
        stamps_within(run(m0, concat_map(new.take(k), f), l, p), (l + concat_map(new.take(k), f).len() - 1) as u64),
    decreases k,
{
    if k == 0 {
        assert(new.take(0) =~= Seq::<ClipView>::empty());
    } else {
        let j = k - 1;
        lemma_concat_map_take(new, f, j);
        let pre = concat_map(new.take(j), f);
        lemma_clips_section(m0, old, new, f, l, p, j);
        lemma_run_concat(m0, pre, f(new[j]), l, p);
        lemma_clip_step(m0, run(m0, pre, l, p), old, new, j, l + pre.len(), p);
    }
}

/// `m` is `m4` after the clips among the first `k` of `old` that `new`
/// lacks were deleted.
pub open spec fn clips_removed(m4: SessionModel, m: SessionModel, old: Seq<ClipView>, new: Seq<ClipView>, k: int) -> bool {
    &&& m.tracks == m4.tracks
    &&& m.metadata == m4.metadata
    &&& m.envelopes == m4.envelopes
    &&& forall|j: int| 0 <= j < k && clip_index(new, #[trigger] old[j].clip_id) is None
        ==> m.clips.contains_key(old[j].clip_id.0) && !m.clips[old[j].clip_id.0].alive.val()
        && standalone(m.clips[old[j].clip_id.0])
    &&& forall|id: u64| #[trigger] m.clips.contains_key(id) == m4.clips.contains_key(id)
    &&& forall|id: u64| m4.clips.contains_key(id)
        && (clip_index(new, ClipId(id)) is Some || clip_index(old.take(k), ClipId(id)) is None)
        ==> #[trigger] m.clips[id] == m4.clips[id]
}

/// What the clip removal section needs.
pub open spec fn clip_removals_fit(m4: SessionModel, old: Seq<ClipView>, new: Seq<ClipView>) -> bool {
    &&& forall|a: int, b: int| 0 <= a < old.len() && 0 <= b < old.len() && a != b
        ==> old[a].clip_id != old[b].clip_id
    &&& forall|j: int| 0 <= j < old.len() && clip_index(new, #[trigger] old[j].clip_id) is None
        ==> m4.clips.contains_key(old[j].clip_id.0) && standalone(m4.clips[old[j].clip_id.0])
}

/// The clip removal section deletes the clips of `old` that `new` lacks.
proof fn lemma_clip_removals_section(m4: SessionModel, old: Seq<ClipView>, new: Seq<ClipView>,
    f: spec_fn(ClipView) -> Seq<TimelineOperation>, l: int, p: PeerId, k: int)
    requires
        0 <= k <= old.len(),
        1 <= l,
        l + concat_map(old.take(k), f).len() <= u64::MAX + 1,
        forall|x: ClipView| #[trigger] f(x) == clip_removal(new, x),
        stamps_within(m4, (l - 1) as u64),
        clip_removals_fit(m4, old, new),
    ensures
        clips_removed(m4, run(m4, concat_map(old.take(k), f), l, p), old, new, k),
        stamps_within(run(m4, concat_map(old.take(k), f), l, p), (l + concat_map(old.take(k), f).len() - 1) as u64),
    decreases k,
{
    if k == 0 {
        assert(old.take(0) =~= Seq::<ClipView>::empty());
    } else {
        let j = k - 1;
        lemma_concat_map_take(old, f, j);
        let pre = concat_map(old.take(j), f);
        lemma_clip_removals_section(m4, old, new, f, l, p, j);
        lemma_run_concat(m4, pre, f(old[j]), l, p);
        let m = run(m4, pre, l, p);
        let lk = l + pre.len();
        let x = old[j];
        let e = x.clip_id.0;
        assert(old.take(j + 1).drop_last() =~= old.take(j));
        assert forall|id: u64| clip_index(old.take(j + 1), ClipId(id)) is None
            implies clip_index(old.take(j), ClipId(id)) is None && id != e by {
            lemma_clip_index(old.take(j), ClipId(id));
        }
        let ops = f(x);
        if ops.len() > 0 {
            assert(clip_index(new, x.clip_id) is None);
            assert(m.clips.contains_key(e));
            assert(m.clips[e] == m4.clips[e]) by {
                lemma_clip_index(old.take(j), x.clip_id);
                if clip_index(old.take(j), x.clip_id) is Some {
                    let i = clip_index(old.take(j), x.clip_id)->0;
                    assert(old.take(j)[i] == old[i]);
                }
            }
            lemma_clip_edit_run(m, ops, e, lk, p);
            lemma_clip_applied_newer(m.clips[e], ops[0], OpTag { lamport: lk as u64, peer: p });
            let m2 = run(m, ops, lk, p);
            assert forall|jj: int| 0 <= jj < k && clip_index(new, #[trigger] old[jj].clip_id) is None
                implies m2.clips.contains_key(old[jj].clip_id.0) && !m2.clips[old[jj].clip_id.0].alive.val()
                && standalone(m2.clips[old[jj].clip_id.0]) by {
                if jj < j {
                    assert(old[jj].clip_id != x.clip_id);
                }
            }
            assert forall|id: u64| m4.clips.contains_key(id)
                && (clip_index(new, ClipId(id)) is Some || clip_index(old.take(k), ClipId(id)) is None)
                implies #[trigger] m2.clips[id] == m4.clips[id] by {
                if id == e {
                    assert(clip_index(new, ClipId(id)) is None);
                }
            }
        }
    }
}

/// The key of a view's envelope entry.
pub open spec fn entry_key(x: EnvelopeEntry) -> EnvelopeKey {
    (x.0, x.1@)
}

/// Where `envelope_index` finds an envelope, and that it finds any listed
/// one.
pub proof fn lemma_envelope_index(es: Seq<EnvelopeEntry>, k: EnvelopeKey)
    ensures
        envelope_index(es, k.0, k.1) is Some ==> 0 <= envelope_index(es, k.0, k.1)->0 < es.len()
            && entry_key(es[envelope_index(es, k.0, k.1)->0]) == k,
        envelope_index(es, k.0, k.1) is None ==> forall|j: int| 0 <= j < es.len() ==> entry_key(es[j]) != k,
    decreases es.len(),
{
    if es.len() > 0 {
        lemma_envelope_index(es.drop_last(), k);
        assert forall|j: int| 0 <= j < es.len() - 1 implies es.drop_last()[j] == es[j] by {}
    }
}

/// `m` is `m5` after the first `k` envelopes of `new` were written.
pub open spec fn envelopes_written(m5: SessionModel, m: SessionModel, new: Seq<EnvelopeEntry>, k: int) -> bool {
    &&& m.tracks == m5.tracks
    &&& m.clips == m5.clips
    &&& m.metadata == m5.metadata
    &&& forall|j: int| 0 <= j < k ==> m.envelopes.contains_key(#[trigger] entry_key(new[j]))
        && m.envelopes[entry_key(new[j])].val() == new[j].2@
    &&& forall|key: EnvelopeKey| envelope_index(new.take(k), key.0, key.1) is None ==>
        (#[trigger] m.envelopes.contains_key(key) == m5.envelopes.contains_key(key))
        && (m5.envelopes.contains_key(key) ==> m.envelopes[key] == m5.envelopes[key])
}

/// The target of an envelope exists in `m`.
pub open spec fn target_exists(m: SessionModel, t: TargetId) -> bool {
    match t {
        TargetId::Clip(c) => m.clips.contains_key(c.0),
        TargetId::Track(k) => m.tracks.contains_key(k.0),
    }
}

/// What the envelope section needs.
pub open spec fn envelopes_fit(m5: SessionModel, old: Seq<EnvelopeEntry>, new: Seq<EnvelopeEntry>) -> bool {
    &&& forall|a: int, b: int| 0 <= a < new.len() && 0 <= b < new.len() && a != b
        ==> entry_key(new[a]) != entry_key(new[b])
    &&& forall|j: int| 0 <= j < new.len() ==> target_exists(m5, (#[trigger] new[j]).0)
    &&& forall|i: int| 0 <= i < old.len() ==> m5.envelopes.contains_key(#[trigger] entry_key(old[i]))
        && m5.envelopes[entry_key(old[i])].val() == old[i].2@
}

/// The envelope section writes every envelope of `new`.
#[verifier::spinoff_prover]
#[verifier::rlimit(40)]
proof fn lemma_envelopes_section(m5: SessionModel, old: Seq<EnvelopeEntry>, new: Seq<EnvelopeEntry>,
    f: spec_fn(EnvelopeEntry) -> Seq<TimelineOperation>, l: int, p: PeerId, k: int)
    requires
        0 <= k <= new.len(),
        1 <= l,
        l + concat_map(new.take(k), f).len() <= u64::MAX + 1,
        forall|x: EnvelopeEntry| #[trigger] f(x) == envelope_delta(old, x),
        stamps_within(m5, (l - 1) as u64),
        envelopes_fit(m5, old, new),
    ensures
        envelopes_written(m5, run(m5, concat_map(new.take(k), f), l, p), new, k),
        stamps_within(run(m5, concat_map(new.take(k), f), l, p), (l + concat_map(new.take(k), f).len() - 1) as u64),
    decreases k,
{
    if k == 0 {
        assert(new.take(0) =~= Seq::<EnvelopeEntry>::empty());
    } else {
        let j = k - 1;
        lemma_concat_map_take(new, f, j);
        let pre = concat_map(new.take(j), f);
        lemma_envelopes_section(m5, old, new, f, l, p, j);
        lemma_run_concat(m5, pre, f(new[j]), l, p);
        let m = run(m5, pre, l, p);
        let lk = l + pre.len();
        let x = new[j];
        let key = entry_key(x);
        lemma_envelope_index(old, key);
        lemma_envelope_index(new.take(j), key);
        assert(new.take(j + 1).drop_last() =~= new.take(j));
        assert(envelope_index(new.take(j), key.0, key.1) is None) by {
            if envelope_index(new.take(j), key.0, key.1) is Some {
                let i = envelope_index(new.take(j), key.0, key.1)->0;
                assert(new.take(j)[i] == new[i]);
            }
        }
        assert forall|kk: EnvelopeKey| envelope_index(new.take(j + 1), kk.0, kk.1) is None
            implies envelope_index(new.take(j), kk.0, kk.1) is None && kk != key by {
            lemma_envelope_index(new.take(j), kk);
        }
        let ops = f(x);
        if ops.len() == 0 {
            let i = envelope_index(old, key.0, key.1)->0;
            assert(m5.envelopes.contains_key(entry_key(old[i])));
        } else {
            let op = ops[0];
            assert(ops =~= seq![op]);
            let t = OpTag { lamport: lk as u64, peer: p };
            lemma_run_one(m, op, lk, p);
            lemma_within_later(m, (lk - 1) as u64, lk as u64);
            lemma_applied_within(m, op, t, lk as u64);
            LwwReg::lemma_holding(x.2@, t);
            assert(target_exists(m5, x.0));
            if m.envelopes.contains_key(key) {
                assert(m.envelopes[key].stamp().lamport <= (lk - 1) as u64);
            } else {
                LwwReg::lemma_holding(Seq::<crate::operation::EnvelopePoint>::empty(), OpTag::spec_initial());
            }
            let m2 = m.applied(op, t).0;
            assert(m2.envelopes[key].val() == x.2@);
            assert forall|jj: int| 0 <= jj < k implies m2.envelopes.contains_key(#[trigger] entry_key(new[jj]))
                && m2.envelopes[entry_key(new[jj])].val() == new[jj].2@ by {
                if jj < j {
                    assert(entry_key(new[jj]) != key);
                }
            }
            assert forall|kk: EnvelopeKey| envelope_index(new.take(k), kk.0, kk.1) is None implies
                (#[trigger] m2.envelopes.contains_key(kk) == m5.envelopes.contains_key(kk))
                && (m5.envelopes.contains_key(kk) ==> m2.envelopes[kk] == m5.envelopes[kk]) by {
                assert(envelope_index(new.take(j), kk.0, kk.1) is None && kk != key);
            }
        }
    }
}

/// `m` is `m0` with every track of `new` shown and every other track
/// untouched.
pub open spec fn tracks_shown(m0: SessionModel, m: SessionModel, new: Seq<TrackView>) -> bool {
    &&& m.clips == m0.clips && m.metadata == m0.metadata && m.envelopes == m0.envelopes
    &&& forall|j: int| 0 <= j < new.len() ==> m.tracks.contains_key(#[trigger] new[j].track_id.0)
        && track_shows(m.tracks[new[j].track_id.0], new[j])
    &&& forall|id: u64| track_index(new, TrackId(id)) is None
        ==> (#[trigger] m.tracks.contains_key(id) == m0.tracks.contains_key(id))
        && (m0.tracks.contains_key(id) ==> m.tracks[id] == m0.tracks[id])
}

/// The two track passes, inserts then updates: every track of `new` is
/// shown, every track that `new` lacks is untouched.
#[verifier::spinoff_prover]
proof fn lemma_delta_track_passes(m0: SessionModel, old: Seq<TrackView>, new: Seq<TrackView>,
    fa: spec_fn(TrackView) -> Seq<TimelineOperation>, fb: spec_fn(TrackView) -> Seq<TimelineOperation>, l: int,
    p: PeerId)
    requires
        1 <= l,
        l + concat_map(new, fa).len() + concat_map(new, fb).len() <= u64::MAX + 1,
        forall|x: TrackView| #[trigger] fa(x) == track_insert(old, x),
        forall|x: TrackView| #[trigger] fb(x) == track_update(old, x),
        stamps_within(m0, (l - 1) as u64),
        tracks_fit(m0, old, new),
    ensures
        tracks_shown(m0, run(run(m0, concat_map(new, fa), l, p), concat_map(new, fb), l + concat_map(new, fa).len(), p),
            new),
        stamps_within(run(run(m0, concat_map(new, fa), l, p), concat_map(new, fb), l + concat_map(new, fa).len(), p),
            (l + concat_map(new, fa).len() + concat_map(new, fb).len() - 1) as u64),
{
    let a = concat_map(new, fa);
    let l2 = l + a.len();
    assert forall|x: TrackView| #[trigger] fa(x) == pass_ops(old, true, x) by {}
    assert forall|x: TrackView| #[trigger] fb(x) == pass_ops(old, false, x) by {}
    assert(new.take(new.len() as int) =~= new);
    lemma_tracks_section(m0, old, new, fa, l, p, new.len() as int, true);
    let ma = run(m0, a, l, p);
    assert forall|j: int| 0 <= j < new.len() && kind_kept(old, #[trigger] new[j])
        implies track_view_ok(ma, old[track_index(old, new[j].track_id)->0]) by {
        let e = new[j].track_id.0;
        assert(TrackId(e) == new[j].track_id);
        lemma_track_index(new, new[j].track_id);
        let i = track_index(new, new[j].track_id)->0;
        assert(i == j);
        assert(!picks(old, true, new[j]));
        assert(!picked_before(old, new, new.len() as int, e, true));
        assert(ma.tracks.contains_key(e) == m0.tracks.contains_key(e));
        lemma_track_index(old, new[j].track_id);
        let k = track_index(old, new[j].track_id)->0;
        assert(track_view_ok(m0, old[k]));
        assert(old[k].track_id.0 == e);
        assert(ma.tracks[e] == m0.tracks[e]);
    }
    assert(tracks_fit(ma, old, new));
    lemma_tracks_section(ma, old, new, fb, l2, p, new.len() as int, false);
    let mb = run(ma, concat_map(new, fb), l2, p);
    assert forall|j: int| 0 <= j < new.len() implies mb.tracks.contains_key(#[trigger] new[j].track_id.0)
        && track_shows(mb.tracks[new[j].track_id.0], new[j]) by {
        let e = new[j].track_id.0;
        lemma_track_index(new, new[j].track_id);
        let i = track_index(new, new[j].track_id)->0;
        assert(i == j);
        assert(TrackId(e) == new[j].track_id);
        if !kind_kept(old, new[j]) {
            assert(picks(old, true, new[j]));
            assert(!picked_before(old, new, new.len() as int, e, false));
        } else {
            assert(picks(old, false, new[j]));
        }
    }
    assert forall|id: u64| track_index(new, TrackId(id)) is None
        implies (#[trigger] mb.tracks.contains_key(id) == m0.tracks.contains_key(id))
        && (m0.tracks.contains_key(id) ==> mb.tracks[id] == m0.tracks[id]) by {
        assert(!picked_before(old, new, new.len() as int, id, true));
        assert(!picked_before(old, new, new.len() as int, id, false));
        assert(mb.tracks.contains_key(id) == ma.tracks.contains_key(id));
        assert(ma.tracks.contains_key(id) == m0.tracks.contains_key(id));
    }
    assert(tracks_shown(m0, mb, new));
}

/// The two clip sections, with other sections between them that leave the
/// clips alone (`mid`): every clip of `new` is shown, every clip of `old`
/// that `new` lacks is deleted, every other clip is untouched.
#[verifier::spinoff_prover]
proof fn lemma_delta_clip_passes(m3: SessionModel, mid: SessionModel, old: Seq<ClipView>, new: Seq<ClipView>,
    f4: spec_fn(ClipView) -> Seq<TimelineOperation>, f5: spec_fn(ClipView) -> Seq<TimelineOperation>, l: int,
    l2: int, p: PeerId)
    requires
        1 <= l,
        l + concat_map(new, f4).len() <= l2,
        l2 + concat_map(old, f5).len() <= u64::MAX + 1,
        forall|x: ClipView| #[trigger] f4(x) == clip_delta(old, x),
        forall|x: ClipView| #[trigger] f5(x) == clip_removal(new, x),
        stamps_within(m3, (l - 1) as u64),
        clips_fit(m3, old, new),
        forall|a: int, b: int| 0 <= a < old.len() && 0 <= b < old.len() && a != b
            ==> old[a].clip_id != old[b].clip_id,
        mid.clips == run(m3, concat_map(new, f4), l, p).clips,
        stamps_within(mid, (l2 - 1) as u64),
    ensures
        ({
            let m5 = run(mid, concat_map(old, f5), l2, p);
            &&& m5.tracks == mid.tracks && m5.metadata == mid.metadata && m5.envelopes == mid.envelopes
            &&& stamps_within(m5, (l2 + concat_map(old, f5).len() - 1) as u64)
            &&& forall|j: int| 0 <= j < new.len() ==> m5.clips.contains_key(#[trigger] new[j].clip_id.0)
                && clip_shows(m5.clips[new[j].clip_id.0], new[j])
            &&& forall|id: u64| #[trigger] m5.clips.contains_key(id) && clip_index(new, ClipId(id)) is None
                && clip_index(old, ClipId(id)) is Some ==> !m5.clips[id].alive.val() && standalone(m5.clips[id])
            &&& forall|id: u64| clip_index(new, ClipId(id)) is None && clip_index(old, ClipId(id)) is None
                ==> (#[trigger] m5.clips.contains_key(id) == m3.clips.contains_key(id))
                && (m3.clips.contains_key(id) ==> m5.clips[id] == m3.clips[id])
            &&& forall|id: u64| m3.clips.contains_key(id) ==> #[trigger] m5.clips.contains_key(id)
        }),
{
    let a4 = concat_map(new, f4);
    lemma_clips_section(m3, old, new, f4, l, p, new.len() as int);
    assert(new.take(new.len() as int) =~= new);
    assert(old.take(old.len() as int) =~= old);
    let m4 = run(m3, a4, l, p);
    assert forall|j: int| 0 <= j < old.len() && clip_index(new, #[trigger] old[j].clip_id) is None
        implies mid.clips.contains_key(old[j].clip_id.0) && standalone(mid.clips[old[j].clip_id.0]) by {
        assert(m3.clips.contains_key(old[j].clip_id.0) && clip_shows(m3.clips[old[j].clip_id.0], old[j]));
        assert(m4.clips.contains_key(old[j].clip_id.0) == m3.clips.contains_key(old[j].clip_id.0));
    }
    lemma_clip_removals_section(mid, old, new, f5, l2, p, old.len() as int);
    let m5 = run(mid, concat_map(old, f5), l2, p);
    assert forall|j: int| 0 <= j < new.len() implies m5.clips.contains_key(#[trigger] new[j].clip_id.0)
        && clip_shows(m5.clips[new[j].clip_id.0], new[j]) by {
        lemma_clip_index(new, new[j].clip_id);
        assert(m4.clips.contains_key(new[j].clip_id.0));
        assert(m5.clips.contains_key(new[j].clip_id.0) == mid.clips.contains_key(new[j].clip_id.0));
        assert(m5.clips[new[j].clip_id.0] == mid.clips[new[j].clip_id.0]);
    }
    assert forall|id: u64| #[trigger] m5.clips.contains_key(id) && clip_index(new, ClipId(id)) is None
        && clip_index(old, ClipId(id)) is Some implies !m5.clips[id].alive.val() && standalone(m5.clips[id]) by {
        lemma_clip_index(old, ClipId(id));
        let i = clip_index(old, ClipId(id))->0;
        assert(old[i].clip_id == ClipId(id));
        assert(clip_index(new, old[i].clip_id) is None);
    }
    assert forall|id: u64| clip_index(new, ClipId(id)) is None && clip_index(old, ClipId(id)) is None
        implies (#[trigger] m5.clips.contains_key(id) == m3.clips.contains_key(id))
        && (m3.clips.contains_key(id) ==> m5.clips[id] == m3.clips[id]) by {
        assert(m5.clips.contains_key(id) == mid.clips.contains_key(id));
        assert(m4.clips.contains_key(id) == m3.clips.contains_key(id));
        if m3.clips.contains_key(id) {
            assert(m5.clips[id] == mid.clips[id]);
        }
    }
    assert forall|id: u64| m3.clips.contains_key(id) implies #[trigger] m5.clips.contains_key(id) by {
        assert(m5.clips.contains_key(id) == mid.clips.contains_key(id));
        if clip_index(new, ClipId(id)) is None {
            assert(m4.clips.contains_key(id) == m3.clips.contains_key(id));
        } else {
            lemma_clip_index(new, ClipId(id));
            let j = clip_index(new, ClipId(id))->0;
            assert(m4.clips.contains_key(new[j].clip_id.0));
        }
    }
}

/// `old` lists what `m0` shows: its metadata, its live tracks and visible
/// clips (each once), and its envelopes.
pub open spec fn lists(m0: SessionModel, old: SessionView) -> bool {
    &&& metadata_shows(m0.metadata, old.metadata)
    &&& forall|i: int| 0 <= i < old.tracks@.len() ==> track_view_ok(m0, #[trigger] old.tracks@[i])
    &&& forall|a: int, b: int| 0 <= a < old.tracks@.len() && 0 <= b < old.tracks@.len() && a != b
        ==> old.tracks@[a].track_id != old.tracks@[b].track_id
    &&& forall|id: u64| m0.tracks.contains_key(id) && #[trigger] m0.tracks[id].alive.val()
        ==> track_index(old.tracks@, TrackId(id)) is Some
    &&& forall|i: int| 0 <= i < old.clips@.len() ==> m0.clips.contains_key((#[trigger] old.clips@[i]).clip_id.0)
        && clip_shows(m0.clips[old.clips@[i].clip_id.0], old.clips@[i])
    &&& forall|a: int, b: int| 0 <= a < old.clips@.len() && 0 <= b < old.clips@.len() && a != b
        ==> old.clips@[a].clip_id != old.clips@[b].clip_id
    &&& forall|id: u64| m0.clips.contains_key(id) && #[trigger] m0.resolved(id).visible
        ==> clip_index(old.clips@, ClipId(id)) is Some
    &&& forall|i: int| 0 <= i < old.envelopes@.len()
        ==> m0.envelopes.contains_key(#[trigger] entry_key(old.envelopes@[i]))
        && m0.envelopes[entry_key(old.envelopes@[i])].val() == old.envelopes@[i].2@
    &&& forall|key: EnvelopeKey| #[trigger] m0.envelopes.contains_key(key)
        ==> envelope_index(old.envelopes@, key.0, key.1) is Some
}

/// A view lists each track, clip and envelope once, and each clip within
/// the frame range.
pub open spec fn view_distinct(v: SessionView) -> bool {
    &&& forall|a: int, b: int| 0 <= a < v.tracks@.len() && 0 <= b < v.tracks@.len() && a != b
        ==> v.tracks@[a].track_id != v.tracks@[b].track_id
    &&& forall|a: int, b: int| 0 <= a < v.clips@.len() && 0 <= b < v.clips@.len() && a != b
        ==> v.clips@[a].clip_id != v.clips@[b].clip_id
    &&& forall|j: int| 0 <= j < v.clips@.len()
        ==> (#[trigger] v.clips@[j]).start_frame + v.clips@[j].duration_frames <= u64::MAX
    &&& forall|a: int, b: int| 0 <= a < v.envelopes@.len() && 0 <= b < v.envelopes@.len() && a != b
        ==> entry_key(v.envelopes@[a]) != entry_key(v.envelopes@[b])
}

/// The target `t` exists in `m0` or is listed in `v`.
pub open spec fn target_known(m0: SessionModel, v: SessionView, t: TargetId) -> bool {
    match t {
        TargetId::Clip(c) => m0.clips.contains_key(c.0) || clip_index(v.clips@, c) is Some,
        TargetId::Track(k) => m0.tracks.contains_key(k.0) || track_index(v.tracks@, k) is Some,
    }
}

/// The inputs on which the delta from `old` (listing `m0`) to `new`
/// reproduces `new`: no clip of `m0` takes part in a split; every
/// envelope of `old` stays in `new` (no operation removes one); every
/// envelope of `new` targets a known entity; and no hidden live clip of
/// `m0` sits on a dead track that `new` lists.
pub open spec fn delta_fits(m0: SessionModel, old: SessionView, new: SessionView) -> bool {
    &&& forall|id: u64| m0.clips.contains_key(id) ==> standalone(#[trigger] m0.clips[id])
    &&& forall|i: int| 0 <= i < old.envelopes@.len()
        ==> envelope_index(new.envelopes@, (#[trigger] old.envelopes@[i]).0, old.envelopes@[i].1@) is Some
    &&& forall|j: int| 0 <= j < new.envelopes@.len() ==> target_known(m0, new, (#[trigger] new.envelopes@[j]).0)
    &&& forall|id: u64| m0.clips.contains_key(id) && #[trigger] m0.clips[id].alive.val()
        && m0.clips[id].duration_frames.val() > 0
        && !(m0.tracks.contains_key(m0.clips[id].track.val().0) && m0.tracks[m0.clips[id].track.val().0].alive.val())
        ==> track_index(new.tracks@, m0.clips[id].track.val()) is None
}

/// `m` shows exactly what `v` lists.
pub open spec fn reproduces(m: SessionModel, v: SessionView) -> bool {
    &&& metadata_shows(m.metadata, v.metadata)
    &&& forall|j: int| 0 <= j < v.tracks@.len() ==> m.tracks.contains_key(#[trigger] v.tracks@[j].track_id.0)
        && track_shows(m.tracks[v.tracks@[j].track_id.0], v.tracks@[j])
    &&& forall|id: u64| m.tracks.contains_key(id) && #[trigger] m.tracks[id].alive.val()
        ==> track_index(v.tracks@, TrackId(id)) is Some
    &&& forall|j: int| 0 <= j < v.clips@.len() ==> m.clips.contains_key(#[trigger] v.clips@[j].clip_id.0)
        && clip_shows(m.clips[v.clips@[j].clip_id.0], v.clips@[j])
    &&& forall|id: u64| m.clips.contains_key(id) && clip_index(v.clips@, ClipId(id)) is None
        ==> !(#[trigger] m.resolved(id)).visible
    &&& forall|j: int| 0 <= j < v.envelopes@.len() ==> m.envelopes.contains_key(#[trigger] entry_key(v.envelopes@[j]))
        && m.envelopes[entry_key(v.envelopes@[j])].val() == v.envelopes@[j].2@
    &&& forall|key: EnvelopeKey| #[trigger] m.envelopes.contains_key(key)
        ==> envelope_index(v.envelopes@, key.0, key.1) is Some
}

/// The delta from `old` to `new`, applied above every tag of a session
/// that `old` lists, leaves a session showing exactly what `new` lists.
#[verifier::spinoff_prover]
#[verifier::rlimit(80)]
pub proof fn lemma_delta_model(m0: SessionModel, old: SessionView, new: SessionView, base: OpTag)
    requires
        lists(m0, old),
        view_distinct(new),
        delta_fits(m0, old, new),
        1 <= base.lamport,
        base.lamport + delta_ops(old, new).len() <= u64::MAX,
        stamps_within(m0, (base.lamport - 1) as u64),
    ensures
        reproduces(delta_applied(m0, delta_ops(old, new), base, delta_ops(old, new).len() as int), new),
{
    let d = delta_ops(old, new);
    let fa = |t: TrackView| track_insert(old.tracks@, t);
    let fb = |t: TrackView| track_update(old.tracks@, t);
    let f2 = |t: TrackView| track_removal(new.tracks@, t);
    let f4 = |c: ClipView| clip_delta(old.clips@, c);
    let f5 = |c: ClipView| clip_removal(new.clips@, c);
    let f6 = |x: EnvelopeEntry| envelope_delta(old.envelopes@, x);
    let aa = concat_map(new.tracks@, fa);
    let ab = concat_map(new.tracks@, fb);
    let a2 = concat_map(old.tracks@, f2);
    let a3 = metadata_delta(old.metadata, new.metadata);
    let a4 = concat_map(new.clips@, f4);
    let a5 = concat_map(old.clips@, f5);
    let a6 = concat_map(new.envelopes@, f6);
    assert(d == aa + ab + a3 + a4 + a6 + a2 + a5);
    let l = base.lamport as int;
    let p = base.peer;
    lemma_run_delta(m0, d, base, d.len() as int);
    assert(d.take(d.len() as int) =~= d);
    lemma_run_concat(m0, aa, ab, l, p);
    lemma_run_concat(m0, aa + ab, a3, l, p);
    lemma_run_concat(m0, aa + ab + a3, a4, l, p);
    lemma_run_concat(m0, aa + ab + a3 + a4, a6, l, p);
    lemma_run_concat(m0, aa + ab + a3 + a4 + a6, a2, l, p);
    lemma_run_concat(m0, aa + ab + a3 + a4 + a6 + a2, a5, l, p);
    let lb = l + aa.len();
    let l3 = lb + ab.len();
    let l4 = l3 + a3.len();
    let l6 = l4 + a4.len();
    let l2 = l6 + a6.len();
    let l5 = l2 + a2.len();
    assert(tracks_fit(m0, old.tracks@, new.tracks@)) by {
        assert forall|j: int| 0 <= j < new.tracks@.len() && kind_kept(old.tracks@, #[trigger] new.tracks@[j])
            implies track_view_ok(m0, old.tracks@[track_index(old.tracks@, new.tracks@[j].track_id)->0]) by {
            lemma_track_index(old.tracks@, new.tracks@[j].track_id);
        }
    }
    lemma_delta_track_passes(m0, old.tracks@, new.tracks@, fa, fb, l, p);
    let mb = run(run(m0, aa, l, p), ab, lb, p);
    assert(tracks_shown(m0, mb, new.tracks@));
    lemma_metadata_section(mb, old.metadata, new.metadata, l3, p);
    let m3 = run(mb, a3, l3, p);
    assert(m3.clips == m0.clips);
    assert(new.clips@.take(new.clips@.len() as int) =~= new.clips@);
    lemma_clips_section(m3, old.clips@, new.clips@, f4, l4, p, new.clips@.len() as int);
    let m4 = run(m3, a4, l4, p);
    assert forall|j: int| 0 <= j < new.envelopes@.len() implies target_exists(m4, (#[trigger] new.envelopes@[j]).0) by {
        assert(target_known(m0, new, new.envelopes@[j].0));
        match new.envelopes@[j].0 {
            TargetId::Clip(c) => {
                if clip_index(new.clips@, c) is Some {
                    lemma_clip_index(new.clips@, c);
                    let i = clip_index(new.clips@, c)->0;
                    assert(m4.clips.contains_key(new.clips@[i].clip_id.0));
                } else {
                    assert(m3.clips.contains_key(c.0));
                }
            },
            TargetId::Track(k) => {
                if track_index(new.tracks@, k) is Some {
                    lemma_track_index(new.tracks@, k);
                    let i = track_index(new.tracks@, k)->0;
                    assert(mb.tracks.contains_key(new.tracks@[i].track_id.0));
                } else {
                    assert(mb.tracks.contains_key(k.0));
                }
            },
        }
    }
    assert(new.envelopes@.take(new.envelopes@.len() as int) =~= new.envelopes@);
    lemma_envelopes_section(m4, old.envelopes@, new.envelopes@, f6, l6, p, new.envelopes@.len() as int);
    let m5 = run(m4, a6, l6, p);
    assert(old.tracks@.take(old.tracks@.len() as int) =~= old.tracks@);
    assert forall|j: int| 0 <= j < old.tracks@.len() && track_index(new.tracks@, #[trigger] old.tracks@[j].track_id) is None
        implies m5.tracks.contains_key(old.tracks@[j].track_id.0) by {
        assert(track_view_ok(m0, old.tracks@[j]));
    }
    lemma_removals_section(m5, old.tracks@, new.tracks@, f2, l2, p, old.tracks@.len() as int);
    let m6 = run(m5, a2, l2, p);
    lemma_delta_clip_passes(m3, m6, old.clips@, new.clips@, f4, f5, l4, l5, p);
    let m7 = run(m6, a5, l5, p);
    assert(run(m0, d, l, p) == m7);
    assert forall|j: int| 0 <= j < new.tracks@.len() implies m7.tracks.contains_key(#[trigger] new.tracks@[j].track_id.0)
        && track_shows(m7.tracks[new.tracks@[j].track_id.0], new.tracks@[j]) by {
        lemma_track_index(new.tracks@, new.tracks@[j].track_id);
        assert(m6.tracks.contains_key(new.tracks@[j].track_id.0) == m5.tracks.contains_key(new.tracks@[j].track_id.0));
        assert(m6.tracks[new.tracks@[j].track_id.0] == m5.tracks[new.tracks@[j].track_id.0]);
    }
    assert forall|id: u64| m7.tracks.contains_key(id) && #[trigger] m7.tracks[id].alive.val()
        implies track_index(new.tracks@, TrackId(id)) is Some by {
        if track_index(new.tracks@, TrackId(id)) is None {
            assert(m6.tracks.contains_key(id) == m5.tracks.contains_key(id));
            assert(mb.tracks.contains_key(id) == m0.tracks.contains_key(id));
            lemma_track_index(old.tracks@, TrackId(id));
            if track_index(old.tracks@, TrackId(id)) is Some {
                let i = track_index(old.tracks@, TrackId(id))->0;
                assert(old.tracks@[i].track_id == TrackId(id));
                assert(!m6.tracks[old.tracks@[i].track_id.0].alive.val());
            } else {
                assert(m6.tracks[id] == m5.tracks[id]);
                assert(mb.tracks[id] == m0.tracks[id]);
            }
        }
    }
    assert forall|id: u64| m7.clips.contains_key(id) && clip_index(new.clips@, ClipId(id)) is None
        implies !(#[trigger] m7.resolved(id)).visible by {
        if clip_index(old.clips@, ClipId(id)) is Some {
            lemma_standalone_visible(m7, id);
        } else {
            assert(m7.clips[id] == m0.clips[id]);
            lemma_standalone_visible(m7, id);
            lemma_standalone_visible(m0, id);
            let c = m0.clips[id];
            if c.alive.val() && c.duration_frames.val() > 0 {
                if !(m0.tracks.contains_key(c.track.val().0) && m0.tracks[c.track.val().0].alive.val()) {
                    assert(track_index(new.tracks@, c.track.val()) is None);
                    if m7.tracks.contains_key(c.track.val().0) && m7.tracks[c.track.val().0].alive.val() {
                        assert(track_index(new.tracks@, TrackId(c.track.val().0)) is Some);
                    }
                }
            }
        }
    }
    assert forall|key: EnvelopeKey| #[trigger] m7.envelopes.contains_key(key)
        implies envelope_index(new.envelopes@, key.0, key.1) is Some by {
        if envelope_index(new.envelopes@, key.0, key.1) is None {
            assert(m0.envelopes.contains_key(key));
            lemma_envelope_index(old.envelopes@, key);
            let i = envelope_index(old.envelopes@, key.0, key.1)->0;
            assert(entry_key(old.envelopes@[i]) == key);
            assert(envelope_index(new.envelopes@, old.envelopes@[i].0, old.envelopes@[i].1@) is Some);
        }
    }
}

/// `x` of `a` has a partner in `b` with the same key.
pub open spec fn partnered<A, B, K>(x: A, b: Seq<B>, ka: spec_fn(A) -> K, kb: spec_fn(B) -> K,
    same: spec_fn(A, B) -> bool) -> bool {
    exists|j: int| 0 <= j < b.len() && same(x, b[j]) && ka(x) == kb(b[j])
}

/// `y` of `b` has a partner in `a` with the same key.
pub open spec fn partnered_back<A, B, K>(y: B, a: Seq<A>, ka: spec_fn(A) -> K, kb: spec_fn(B) -> K,
    same: spec_fn(A, B) -> bool) -> bool {
    exists|i: int| 0 <= i < a.len() && same(a[i], y) && ka(a[i]) == kb(y)
}

/// Two sequences strictly sorted by key, each element partnered in the
/// other with the same key, are partners position by position.
pub proof fn lemma_sorted_match<A, B, K>(a: Seq<A>, b: Seq<B>, ka: spec_fn(A) -> K, kb: spec_fn(B) -> K,
    lt: spec_fn(K, K) -> bool, same: spec_fn(A, B) -> bool)
    requires
        forall|x: K| !#[trigger] lt(x, x),
        forall|x: K, y: K, z: K| #[trigger] lt(x, y) && #[trigger] lt(y, z) ==> lt(x, z),
        forall|i: int, j: int| 0 <= i < j < a.len() ==> lt(ka(a[i]), ka(a[j])),
        forall|i: int, j: int| 0 <= i < j < b.len() ==> lt(kb(b[i]), kb(b[j])),
        forall|i: int| 0 <= i < a.len() ==> partnered(#[trigger] a[i], b, ka, kb, same),
        forall|j: int| 0 <= j < b.len() ==> partnered_back(#[trigger] b[j], a, ka, kb, same),
    ensures
        a.len() == b.len(),
        forall|i: int| 0 <= i < a.len() ==> same(a[i], b[i]),
    decreases a.len(),
{
    if a.len() == 0 {
        if b.len() > 0 {
            assert(partnered_back(b[0], a, ka, kb, same));
        }
    } else {
        assert(partnered(a[0], b, ka, kb, same));
        let j0 = choose|j: int| 0 <= j < b.len() && same(a[0], b[j]) && ka(a[0]) == kb(b[j]);
        assert(partnered_back(b[0], a, ka, kb, same));
        let i0 = choose|i: int| 0 <= i < a.len() && same(a[i], b[0]) && ka(a[i]) == kb(b[0]);
        if j0 != 0 {
            assert(lt(kb(b[0]), kb(b[j0])));
            if i0 != 0 {
                assert(lt(ka(a[0]), ka(a[i0])));
            }
            assert(lt(ka(a[0]), ka(a[0])));
        }
        let a2 = a.drop_first();
        let b2 = b.drop_first();
        assert forall|i: int| 0 <= i < a2.len() implies partnered(#[trigger] a2[i], b2, ka, kb, same) by {
            assert(a2[i] == a[i + 1]);
            assert(partnered(a[i + 1], b, ka, kb, same));
            let j = choose|j: int| 0 <= j < b.len() && same(a[i + 1], b[j]) && ka(a[i + 1]) == kb(b[j]);
            if j == 0 {
                assert(lt(ka(a[0]), ka(a[i + 1])));
                assert(lt(ka(a[0]), ka(a[0])));
            }
            assert(b2[j - 1] == b[j]);
        }
        assert forall|j: int| 0 <= j < b2.len() implies partnered_back(#[trigger] b2[j], a2, ka, kb, same) by {
            assert(b2[j] == b[j + 1]);
            assert(partnered_back(b[j + 1], a, ka, kb, same));
            let i = choose|i: int| 0 <= i < a.len() && same(a[i], b[j + 1]) && ka(a[i]) == kb(b[j + 1]);
            if i == 0 {
                assert(lt(kb(b[0]), kb(b[j + 1])));
                assert(lt(ka(a[0]), ka(a[0])));
            }
            assert(a2[i - 1] == a[i]);
        }
        lemma_sorted_match(a2, b2, ka, kb, lt, same);
        assert forall|i: int| 0 <= i < a.len() implies same(a[i], b[i]) by {
            if i > 0 {
                assert(a2[i - 1] == a[i] && b2[i - 1] == b[i]);
            }
        }
    }
}

/// A visible clip has a positive duration, is alive, sits on a live track
/// and ends within the frame range.
pub proof fn lemma_visible_facts(m: SessionModel, id: u64)
    requires
        m.clips.contains_key(id),
        m.resolved(id).visible,
    ensures
        m.resolved(id).duration_frames > 0,
        m.clips[id].alive.val(),
        m.tracks.contains_key(m.resolved(id).track_id.0),
        m.tracks[m.resolved(id).track_id.0].alive.val(),
        m.resolved(id).start_frame + m.resolved(id).duration_frames <= u64::MAX,
{
    reveal(SessionModel::resolved);
}

/// The view a session materializes lists what the session shows, when
/// every clip stands alone.
pub proof fn lemma_lists(s: Session, old: SessionView)
    requires
        s.wf(),
        materializes(s@, s.envelope_entries(), old),
        forall|id: u64| s@.clips.contains_key(id) ==> standalone(#[trigger] s@.clips[id]),
    ensures
        lists(s@, old),
{
    let m = s@;
    let env = s.envelope_entries();
    s.lemma_envelope_entries();
    lemma_track_ids_distinct(m, old.tracks@);
    lemma_clip_ids_distinct(m, old.clips@);
    assert forall|id: u64| m.tracks.contains_key(id) && #[trigger] m.tracks[id].alive.val()
        implies track_index(old.tracks@, TrackId(id)) is Some by {
        lemma_track_index(old.tracks@, TrackId(id));
        assert(tracks_cover(m, old.tracks@));
    }
    assert forall|i: int| 0 <= i < old.clips@.len() implies m.clips.contains_key((#[trigger] old.clips@[i]).clip_id.0)
        && clip_shows(m.clips[old.clips@[i].clip_id.0], old.clips@[i]) by {
        let c = old.clips@[i];
        assert(clip_view_ok(m, c));
        lemma_resolved_standalone(m, c.clip_id.0);
        lemma_standalone_visible(m, c.clip_id.0);
    }
    assert forall|id: u64| m.clips.contains_key(id) && #[trigger] m.resolved(id).visible
        implies clip_index(old.clips@, ClipId(id)) is Some by {
        lemma_clip_index(old.clips@, ClipId(id));
        assert(clips_cover(m, old.clips@));
    }
    assert forall|i: int| 0 <= i < old.envelopes@.len()
        implies m.envelopes.contains_key(#[trigger] entry_key(old.envelopes@[i]))
        && m.envelopes[entry_key(old.envelopes@[i])].val() == old.envelopes@[i].2@ by {
        lemma_table_get(env, i);
        assert(entry_key(old.envelopes@[i]) == env[i].0);
    }
    assert forall|key: EnvelopeKey| #[trigger] m.envelopes.contains_key(key)
        implies envelope_index(old.envelopes@, key.0, key.1) is Some by {
        lemma_table_dom(env, key);
        let i = choose|i: int| 0 <= i < env.len() && env[i].0 == key;
        assert(entry_key(old.envelopes@[i]) == key);
        lemma_envelope_index(old.envelopes@, key);
    }
}

/// A materialized view lists each track, clip and envelope once, each clip
/// within the frame range.
pub proof fn lemma_view_distinct(t: Session, new: SessionView)
    requires
        t.wf(),
        materializes(t@, t.envelope_entries(), new),
    ensures
        view_distinct(new),
{
    let m = t@;
    let env = t.envelope_entries();
    t.lemma_envelope_entries();
    lemma_track_ids_distinct(m, new.tracks@);
    lemma_clip_ids_distinct(m, new.clips@);
    assert forall|j: int| 0 <= j < new.clips@.len()
        implies (#[trigger] new.clips@[j]).start_frame + new.clips@[j].duration_frames <= u64::MAX by {
        assert(clip_view_ok(m, new.clips@[j]));
        lemma_visible_facts(m, new.clips@[j].clip_id.0);
    }
    assert forall|a: int, b: int| 0 <= a < new.envelopes@.len() && 0 <= b < new.envelopes@.len() && a != b
        implies entry_key(new.envelopes@[a]) != entry_key(new.envelopes@[b]) by {
        assert(entry_key(new.envelopes@[a]) == env[a].0);
        assert(entry_key(new.envelopes@[b]) == env[b].0);
        if a < b {
            assert(env[a].0 != env[b].0);
        } else {
            assert(env[b].0 != env[a].0);
        }
    }
}

/// Two track views list the same track alike.
pub open spec fn same_track(a: TrackView, b: TrackView) -> bool {
    &&& a.track_id == b.track_id
    &&& a.name@ == b.name@
    &&& a.kind == b.kind
    &&& a.volume_db == b.volume_db
    &&& a.muted == b.muted
    &&& a.solo == b.solo
    &&& a.position == b.position
}

/// Two clip views list the same clip alike.
pub open spec fn same_clip(a: ClipView, b: ClipView) -> bool {
    &&& a.clip_id == b.clip_id
    &&& a.track_id == b.track_id
    &&& a.name@ == b.name@
    &&& a.source@ == b.source@
    &&& a.color == b.color
    &&& a.gain == b.gain
    &&& a.muted == b.muted
    &&& a.locked == b.locked
    &&& a.start_frame == b.start_frame
    &&& a.duration_frames == b.duration_frames
    &&& a.order_hint == b.order_hint
}

/// Two envelope entries list the same envelope alike.
pub open spec fn same_envelope(a: EnvelopeEntry, b: EnvelopeEntry) -> bool {
    &&& a.0 == b.0
    &&& a.1@ == b.1@
    &&& a.2@ == b.2@
}

/// Two views list the same timeline: the same metadata, and the same
/// tracks, clips and envelopes in the same order.
pub open spec fn same_view(a: SessionView, b: SessionView) -> bool {
    &&& a.metadata.name@ == b.metadata.name@
    &&& a.metadata.sample_rate == b.metadata.sample_rate
    &&& a.metadata.tempo_bpm == b.metadata.tempo_bpm
    &&& a.metadata.time_signature == b.metadata.time_signature
    &&& a.tracks@.len() == b.tracks@.len()
    &&& forall|i: int| 0 <= i < a.tracks@.len() ==> same_track(#[trigger] a.tracks@[i], b.tracks@[i])
    &&& a.clips@.len() == b.clips@.len()
    &&& forall|i: int| 0 <= i < a.clips@.len() ==> same_clip(#[trigger] a.clips@[i], b.clips@[i])
    &&& a.envelopes@.len() == b.envelopes@.len()
    &&& forall|i: int| 0 <= i < a.envelopes@.len() ==> same_envelope(#[trigger] a.envelopes@[i], b.envelopes@[i])
}

/// The sort-key order, as a relation.
proof fn lemma_key_lt_order()
    ensures
        forall|x: SortKey| !#[trigger] key_lt(x, x),
        forall|x: SortKey, y: SortKey, z: SortKey| #[trigger] key_lt(x, y) && #[trigger] key_lt(y, z) ==> key_lt(x, z),
{
    assert forall|x: SortKey| !#[trigger] key_lt(x, x) by {
        lemma_key_order(x, x, x);
    }
    assert forall|x: SortKey, y: SortKey, z: SortKey| #[trigger] key_lt(x, y) && #[trigger] key_lt(y, z)
        implies key_lt(x, z) by {
        lemma_key_order(x, y, z);
    }
}

/// The tracks of a view of a session that shows `new` are those of `new`.
proof fn lemma_reproduced_tracks(m: SessionModel, v: SessionView, tm: SessionModel, tenv: Seq<(EnvelopeKey, LwwReg<Seq<EnvelopePoint>>)>, new: SessionView)
    requires
        reproduces(m, new),
        forall|i: int| 0 <= i < v.tracks@.len() ==> track_view_ok(m, #[trigger] v.tracks@[i]),
        tracks_cover(m, v.tracks@),
        forall|a: int, b: int| 0 <= a < b < v.tracks@.len() ==> key_lt(track_key(v.tracks@[a]), track_key(v.tracks@[b])),
        materializes(tm, tenv, new),
    ensures
        v.tracks@.len() == new.tracks@.len(),
        forall|i: int| 0 <= i < v.tracks@.len() ==> same_track(#[trigger] v.tracks@[i], new.tracks@[i]),
{
    let a = v.tracks@;
    let b = new.tracks@;
    let ka = |x: TrackView| track_key(x);
    let lt = |x: SortKey, y: SortKey| key_lt(x, y);
    let same = |x: TrackView, y: TrackView| same_track(x, y);
    lemma_key_lt_order();
    assert forall|i: int| 0 <= i < a.len() implies partnered(#[trigger] a[i], b, ka, ka, same) by {
        let x = a[i];
        assert(track_view_ok(m, x));
        assert(track_index(b, x.track_id) is Some);
        lemma_track_index(b, x.track_id);
        let j = track_index(b, x.track_id)->0;
        assert(m.tracks.contains_key(b[j].track_id.0) && track_shows(m.tracks[b[j].track_id.0], b[j]));
        assert(same(x, b[j]) && ka(x) == ka(b[j]));
    }
    assert forall|j: int| 0 <= j < b.len() implies partnered_back(#[trigger] b[j], a, ka, ka, same) by {
        let y = b[j];
        assert(m.tracks.contains_key(y.track_id.0) && track_shows(m.tracks[y.track_id.0], y));
        assert(m.tracks[y.track_id.0].alive.val());
        let i = choose|i: int| 0 <= i < a.len() && a[i].track_id.0 == y.track_id.0;
        assert(track_view_ok(m, a[i]));
        assert(same(a[i], y) && ka(a[i]) == ka(y));
    }
    assert forall|i: int, j: int| 0 <= i < j < b.len() implies lt(ka(b[i]), ka(b[j])) by {}
    lemma_sorted_match(a, b, ka, ka, lt, same);
}

/// A track that `new` lists ranks alike in a session showing `new` and in
/// the session `new` was materialized from.
proof fn lemma_rank_agrees(m: SessionModel, tm: SessionModel, tenv: Seq<(EnvelopeKey, LwwReg<Seq<EnvelopePoint>>)>,
    new: SessionView, tr: TrackId)
    requires
        reproduces(m, new),
        materializes(tm, tenv, new),
        tm.tracks.contains_key(tr.0),
        tm.tracks[tr.0].alive.val(),
    ensures
        track_rank(m, tr) == track_rank(tm, tr),
        m.tracks.contains_key(tr.0),
        m.tracks[tr.0].alive.val(),
{
    assert(tracks_cover(tm, new.tracks@));
    let k = choose|k: int| 0 <= k < new.tracks@.len() && new.tracks@[k].track_id.0 == tr.0;
    assert(track_view_ok(tm, new.tracks@[k]));
    assert(m.tracks.contains_key(new.tracks@[k].track_id.0) && track_shows(m.tracks[new.tracks@[k].track_id.0], new.tracks@[k]));
}

/// The clips of a view of a session that shows `new` are those of `new`.
#[verifier::spinoff_prover]
#[verifier::rlimit(40)]
proof fn lemma_reproduced_clips(m: SessionModel, v: SessionView, tm: SessionModel, tenv: Seq<(EnvelopeKey, LwwReg<Seq<EnvelopePoint>>)>, new: SessionView)
    requires
        reproduces(m, new),
        forall|i: int| 0 <= i < v.clips@.len() ==> clip_view_ok(m, #[trigger] v.clips@[i]),
        clips_cover(m, v.clips@),
        forall|a: int, b: int| 0 <= a < b < v.clips@.len() ==> key_lt(clip_key(m, v.clips@[a]), clip_key(m, v.clips@[b])),
        materializes(tm, tenv, new),
    ensures
        v.clips@.len() == new.clips@.len(),
        forall|i: int| 0 <= i < v.clips@.len() ==> same_clip(#[trigger] v.clips@[i], new.clips@[i]),
{
    let a = v.clips@;
    let b = new.clips@;
    let ka = |x: ClipView| clip_key(m, x);
    let kb = |x: ClipView| clip_key(tm, x);
    let lt = |x: SortKey, y: SortKey| key_lt(x, y);
    let same = |x: ClipView, y: ClipView| same_clip(x, y);
    lemma_key_lt_order();
    assert forall|j: int| 0 <= j < b.len() implies
        m.clips.contains_key(#[trigger] b[j].clip_id.0) && m.resolved(b[j].clip_id.0).visible
        && same_clip(b[j], b[j]) && clip_view_ok(m, b[j]) by {
        let y = b[j];
        let id = y.clip_id.0;
        assert(clip_view_ok(tm, y));
        lemma_visible_facts(tm, id);
        lemma_rank_agrees(m, tm, tenv, new, y.track_id);
        assert(m.clips.contains_key(id) && clip_shows(m.clips[id], y));
        lemma_resolved_standalone(m, id);
        lemma_standalone_visible(m, id);
    }
    assert forall|i: int| 0 <= i < a.len() implies partnered(#[trigger] a[i], b, ka, kb, same) by {
        let x = a[i];
        let id = x.clip_id.0;
        assert(clip_view_ok(m, x));
        assert(clip_index(b, x.clip_id) is Some);
        lemma_clip_index(b, x.clip_id);
        let j = clip_index(b, x.clip_id)->0;
        assert(m.clips.contains_key(b[j].clip_id.0) && clip_shows(m.clips[b[j].clip_id.0], b[j]));
        lemma_resolved_standalone(m, id);
        assert(clip_view_ok(tm, b[j]));
        lemma_visible_facts(tm, id);
        lemma_rank_agrees(m, tm, tenv, new, b[j].track_id);
        assert(same(x, b[j]) && ka(x) == kb(b[j]));
    }
    assert forall|j: int| 0 <= j < b.len() implies partnered_back(#[trigger] b[j], a, ka, kb, same) by {
        let y = b[j];
        let id = y.clip_id.0;
        assert(m.clips.contains_key(id) && m.resolved(id).visible && clip_view_ok(m, y));
        let i = choose|i: int| 0 <= i < a.len() && a[i].clip_id.0 == id;
        assert(clip_view_ok(m, a[i]));
        assert(clip_view_ok(tm, y));
        lemma_visible_facts(tm, id);
        lemma_rank_agrees(m, tm, tenv, new, y.track_id);
        assert(same(a[i], y) && ka(a[i]) == kb(y));
    }
    assert forall|i: int, j: int| 0 <= i < j < b.len() implies lt(kb(b[i]), kb(b[j])) by {}
    lemma_sorted_match(a, b, ka, kb, lt, same);
}

/// The envelope-key order, as a relation.
proof fn lemma_env_key_lt_order()
    ensures
        forall|x: EnvelopeKey| !#[trigger] env_key_lt(x, x),
        forall|x: EnvelopeKey, y: EnvelopeKey, z: EnvelopeKey| #[trigger] env_key_lt(x, y) && #[trigger] env_key_lt(y, z)
            ==> env_key_lt(x, z),
{
    assert forall|x: EnvelopeKey| !#[trigger] env_key_lt(x, x) by {
        lemma_env_key_order(x, x, x);
    }
    assert forall|x: EnvelopeKey, y: EnvelopeKey, z: EnvelopeKey| #[trigger] env_key_lt(x, y) && #[trigger] env_key_lt(y, z)
        implies env_key_lt(x, z) by {
        lemma_env_key_order(x, y, z);
    }
}

/// The envelopes of a view of a session that shows `new` are those of
/// `new`.
#[verifier::spinoff_prover]
proof fn lemma_reproduced_envelopes(m: SessionModel, env: Seq<(EnvelopeKey, LwwReg<Seq<EnvelopePoint>>)>, v: SessionView,
    tm: SessionModel, tenv: Seq<(EnvelopeKey, LwwReg<Seq<EnvelopePoint>>)>, new: SessionView)
    requires
        reproduces(m, new),
        env_sorted(env),
        table_distinct(env),
        table_map(env) == m.envelopes,
        materializes(m, env, v),
        env_sorted(tenv),
        materializes(tm, tenv, new),
    ensures
        v.envelopes@.len() == new.envelopes@.len(),
        forall|i: int| 0 <= i < v.envelopes@.len() ==> same_envelope(#[trigger] v.envelopes@[i], new.envelopes@[i]),
{
    let ka = |e: (EnvelopeKey, LwwReg<Seq<EnvelopePoint>>)| e.0;
    let lt = |x: EnvelopeKey, y: EnvelopeKey| env_key_lt(x, y);
    let same = |x: (EnvelopeKey, LwwReg<Seq<EnvelopePoint>>), y: (EnvelopeKey, LwwReg<Seq<EnvelopePoint>>)|
        x.0 == y.0 && x.1.val() == y.1.val();
    lemma_env_key_lt_order();
    let nv = new.envelopes@;
    assert forall|i: int| 0 <= i < env.len() implies partnered(#[trigger] env[i], tenv, ka, ka, same) by {
        let key = env[i].0;
        lemma_table_get(env, i);
        assert(m.envelopes.contains_key(key));
        lemma_envelope_index(nv, key);
        let j = envelope_index(nv, key.0, key.1)->0;
        assert(entry_key(nv[j]) == key);
        assert(tenv[j].0 == entry_key(nv[j]));
        assert(same(env[i], tenv[j]) && ka(env[i]) == ka(tenv[j]));
    }
    assert forall|j: int| 0 <= j < tenv.len() implies partnered_back(#[trigger] tenv[j], env, ka, ka, same) by {
        let key = tenv[j].0;
        assert(key == entry_key(nv[j]));
        assert(m.envelopes.contains_key(key));
        lemma_table_dom(env, key);
        let i = choose|i: int| 0 <= i < env.len() && env[i].0 == key;
        lemma_table_get(env, i);
        assert(same(env[i], tenv[j]) && ka(env[i]) == ka(tenv[j]));
    }
    assert forall|i: int, j: int| 0 <= i < j < env.len() implies lt(ka(env[i]), ka(env[j])) by {}
    assert forall|i: int, j: int| 0 <= i < j < tenv.len() implies lt(ka(tenv[i]), ka(tenv[j])) by {}
    lemma_sorted_match(env, tenv, ka, ka, lt, same);
    assert forall|i: int| 0 <= i < v.envelopes@.len() implies same_envelope(#[trigger] v.envelopes@[i], nv[i]) by {
        assert(same(env[i], tenv[i]));
    }
}

/// A session that shows exactly what `new` lists materializes a view
/// listing the same timeline as `new`.
pub proof fn lemma_reproduced_view(r: Session, v: SessionView, t: Session, new: SessionView)
    requires
        r.wf(),
        t.wf(),
        reproduces(r@, new),
        materializes(r@, r.envelope_entries(), v),
        materializes(t@, t.envelope_entries(), new),
    ensures
        same_view(v, new),
{
    r.lemma_envelope_entries();
    t.lemma_envelope_entries();
    lemma_reproduced_tracks(r@, v, t@, t.envelope_entries(), new);
    lemma_reproduced_clips(r@, v, t@, t.envelope_entries(), new);
    lemma_reproduced_envelopes(r@, r.envelope_entries(), v, t@, t.envelope_entries(), new);
}

/// Copies of a delta apply alike.
proof fn lemma_delta_applied_same(m: SessionModel, a: Seq<TimelineOperation>, b: Seq<TimelineOperation>, base: OpTag,
    n: int)
    requires
        ops_same(a, b),
        0 <= n <= a.len(),
    ensures
        delta_applied(m, a, base, n) == delta_applied(m, b, base, n),
    decreases n,
{
    if n > 0 {
        lemma_delta_applied_same(m, a, b, base, n - 1);
        let l = base.lamport + (n - 1);
        let t = OpTag { lamport: if l > u64::MAX { u64::MAX } else { l as u64 }, peer: base.peer };
        assert(a[n - 1].same(b[n - 1]));
        crate::state::lemma_applied_same(delta_applied(m, a, base, n - 1), a[n - 1], b[n - 1], t);
    }
}

/// Law of deltas: the delta computed from the view `old` of session `s`
/// to the view `new` of session `t` (any copy of it), applied to `s` from
/// a base tag above every tag `s` holds, leaves a session `r` whose view
/// lists the same timeline as `new`: the same metadata, and the same
/// tracks, clips and envelopes in the same order. This holds on the
/// inputs `delta_fits` admits (no clip of `s` takes part in a split, no
/// envelope dropped, envelope targets known, no hidden clip of `s`
/// revived by a track that comes back).
pub proof fn lemma_delta_reproduces(s: Session, old: SessionView, t: Session, new: SessionView,
    delta: Seq<TimelineOperation>, base: OpTag, r: Session, v: SessionView)
    requires
        s.wf(),
        t.wf(),
        r.wf(),
        materializes(s@, s.envelope_entries(), old),
        materializes(t@, t.envelope_entries(), new),
        delta_fits(s@, old, new),
        ops_same(delta, delta_ops(old, new)),
        1 <= base.lamport,
        base.lamport + delta.len() <= u64::MAX,
        stamps_within(s@, (base.lamport - 1) as u64),
        r@ == delta_applied(s@, delta, base, delta.len() as int),
        materializes(r@, r.envelope_entries(), v),
    ensures
        same_view(v, new),
{
    lemma_lists(s, old);
    lemma_view_distinct(t, new);
    lemma_delta_applied_same(s@, delta, delta_ops(old, new), base, delta.len() as int);
    lemma_delta_model(s@, old, new, base);
    lemma_reproduced_view(r, v, t, new);
}

/// Law: a view is determined by the state it is materialized from. Two
/// sessions holding the same state materialize views that list the same
/// timeline, so replicas that converge show the same timeline.
#[verifier::spinoff_prover]
#[verifier::rlimit(40)]
pub proof fn lemma_same_state_same_view(r1: Session, v1: SessionView, r2: Session, v2: SessionView)
    requires
        r1.wf(),
        r2.wf(),
        r1@ == r2@,
        materializes(r1@, r1.envelope_entries(), v1),
        materializes(r2@, r2.envelope_entries(), v2),
    ensures
        same_view(v1, v2),
{
    let m = r1@;
    r1.lemma_envelope_entries();
    r2.lemma_envelope_entries();
    lemma_key_lt_order();
    lemma_env_key_lt_order();
    let lt = |x: SortKey, y: SortKey| key_lt(x, y);
    // tracks
    let kt = |x: TrackView| track_key(x);
    let st = |x: TrackView, y: TrackView| same_track(x, y);
    assert forall|i: int| 0 <= i < v1.tracks@.len() implies partnered(#[trigger] v1.tracks@[i], v2.tracks@, kt, kt, st) by {
        let x = v1.tracks@[i];
        assert(track_view_ok(m, x));
        assert(tracks_cover(m, v2.tracks@));
        let j = choose|j: int| 0 <= j < v2.tracks@.len() && v2.tracks@[j].track_id.0 == x.track_id.0;
        assert(track_view_ok(m, v2.tracks@[j]));
        assert(st(x, v2.tracks@[j]) && kt(x) == kt(v2.tracks@[j]));
    }
    assert forall|j: int| 0 <= j < v2.tracks@.len() implies partnered_back(#[trigger] v2.tracks@[j], v1.tracks@, kt, kt, st) by {
        let y = v2.tracks@[j];
        assert(track_view_ok(m, y));
        assert(tracks_cover(m, v1.tracks@));
        let i = choose|i: int| 0 <= i < v1.tracks@.len() && v1.tracks@[i].track_id.0 == y.track_id.0;
        assert(track_view_ok(m, v1.tracks@[i]));
        assert(st(v1.tracks@[i], y) && kt(v1.tracks@[i]) == kt(y));
    }
    assert forall|i: int, j: int| 0 <= i < j < v1.tracks@.len() implies lt(kt(v1.tracks@[i]), kt(v1.tracks@[j])) by {}
    assert forall|i: int, j: int| 0 <= i < j < v2.tracks@.len() implies lt(kt(v2.tracks@[i]), kt(v2.tracks@[j])) by {}
    lemma_sorted_match(v1.tracks@, v2.tracks@, kt, kt, lt, st);
    // clips
    let kc = |x: ClipView| clip_key(m, x);
    let sc = |x: ClipView, y: ClipView| same_clip(x, y);
    assert forall|i: int| 0 <= i < v1.clips@.len() implies partnered(#[trigger] v1.clips@[i], v2.clips@, kc, kc, sc) by {
        let x = v1.clips@[i];
        assert(clip_view_ok(m, x));
        assert(clips_cover(m, v2.clips@));
        let j = choose|j: int| 0 <= j < v2.clips@.len() && v2.clips@[j].clip_id.0 == x.clip_id.0;
        assert(clip_view_ok(m, v2.clips@[j]));
        assert(sc(x, v2.clips@[j]) && kc(x) == kc(v2.clips@[j]));
    }
    assert forall|j: int| 0 <= j < v2.clips@.len() implies partnered_back(#[trigger] v2.clips@[j], v1.clips@, kc, kc, sc) by {
        let y = v2.clips@[j];
        assert(clip_view_ok(m, y));
        assert(clips_cover(m, v1.clips@));
        let i = choose|i: int| 0 <= i < v1.clips@.len() && v1.clips@[i].clip_id.0 == y.clip_id.0;
        assert(clip_view_ok(m, v1.clips@[i]));
        assert(sc(v1.clips@[i], y) && kc(v1.clips@[i]) == kc(y));
    }
    assert forall|i: int, j: int| 0 <= i < j < v1.clips@.len() implies lt(kc(v1.clips@[i]), kc(v1.clips@[j])) by {}
    assert forall|i: int, j: int| 0 <= i < j < v2.clips@.len() implies lt(kc(v2.clips@[i]), kc(v2.clips@[j])) by {}
    lemma_sorted_match(v1.clips@, v2.clips@, kc, kc, lt, sc);
    // envelopes
    let e1 = r1.envelope_entries();
    let e2 = r2.envelope_entries();
    let ke = |e: (EnvelopeKey, LwwReg<Seq<EnvelopePoint>>)| e.0;
    let le = |x: EnvelopeKey, y: EnvelopeKey| env_key_lt(x, y);
    let se = |x: (EnvelopeKey, LwwReg<Seq<EnvelopePoint>>), y: (EnvelopeKey, LwwReg<Seq<EnvelopePoint>>)|
        x.0 == y.0 && x.1.val() == y.1.val();
    assert forall|i: int| 0 <= i < e1.len() implies partnered(#[trigger] e1[i], e2, ke, ke, se) by {
        lemma_table_get(e1, i);
        lemma_table_dom(e2, e1[i].0);
        let j = choose|j: int| 0 <= j < e2.len() && e2[j].0 == e1[i].0;
        lemma_table_get(e2, j);
        assert(se(e1[i], e2[j]) && ke(e1[i]) == ke(e2[j]));
    }
    assert forall|j: int| 0 <= j < e2.len() implies partnered_back(#[trigger] e2[j], e1, ke, ke, se) by {
        lemma_table_get(e2, j);
        lemma_table_dom(e1, e2[j].0);
        let i = choose|i: int| 0 <= i < e1.len() && e1[i].0 == e2[j].0;
        lemma_table_get(e1, i);
        assert(se(e1[i], e2[j]) && ke(e1[i]) == ke(e2[j]));
    }
    assert forall|i: int, j: int| 0 <= i < j < e1.len() implies le(ke(e1[i]), ke(e1[j])) by {}
    assert forall|i: int, j: int| 0 <= i < j < e2.len() implies le(ke(e2[i]), ke(e2[j])) by {}
    lemma_sorted_match(e1, e2, ke, ke, le, se);
    assert forall|i: int| 0 <= i < v1.envelopes@.len() implies same_envelope(#[trigger] v1.envelopes@[i], v2.envelopes@[i]) by {
        assert(se(e1[i], e2[i]));
    }
}

/// A view lists each track, clip and envelope key once.
pub open spec fn lists_each_once(v: SessionView) -> bool {
    &&& forall|a: int, b: int| 0 <= a < v.tracks@.len() && 0 <= b < v.tracks@.len() && a != b
        ==> v.tracks@[a].track_id != v.tracks@[b].track_id
    &&& forall|a: int, b: int| 0 <= a < v.clips@.len() && 0 <= b < v.clips@.len() && a != b
        ==> v.clips@[a].clip_id != v.clips@[b].clip_id
    &&& forall|a: int, b: int| 0 <= a < v.envelopes@.len() && 0 <= b < v.envelopes@.len() && a != b
        ==> entry_key(v.envelopes@[a]) != entry_key(v.envelopes@[b])
}

/// Operations emitted for no element add up to none.
proof fn lemma_concat_map_empty<A>(s: Seq<A>, f: spec_fn(A) -> Seq<TimelineOperation>)
    requires
        forall|k: int| 0 <= k < s.len() ==> (#[trigger] f(s[k])).len() == 0,
    ensures
        concat_map(s, f).len() == 0,
    decreases s.len(),
{
    if s.len() > 0 {
        assert forall|k: int| 0 <= k < s.drop_last().len() implies (#[trigger] f(s.drop_last()[k])).len() == 0 by {
            assert(s.drop_last()[k] == s[k]);
        }
        lemma_concat_map_empty(s.drop_last(), f);
        assert(f(s[s.len() - 1]).len() == 0);
    }
}

/// Law: the delta from a view to itself is empty, for a view that lists
/// each track, clip and envelope once (such as any materialized view).
pub proof fn lemma_delta_to_self_empty(v: SessionView)
    requires
        lists_each_once(v),
    ensures
        delta_ops(v, v).len() == 0,
{
    let ts = v.tracks@;
    let cs = v.clips@;
    let es = v.envelopes@;
    assert forall|k: int| 0 <= k < ts.len() implies kind_kept(ts, #[trigger] ts[k])
        && track_index(ts, ts[k].track_id) == Some(k) by {
        lemma_track_index(ts, ts[k].track_id);
    }
    let fa = |t: TrackView| track_insert(ts, t);
    let fb = |t: TrackView| track_update(ts, t);
    let f2 = |t: TrackView| track_removal(ts, t);
    let f4 = |c: ClipView| clip_delta(cs, c);
    let f5 = |c: ClipView| clip_removal(cs, c);
    let f6 = |x: EnvelopeEntry| envelope_delta(es, x);
    assert forall|k: int| 0 <= k < ts.len() implies (#[trigger] fa(ts[k])).len() == 0 by {
        assert(kind_kept(ts, ts[k]));
    }
    assert forall|k: int| 0 <= k < ts.len() implies (#[trigger] fb(ts[k])).len() == 0 by {
        assert(kind_kept(ts, ts[k]) && track_index(ts, ts[k].track_id) == Some(k));
    }
    assert forall|k: int| 0 <= k < ts.len() implies (#[trigger] f2(ts[k])).len() == 0 by {
        assert(track_index(ts, ts[k].track_id) == Some(k));
    }
    assert forall|k: int| 0 <= k < cs.len() implies (#[trigger] f4(cs[k])).len() == 0 by {
        lemma_clip_index(cs, cs[k].clip_id);
        assert(clip_index(cs, cs[k].clip_id) == Some(k));
    }
    assert forall|k: int| 0 <= k < cs.len() implies (#[trigger] f5(cs[k])).len() == 0 by {
        lemma_clip_index(cs, cs[k].clip_id);
    }
    assert forall|k: int| 0 <= k < es.len() implies (#[trigger] f6(es[k])).len() == 0 by {
        lemma_envelope_index(es, entry_key(es[k]));
        assert(envelope_index(es, es[k].0, es[k].1@) == Some(k));
    }
    lemma_concat_map_empty(ts, fa);
    lemma_concat_map_empty(ts, fb);
    lemma_concat_map_empty(ts, f2);
    lemma_concat_map_empty(cs, f4);
    lemma_concat_map_empty(cs, f5);
    lemma_concat_map_empty(es, f6);
}

/// Operation `op` of a delta from `old` to `new` is needed: it writes
/// something that `old` does not show. An insert targets a track or clip
/// that `old` lacks (or a track of another kind); an update holds at least
/// one field, each different from what `old` lists; a move or trim
/// changes the placement or the length; an envelope write brings other
/// points; a delete removes what `old` lists and `new` lacks. Lookups in
/// `old` take the first entry with the id.
pub open spec fn op_needed(old: SessionView, new: SessionView, op: TimelineOperation) -> bool {
    match op {
        TimelineOperation::InsertTrack { track_id, track, .. } => match track_index(old.tracks@, track_id) {
            Some(a) => old.tracks@[a].kind != track.kind,
            None => true,
        },
        TimelineOperation::UpdateTrackMetadata { track_id, updates: u } => {
            &&& (u.name is Some || u.volume_db is Some || u.muted is Some || u.solo is Some || u.position is Some)
            &&& match track_index(old.tracks@, track_id) {
                Some(a) => {
                    let t = old.tracks@[a];
                    &&& (u.name is Some ==> u.name->0@ != t.name@)
                    &&& (u.volume_db is Some ==> u.volume_db->0 != t.volume_db)
                    &&& (u.muted is Some ==> u.muted->0 != t.muted)
                    &&& (u.solo is Some ==> u.solo->0 != t.solo)
                    &&& (u.position is Some ==> u.position->0 != t.position)
                },
                None => false,
            }
        },
        TimelineOperation::UpdateSessionMetadata { updates: u } => {
            let m = old.metadata;
            &&& (u.name is Some || u.sample_rate is Some || u.tempo_bpm is Some || u.time_signature_numerator is Some)
            &&& (u.name is Some ==> u.name->0@ != m.name@)
            &&& (u.sample_rate is Some ==> u.sample_rate->0 != m.sample_rate)
            &&& (u.tempo_bpm is Some ==> u.tempo_bpm->0 != m.tempo_bpm)
            &&& (u.time_signature_numerator is Some <==> u.time_signature_denominator is Some)
            &&& (u.time_signature_numerator is Some
                ==> (u.time_signature_numerator->0, u.time_signature_denominator->0) != m.time_signature)
        },
        TimelineOperation::InsertClip { clip_id, .. } => clip_index(old.clips@, clip_id) is None,
        TimelineOperation::MoveClip { clip_id, new_track_id, new_start_frame, new_position } =>
            match clip_index(old.clips@, clip_id) {
                Some(a) => old.clips@[a].track_id != new_track_id || old.clips@[a].start_frame != new_start_frame
                    || old.clips@[a].order_hint != new_position,
                None => false,
            },
        TimelineOperation::TrimClip { clip_id, new_duration, .. } => match clip_index(old.clips@, clip_id) {
            Some(a) => old.clips@[a].duration_frames != new_duration,
            None => false,
        },
        TimelineOperation::UpdateClipMetadata { clip_id, updates: u } => {
            &&& (u.name is Some || u.source is Some || u.color is Some || u.gain is Some || u.muted is Some
                || u.locked is Some)
            &&& match clip_index(old.clips@, clip_id) {
                Some(a) => {
                    let c = old.clips@[a];
                    &&& (u.name is Some ==> u.name->0@ != c.name@)
                    &&& (u.source is Some ==> u.source->0@ != c.source@)
                    &&& (u.color is Some ==> u.color->0 != c.color)
                    &&& (u.gain is Some ==> u.gain->0 != c.gain)
                    &&& (u.muted is Some ==> u.muted->0 != c.muted)
                    &&& (u.locked is Some ==> u.locked->0 != c.locked)
                },
                None => false,
            }
        },
        TimelineOperation::UpdateEnvelope { target_id, envelope_type, points } =>
            match envelope_index(old.envelopes@, target_id, envelope_type@) {
                Some(a) => old.envelopes@[a].2@ != points@,
                None => true,
            },
        TimelineOperation::DeleteTrack { track_id } =>
            track_index(old.tracks@, track_id) is Some && track_index(new.tracks@, track_id) is None,
        TimelineOperation::DeleteClip { clip_id } =>
            clip_index(old.clips@, clip_id) is Some && clip_index(new.clips@, clip_id) is None,
        TimelineOperation::SplitClip { .. } | TimelineOperation::UnsplitClip { .. } => false,
    }
}

/// A property of every operation that `f` emits for each element holds
/// of every operation of the concatenation.
proof fn lemma_concat_map_all<A>(s: Seq<A>, f: spec_fn(A) -> Seq<TimelineOperation>, pr: spec_fn(TimelineOperation) -> bool)
    requires
        forall|k: int, j: int| 0 <= k < s.len() && 0 <= j < f(s[k]).len() ==> pr(#[trigger] f(s[k])[j]),
    ensures
        forall|i: int| 0 <= i < concat_map(s, f).len() ==> pr(#[trigger] concat_map(s, f)[i]),
    decreases s.len(),
{
    if s.len() > 0 {
        let r = s.drop_last();
        assert forall|k: int, j: int| 0 <= k < r.len() && 0 <= j < f(r[k]).len() implies pr(#[trigger] f(r[k])[j]) by {
            assert(r[k] == s[k]);
        }
        lemma_concat_map_all(r, f, pr);
        let a = concat_map(r, f);
        let b = f(s.last());
        assert forall|i: int| 0 <= i < (a + b).len() implies pr(#[trigger] (a + b)[i]) by {
            if i < a.len() {
                assert((a + b)[i] == a[i]);
            } else {
                assert((a + b)[i] == b[i - a.len()]);
                assert(b == f(s[s.len() - 1]));
            }
        }
    }
}

/// A property of every operation of two lists holds of their concatenation.
proof fn lemma_all_concat(a: Seq<TimelineOperation>, b: Seq<TimelineOperation>, pr: spec_fn(TimelineOperation) -> bool)
    requires
        forall|i: int| 0 <= i < a.len() ==> pr(#[trigger] a[i]),
        forall|i: int| 0 <= i < b.len() ==> pr(#[trigger] b[i]),
    ensures
        forall|i: int| 0 <= i < (a + b).len() ==> pr(#[trigger] (a + b)[i]),
{
    assert forall|i: int| 0 <= i < (a + b).len() implies pr(#[trigger] (a + b)[i]) by {
        if i < a.len() {
            assert((a + b)[i] == a[i]);
        } else {
            assert((a + b)[i] == b[i - a.len()]);
        }
    }
}

/// Law of minimal deltas: every operation of the delta from `old` to
/// `new` is needed: it writes something that `old` does not show (see
/// `op_needed`), and none is a split.
pub proof fn lemma_delta_ops_needed(old: SessionView, new: SessionView)
    ensures
        forall|i: int| 0 <= i < delta_ops(old, new).len() ==> op_needed(old, new, #[trigger] delta_ops(old, new)[i]),
{
    let pr = |op: TimelineOperation| op_needed(old, new, op);
    let fa = |t: TrackView| track_insert(old.tracks@, t);
    let fb = |t: TrackView| track_update(old.tracks@, t);
    let f2 = |t: TrackView| track_removal(new.tracks@, t);
    let f4 = |c: ClipView| clip_delta(old.clips@, c);
    let f5 = |c: ClipView| clip_removal(new.clips@, c);
    let f6 = |x: EnvelopeEntry| envelope_delta(old.envelopes@, x);
    let ts = new.tracks@;
    let os = old.tracks@;
    let cs = new.clips@;
    let ocs = old.clips@;
    let es = new.envelopes@;
    assert forall|k: int, j: int| 0 <= k < ts.len() && 0 <= j < fa(ts[k]).len() implies pr(#[trigger] fa(ts[k])[j]) by {}
    assert forall|k: int, j: int| 0 <= k < ts.len() && 0 <= j < fb(ts[k]).len() implies pr(#[trigger] fb(ts[k])[j]) by {}
    assert forall|k: int, j: int| 0 <= k < os.len() && 0 <= j < f2(os[k]).len() implies pr(#[trigger] f2(os[k])[j]) by {
        lemma_track_index(os, os[k].track_id);
    }
    assert forall|k: int, j: int| 0 <= k < cs.len() && 0 <= j < f4(cs[k]).len() implies pr(#[trigger] f4(cs[k])[j]) by {
        lemma_clip_needed(old, new, cs[k], j);
    }
    assert forall|k: int, j: int| 0 <= k < ocs.len() && 0 <= j < f5(ocs[k]).len() implies pr(#[trigger] f5(ocs[k])[j]) by {
        lemma_clip_index(ocs, ocs[k].clip_id);
    }
    assert forall|k: int, j: int| 0 <= k < es.len() && 0 <= j < f6(es[k]).len() implies pr(#[trigger] f6(es[k])[j]) by {}
    lemma_concat_map_all(ts, fa, pr);
    lemma_concat_map_all(ts, fb, pr);
    lemma_concat_map_all(os, f2, pr);
    lemma_concat_map_all(cs, f4, pr);
    lemma_concat_map_all(ocs, f5, pr);
    lemma_concat_map_all(es, f6, pr);
    let a3 = metadata_delta(old.metadata, new.metadata);
    assert forall|i: int| 0 <= i < a3.len() implies pr(#[trigger] a3[i]) by {}
    let aa = concat_map(ts, fa);
    let ab = concat_map(ts, fb);
    let a4 = concat_map(cs, f4);
    let a6 = concat_map(es, f6);
    let a2 = concat_map(os, f2);
    let a5 = concat_map(ocs, f5);
    lemma_all_concat(aa, ab, pr);
    lemma_all_concat(aa + ab, a3, pr);
    lemma_all_concat(aa + ab + a3, a4, pr);
    lemma_all_concat(aa + ab + a3 + a4, a6, pr);
    lemma_all_concat(aa + ab + a3 + a4 + a6, a2, pr);
    lemma_all_concat(aa + ab + a3 + a4 + a6 + a2, a5, pr);
    assert(delta_ops(old, new) == aa + ab + a3 + a4 + a6 + a2 + a5);
}

/// Each operation that the clip section emits for clip `c` is needed.
proof fn lemma_clip_needed(old: SessionView, new: SessionView, c: ClipView, j: int)
    requires
        0 <= j < clip_delta(old.clips@, c).len(),
    ensures
        op_needed(old, new, clip_delta(old.clips@, c)[j]),
{
    let ocs = old.clips@;
    match clip_index(ocs, c.clip_id) {
        None => {},
        Some(i) => {
            let p = ocs[i];
            let mv = if p.track_id != c.track_id || p.start_frame != c.start_frame || p.order_hint != c.order_hint {
                seq![TimelineOperation::MoveClip {
                    clip_id: c.clip_id,
                    new_track_id: c.track_id,
                    new_start_frame: c.start_frame,
                    new_position: c.order_hint,
                }]
            } else {
                Seq::empty()
            };
            let tr = if p.duration_frames != c.duration_frames {
                seq![TimelineOperation::TrimClip {
                    clip_id: c.clip_id,
                    new_start_frame: c.start_frame,
                    new_duration: c.duration_frames,
                    edge: crate::operation::TrimEdge::End,
                }]
            } else {
                Seq::empty()
            };
            let u = crate::delta::clip_updates(p, c);
            let md = if u.name is None && u.source is None && u.color is None && u.gain is None && u.muted is None
                && u.locked is None {
                Seq::empty()
            } else {
                seq![TimelineOperation::UpdateClipMetadata { clip_id: c.clip_id, updates: u }]
            };
            let d = clip_delta(ocs, c);
            assert(d == mv + tr + md);
            if j < mv.len() {
                assert(d[j] == mv[j]);
            } else if j < mv.len() + tr.len() {
                assert(d[j] == tr[j - mv.len()]);
            } else {
                assert(d[j] == md[j - mv.len() - tr.len()]);
            }
        },
    }
}

} // verus!
