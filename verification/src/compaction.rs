//! Operation-log compaction: bounds the growth of a replica's operation log
//! without changing its materialized state.
//!
//! Every mutable field is a last-writer-wins register that remembers the tag
//! `(lamport, peer)` of the write it currently holds, and that pair is the
//! id of the operation that wrote it. An operation is kept when it is still
//! the reason some register holds its value. Two kinds are kept regardless:
//! every split and unsplit (their outcome rests on tie-breaks and split
//! points that are not registers), and the first insert of each clip and
//! track (which creates the entity before any register write can land on
//! it).

use vstd::prelude::*;
use crate::clip_crdt::{ClipModel, lemma_text_reg};
use crate::clock::OperationId;
use crate::merge::OpTag;
use crate::operation::{TaggedOperation, TimelineOperation, seqs_same, lemma_same_equiv};
use crate::state::{MetadataModel, Session, SessionModel};
use crate::table::{lemma_table_dom, lemma_table_get};
use crate::track_crdt::TrackModel;

verus! {

/// The tags of a clip's registers.
pub open spec fn clip_tag_seq(c: ClipModel) -> Seq<OpTag> {
    seq![c.alive.stamp(), c.track.stamp(), c.start_frame.stamp(), c.duration_frames.stamp(), c.name.stamp(),
        c.source.stamp(), c.color.stamp(), c.gain.stamp(), c.muted.stamp(), c.locked.stamp(), c.order_hint.stamp()]
}

/// The tags of a track's registers.
pub open spec fn track_tag_seq(t: TrackModel) -> Seq<OpTag> {
    seq![t.alive.stamp(), t.name.stamp(), t.kind.stamp(), t.volume_db.stamp(), t.muted.stamp(), t.solo.stamp(),
        t.order_hint.stamp()]
}

/// The tags of the session-metadata registers.
pub open spec fn metadata_tag_seq(md: MetadataModel) -> Seq<OpTag> {
    seq![md.name.stamp(), md.sample_rate.stamp(), md.tempo_bpm.stamp(), md.ts_numerator.stamp(),
        md.ts_denominator.stamp()]
}

/// `t` is the tag of some register of `m`.
pub open spec fn state_tag(m: SessionModel, t: OpTag) -> bool {
    ||| exists|id: u64| m.clips.contains_key(id) && #[trigger] clip_tag_seq(m.clips[id]).contains(t)
    ||| exists|id: u64| m.tracks.contains_key(id) && #[trigger] track_tag_seq(m.tracks[id]).contains(t)
    ||| exists|k: crate::envelope_crdt::EnvelopeKey| m.envelopes.contains_key(k) && #[trigger] m.envelopes[k].stamp() == t
    ||| metadata_tag_seq(m.metadata).contains(t)
}

/// `ops[i]` is the first insert of its clip or track in `ops`.
pub open spec fn first_insert(ops: Seq<TaggedOperation>, i: int) -> bool {
    match ops[i].operation {
        TimelineOperation::InsertClip { clip_id, .. } => forall|j: int| 0 <= j < i ==>
            !(#[trigger] ops[j].operation matches TimelineOperation::InsertClip { clip_id: c, .. } && c == clip_id),
        TimelineOperation::InsertTrack { track_id, .. } => forall|j: int| 0 <= j < i ==>
            !(#[trigger] ops[j].operation matches TimelineOperation::InsertTrack { track_id: t, .. } && t == track_id),
        _ => false,
    }
}

/// Whether `op` splits a clip or undoes a split.
pub open spec fn splits_or_unsplits(op: TimelineOperation) -> bool {
    op is SplitClip || op is UnsplitClip
}

/// Operation id `id` is kept regardless of the state: it is the id of a
/// split, an unsplit or a first insert in `ops`.
pub open spec fn structurally_kept(ops: Seq<TaggedOperation>, id: OperationId) -> bool {
    exists|i: int| 0 <= i < ops.len() && (#[trigger] ops[i]).op_id == id
        && (splits_or_unsplits(ops[i].operation) || first_insert(ops, i))
}

/// Operation id `id` survives compaction of `ops` against state `m`: it is
/// kept structurally, or it is the (written) tag of some register of `m`.
pub open spec fn kept(ops: Seq<TaggedOperation>, m: SessionModel, id: OperationId) -> bool {
    let t = OpTag { lamport: id.lamport, peer: id.peer };
    structurally_kept(ops, id) || (t != OpTag::spec_initial() && state_tag(m, t))
}

/// The compaction of `ops` against `m`: the kept operations, in order.
pub open spec fn compacted(ops: Seq<TaggedOperation>, m: SessionModel) -> Seq<TaggedOperation> {
    ops.filter(|o: TaggedOperation| kept(ops, m, o.op_id))
}

/// Membership in a concatenation.
proof fn lemma_contains_add<T>(a: Seq<T>, b: Seq<T>, x: T)
    ensures
        (a + b).contains(x) <==> a.contains(x) || b.contains(x),
{
    if a.contains(x) {
        let k = choose|k: int| 0 <= k < a.len() && a[k] == x;
        assert((a + b)[k] == x);
    }
    if b.contains(x) {
        let k = choose|k: int| 0 <= k < b.len() && b[k] == x;
        assert((a + b)[a.len() + k] == x);
    }
    if (a + b).contains(x) {
        let k = choose|k: int| 0 <= k < (a + b).len() && (a + b)[k] == x;
        if k < a.len() {
            assert(a[k] == x);
        } else {
            assert(b[k - a.len()] == x);
        }
    }
}

/// Appends `more` to `tags`.
fn append_tags(tags: &mut Vec<OpTag>, more: Vec<OpTag>)
    ensures
        final(tags)@ == old(tags)@ + more@,
        forall|t: OpTag| #[trigger] final(tags)@.contains(t) <==> old(tags)@.contains(t) || more@.contains(t),
{
    let ghost a = tags@;
    let ghost b = more@;
    let mut more = more;
    tags.append(&mut more);
    proof {
        assert forall|t: OpTag| #[trigger] tags@.contains(t) <==> a.contains(t) || b.contains(t) by {
            lemma_contains_add(a, b, t);
        }
    }
}

/// The tags of every register of the session.
fn state_tags_of(session: &Session) -> (r: Vec<OpTag>)
    requires
        session.wf(),
    ensures
        forall|t: OpTag| #[trigger] r@.contains(t) <==> state_tag(session@, t),
{
    let m = Ghost(session@);
    let mut tags: Vec<OpTag> = Vec::new();
    let clips = session.clips();
    let mut i: usize = 0;
    while i < clips.len()
        invariant
            m@ == session@,
            i <= clips@.len(),
            forall|k: int| 0 <= k < clips@.len() ==> m@.clips.contains_key((#[trigger] clips@[k]).0.0)
                && clips@[k].1@ == m@.clips[clips@[k].0.0],
            forall|t: OpTag| #[trigger] tags@.contains(t) <==>
                exists|k: int| 0 <= k < i && #[trigger] clip_tag_seq(clips@[k].1@).contains(t),
        decreases clips@.len() - i,
    {
        let c = clips[i].1;
        proof {
            lemma_text_reg(c.name);
            lemma_text_reg(c.source);
        }
        let more = vec![c.alive.tag(), c.track.tag(), c.start_frame.tag(), c.duration_frames.tag(), c.name.tag(),
            c.source.tag(), c.color.tag(), c.gain.tag(), c.muted.tag(), c.locked.tag(), c.order_hint.tag()];
        proof { assert(more@ =~= clip_tag_seq(c@)); }
        let ghost before = tags@;
        append_tags(&mut tags, more);
        proof {
            assert forall|t: OpTag| #[trigger] tags@.contains(t) <==>
                exists|k: int| 0 <= k < i + 1 && #[trigger] clip_tag_seq(clips@[k].1@).contains(t) by {
                if clip_tag_seq(clips@[i as int].1@).contains(t) {
                    assert(0 <= i < i + 1);
                }
            }
        }
        i = i + 1;
    }
    let tracks = session.tracks();
    let mut j: usize = 0;
    let ghost after_clips = tags@;
    while j < tracks.len()
        invariant
            m@ == session@,
            j <= tracks@.len(),
            forall|k: int| 0 <= k < tracks@.len() ==> m@.tracks.contains_key((#[trigger] tracks@[k]).0.0)
                && tracks@[k].1@ == m@.tracks[tracks@[k].0.0],
            forall|t: OpTag| #[trigger] tags@.contains(t) <==> after_clips.contains(t)
                || exists|k: int| 0 <= k < j && #[trigger] track_tag_seq(tracks@[k].1@).contains(t),
        decreases tracks@.len() - j,
    {
        let t = tracks[j].1;
        proof { lemma_text_reg(t.name); }
        let more = vec![t.alive.tag(), t.name.tag(), t.kind.tag(), t.volume_db.tag(), t.muted.tag(), t.solo.tag(),
            t.order_hint.tag()];
        proof { assert(more@ =~= track_tag_seq(t@)); }
        append_tags(&mut tags, more);
        proof {
            assert forall|x: OpTag| #[trigger] tags@.contains(x) <==> after_clips.contains(x)
                || exists|k: int| 0 <= k < j + 1 && #[trigger] track_tag_seq(tracks@[k].1@).contains(x) by {
                if track_tag_seq(tracks@[j as int].1@).contains(x) {
                    assert(0 <= j < j + 1);
                }
            }
        }
        j = j + 1;
    }
    let ghost after_tracks = tags@;
    let envs = session.envelopes();
    let env = envs.tags();
    let ghost ev = env@;
    append_tags(&mut tags, env);
    let md = session.session_metadata_tags();
    let mut mdv: Vec<OpTag> = Vec::new();
    mdv.push(md[0]);
    mdv.push(md[1]);
    mdv.push(md[2]);
    mdv.push(md[3]);
    mdv.push(md[4]);
    proof { assert(mdv@ =~= metadata_tag_seq(m@.metadata)); }
    append_tags(&mut tags, mdv);
    proof {
        let entries = envs.entries();
        envs.lemma_view();
        assert forall|t: OpTag| #[trigger] tags@.contains(t) <==> state_tag(session@, t) by {
            // clips
            if exists|k: int| 0 <= k < clips@.len() && #[trigger] clip_tag_seq(clips@[k].1@).contains(t) {
                let k = choose|k: int| 0 <= k < clips@.len() && #[trigger] clip_tag_seq(clips@[k].1@).contains(t);
                assert(m@.clips.contains_key(clips@[k].0.0));
                assert(clip_tag_seq(m@.clips[clips@[k].0.0]).contains(t));
            }
            if exists|id: u64| m@.clips.contains_key(id) && #[trigger] clip_tag_seq(m@.clips[id]).contains(t) {
                let id = choose|id: u64| m@.clips.contains_key(id) && #[trigger] clip_tag_seq(m@.clips[id]).contains(t);
                let k = choose|k: int| 0 <= k < clips@.len() && clips@[k].0.0 == id;
                assert(clips@[k].1@ == m@.clips[id]);
                assert(clip_tag_seq(clips@[k].1@).contains(t));
            }
            // tracks
            if exists|k: int| 0 <= k < tracks@.len() && #[trigger] track_tag_seq(tracks@[k].1@).contains(t) {
                let k = choose|k: int| 0 <= k < tracks@.len() && #[trigger] track_tag_seq(tracks@[k].1@).contains(t);
                assert(m@.tracks.contains_key(tracks@[k].0.0));
                assert(track_tag_seq(m@.tracks[tracks@[k].0.0]).contains(t));
            }
            if exists|id: u64| m@.tracks.contains_key(id) && #[trigger] track_tag_seq(m@.tracks[id]).contains(t) {
                let id = choose|id: u64| m@.tracks.contains_key(id) && #[trigger] track_tag_seq(m@.tracks[id]).contains(t);
                let k = choose|k: int| 0 <= k < tracks@.len() && tracks@[k].0.0 == id;
                assert(tracks@[k].1@ == m@.tracks[id]);
                assert(track_tag_seq(tracks@[k].1@).contains(t));
            }
            // envelopes
            if ev.contains(t) {
                let k = choose|k: int| 0 <= k < ev.len() && ev[k] == t;
                assert(ev[k] == entries[k].1.stamp());
                lemma_table_get(entries, k);
                assert(m@.envelopes.contains_key(entries[k].0));
                assert(m@.envelopes[entries[k].0].stamp() == t);
            }
            if exists|key: crate::envelope_crdt::EnvelopeKey| m@.envelopes.contains_key(key) && #[trigger] m@.envelopes[key].stamp() == t {
                let key = choose|key: crate::envelope_crdt::EnvelopeKey| m@.envelopes.contains_key(key) && #[trigger] m@.envelopes[key].stamp() == t;
                lemma_table_dom(entries, key);
                let k = choose|k: int| 0 <= k < entries.len() && entries[k].0 == key;
                lemma_table_get(entries, k);
                assert(ev[k] == t);
            }
        }
    }
    tags
}

/// Whether `v` holds `x`.
fn holds_u64(v: &Vec<u64>, x: u64) -> (b: bool)
    ensures
        b == v@.contains(x),
{
    let mut i: usize = 0;
    while i < v.len()
        invariant
            i <= v@.len(),
            forall|k: int| 0 <= k < i ==> v@[k] != x,
        decreases v@.len() - i,
    {
        if v[i] == x {
            proof { assert(v@[i as int] == x); }
            return true;
        }
        i = i + 1;
    }
    false
}

/// Whether `v` holds `x`.
fn holds_id(v: &Vec<OperationId>, x: OperationId) -> (b: bool)
    ensures
        b == v@.contains(x),
{
    let mut i: usize = 0;
    while i < v.len()
        invariant
            i <= v@.len(),
            forall|k: int| 0 <= k < i ==> v@[k] != x,
        decreases v@.len() - i,
    {
        if v[i] == x {
            proof { assert(v@[i as int] == x); }
            return true;
        }
        i = i + 1;
    }
    false
}

/// Whether `v` holds `x`.
fn holds_tag(v: &Vec<OpTag>, x: OpTag) -> (b: bool)
    ensures
        b == v@.contains(x),
{
    let mut i: usize = 0;
    while i < v.len()
        invariant
            i <= v@.len(),
            forall|k: int| 0 <= k < i ==> v@[k] != x,
        decreases v@.len() - i,
    {
        if v[i] == x {
            proof { assert(v@[i as int] == x); }
            return true;
        }
        i = i + 1;
    }
    false
}

/// The ids kept regardless of the state: splits and first inserts.
fn structural_ids(ops: &[TaggedOperation]) -> (r: Vec<OperationId>)
    ensures
        forall|id: OperationId| #[trigger] r@.contains(id) <==> structurally_kept(ops@, id),
{
    let mut r: Vec<OperationId> = Vec::new();
    let mut clip_seen: Vec<u64> = Vec::new();
    let mut track_seen: Vec<u64> = Vec::new();
    let mut i: usize = 0;
    while i < ops.len()
        invariant
            i <= ops@.len(),
            forall|c: u64| #[trigger] clip_seen@.contains(c) <==> exists|j: int| 0 <= j < i
                && (#[trigger] ops@[j].operation matches TimelineOperation::InsertClip { clip_id: x, .. } && x.0 == c),
            forall|t: u64| #[trigger] track_seen@.contains(t) <==> exists|j: int| 0 <= j < i
                && (#[trigger] ops@[j].operation matches TimelineOperation::InsertTrack { track_id: x, .. } && x.0 == t),
            forall|id: OperationId| #[trigger] r@.contains(id) <==> exists|j: int| 0 <= j < i
                && (#[trigger] ops@[j]).op_id == id && (splits_or_unsplits(ops@[j].operation) || first_insert(ops@, j)),
        decreases ops@.len() - i,
    {
        let op = &ops[i];
        let ghost rb = r@;
        let ghost cb = clip_seen@;
        let ghost tb = track_seen@;
        let mut keep_it = false;
        match &op.operation {
            TimelineOperation::SplitClip { .. } | TimelineOperation::UnsplitClip { .. } => { keep_it = true; },
            TimelineOperation::InsertClip { clip_id, .. } => {
                if !holds_u64(&clip_seen, clip_id.0) {
                    keep_it = true;
                    clip_seen.push(clip_id.0);
                }
            },
            TimelineOperation::InsertTrack { track_id, .. } => {
                if !holds_u64(&track_seen, track_id.0) {
                    keep_it = true;
                    track_seen.push(track_id.0);
                }
            },
            _ => {},
        }
        if keep_it {
            r.push(op.op_id);
        }
        proof {
            let o = ops@[i as int];
            assert(keep_it == (splits_or_unsplits(o.operation) || first_insert(ops@, i as int))) by {
                match o.operation {
                    TimelineOperation::InsertClip { clip_id, .. } => {
                        if !first_insert(ops@, i as int) {
                            let j = choose|j: int| 0 <= j < i && (#[trigger] ops@[j].operation matches TimelineOperation::InsertClip { clip_id: c, .. } && c == clip_id);
                            assert(cb.contains(clip_id.0));
                        }
                        if cb.contains(clip_id.0) {
                            let j = choose|j: int| 0 <= j < i && (#[trigger] ops@[j].operation matches TimelineOperation::InsertClip { clip_id: x, .. } && x.0 == clip_id.0);
                            assert(!first_insert(ops@, i as int));
                        }
                    },
                    TimelineOperation::InsertTrack { track_id, .. } => {
                        if !first_insert(ops@, i as int) {
                            let j = choose|j: int| 0 <= j < i && (#[trigger] ops@[j].operation matches TimelineOperation::InsertTrack { track_id: c, .. } && c == track_id);
                            assert(tb.contains(track_id.0));
                        }
                        if tb.contains(track_id.0) {
                            let j = choose|j: int| 0 <= j < i && (#[trigger] ops@[j].operation matches TimelineOperation::InsertTrack { track_id: x, .. } && x.0 == track_id.0);
                            assert(!first_insert(ops@, i as int));
                        }
                    },
                    _ => {},
                }
            }
            assert forall|c: u64| #[trigger] clip_seen@.contains(c) <==> exists|j: int| 0 <= j < i + 1
                && (#[trigger] ops@[j].operation matches TimelineOperation::InsertClip { clip_id: x, .. } && x.0 == c) by {
                if clip_seen@.contains(c) && !cb.contains(c) {
                    assert(clip_seen@ == cb.push(c) || clip_seen@ == cb);
                }
                if !cb.contains(c) && (ops@[i as int].operation matches TimelineOperation::InsertClip { clip_id: x, .. } && x.0 == c) {
                    assert(clip_seen@.last() == c);
                }
                if cb.contains(c) {
                    let k = choose|k: int| 0 <= k < cb.len() && cb[k] == c;
                    assert(clip_seen@[k] == c);
                }
            }
            assert forall|t: u64| #[trigger] track_seen@.contains(t) <==> exists|j: int| 0 <= j < i + 1
                && (#[trigger] ops@[j].operation matches TimelineOperation::InsertTrack { track_id: x, .. } && x.0 == t) by {
                if track_seen@.contains(t) && !tb.contains(t) {
                    assert(track_seen@ == tb.push(t) || track_seen@ == tb);
                }
                if !tb.contains(t) && (ops@[i as int].operation matches TimelineOperation::InsertTrack { track_id: x, .. } && x.0 == t) {
                    assert(track_seen@.last() == t);
                }
                if tb.contains(t) {
                    let k = choose|k: int| 0 <= k < tb.len() && tb[k] == t;
                    assert(track_seen@[k] == t);
                }
            }
            assert forall|id: OperationId| #[trigger] r@.contains(id) <==> exists|j: int| 0 <= j < i + 1
                && (#[trigger] ops@[j]).op_id == id && (splits_or_unsplits(ops@[j].operation) || first_insert(ops@, j)) by {
                if rb.contains(id) {
                    let k = choose|k: int| 0 <= k < rb.len() && rb[k] == id;
                    assert(r@[k] == id);
                }
                if keep_it && id == o.op_id {
                    assert(r@.last() == id);
                }
                if r@.contains(id) && !rb.contains(id) {
                    let k = choose|k: int| 0 <= k < r@.len() && r@[k] == id;
                    assert(k == rb.len());
                }
            }
        }
        i = i + 1;
    }
    r
}

/// Computes the compacted form of `ops` — the replica's own log — for the
/// current state of `session`: the kept operations, in log order. For a
/// log without splits, replaying the result from scratch gives every
/// register the value and tag it holds ([`crate::retention`]).
pub fn compact(ops: &[TaggedOperation], session: &Session) -> (r: Vec<TaggedOperation>)
    requires
        session.wf(),
    ensures
        seqs_same(r@, compacted(ops@, session@)),
{
    let structural = structural_ids(ops);
    let tags = state_tags_of(session);
    let initial = OpTag::initial();
    let mut r: Vec<TaggedOperation> = Vec::new();
    let mut i: usize = 0;
    let ghost pred = |o: TaggedOperation| kept(ops@, session@, o.op_id);
    proof {
        reveal(Seq::filter);
        assert(ops@.take(0) =~= Seq::<TaggedOperation>::empty());
    }
    while i < ops.len()
        invariant
            i <= ops@.len(),
            pred == (|o: TaggedOperation| kept(ops@, session@, o.op_id)),
            forall|id: OperationId| #[trigger] structural@.contains(id) <==> structurally_kept(ops@, id),
            forall|t: OpTag| #[trigger] tags@.contains(t) <==> state_tag(session@, t),
            initial == OpTag::spec_initial(),
            seqs_same(r@, ops@.take(i as int).filter(pred)),
        decreases ops@.len() - i,
    {
        let op = &ops[i];
        let t = OpTag::new(op.op_id.lamport, op.op_id.peer);
        let keep = holds_id(&structural, op.op_id) || (!(t == initial) && holds_tag(&tags, t));
        proof {
            reveal(Seq::filter);
            assert(ops@.take(i + 1).drop_last() =~= ops@.take(i as int));
            assert(ops@.take(i + 1).last() == ops@[i as int]);
            assert(keep == pred(ops@[i as int]));
        }
        if keep {
            let ghost before = r@;
            r.push(op.duplicate());
            proof {
                let f = ops@.take(i as int).filter(pred);
                assert forall|k: int| 0 <= k < r@.len() implies (#[trigger] r@[k]).same(f.push(ops@[i as int])[k]) by {
                    if k < before.len() {
                        assert(r@[k] == before[k]);
                    }
                }
            }
        }
        i = i + 1;
    }
    proof { assert(ops@.take(i as int) =~= ops@); }
    r
}

/// Where an element of a filtered sequence comes from: position `i` of
/// `s`, with the filtered prefix before it the filter of `s` before `i`.
proof fn lemma_filter_origin<A>(s: Seq<A>, pred: spec_fn(A) -> bool, k: int) -> (i: int)
    requires
        0 <= k < s.filter(pred).len(),
    ensures
        0 <= i < s.len(),
        s.filter(pred)[k] == s[i],
        s.filter(pred).take(k) == s.take(i).filter(pred),
    decreases s.len(),
{
    reveal(Seq::filter);
    let sub = s.drop_last().filter(pred);
    if k < sub.len() {
        let i = lemma_filter_origin(s.drop_last(), pred, k);
        assert(s.drop_last().take(i) =~= s.take(i));
        if pred(s.last()) {
            assert(sub.push(s.last()).take(k) =~= sub.take(k));
        }
        i
    } else {
        let i = s.len() - 1;
        assert(s.take(i) =~= s.drop_last());
        assert(sub.push(s.last()).take(k) =~= sub);
        i
    }
}

/// Filtering keeps a sequence whose elements all pass.
proof fn lemma_filter_all<A>(s: Seq<A>, pred: spec_fn(A) -> bool)
    requires
        forall|i: int| 0 <= i < s.len() ==> pred(#[trigger] s[i]),
    ensures
        s.filter(pred) == s,
    decreases s.len(),
{
    reveal(Seq::filter);
    if s.len() > 0 {
        assert forall|i: int| 0 <= i < s.drop_last().len() implies pred(#[trigger] s.drop_last()[i]) by {
            assert(s.drop_last()[i] == s[i]);
        }
        lemma_filter_all(s.drop_last(), pred);
        assert(pred(s[s.len() - 1]));
        assert(s.drop_last().push(s.last()) =~= s);
    }
}

/// Law: compacting twice against the same state is compacting once, for
/// a log whose operation ids are distinct (as those of a replica's log).
pub proof fn lemma_compact_twice(ops: Seq<TaggedOperation>, m: SessionModel)
    requires
        forall|a: int, b: int| 0 <= a < ops.len() && 0 <= b < ops.len() && a != b ==> ops[a].op_id != ops[b].op_id,
    ensures
        compacted(compacted(ops, m), m) == compacted(ops, m),
{
    let pred1 = |o: TaggedOperation| kept(ops, m, o.op_id);
    let c = compacted(ops, m);
    let pred2 = |o: TaggedOperation| kept(c, m, o.op_id);
    assert forall|k: int| 0 <= k < c.len() implies pred2(#[trigger] c[k]) by {
        ops.lemma_filter_pred(pred1, k);
        let id = c[k].op_id;
        if structurally_kept(ops, id) {
            let i = choose|i: int| 0 <= i < ops.len() && (#[trigger] ops[i]).op_id == id
                && (splits_or_unsplits(ops[i].operation) || first_insert(ops, i));
            let i2 = lemma_filter_origin(ops, pred1, k);
            assert(i == i2);
            if first_insert(ops, i) {
                assert forall|j: int| 0 <= j < k implies !(#[trigger] c[j].operation matches
                    TimelineOperation::InsertClip { clip_id: x, .. } && Some(x) == (match ops[i].operation {
                        TimelineOperation::InsertClip { clip_id, .. } => Some(clip_id), _ => None }))
                    && !(c[j].operation matches TimelineOperation::InsertTrack { track_id: y, .. }
                    && Some(y) == (match ops[i].operation {
                        TimelineOperation::InsertTrack { track_id, .. } => Some(track_id), _ => None })) by {
                    assert(c.take(k)[j] == c[j]);
                    assert(ops.take(i).filter(pred1).contains(c[j]));
                    ops.take(i).lemma_filter_contains_rev(pred1, c[j]);
                    let j2 = choose|j2: int| 0 <= j2 < ops.take(i).len() && ops.take(i)[j2] == c[j];
                    assert(ops[j2] == c[j]);
                }
                assert(first_insert(c, k));
            }
            assert(structurally_kept(c, id));
        }
    }
    lemma_filter_all(c, pred2);
}

/// Filtering two sequences that agree position by position, with
/// predicates that agree on them, gives sequences that agree.
proof fn lemma_filter_same(x: Seq<TaggedOperation>, y: Seq<TaggedOperation>, px: spec_fn(TaggedOperation) -> bool,
    py: spec_fn(TaggedOperation) -> bool)
    requires
        seqs_same(x, y),
        forall|i: int| 0 <= i < x.len() ==> px(#[trigger] x[i]) == py(y[i]),
    ensures
        seqs_same(x.filter(px), y.filter(py)),
    decreases x.len(),
{
    reveal(Seq::filter);
    if x.len() > 0 {
        let x2 = x.drop_last();
        let y2 = y.drop_last();
        assert forall|i: int| 0 <= i < x2.len() implies (#[trigger] x2[i]).same(y2[i]) by {
            assert(x2[i] == x[i] && y2[i] == y[i]);
        }
        assert forall|i: int| 0 <= i < x2.len() implies px(#[trigger] x2[i]) == py(y2[i]) by {
            assert(x2[i] == x[i] && y2[i] == y[i]);
        }
        lemma_filter_same(x2, y2, px, py);
        assert(x.last() == x[x.len() - 1] && y.last() == y[y.len() - 1]);
        assert(x.last().same(y.last()));
        let fx = x2.filter(px);
        let fy = y2.filter(py);
        if px(x.last()) {
            assert forall|i: int| 0 <= i < fx.push(x.last()).len() implies
                (#[trigger] fx.push(x.last())[i]).same(fy.push(y.last())[i]) by {
                if i < fx.len() {
                    assert(fx.push(x.last())[i] == fx[i] && fy.push(y.last())[i] == fy[i]);
                }
            }
        }
    }
}

/// Copies of a log have their first inserts at the same positions.
proof fn lemma_first_insert_same(x: Seq<TaggedOperation>, y: Seq<TaggedOperation>, i: int)
    requires
        seqs_same(x, y),
        0 <= i < x.len(),
    ensures
        first_insert(x, i) == first_insert(y, i),
        splits_or_unsplits(x[i].operation) == splits_or_unsplits(y[i].operation),
{
    assert(x[i].same(y[i]));
    assert forall|j: int| 0 <= j < x.len() && !(x[j].operation is UpdateEnvelope)
        implies #[trigger] x[j].operation == y[j].operation by {
        assert(x[j].same(y[j]));
    }
    assert forall|j: int| 0 <= j < x.len() implies (#[trigger] x[j].operation is UpdateEnvelope)
        == (y[j].operation is UpdateEnvelope) by {
        assert(x[j].same(y[j]));
    }
    if !(x[i].operation is UpdateEnvelope) {
        assert(x[i].operation == y[i].operation);
    }
    match x[i].operation {
        TimelineOperation::InsertClip { clip_id, .. } => {
            assert forall|j: int| 0 <= j < i implies
                (#[trigger] x[j].operation matches TimelineOperation::InsertClip { clip_id: c, .. } && c == clip_id)
                == (y[j].operation matches TimelineOperation::InsertClip { clip_id: c, .. } && c == clip_id) by {
                assert(x[j].same(y[j]));
                if !(x[j].operation is UpdateEnvelope) {
                    assert(x[j].operation == y[j].operation);
                }
            }
            if first_insert(x, i) {
                assert forall|j: int| 0 <= j < i implies !(#[trigger] y[j].operation
                    matches TimelineOperation::InsertClip { clip_id: c, .. } && c == clip_id) by {
                    assert(x[j].same(y[j]));
                    assert(!(x[j].operation matches TimelineOperation::InsertClip { clip_id: c, .. } && c == clip_id));
                    if !(x[j].operation is UpdateEnvelope) {
                        assert(x[j].operation == y[j].operation);
                    }
                }
            }
            if first_insert(y, i) {
                assert forall|j: int| 0 <= j < i implies !(#[trigger] x[j].operation
                    matches TimelineOperation::InsertClip { clip_id: c, .. } && c == clip_id) by {
                    assert(y[j].operation == y[j].operation);
                }
            }
        },
        TimelineOperation::InsertTrack { track_id, .. } => {
            assert forall|j: int| 0 <= j < i implies
                (#[trigger] x[j].operation matches TimelineOperation::InsertTrack { track_id: t, .. } && t == track_id)
                == (y[j].operation matches TimelineOperation::InsertTrack { track_id: t, .. } && t == track_id) by {
                assert(x[j].same(y[j]));
                if !(x[j].operation is UpdateEnvelope) {
                    assert(x[j].operation == y[j].operation);
                }
            }
            if first_insert(x, i) {
                assert forall|j: int| 0 <= j < i implies !(#[trigger] y[j].operation
                    matches TimelineOperation::InsertTrack { track_id: t, .. } && t == track_id) by {
                    assert(x[j].same(y[j]));
                    assert(!(x[j].operation matches TimelineOperation::InsertTrack { track_id: t, .. } && t == track_id));
                    if !(x[j].operation is UpdateEnvelope) {
                        assert(x[j].operation == y[j].operation);
                    }
                }
            }
            if first_insert(y, i) {
                assert forall|j: int| 0 <= j < i implies !(#[trigger] x[j].operation
                    matches TimelineOperation::InsertTrack { track_id: t, .. } && t == track_id) by {
                    assert(y[j].operation == y[j].operation);
                }
            }
        },
        _ => {},
    }
}

/// Copies of a log keep the same operations in compaction.
proof fn lemma_kept_same(x: Seq<TaggedOperation>, y: Seq<TaggedOperation>, m: SessionModel, id: OperationId)
    requires
        seqs_same(x, y),
    ensures
        kept(x, m, id) == kept(y, m, id),
{
    if structurally_kept(x, id) {
        let i = choose|i: int| 0 <= i < x.len() && (#[trigger] x[i]).op_id == id
            && (splits_or_unsplits(x[i].operation) || first_insert(x, i));
        lemma_first_insert_same(x, y, i);
        assert(x[i].same(y[i]));
        assert(structurally_kept(y, id));
    }
    if structurally_kept(y, id) {
        let i = choose|i: int| 0 <= i < y.len() && (#[trigger] y[i]).op_id == id
            && (splits_or_unsplits(y[i].operation) || first_insert(y, i));
        lemma_first_insert_same(x, y, i);
        assert(x[i].same(y[i]));
        assert(structurally_kept(x, id));
    }
}

/// Law: compacting the result of a compaction against the same state
/// gives that result again, position by position, for a log whose
/// operation ids are distinct. It speaks of what two calls of
/// [`compact`] return: `once` from `ops`, then `twice` from `once`.
pub proof fn lemma_compact_calls_twice(ops: Seq<TaggedOperation>, m: SessionModel, once: Seq<TaggedOperation>,
    twice: Seq<TaggedOperation>)
    requires
        forall|a: int, b: int| 0 <= a < ops.len() && 0 <= b < ops.len() && a != b ==> ops[a].op_id != ops[b].op_id,
        seqs_same(once, compacted(ops, m)),
        seqs_same(twice, compacted(once, m)),
    ensures
        seqs_same(twice, once),
{
    let c = compacted(ops, m);
    lemma_compact_twice(ops, m);
    let po = |o: TaggedOperation| kept(once, m, o.op_id);
    let pc = |o: TaggedOperation| kept(c, m, o.op_id);
    assert forall|i: int| 0 <= i < once.len() implies po(#[trigger] once[i]) == pc(c[i]) by {
        assert(once[i].same(c[i]));
        lemma_kept_same(once, c, m, once[i].op_id);
    }
    lemma_filter_same(once, c, po, pc);
    assert(compacted(c, m) == c);
    assert forall|i: int| 0 <= i < twice.len() implies (#[trigger] twice[i]).same(once[i]) by {
        let f = compacted(once, m);
        assert(twice[i].same(f[i]));
        assert(f[i].same(c[i]));
        assert(once[i].same(c[i]));
        lemma_same_equiv(twice[i], f[i], c[i]);
        lemma_same_equiv(once[i], c[i], c[i]);
        lemma_same_equiv(twice[i], c[i], once[i]);
    }
}

} // verus!
