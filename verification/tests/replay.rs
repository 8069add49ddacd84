//! Session recording and playback.

use tpt_av_sync::{
    ClipData, ClipId, OperationId, PeerId, SessionRecording, TaggedOperation, TimelineCrdt, TimelineOperation,
    TrackData, TrackId, TrimEdge, VectorClock,
};

const SECOND: u64 = 1_000_000_000;

fn tagged_at(lamport: u64, peer: PeerId, op: TimelineOperation, at: u64) -> TaggedOperation {
    TaggedOperation {
        op_id: OperationId::new(lamport, peer),
        operation: op,
        lamport_ts: lamport,
        vector_clock: VectorClock::new(),
        peer_id: peer,
        timestamp: at,
    }
}

fn sample_ops(peer: PeerId, base: u64) -> Vec<TaggedOperation> {
    let track = TrackId::from_u64(1);
    let clip = ClipId::from_u64(1);
    vec![
        tagged_at(
            1,
            peer,
            TimelineOperation::InsertTrack { track_id: track, track: TrackData::new("A1"), position: 0 },
            base,
        ),
        tagged_at(
            2,
            peer,
            TimelineOperation::InsertClip {
                clip_id: clip,
                track_id: track,
                clip: ClipData::new("a.wav", 0, 1_000),
                position: 0,
            },
            base + SECOND,
        ),
        tagged_at(
            3,
            peer,
            TimelineOperation::TrimClip { clip_id: clip, new_start_frame: 0, new_duration: 500, edge: TrimEdge::End },
            base + 2 * SECOND,
        ),
    ]
}

#[test]
fn replay_all_reproduces_final_state() {
    let peer = PeerId::from_u64(1);
    let base = 0;
    let mut source = TimelineCrdt::new(peer);
    for op in sample_ops(peer, base) {
        source.apply_remote(op).unwrap();
    }

    let recording = SessionRecording::new(source.operation_log().to_vec());
    let mut replayed = TimelineCrdt::new(PeerId::from_u64(2));
    recording.replay_all(&mut replayed);

    assert_eq!(replayed.view(), source.view());
}

#[test]
fn replay_until_stops_at_cutoff() {
    let peer = PeerId::from_u64(1);
    let base = 0;
    let recording = SessionRecording::new(sample_ops(peer, base));

    let mut at_insert_only = TimelineCrdt::new(PeerId::from_u64(2));
    recording.replay_until(&mut at_insert_only, base + SECOND);
    assert_eq!(at_insert_only.view().clips.len(), 1);
    assert_eq!(at_insert_only.view().clips[0].duration_frames, 1_000);

    let mut full = TimelineCrdt::new(PeerId::from_u64(3));
    recording.replay_all(&mut full);
    assert_eq!(full.view().clips[0].duration_frames, 500);
}

#[test]
fn recording_sorts_out_of_order_input_by_timestamp() {
    let peer = PeerId::from_u64(1);
    let base = 0;
    let mut ops = sample_ops(peer, base);
    ops.reverse();
    let recording = SessionRecording::new(ops);
    let timestamps: Vec<_> = recording.operations().iter().map(|o| o.timestamp).collect();
    let mut sorted = timestamps.clone();
    sorted.sort();
    assert_eq!(timestamps, sorted);
}

#[test]
fn empty_recording_replays_to_nothing() {
    let recording = SessionRecording::new(Vec::new());
    assert!(recording.is_empty());
    assert_eq!(recording.time_range(), None);
    let mut crdt = TimelineCrdt::new(PeerId::from_u64(1));
    recording.replay_all(&mut crdt);
    assert_eq!(crdt.view().clips.len(), 0);
}

#[test]
fn recording_sort_is_stable_for_equal_capture_times() {
    let peer = PeerId::from_u64(1);
    let ops = vec![
        tagged_at(5, peer, TimelineOperation::DeleteClip { clip_id: ClipId::from_u64(1) }, 7),
        tagged_at(3, peer, TimelineOperation::DeleteClip { clip_id: ClipId::from_u64(2) }, 7),
        tagged_at(1, peer, TimelineOperation::DeleteClip { clip_id: ClipId::from_u64(3) }, 2),
    ];
    let recording = SessionRecording::new(ops);
    let lamports: Vec<u64> = recording.operations().iter().map(|o| o.lamport_ts).collect();
    assert_eq!(lamports, vec![1, 5, 3]);
    assert_eq!(recording.len(), 3);
    assert_eq!(recording.time_range(), Some((2, 7)));
}

#[test]
fn replay_plan_gives_capture_gaps() {
    let peer = PeerId::from_u64(1);
    let recording = SessionRecording::new(sample_ops(peer, 10));
    assert_eq!(recording.replay_plan(None), vec![(0, 0), (1, SECOND), (2, SECOND)]);
    assert_eq!(recording.replay_plan(Some(10 + SECOND)), vec![(0, 0), (1, SECOND)]);
    assert_eq!(recording.replay_plan(Some(9)), vec![]);
}
