# tpt_av_sync

A conflict-free replicated timeline for collaborative audio/video editing,
and the replication protocol that carries it between peers, written in
Verus: every function of the library carries a contract that Verus proves.

## Layout

- `src/` — the verified library.
  - `merge`, `clip_crdt`, `track_crdt`, `envelope_crdt`, `state`: the
    last-writer-wins registers and the session model they build.
  - `operation`, `timeline_crdt`, `history`, `compaction`, `delta`,
    `replay`: the edit vocabulary, the replica (local and remote
    application, pending queue, snapshots, undo/redo), log compaction,
    state diffs and session playback.
  - `message`, `offline`, `peer`, `reliability`, `batcher`, `engine`: the
    replication protocol as a state machine that its caller drives.
  - `convergence`, `reorder`, `split_order`, `delivery`, `retention`,
    `undo`, `freshness`, `diff_apply`: laws of the model (commutation and
    idempotence, order independence, convergence of replicas, faithful
    snapshots and compaction, undo, Lamport freshness, deltas that
    reproduce their target view).
- `tests/` — executable tests of the library.
- `app/` — the parts that do I/O or need the clock: an in-process
  transport, the loop that drives the engine over it, paced replay.

Floating-point values (gain, volume, tempo, envelope values) are carried
as their IEEE-754 bit patterns.
