# dataset-local

A sharded key/value store. Every key belongs to one shard, each shard serves its
commands one at a time, and memory is a cache over an append-only log on disk.

The library in `src/` holds everything that can be stated and proved with
[Verus](https://github.com/verus-lang/verus): it does no I/O, starts no threads
and reads no clock. The programs in `app/` add sockets, files, timers and a
terminal.

## Layout

| Path | What it holds |
|------|---------------|
| `src/common.rs` | frames on the wire, and the codec that cuts a byte stream into them |
| `src/utils.rs` | request payloads, commands, ready-made replies |
| `src/hashing.rs` | which shard owns a key |
| `src/server.rs` | the handshake, the plan for each frame, the plan for each reader pass |
| `src/client.rs` | frames to send, replies to understand, the pool of request ids |
| `src/config.rs` | worker count and memory budget |
| `src/bench.rs` | arguments and request stream of the load generator |
| `src/cli.rs` | arguments and input lines of the shell |
| `src/shards/model.rs` | what a shard does, as mathematics |
| `src/shards/state.rs` | what a shard does with each operation, read and timer tick |
| `src/shards/store.rs` | the tiers together: index, cache, expiry queue, log |
| `src/shards/cache.rs`, `recency.rs` | values in memory, least recently used first to go |
| `src/shards/expiry.rs` | keys by the time at which they expire |
| `src/shards/disk.rs` | log records, and the replay of the index journal |
| `src/shards/worker.rs`, `map.rs` | a hash map keyed by bytes |
| `src/buffer.rs` | what is believed of the `bytes` crate |
| `src/wire.rs`, `text.rs` | big-endian numbers, ASCII text |
| `app/` | the server, the load generator (`bench`) and the shell (`cli`) |

## What is proved

- A shard answers every command as a map with expiring entries would, whatever
  it keeps in memory and whatever lies on disk (`State::apply`, over `model.rs`).
- Values in memory stay within the budget, and evicting them loses nothing.
- A shard that starts on the files of another answers as the other would have.
- A journal that was cut short loses its last record only; once its torn tail is
  cut off, whatever is written behind it is found at the next start.
- After any sequence of operations, sweeps, flushes and restarts, a key reads as
  its last write left it, unless that has expired.
- Frames, requests and credentials are read as they were written; what does not
  fit its length field is refused.
- Every frame of a reader pass is answered at once or sent to the shard that
  owns its key, once, in order, under its own id.
- Request ids in use are never handed out again, and none is lost.

The functions named `law_*` state such properties; the contracts of the
executable functions say the rest. What is believed without proof is marked where
it stands: the `bytes` crate in `src/buffer.rs` and the hash in `src/hashing.rs`.

## Settings of the server

| Variable | Meaning |
|----------|---------|
| `WORKERS` | number of shards, rounded up to a power of two; default: one per CPU |
| `MAX_MEMORY_MB` | memory for values, split across the shards; default 2048 |
| `DATA_DIR` | where the shards keep their files; default `data` |
| `DATASET_USERNAME`, `DATASET_PASSWORD` | credentials; authentication is off unless both are set |
