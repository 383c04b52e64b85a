# symbol_replay

A verified library that replays recorded row operations on symbols over GF(256), as the
encoder and the decoder of a fountain code do. Operations add a symbol to another one,
scale a symbol, do both at once, or reorder all symbols.

What the operations mean is written down in `src/model.rs` as functions on rows of octets.
Every way of performing them is proved to have that meaning: one after the other, as a
schedule, or shared out by columns among the workers of a pool.

- `src/octet.rs`, `src/octets.rs`: the field, and arithmetic on runs of its elements.
- `src/symbol.rs`, `src/symbol_slab.rs`: symbols, and the buffer that holds many of them.
- `src/operation_vector.rs`: recorded operations, schedules, and performing them.
- `src/replay_pool.rs`: how a job is cut into chunks, handed out and accounted for.
- `src/pool_protocol.rs`: what holds of a pool under every interleaving of its workers.
- `app/`: a pool of parked threads around the library's steps, and operations in a form
  that `serde` can write and read.

The library's own `ReplayPool` runs its workers in turn on the calling thread, and is
handed in by the caller. The pool in `app/` runs them on threads, is shared by the whole
process, and takes every decision with the same verified functions.
