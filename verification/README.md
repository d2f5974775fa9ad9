# multi_iterate_mut

Iterating over large vectors on eight threads, with updates of other vectors on the side.

The simple case is a function that is applied to every item of a slice, a chunk of the slice
per thread: `run_rayon_scoped`, `run_scoped_threadpool`, `run_mypool` and `run_mypool2`.

The harder case is a function that also updates items of one or two auxiliary vectors, at any
index: `mypool3::execute_all` and `mypool3::execute_all2`. The updates are deferred, and are
applied in an order that depends on the number of items alone, not on how the threads happen to
be scheduled. So a run gives the same result on every machine.

## Layout

- `src/` is the library, verified with Verus. What a call leaves in the data and in the
  auxiliary vectors is stated exactly. `machine.rs` and `ring.rs` hold the model of the threads
  and the proofs that no two of them use the same part of an auxiliary vector at the same time,
  that they never wait for each other in a circle, and that every interleaving ends in the same
  state. `order.rs` says in which order the updates are applied.
- `app/` holds the threads themselves, which are pinned to cores and busy-wait for work, and the
  benchmarks. A thread walks through its chunk with a `chunk_processor::ChunkProcessor`.
- `tests/` holds the tests of the library.

Within the library the pools do the work of all their threads on the calling thread, step by
step in turn.
