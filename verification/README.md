# ltr

A breadth-first scheduler for speculative test-case reduction, verified with
Verus.

A reduction explores a tree: every node is a path of branch choices (events)
below the current root, and every node is a task that a worker replays and
judges. `BFScheduler` hands tasks out in breadth-first order (`next`), takes
the workers' interpretations back (`put_result`), cuts off the subtree of a
task whose result is rejected, and moves the root down to the best child once
the root's children are in, as far as results allow. Tasks that fall out of
the tree have their cancellation tokens signalled. The scheduler keeps a
ghost record of the tasks whose tokens it has signalled, and the contracts
state exactly which tasks each operation adds to it (those that leave the
tree, and no others) and that `cancel` was called on the token of each.
`is_cancelled` asks the task's own token. A token is a shared handle that
users implement, so what a token answers is not modelled; the tests check
that the signalled tokens read as cancelled.
A second ghost record keeps the tasks that a result once rejected; with it
the scheduler states which tasks wait in its queue, and so when `next` has
nothing left to hand out.

Tasks stay in the scheduler's arena once created, so that an index handed
out with a step keeps naming the same task; a task that left the tree is
recognised by no longer hanging from the current root.

## Layout

- `src/breadth_first.rs` — the scheduler, its arena of tasks, the invariant
  it keeps, and the proofs about liveness, pruning and root advancement.
- `src/relative_path.rs` — positions relative to a root generation, held in a
  `smallvec::SmallVec`.
- `src/tape.rs`, `src/sync.rs`, `src/scheduled.rs`, `src/step_scheduler.rs` —
  the traits and the step type the scheduler is generic over.
- `src/dry.rs`, `src/reduce.rs`, `src/ddmin.rs`, `src/acceptors.rs` — event,
  path (an `im::Vector`), interpretation and policy types for the benchmarks
  and the Python bindings, and the stand-in oracles.
- `app/` — the threaded stress test, the tokio minimiser benchmark and the
  pyo3 module; they drive the library from behind a `Mutex`.
- `tests/` — scenario tests of the library.
