# bounded_pool

A thread pool that runs a task once on each of its threads. The threads are assigned to logical
processors, each of which runs its threads one after the other, so that the parallelism is bounded
by the number of processors. A processor that has run out of threads takes over one that waits for
another processor. Logical processors can be bound to operating system processors.

- `src/` is the scheduling core, verified with Verus: which thread runs next, where and when, when a
  scope may be left, what a panic or a failed binding does, how the pool stops.
  - `bounded.rs`: the pool and its steps.
  - `logical_processor.rs`, `semaphore.rs`, `count_down_latch.rs`: what the pool is made of.
  - `affinity.rs`: processor masks.
  - `model.rs`: the pool as a state machine, which the contracts speak of.
  - `invariants.rs`: the steps keep the states well-formed.
  - `laws.rs`: what holds over all steps, whatever the order in which the threads take theirs.
- `app/` is the pool on operating system threads.
- `tests/` runs the core, one step at a time and with threads.
