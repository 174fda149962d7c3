# yaks

The core of a systems executor for the `hecs` entity-component-system library, verified
with Verus: runtime borrow tracking of resources, borrow sets and their compatibility,
and every decision an executor makes about which systems may run, in what order and
alongside which others.

## Layout

- `src/` — the verified library.
  - `atomic_borrow`, `resource_cell`, `fetch`, `markers`: borrow tracking of resources, the
    cells that hand resources out only as the tracker allows, and taking a system's
    resource borrows all at once.
  - `type_set`, `bit_set`, `access_set`, `borrows`, `metadata`: what a system borrows, by
    type and as bit sets (`fixedbitset`), and when two borrow sets are compatible.
  - `builder`, `plan`: building an executor, handles and dependencies, and the choice of
    the parallel variant.
  - `dependency`, `queue_order`, `run_queue`, `scheduler`, `disjoint_scheduler`,
    `parallel_executor`: the dependency bookkeeping of a run and the decisions of the
    schedulers.
  - `sequential`, `staged`, `arch_staged`: the sequential executor and the stage-based
    grouping executors.
  - `mod_queue`: pools of queues of deferred world modifications.
  - `error`: the executor's errors and their messages.
- `tests/` — tests of the library.
- `app/` — the runtime around it: type keys, the thread pool and channels that run the
  systems, archetypes of the `hecs` world, `resources` containers, error messages.

## Collections

Types are named by integer keys (`TypeKey`) given out in the runtime, and sets of them are
`TypeSet`, a duplicate-free vector kept in insertion order. Handles are integer keys too, in
a table of `(key, id)` pairs, and per-system data lives in vectors indexed by system id.
`std`'s hashed collections are not used for these: the type sets of a system are hashed
with a custom hasher, which vstd does not specify, and what the library proves about them
(bit `i` of a condensed set stands for the `i`-th type, in one fixed order) needs their order,
which a hashed set does not keep.
