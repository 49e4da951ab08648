# rewind

Conservative recovery for a local workspace: what commands change in a directory
is recorded as a chain of states, and an operation can be undone or redone as
long as the workspace is in the state that the operation left. Where something
happened that was not seen, that is recorded as an unknown interval, and nothing
is undone across it before the workspace was reconciled.

## Layout

- `src/` is the library. Every item is verified by Verus. It holds no I/O: it
  takes what was seen on disk, in the catalog or on the clock as plain values,
  and says what has to be done.
  - `model`, `error`, `text`, `table`, `order`, `words`: the data, and texts,
    tables and sorted lists with their models.
  - `paths`, `scan`, `cas`, `canonical`: paths in a workspace, the manifest of a
    tree, stored contents, and the identity of a state.
  - `journal`, `rollback`: the plan of a transaction, the transaction as a state
    machine from the first step to the commit, and its recovery.
  - `db`, `workspace`, `cli`: what the catalog holds, and the decisions of the
    commands and hooks.
  - `depgraph`, `cycles`, `plan`: dependencies between operations, and plans.
  - `humantime`, `timeline`, `ui`: times as text, the timeline, the read-only
    surface.
  - `watch`: the watcher as a state machine, its files and its lifecycle.
  - `outside`: what is called in other crates, with the contracts that are
    relied on.
- `tests/` runs the library on concrete values.
- `app/` is the program around it: arguments, files, SQLite, locks, processes
  and platform notifications. Verus does not see it.

## What is proved

Each function says in its contract what it returns for every input. The laws
that span functions are public proof functions beside them, among others:

- a step of a rollback that meets something unknown changes nothing, and a
  transaction commits only in its target state (`rollback`);
- two states have the same canonical bytes only if they are the same state
  (`canonical`);
- a plan that can be executed rests on evidence that was evaluated, and undoes
  backwards (`plan`);
- parsing a formatted time gives the time back (`humantime`);
- degradations of the watcher gate the workspace (`watch`).
