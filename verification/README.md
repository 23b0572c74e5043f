# sand-sim

A native simulation core for Sandustry 0.5.2: the per-cell physics loop of
the game's simulation worker, over the game's own world layout, with every
function's behaviour stated in a contract and proved with Verus.

## Layout

- `src/single.rs` — binary32 values as the game stores them (`u32`
  encodings); comparisons are stated exactly, arithmetic is done by
  `rustc_apfloat` and named.
- `src/view.rs` — the world: the grid of cell identifiers, the per-element
  fields, chunk flags, and the writes that keep them consistent.
- `src/events.rs` — the event queue through which everything beyond movement
  (reactions, timers, unknown matter) goes back to the game.
- `src/physics.rs` — the grid rules of movement: collisions, exchange by
  density, diagonal slides, the vertical trace and the sideways walk.
- `src/physics/motion.rs` — the kinematics: gravity, thresholds, damping, the
  sideways scatter of solids.
- `src/physics/update.rs` — one cell by its state of matter, and the sweep
  over a rectangle of cells.
- `src/chunk.rs` — which chunks the core takes, the verdict cache, the
  statistics, the window of a chunk.
- `src/session.rs` — the core as the worker drives it, one chunk at a time.
- `src/snapshot.rs` — snapshots of a real world for benchmarks.
- `app/` — the benchmark program and the Node binding (napi), which copy the
  game's arrays in and out and call the library.
- `tests/` — behaviour on small worlds and exact values.
