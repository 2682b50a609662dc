# quon_na

Scheduling and lowering of quantum circuits for reconfigurable neutral-atom
machines, written in Verus: the integer logic of the scheduler is verified
against contracts over mathematical models (`Seq`, `Set`, `Map`, `Multiset`).

## Layout

- `src/` — the verified library.
  - `graph`, `graph_check`, `extract`: interaction graphs (critical paths,
    dependency segments, commutation graphs), their validation, and dense
    renumbering of extracted qubits.
  - `entangling_schedule`: Misra–Gries edge colouring (stated exactly as
    the run of its steps over the sorted edges; proper, at most Δ+1 colours
    when it succeeds; that it always succeeds on a simple graph is not
    proved), commutation-group colouring, ASAP buckets of dependency DAGs,
    and entangling layers that schedule every interaction exactly once
    within the capacity limit.
  - `exact`: stage colouring of CZ gates through a solver supplied by the
    caller, with every answer checked before it is used.
  - `compaction`: dependency inference and schedule compaction that never
    lengthens a schedule and keeps every input layer's actions, each in
    exactly one output layer; compaction of hybrid QEC schedules under their
    round-barrier cuts.
  - `dialect`, `lower`: the ordering state machine of the `quantum.na`
    dialect, per-layer occupancy claims, occupancy replay and the lowering
    of planned layers to dialect actions.
  - `movement`, `placement`, `geometry`: pair occupancy, greedy leg packing
    and dual selection of the flat AOD planner, grid dimensions, spiral
    orders and binding validation.
  - `emit`: the load → move → store stages of the flat AOD planner, with
    their occupancy, layer and counter bookkeeping, and the planned
    entangle and pass-through layers.
  - `qec_schedule`, `plan`, `pipeline`: QEC round assembly (terminals, local
    gates, CNOT interactions, barriers), backend stage statistics, the
    placement of single-qubit gates among entangling layers, and the
    refocused global `Ry` (split in halves around `Rz(π)` / `Rz(-π)` on
    every bystander atom, so that only the target atom turns).
- `app/` — what the library leaves out: serde and thiserror forms of its
  types, the z3-backed colouring solver, float geometry and timing, the
  flat AOD movement planner (bank geometry, leg lengths, AOD legality and
  R1–R3 decide its steps; the bookkeeping runs in `emit`), and the float
  front end of lowering.
- `tests/` — tests of the library.
