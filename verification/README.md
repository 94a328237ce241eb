# patches

A modular audio patch system: a graph of modules joined by cables, and a
planner that turns each new version of the graph into an execution plan while
keeping buffer slots and module-pool slots stable across re-plans.

## Layout

- `src/` is the library, verified with Verus. Each public function states in
  its `ensures` what it returns or changes; the public `lemma_*` proof
  functions state the laws that hold across calls (what a re-plan keeps, what
  reading back a written document gives, what a one-sample cable delay
  delivers, and so on).
  - `graph`, `graph_index`, `layout`: the module graph, its edges and the
    per-node port connectivity and input-buffer resolution.
  - `planner`, `order`, `buffers`, `allocation`, `builder`, `receivers`:
    sink search, execution order, node classification, buffer and module-slot
    allocation and the assembled plan layout.
  - `graph_doc`, `graph_record`, `round_trip`: the document form of a graph
    (nodes, parameters, cables) and the law that reading back a written
    document rebuilds the same graph.
  - `modules`, `parameter_map`, `validation`, `float_bits`: module
    descriptors, parameter values and their validation.
  - `midi`, `audio_state`, `cables`, `instance_id`: the MIDI event queue and
    window draining, the sub-block clock and sink slot, sample buffers and
    instance identities.
  - `engine_state`: which step of a sound engine's life cycle (create,
    open, start, stop) is allowed.
- `tests/`: the test suite, run against the compiled library.
- `app/`: the parts that cannot be verified here: audio processing on
  floating-point samples, the module trait and registry, threads, and the
  YAML reading and writing built on `serde`.

## What is not here

The sound engine's device and stream work (`SoundEngine`, `PatchEngine`,
`build_stream`) and the MIDI input connector (`MidiConnector`) call the
`cpal` and `midir` crates for audio and MIDI device access; this crate does
not include them.
Their decisions that need no device are in `engine_state` (engine life
cycle) and `midi` (event timing and draining). `ModuleInstanceRegistry`, a
map of live `dyn Module` values that nothing else uses, is left out too.
