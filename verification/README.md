# formualizer_eval

The evaluation engine of a spreadsheet workbook, written in Rust and proved with Verus.

The library decides; its surroundings act. What only the surroundings can know (the dependency
graph, the result of a formula, the answer of a lock manager) is handed in as plain values, and the
library says what follows: which cells change, what is evaluated next, which error is reported.

## Layout

- `src/` is the verified library.
  - Values and places: `value`, `number`, `text`, `coord`, `region`, `vertex`, `ast`,
    `reference_type`.
  - Storage: `overlay` (one lane of values), `store` (base values, user edits and computed values),
    `computed_write` and `flush` (coalesced writes of computed values), `grid` (what vertices hold,
    show and have spilled), `used_bounds`.
  - Evaluation: `schedule`, `demand`, `recalc`, `walk`, `evaluation`, `replay`, `layer`, `outcome`,
    `effects`, `spill`, `named`, `telemetry`.
  - Cycles: `scc`, `scc_task`, `scc_unit`, `scc_run`.
  - Formula spans: `structural`, `span_plan`, `producer`, `mixed_schedule`,
    `mixed_run`, `coordinator`.
  - References: `resolve`, `source_table`, `names`, `lookup`, `criteria`.
  - Loading: `staged`, `text_index`, `components`, `ingest`.
  - Editing: `engine`, `visibility`, `undo`, `action`, `rollback`.
  - `fx` and `sort` hold what is used of hash maps and sorting.
- `tests/` runs the library on concrete values.
- `app/` is the workbook around the library: it asks a host and performs what the library decides.

Numbers are IEEE 754 doubles, held by their bits; dates and times are serials of the same kind.
