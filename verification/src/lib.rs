//! The evaluation engine of a spreadsheet workbook: storage, schedules, cycles, spilled arrays, formula
//! spans, references, loading and editing. What only its surroundings know is handed in as plain values.
#[allow(unused_imports)]
use vstd::prelude::*;

pub mod action;
pub mod ast;
pub mod components;
pub mod computed_write;
pub mod coord;
pub mod coordinator;
pub mod criteria;
pub mod demand;
pub mod effects;
pub mod engine;
pub mod evaluation;
pub mod flush;
mod fx;
pub mod grid;
pub mod ingest;
pub mod layer;
pub mod lookup;
pub mod mixed_run;
pub mod mixed_schedule;
pub mod named;
pub mod names;
pub mod number;
pub mod outcome;
pub mod overlay;
pub mod producer;
pub mod recalc;
pub mod reference_type;
pub mod region;
pub mod replay;
pub mod resolve;
pub mod rollback;
pub mod schedule;
pub mod scc;
pub mod scc_run;
pub mod scc_task;
pub mod scc_unit;
pub mod sort;
pub mod source_table;
pub mod span_plan;
pub mod spill;
pub mod staged;
pub mod store;
pub mod structural;
pub mod telemetry;
pub mod text;
pub mod text_index;
pub mod undo;
pub mod used_bounds;
pub mod value;
pub mod vertex;
pub mod visibility;
pub mod walk;
