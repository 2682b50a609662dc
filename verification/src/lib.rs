//! Neutral-atom backend scheduling logic: schedule data model, dependency
//! inference, exclusive-cycle ASAP layering, greedy layer compaction,
//! critical-path analysis, interaction-graph validation, Misra–Gries
//! entangling-layer scheduling, placement grids and spirals, exact stage
//! colouring, flat AOD leg packing and dual selection, QEC round assembly,
//! local-gate splicing, schedule lowering and schedule-ordering validation.

pub mod ids;
pub mod schedule;
pub mod compaction;
pub mod graph;
pub mod placement;
pub mod qec_schedule;
pub mod dialect;
pub mod exact;
pub mod plan;
pub mod movement;
pub mod emit;
pub mod lower;
pub mod entangling_schedule;
pub mod geometry;
pub mod pipeline;
pub mod qec;
pub mod native_gate_decomp;
pub mod extract;
pub mod graph_check;
