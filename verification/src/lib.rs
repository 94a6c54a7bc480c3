//! Startup prefetch of memory images.
//!
//! While a memory image first runs, the pages it touches are recorded in the
//! order of their first touch (`startup_pack_recorder`) and kept as a trace
//! (`startup_pack`). The trace becomes a manifest of merged ranges
//! (`startup_manifest`). When the image starts again, the manifest is planned
//! onto the blocks of the image's final layer objects (`pack_planner`), and a
//! task (`startup_pack_task`, `startup_prefetch`) hands those blocks out in
//! first-need order.
//!
//! The modules whose names end in `_laws` state what holds of these operations:
//! of their results, and of how several calls relate.

pub mod backed_pages;
pub mod block_planner;
pub mod codec_laws;
pub mod digest;
pub mod edge_laws;
pub mod extent_laws;
pub mod extents;
pub mod manifest_build_laws;
pub mod opened_layer;
pub mod pack_plan;
pub mod pack_planner;
pub mod page_offset;
pub mod part_laws;
pub mod plan_alike_laws;
pub mod plan_budget_laws;
pub mod plan_byte_laws;
pub mod plan_call_laws;
pub mod plan_cost_laws;
pub mod plan_count_laws;
pub mod plan_cut_laws;
pub mod plan_gap_laws;
pub mod plan_laws;
pub mod plan_lemmas;
pub mod plan_model;
pub mod plan_order_laws;
pub mod plan_outcome_laws;
pub mod plan_prefix_laws;
pub mod plan_result_laws;
pub mod plan_sector_laws;
pub mod plan_span_laws;
pub mod plan_stats;
pub mod plan_unit_laws;
pub mod prefetch_byte_laws;
pub mod recorder_laws;
pub mod runs;
pub mod runs_laws;
pub mod shutdown;
pub mod shutdown_laws;
pub mod snapshot;
pub mod sorting;
pub mod span_lookup;
pub mod startup_manifest;
pub mod startup_manifest_laws;
pub mod startup_pack;
pub mod startup_pack_recorder;
pub mod startup_pack_task;
pub mod startup_prefetch;
pub mod startup_prefetch_laws;
pub mod startup_task_laws;
pub mod task_call_laws;
pub mod wire;
