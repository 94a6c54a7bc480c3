# memory_startup

Startup prefetch of memory images, verified with Verus.

While a memory image first runs, a recorder notes which pages it touches, each
once and in the order of first touch. The trace becomes a small manifest of
merged page ranges. When the image is started again, the manifest is checked
against its committed digest and planned onto the aligned blocks of the
image's final layer objects; the blocks are merged into runs that workers
refill in first-need order.

## Layout

- `src/` is the library. Everything in it is verified.
  - `startup_pack_recorder`: the first-touch recorder and its window rules.
  - `startup_pack`, `startup_manifest`: the trace and manifest formats, with
    round trips stated as laws (`startup_manifest_laws`).
  - `runs`: merging of ranked positions into runs (`runs_laws`).
  - `extents`, `opened_layer`: from layer bytes to object blocks.
  - `plan_model`: what a plan is. `block_planner`, `span_lookup`,
    `backed_pages` and `pack_planner` compute one. `plan_laws`, `plan_order_laws`,
    `plan_budget_laws` and `plan_gap_laws` state what holds of every plan;
    `plan_prefix_laws` states what the budget cuts off, `plan_alike_laws` that
    the layers and the index alone decide, `plan_cut_laws` and
    `plan_sector_laws` that it does not matter how answers are cut.
    `plan_span_laws`, `plan_count_laws` and `plan_call_laws` compare plans of
    spans with plans of their pages.
  - `startup_pack_task`, `startup_prefetch`: the prefetch task, its decisions
    and its work list (`startup_task_laws`, `startup_prefetch_laws`).
  - `shutdown`, `snapshot`, `digest`, `plan_stats`: drain coordination, record
    descriptors, content digests and the statistics tool's inputs.
- `tests/` runs the library.
- `app/` holds what surrounds it: files, clocks, async tasks and records.

Two functions are trusted: `digest::sha256_digest`, which calls `sha2`, and
`sorting::sort_triples`, which calls the standard library's sort.
