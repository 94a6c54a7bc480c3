//! What holds of every prefetch: from recording to refill.
use vstd::prelude::*;
use crate::pack_plan::{PackPlan, need_of, needs_of, placed, plan_of};
use crate::plan_lemmas::distinct_blocks;
use crate::plan_model::{Progress, SegmentMapping, Stack, selects, total_pages};
use crate::runs::{Run, grouped, lemma_same_map, runs_of};
use crate::runs_laws::{
    covers, law_first_item_first, law_runs_cover, law_runs_disjoint, law_runs_unique, law_same_runs,
};
use crate::startup_manifest::{
    ManifestData, ManifestError, build_error, manifest_bytes, parse_manifest, ranges_from,
};
use crate::startup_manifest_laws::law_built_manifest_round_trips;
use crate::startup_pack::{TraceError, parse_trace, trace_bytes, trace_error};
use crate::startup_pack_recorder::{
    Recording, after_reads, law_recorded_exactly_once, law_trace_tells_first_touches, min_int,
};
use crate::startup_pack_task::{
    RUN_BLOCKS, StartupPackTask, WorkerStep, block_items, work_items, work_of,
};

verus! {

/// Whether an item of a work list refills a block of a layer.
pub open spec fn refills(item: (usize, u64, u32), layer: usize, block: u32) -> bool {
    item.0 == layer && item.1 <= block < item.1 + item.2
}

/// A block of the plan as a block of a layer.
pub open spec fn block_layer(plan: PackPlan, i: int) -> usize {
    plan.objects@[plan.blocks@[i].object as int].layer
}

/// The runs behind a work list have no more blocks than a refill may have.
proof fn lemma_run_len(plan: PackPlan, runs: Seq<Run>, k: int)
    requires
        runs_of(block_items(plan), RUN_BLOCKS as int, runs),
        0 <= k < runs.len(),
    ensures
        1 <= runs[k].len <= RUN_BLOCKS,
{
    let members = choose|members: Seq<Seq<int>>| #[trigger]
        grouped(block_items(plan), RUN_BLOCKS as int, runs, members);
    assert(1 <= runs[k].len <= RUN_BLOCKS as int);
}

/// The refills cover every planned block, each of them no more than the cap of
/// blocks; the first one covers the block that is needed first.
pub proof fn law_work_covers_the_plan(plan: PackPlan, work: Seq<(usize, u64, u32)>)
    requires
        placed(plan.objects@, plan.blocks@),
        work_of(plan, work),
    ensures
        forall|k: int| 0 <= k < work.len() ==> 1 <= (#[trigger] work[k]).2 <= RUN_BLOCKS,
        forall|i: int|
            #![trigger plan.blocks@[i]]
            0 <= i < plan.blocks@.len() ==> exists|k: int|
                0 <= k < work.len() && refills(
                    #[trigger] work[k],
                    block_layer(plan, i),
                    plan.blocks@[i].block_id,
                ),
        plan.blocks@.len() > 0 ==> work.len() > 0 && refills(
            work[0],
            block_layer(plan, 0),
            plan.blocks@[0].block_id,
        ),
{
    let items = block_items(plan);
    let runs = choose|runs: Seq<Run>| #[trigger]
        runs_of(items, RUN_BLOCKS as int, runs) && work == work_items(runs);
    law_runs_cover(items, RUN_BLOCKS as int, runs);
    assert forall|k: int| 0 <= k < work.len() implies 1 <= (#[trigger] work[k]).2 <= RUN_BLOCKS by {
        lemma_run_len(plan, runs, k);
    }
    assert forall|i: int| #![trigger plan.blocks@[i]] 0 <= i < plan.blocks@.len() implies exists|
        k: int,
    |
        0 <= k < work.len() && refills(
            #[trigger] work[k],
            block_layer(plan, i),
            plan.blocks@[i].block_id,
        ) by {
        assert(items[i] == (block_layer(plan, i) as u64, plan.blocks@[i].block_id as u64));
        let k = choose|k: int| 0 <= k < runs.len() && covers(#[trigger] runs[k], items[i]);
        lemma_run_len(plan, runs, k);
        assert(refills(work[k], block_layer(plan, i), plan.blocks@[i].block_id));
    }
    if plan.blocks@.len() > 0 {
        law_first_item_first(items, RUN_BLOCKS as int, runs);
        lemma_run_len(plan, runs, 0);
        assert(items[0] == (block_layer(plan, 0) as u64, plan.blocks@[0].block_id as u64));
    }
}

/// The refills cover nothing but planned blocks.
pub proof fn law_work_refills_planned_blocks_only(
    plan: PackPlan,
    work: Seq<(usize, u64, u32)>,
    k: int,
    block: u32,
)
    requires
        placed(plan.objects@, plan.blocks@),
        work_of(plan, work),
        0 <= k < work.len(),
        refills(work[k], work[k].0, block),
    ensures
        exists|i: int|
            0 <= i < plan.blocks@.len() && (#[trigger] plan.blocks@[i]).block_id == block
                && block_layer(plan, i) == work[k].0,
{
    let items = block_items(plan);
    let runs = choose|runs: Seq<Run>| #[trigger]
        runs_of(items, RUN_BLOCKS as int, runs) && work == work_items(runs);
    law_runs_cover(items, RUN_BLOCKS as int, runs);
    lemma_run_len(plan, runs, k);
    assert(items.contains((runs[k].group, block as u64)));
    let i = choose|i: int| 0 <= i < items.len() && items[i] == (runs[k].group, block as u64);
    assert(plan.blocks@[i].block_id == block);
}

/// Every block behind a span is refilled, where the spans are planned without
/// an error and the budget covers all layers.
pub proof fn law_every_span_is_refilled(
    plan: PackPlan,
    stack: Stack,
    spans: Seq<(u64, u64)>,
    mem_virtual_size: u64,
    answers: Seq<Vec<SegmentMapping>>,
    budget: int,
    work: Seq<(usize, u64, u32)>,
    i: int,
    dep: (usize, u32),
)
    requires
        stack.wf(),
        stack.answers_ok(answers, spans.len() as int),
        stack.ample_bytes() <= budget,
        stack.after_ranges(spans, mem_virtual_size, answers, budget).failed is None,
        plan_of(
            plan,
            stack,
            stack.after_ranges(spans, mem_virtual_size, answers, budget),
            total_pages(spans),
        ),
        work_of(plan, work),
        0 <= i < spans.len(),
        stack.deps_of(answers, i).contains(dep),
    ensures
        exists|k: int| 0 <= k < work.len() && refills(#[trigger] work[k], dep.0, dep.1),
{
    let p = stack.after_ranges(spans, mem_virtual_size, answers, budget);
    let upto = stack.after_ranges(spans.take(i + 1), mem_virtual_size, answers, budget);
    assert(upto.failed is None) by {
        if upto.failed is Some {
            stack.lemma_ranges_failed(spans, mem_virtual_size, answers, budget, i + 1);
        }
    }
    stack.law_ample_budget_cuts_no_span(spans.take(i + 1), mem_virtual_size, answers, budget);
    stack.law_taken_ranges_are_complete(spans, mem_virtual_size, answers, budget, i);
    let deps = stack.deps_of(answers, i);
    let d = choose|d: int| 0 <= d < deps.len() && deps[d] == dep;
    assert(selects(p.blocks, deps[d].0, deps[d].1 as int));
    let b = choose|b: int|
        0 <= b < p.blocks.len() && (#[trigger] p.blocks[b]).layer == dep.0 && p.blocks[b].block
            == dep.1 as int;
    assert(p.blocks[b] == need_of(plan.objects@, plan.blocks@[b]));
    law_work_covers_the_plan(plan, work);
    assert(block_layer(plan, b) == dep.0 && plan.blocks@[b].block_id == dep.1);
}

/// A plan names no block twice.
pub proof fn law_planned_blocks_distinct(plan: PackPlan, stack: Stack, p: Progress, total: int)
    requires
        plan_of(plan, stack, p, total),
        distinct_blocks(p.blocks),
    ensures
        block_items(plan).no_duplicates(),
{
    let items = block_items(plan);
    assert forall|i: int, j: int|
        0 <= i < items.len() && 0 <= j < items.len() && i != j implies items[i] != items[j] by {
        let (x, y) = if i < j {
            (i, j)
        } else {
            (j, i)
        };
        let needs = needs_of(plan.objects@, plan.blocks@);
        assert(needs[x] == need_of(plan.objects@, plan.blocks@[x]));
        assert(needs[y] == need_of(plan.objects@, plan.blocks@[y]));
        assert(needs[x].layer != needs[y].layer || needs[x].block != needs[y].block);
    }
}

/// A plan has one collection of work items, also where it names blocks twice:
/// the ranks decide their order only.
pub proof fn law_same_work(
    plan: PackPlan,
    a: Seq<(usize, u64, u32)>,
    b: Seq<(usize, u64, u32)>,
)
    requires
        work_of(plan, a),
        work_of(plan, b),
    ensures
        a.to_multiset() == b.to_multiset(),
{
    let items = block_items(plan);
    let cap = RUN_BLOCKS as int;
    let ra = choose|runs: Seq<Run>| #[trigger] runs_of(items, cap, runs) && a == work_items(runs);
    let rb = choose|runs: Seq<Run>| #[trigger] runs_of(items, cap, runs) && b == work_items(runs);
    law_same_runs(items, cap, ra, rb);
    lemma_same_map(ra, rb, |r: Run| (r.group as usize, r.start, r.len as u32));
}

/// A plan that names no block twice has one work list, and no block is refilled
/// twice.
pub proof fn law_work_unique(
    plan: PackPlan,
    a: Seq<(usize, u64, u32)>,
    b: Seq<(usize, u64, u32)>,
)
    requires
        block_items(plan).no_duplicates(),
        work_of(plan, a),
        work_of(plan, b),
    ensures
        a == b,
        forall|k: int, l: int, block: u32|
            #![trigger refills(a[k], a[k].0, block), refills(a[l], a[k].0, block)]
            0 <= k < a.len() && 0 <= l < a.len() && refills(a[k], a[k].0, block) && refills(
                a[l],
                a[k].0,
                block,
            ) ==> k == l,
{
    let items = block_items(plan);
    let cap = RUN_BLOCKS as int;
    let ra = choose|runs: Seq<Run>| #[trigger] runs_of(items, cap, runs) && a == work_items(runs);
    let rb = choose|runs: Seq<Run>| #[trigger] runs_of(items, cap, runs) && b == work_items(runs);
    law_runs_unique(items, cap, ra, rb);
    assert forall|k: int, l: int, block: u32|
        #![trigger refills(a[k], a[k].0, block), refills(a[l], a[k].0, block)]
        0 <= k < a.len() && 0 <= l < a.len() && refills(a[k], a[k].0, block) && refills(
            a[l],
            a[k].0,
            block,
        ) implies k == l by {
        lemma_run_len(plan, ra, k);
        lemma_run_len(plan, ra, l);
        lemma_layer_of_run(plan, ra, k);
        lemma_layer_of_run(plan, ra, l);
        law_runs_disjoint(items, cap, ra, k, l, block as u64);
    }
}

/// The group of a run is a layer index.
proof fn lemma_layer_of_run(plan: PackPlan, runs: Seq<Run>, k: int)
    requires
        runs_of(block_items(plan), RUN_BLOCKS as int, runs),
        0 <= k < runs.len(),
    ensures
        runs[k].group <= usize::MAX,
{
    let items = block_items(plan);
    let members = choose|members: Seq<Seq<int>>| #[trigger]
        grouped(items, RUN_BLOCKS as int, runs, members);
    assert(1 <= runs[k].len);
    let i = members[k][0];
    assert(items[i].0 == runs[k].group);
}

/// The refills that workers are told, one call after the other, each with its
/// view of the scheduler and the clock.
pub open spec fn handed_out(
    task: StartupPackTask,
    calls: Seq<(bool, u128)>,
    work: Seq<(usize, u64, u32)>,
) -> Seq<(usize, u64, u32)>
    decreases calls.len(),
{
    if calls.len() == 0 {
        Seq::empty()
    } else {
        let before = handed_out(task, calls.drop_last(), work);
        match task.step(
            calls.last().0,
            calls.last().1,
            work,
            cursor_after(task, calls.drop_last(), work),
        ) {
            WorkerStep::Refill { layer, start_block, len_blocks } => before.push(
                (layer, start_block, len_blocks),
            ),
            _ => before,
        }
    }
}

/// The shared cursor after some calls.
pub open spec fn cursor_after(
    task: StartupPackTask,
    calls: Seq<(bool, u128)>,
    work: Seq<(usize, u64, u32)>,
) -> usize
    decreases calls.len(),
{
    if calls.len() == 0 {
        0
    } else {
        let cursor = cursor_after(task, calls.drop_last(), work);
        if task.step(calls.last().0, calls.last().1, work, cursor) is Stop {
            cursor
        } else {
            cursor.wrapping_add(1)
        }
    }
}

/// However many workers there are, each item of the work list is handed out at
/// most once, in the order of the list.
pub proof fn law_items_handed_out_once(
    task: StartupPackTask,
    calls: Seq<(bool, u128)>,
    work: Seq<(usize, u64, u32)>,
)
    requires
        calls.len() <= usize::MAX,
    ensures
        handed_out(task, calls, work) == work.take(
            min_int(cursor_after(task, calls, work) as int, work.len() as int),
        ),
        cursor_after(task, calls, work) <= calls.len(),
    decreases calls.len(),
{
    if calls.len() == 0 {
        assert(work.take(0) =~= Seq::empty());
    } else {
        let init = calls.drop_last();
        law_items_handed_out_once(task, init, work);
        let cursor = cursor_after(task, init, work);
        if cursor < work.len() {
            assert(work.take(cursor + 1) =~= work.take(cursor as int).push(work[cursor as int]));
        }
        assert(handed_out(task, calls, work) =~= work.take(
            min_int(cursor_after(task, calls, work) as int, work.len() as int),
        ));
    }
}

/// A recording that finalizes becomes a manifest: its trace decodes to the
/// logged pages in first-touch order, a manifest can be built from them, and
/// that manifest survives encoding and decoding.
pub proof fn law_recording_becomes_manifest(
    mem_virtual_size: u64,
    max_pages: usize,
    reads: Seq<(u128, u64, usize)>,
    ranges: Seq<(u64, u64)>,
)
    requires
        after_reads(Recording::fresh(mem_virtual_size, max_pages), reads).finalize_error() is None,
        ranges_from(
            after_reads(Recording::fresh(mem_virtual_size, max_pages), reads).logged_offsets(),
            ranges,
        ),
    ensures
        ({
            let recording = after_reads(Recording::fresh(mem_virtual_size, max_pages), reads);
            let offsets = recording.logged_offsets();
            let m = ManifestData { mem_virtual_size, prefix_pages: Seq::empty(), ranges };
            &&& parse_trace(trace_bytes(mem_virtual_size, offsets)) == Ok::<
                (u64, Seq<u64>),
                TraceError,
            >((mem_virtual_size, offsets))
            &&& build_error(mem_virtual_size, offsets) is None
            &&& parse_manifest(manifest_bytes(m)) == Ok::<ManifestData, ManifestError>(m)
        }),
{
    let recording = after_reads(Recording::fresh(mem_virtual_size, max_pages), reads);
    let offsets = recording.logged_offsets();
    assert(recording.touched.no_duplicates()) by {
        law_recorded_exactly_once(mem_virtual_size, max_pages, reads);
    }
    lemma_same_image(Recording::fresh(mem_virtual_size, max_pages), reads);
    lemma_logged_distinct(recording);
    assert(trace_error(mem_virtual_size, offsets) is None);
    assert(build_error(mem_virtual_size, offsets) is None);
    law_trace_tells_first_touches(recording);
    law_built_manifest_round_trips(mem_virtual_size, offsets, ranges);
}

proof fn lemma_logged_distinct(recording: Recording)
    requires
        recording.touched.no_duplicates(),
    ensures
        recording.logged_offsets().no_duplicates(),
{
    let offsets = recording.logged_offsets();
    assert forall|i: int, j: int|
        0 <= i < offsets.len() && 0 <= j < offsets.len() && i != j implies offsets[i]
        != offsets[j] by {
        assert(recording.logged()[i] == recording.touched[i]);
        assert(recording.logged()[j] == recording.touched[j]);
    }
}

proof fn lemma_same_image(start: Recording, reads: Seq<(u128, u64, usize)>)
    ensures
        after_reads(start, reads).mem_virtual_size == start.mem_virtual_size,
        after_reads(start, reads).max_pages == start.max_pages,
    decreases reads.len(),
{
    if reads.len() > 0 {
        lemma_same_image(start, reads.drop_last());
    }
}

} // verus!
