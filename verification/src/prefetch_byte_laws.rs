//! What a prefetch refills, in terms of the manifest, the layers of the task
//! and what the index answered.
use vstd::prelude::*;
use crate::digest::{hex_of, sha256};
use crate::extents::PlanError;
use crate::pack_plan::{PackPlan, placed, ranges_planned};
use crate::part_laws::{blocks_of_layers, index_answers, layer_in_64_bits, lemma_stack_usable};
use crate::plan_byte_laws::{
    answer_maps_into, describes_layer, lemma_puts_byte, puts_byte, units_map_into, units_touch,
};
use crate::plan_model::{
    FinalLayerSource, Need, OpenedLayer, Segment, SegmentMapping, Stack, layers_error,
};
use crate::plan_result_laws::{
    block_at, leads_with, plans_units, span_asked, units_before, units_need,
};
use crate::runs::{Run, fully_merged, grouped, is_member, precedes, runs_of, starts_before};
use crate::runs_laws::law_runs_cover;
use crate::startup_manifest::{ManifestData, parse_manifest};
use crate::startup_pack_task::{
    PrefetchError, StartupPackLayer, StartupPackTask, block_items, merge_runs_by_first_need,
    work_items, work_of,
};
use crate::startup_prefetch::{prefetch_planned, sources_of, spans_of, work_planned};
use crate::startup_prefetch_laws::refills;

verus! {

/// Whether layers are those of a task, index by index, by content identity.
pub open spec fn same_layers(
    sources: Seq<FinalLayerSource>,
    layers: Seq<StartupPackLayer>,
) -> bool {
    &&& sources.len() == layers.len()
    &&& forall|i: int|
        #![trigger sources[i]]
        #![trigger layers[i]]
        0 <= i < layers.len() ==> sources[i].digest == layers[i].digest && sources[i].size
            == layers[i].size
}

/// The layer at each index that a task plans against has the digest and the
/// size of the task's layer at that index.
pub proof fn law_final_layers(task: StartupPackTask, layers: Vec<FinalLayerSource>)
    requires
        call_ensures(StartupPackTask::final_layers, (&task,), layers),
    ensures
        same_layers(layers@, task.layers@),
{
}

/// Whether no block stands twice in a plan.
pub open spec fn blocks_differ(plan: PackPlan) -> bool {
    forall|a: int, b: int|
        #![trigger block_at(plan, a), block_at(plan, b)]
        0 <= a < b < plan.blocks@.len() ==> block_at(plan, a).layer != block_at(plan, b).layer
            || block_at(plan, a).block != block_at(plan, b).block
}

/// Whether an item of a work list refills block `b` of a plan.
pub open spec fn refills_planned(item: (usize, u64, u32), plan: PackPlan, b: int) -> bool {
    0 <= b < plan.blocks@.len() && refills(item, block_at(plan, b).layer, block_at(plan, b).block)
}

/// Whether item `a` comes first in need: it refills a block that stands before
/// all those of item `b` in the plan.
pub open spec fn needed_before(
    plan: PackPlan,
    a: (usize, u64, u32),
    b: (usize, u64, u32),
) -> bool {
    exists|x: int| #[trigger]
        refills_planned(a, plan, x) && forall|y: int| #[trigger]
            refills_planned(b, plan, y) ==> x < y
}

/// Whether a work list is what it should be for a plan: it refills the blocks
/// of the plan and no others, each once, at most 64 at a time; neighbours are
/// refilled together unless that is more than 64; and the items stand in the
/// order of their earliest need.
pub open spec fn works_off(plan: PackPlan, work: Seq<(usize, u64, u32)>) -> bool {
    &&& forall|k: int| 0 <= k < work.len() ==> 1 <= (#[trigger] work[k]).2 <= 64
    &&& forall|b: int| #[trigger]
        planned(plan, b) ==> exists|k: int|
            0 <= k < work.len() && #[trigger] refills_planned(work[k], plan, b)
    &&& forall|k: int, block: u32|
        0 <= k < work.len() && #[trigger] refills(work[k], work[k].0, block) ==> exists|b: int|
            #[trigger] planned(plan, b) && block_at(plan, b).layer == work[k].0 && block_at(
                plan,
                b,
            ).block == block
    &&& forall|k: int, l: int, b: int|
        #![trigger refills_planned(work[k], plan, b), refills_planned(work[l], plan, b)]
        0 <= k < work.len() && 0 <= l < work.len() && refills_planned(work[k], plan, b)
            && refills_planned(work[l], plan, b) ==> k == l
    &&& forall|k: int, l: int|
        #![trigger work[k], work[l]]
        0 <= k < work.len() && 0 <= l < work.len() && work[k].0 == work[l].0 && work[k].1
            + work[k].2 == work[l].1 ==> work[k].2 == 64
    &&& forall|k: int, l: int|
        #![trigger work[k], work[l]]
        0 <= k < l < work.len() ==> needed_before(plan, work[k], work[l])
}

/// Whether a plan has a block `b`.
pub open spec fn planned(plan: PackPlan, b: int) -> bool {
    0 <= b < plan.blocks@.len()
}

/// A block of a plan as one of the items to merge.
proof fn lemma_item(plan: PackPlan, b: int)
    requires
        0 <= b < plan.blocks@.len(),
    ensures
        block_items(plan)[b] == (block_at(plan, b).layer as u64, block_at(plan, b).block as u64),
        block_items(plan).len() == plan.blocks@.len(),
{
}

/// A plan without repeated blocks becomes a work list as it should be.
pub proof fn law_work_list(plan: PackPlan, work: Vec<(usize, u64, u32)>)
    requires
        placed(plan.objects@, plan.blocks@),
        blocks_differ(plan),
        call_ensures(merge_runs_by_first_need, (&plan,), work),
    ensures
        works_off(plan, work@),
{
    lemma_works_off(plan, work@);
}

proof fn lemma_works_off(plan: PackPlan, work: Seq<(usize, u64, u32)>)
    requires
        placed(plan.objects@, plan.blocks@),
        blocks_differ(plan),
        work_of(plan, work),
    ensures
        works_off(plan, work),
{
    let items = block_items(plan);
    let cap = 64int;
    let runs = choose|runs: Seq<Run>| #[trigger]
        runs_of(items, cap, runs) && work == work_items(runs);
    let members = choose|members: Seq<Seq<int>>| #[trigger] grouped(items, cap, runs, members);
    assert(items.no_duplicates()) by {
        assert forall|i: int, j: int|
            0 <= i < items.len() && 0 <= j < items.len() && i != j implies items[i] != items[j] by {
            lemma_item(plan, i);
            lemma_item(plan, j);
            if i < j {
                assert(block_at(plan, i).layer != block_at(plan, j).layer || block_at(
                    plan,
                    i,
                ).block != block_at(plan, j).block);
            } else {
                assert(block_at(plan, j).layer != block_at(plan, i).layer || block_at(
                    plan,
                    j,
                ).block != block_at(plan, i).block);
            }
        }
    }
    assert(fully_merged(runs, cap));
    law_runs_cover(items, cap, runs);
    // What an item of the list says of its run.
    assert forall|k: int| 0 <= k < work.len() implies {
        &&& 1 <= (#[trigger] work[k]).2 <= 64
        &&& work[k].2 == runs[k].len
        &&& work[k].1 == runs[k].start
        &&& work[k].0 == runs[k].group
    } by {
        assert(1 <= runs[k].len <= cap);
        let i = members[k][0];
        lemma_item(plan, i);
        assert(items[i].0 == runs[k].group);
    }
    assert forall|k: int, b: int| 0 <= k < work.len() && 0 <= b < plan.blocks@.len() implies (
    #[trigger] refills_planned(work[k], plan, b) <==> is_in(members[k], b)) by {
        lemma_item(plan, b);
        assert(work[k].2 == runs[k].len && work[k].1 == runs[k].start && work[k].0
            == runs[k].group);
        assert(1 <= runs[k].len <= cap && members[k].len() == runs[k].len);
        if refills_planned(work[k], plan, b) {
            let x = items[b].1 - runs[k].start;
            let i = members[k][x];
            assert(items[i].0 == runs[k].group && items[i].1 == runs[k].start + x);
            assert(items[i] == items[b]);
            assert(members[k][x] == b);
        }
        if is_in(members[k], b) {
            let x = choose|x: int| 0 <= x < members[k].len() && #[trigger] members[k][x] == b;
            assert(items[b].0 == runs[k].group && items[b].1 == runs[k].start + x);
        }
    }
    assert forall|b: int| #[trigger] planned(plan, b) implies exists|k: int|
        0 <= k < work.len() && #[trigger] refills_planned(work[k], plan, b) by {
        lemma_item(plan, b);
        assert(is_member(members, b));
        let (k, x) = choose|k: int, x: int|
            0 <= k < members.len() && 0 <= x < members[k].len() && #[trigger] members[k][x] == b;
        assert(is_in(members[k], b));
        assert(refills_planned(work[k], plan, b));
    }
    assert forall|k: int, block: u32|
        0 <= k < work.len() && #[trigger] refills(work[k], work[k].0, block) implies exists|b: int|
        #[trigger] planned(plan, b) && block_at(plan, b).layer == work[k].0 && block_at(
            plan,
            b,
        ).block == block by {
        assert(work[k].2 == runs[k].len && work[k].1 == runs[k].start && work[k].0
            == runs[k].group);
        assert(1 <= runs[k].len <= cap && members[k].len() == runs[k].len);
        let x = block - runs[k].start;
        let b = members[k][x];
        assert(items[b].0 == runs[k].group && items[b].1 == runs[k].start + x);
        lemma_item(plan, b);
        assert(planned(plan, b));
    }
    assert forall|k: int, l: int, b: int|
        #![trigger refills_planned(work[k], plan, b), refills_planned(work[l], plan, b)]
        0 <= k < work.len() && 0 <= l < work.len() && refills_planned(work[k], plan, b)
            && refills_planned(work[l], plan, b) implies k == l by {
        assert(is_in(members[k], b) && is_in(members[l], b));
        let x = choose|x: int| 0 <= x < members[k].len() && #[trigger] members[k][x] == b;
        let y = choose|y: int| 0 <= y < members[l].len() && #[trigger] members[l][y] == b;
        assert(members[k][x] == members[l][y]);
    }
    assert forall|k: int, l: int|
        #![trigger work[k], work[l]]
        0 <= k < l < work.len() implies needed_before(plan, work[k], work[l]) by {
        assert(starts_before(members[k], members[l]));
        let x = choose|x: int|
            0 <= x < members[k].len() && precedes(#[trigger] members[k][x], members[l]);
        let b = members[k][x];
        assert(0 <= b < items.len());
        assert(is_in(members[k], b));
        assert(refills_planned(work[k], plan, b));
        assert forall|y: int| #[trigger] refills_planned(work[l], plan, y) implies b < y by {
            assert(is_in(members[l], y));
            let z = choose|z: int| 0 <= z < members[l].len() && #[trigger] members[l][z] == y;
            assert(b < members[l][z]);
        }
    }
    assert forall|k: int, l: int|
        #![trigger work[k], work[l]]
        0 <= k < work.len() && 0 <= l < work.len() && work[k].0 == work[l].0 && work[k].1
            + work[k].2 == work[l].1 implies work[k].2 == 64 by {
        assert(work[k].2 == runs[k].len && work[k].1 == runs[k].start && work[k].0
            == runs[k].group);
        assert(work[l].2 == runs[l].len && work[l].1 == runs[l].start && work[l].0
            == runs[l].group);
    }
}

spec fn is_in(members: Seq<int>, b: int) -> bool {
    exists|x: int| 0 <= x < members.len() && #[trigger] members[x] == b
}

/// Whether a prefetch has a block to refill once the first `n` spans are
/// planned: one that holds a stored byte of what the index maps for them, or
/// the header or the index of a layer that this lies in.
pub open spec fn wanted(
    sources: Seq<FinalLayerSource>,
    opened: Seq<OpenedLayer>,
    answers: Seq<Vec<SegmentMapping>>,
    n: int,
    layer: usize,
    block: u32,
) -> bool {
    &&& units_touch(sources, opened, answers, n, layer as int)
    &&& describes_layer(sources, opened, layer as int, block as int) || units_map_into(
        sources,
        opened,
        answers,
        n,
        layer as int,
        block as int,
    )
}

/// Whether an item refills a block that the first `n` spans want.
pub open spec fn serves(
    item: (usize, u64, u32),
    sources: Seq<FinalLayerSource>,
    opened: Seq<OpenedLayer>,
    answers: Seq<Vec<SegmentMapping>>,
    n: int,
) -> bool {
    exists|block: u32| #[trigger]
        refills(item, item.0, block) && wanted(sources, opened, answers, n, item.0, block)
}

/// Whether these are the spans of a manifest: its prefix pages, and behind them
/// its ranges.
pub open spec fn lists(m: ManifestData, spans: Seq<(u64, u64)>) -> bool {
    &&& spans.len() == m.prefix_pages.len() + m.ranges.len()
    &&& forall|i: int|
        #![trigger spans[i]]
        0 <= i < spans.len() ==> spans[i] == if i < m.prefix_pages.len() {
            (m.prefix_pages[i], 4096u64)
        } else {
            m.ranges[i - m.prefix_pages.len()]
        }
}

/// A task takes a body for its manifest exactly where it has a layer, the
/// body's digest is the committed one, the body decodes, and it is for an image
/// of the task's size; the first of these that fails is the error. It then
/// plans the prefix pages and, behind them, the ranges of the body.
pub proof fn law_accepted_manifest(
    task: StartupPackTask,
    body: &[u8],
    res: Result<Vec<(u64, u64)>, PrefetchError>,
)
    requires
        call_ensures(StartupPackTask::accept_manifest, (&task, body), res),
    ensures
        res is Ok <==> {
            &&& task.layers@.len() > 0
            &&& hex_of(sha256(body@)) == task.index_sha256@
            &&& parse_manifest(body@) is Ok
            &&& parse_manifest(body@)->Ok_0.mem_virtual_size == task.mem_virtual_size
        },
        res is Ok ==> lists(parse_manifest(body@)->Ok_0, res->Ok_0@),
        refused(task, hex_of(sha256(body@)), body@, res),
{
}

/// What [`law_accepted_manifest`] says, where the digest of the body is given.
pub proof fn law_accepted_manifest_with_digest(
    task: StartupPackTask,
    body: &[u8],
    digest: String,
    res: Result<Vec<(u64, u64)>, PrefetchError>,
)
    requires
        call_ensures(StartupPackTask::accept_manifest_with_digest, (&task, body, &digest), res),
    ensures
        res is Ok <==> {
            &&& task.layers@.len() > 0
            &&& digest@ == task.index_sha256@
            &&& parse_manifest(body@) is Ok
            &&& parse_manifest(body@)->Ok_0.mem_virtual_size == task.mem_virtual_size
        },
        res is Ok ==> lists(parse_manifest(body@)->Ok_0, res->Ok_0@),
        refused(task, digest@, body@, res),
{
}

/// Whether a body is refused for the reason that comes first.
pub open spec fn refused(
    task: StartupPackTask,
    digest: Seq<char>,
    body: Seq<u8>,
    res: Result<Vec<(u64, u64)>, PrefetchError>,
) -> bool {
    &&& task.layers@.len() == 0 ==> res == Err::<Vec<(u64, u64)>, PrefetchError>(
        PrefetchError::NoLayers,
    )
    &&& task.layers@.len() > 0 && digest != task.index_sha256@ ==> res == Err::<
        Vec<(u64, u64)>,
        PrefetchError,
    >(PrefetchError::DigestMismatch)
    &&& task.layers@.len() > 0 && digest == task.index_sha256@ ==> match parse_manifest(body) {
        Err(e) => res == Err::<Vec<(u64, u64)>, PrefetchError>(PrefetchError::Manifest(e)),
        Ok(m) => m.mem_virtual_size != task.mem_virtual_size ==> res == Err::<
            Vec<(u64, u64)>,
            PrefetchError,
        >(
            PrefetchError::MemSizeMismatch {
                descriptor: task.mem_virtual_size,
                header: m.mem_virtual_size,
            },
        ),
    }
}

proof fn lemma_wanted(
    plan: PackPlan,
    sources: Seq<FinalLayerSource>,
    opened: Seq<OpenedLayer>,
    answers: Seq<Vec<SegmentMapping>>,
    len: int,
    n: int,
    layer: usize,
    block: u32,
)
    requires
        leads_with(plan, len, sources, opened, answers, n),
    ensures
        wanted(sources, opened, answers, n, layer, block) <==> exists|b: int|
            0 <= b < len && (#[trigger] block_at(plan, b)).layer == layer && block_at(plan, b).block
                == block,
{
    let metadata = describes_layer(sources, opened, layer as int, block as int);
    let need = Need { layer, block, metadata };
    if wanted(sources, opened, answers, n, layer, block) {
        assert(units_need(sources, opened, answers, n, need));
        let b = choose|b: int| 0 <= b < len && #[trigger] block_at(plan, b) == need;
        assert(block_at(plan, b).layer == layer);
    }
    if exists|b: int|
        0 <= b < len && (#[trigger] block_at(plan, b)).layer == layer && block_at(plan, b).block
            == block {
        let b = choose|b: int|
            0 <= b < len && (#[trigger] block_at(plan, b)).layer == layer && block_at(
                plan,
                b,
            ).block == block;
        assert(units_need(sources, opened, answers, n, block_at(plan, b)));
    }
}

/// Whether a work list refills what spans need: the index was asked for every
/// span, and the blocks that are refilled are those that hold a stored byte of
/// an answer, and the header and the index of the layers that these lie in:
/// each block once, at most 64 at a time, and what earlier spans want before
/// what only later spans want.
pub open spec fn refills_spans<F: Fn(Segment) -> Vec<SegmentMapping>>(
    sources: Seq<FinalLayerSource>,
    opened: Seq<OpenedLayer>,
    lookup: F,
    mem_virtual_size: u64,
    spans: Seq<(u64, u64)>,
    answers: Seq<Vec<SegmentMapping>>,
    work: Seq<(usize, u64, u32)>,
) -> bool {
    &&& forall|i: int|
        0 <= i < spans.len() ==> span_asked(
            lookup,
            spans[i],
            mem_virtual_size,
            (#[trigger] answers[i])@,
        )
    &&& forall|layer: usize, block: u32| #[trigger]
        wanted(sources, opened, answers, spans.len() as int, layer, block) <==> exists|k: int|
            0 <= k < work.len() && refills(#[trigger] work[k], layer, block)
    &&& forall|k: int, l: int, layer: usize, block: u32|
        #![trigger refills(work[k], layer, block), refills(work[l], layer, block)]
        0 <= k < work.len() && 0 <= l < work.len() && refills(work[k], layer, block) && refills(
            work[l],
            layer,
            block,
        ) ==> k == l
    &&& forall|k: int, l: int, n: int|
        #![trigger work[k], serves(work[l], sources, opened, answers, n)]
        0 <= k < l < work.len() && 0 <= n <= spans.len() && serves(
            work[l],
            sources,
            opened,
            answers,
            n,
        ) ==> serves(work[k], sources, opened, answers, n)
    &&& forall|k: int| 0 <= k < work.len() ==> 1 <= (#[trigger] work[k]).2 <= 64
}

proof fn lemma_refills_spans<F: Fn(Segment) -> Vec<SegmentMapping>>(
    stack: Stack,
    lookup: F,
    mem: u64,
    spans: Seq<(u64, u64)>,
    answers: Seq<Vec<SegmentMapping>>,
    plan: PackPlan,
    work: Seq<(usize, u64, u32)>,
)
    requires
        stack.wf(),
        stack.lookup_ok(lookup, mem),
        stack.ample_bytes() <= u64::MAX,
        ranges_planned(
            Ok::<PackPlan, PlanError>(plan),
            stack,
            lookup,
            spans,
            mem,
            answers,
            u64::MAX as int,
        ),
        work_of(plan, work),
    ensures
        refills_spans(stack.layers, stack.opened, lookup, mem, spans, answers, work),
{
    let (sources, opened) = (stack.layers, stack.opened);
    let budget = u64::MAX as int;
    let n = stack.lemma_all_spans_planned(lookup, spans, mem, answers, budget, plan);
    assert forall|i: int| 0 <= i < spans.len() implies span_asked(
        lookup,
        spans[i],
        mem,
        (#[trigger] answers[i])@,
    ) by {
        stack.lemma_spans_asked(lookup, spans, mem, answers, budget, n, i);
    }
    lemma_works_off(plan, work);
    let all = plan.blocks@.len() as int;
    assert forall|layer: usize, block: u32| #[trigger]
        wanted(sources, opened, answers, n, layer, block) <==> exists|k: int|
            0 <= k < work.len() && refills(#[trigger] work[k], layer, block) by {
        lemma_wanted(plan, sources, opened, answers, all, n, layer, block);
        if wanted(sources, opened, answers, n, layer, block) {
            let b = choose|b: int|
                0 <= b < all && (#[trigger] block_at(plan, b)).layer == layer && block_at(
                    plan,
                    b,
                ).block == block;
            assert(planned(plan, b));
            let k = choose|k: int|
                0 <= k < work.len() && #[trigger] refills_planned(work[k], plan, b);
            assert(refills(work[k], layer, block));
        }
        if exists|k: int| 0 <= k < work.len() && refills(#[trigger] work[k], layer, block) {
            let k = choose|k: int|
                0 <= k < work.len() && refills(#[trigger] work[k], layer, block);
            assert(refills(work[k], work[k].0, block));
            let b = choose|b: int| #[trigger]
                planned(plan, b) && block_at(plan, b).layer == work[k].0 && block_at(
                    plan,
                    b,
                ).block == block;
            assert(block_at(plan, b).layer == layer);
        }
    }
    assert forall|k: int, l: int, layer: usize, block: u32|
        #![trigger refills(work[k], layer, block), refills(work[l], layer, block)]
        0 <= k < work.len() && 0 <= l < work.len() && refills(work[k], layer, block) && refills(
            work[l],
            layer,
            block,
        ) implies k == l by {
        assert(refills(work[k], work[k].0, block));
        let b = choose|b: int| #[trigger]
            planned(plan, b) && block_at(plan, b).layer == work[k].0 && block_at(plan, b).block
                == block;
        assert(refills_planned(work[k], plan, b) && refills_planned(work[l], plan, b));
    }
    assert forall|k: int, l: int, j: int|
        #![trigger work[k], serves(work[l], sources, opened, answers, j)]
        0 <= k < l < work.len() && 0 <= j <= spans.len() && serves(
            work[l],
            sources,
            opened,
            answers,
            j,
        ) implies serves(work[k], sources, opened, answers, j) by {
        assert(units_before(j, n));
        let len = choose|len: int| #[trigger] leads_with(plan, len, sources, opened, answers, j);
        let block = choose|block: u32| #[trigger]
            refills(work[l], work[l].0, block) && wanted(
                sources,
                opened,
                answers,
                j,
                work[l].0,
                block,
            );
        lemma_wanted(plan, sources, opened, answers, len, j, work[l].0, block);
        let y = choose|b: int|
            0 <= b < len && (#[trigger] block_at(plan, b)).layer == work[l].0 && block_at(
                plan,
                b,
            ).block == block;
        assert(refills_planned(work[l], plan, y));
        assert(needed_before(plan, work[k], work[l]));
        let x = choose|x: int| #[trigger]
            refills_planned(work[k], plan, x) && forall|y: int| #[trigger]
                refills_planned(work[l], plan, y) ==> x < y;
        assert(x < y);
        let own = block_at(plan, x).block;
        lemma_wanted(plan, sources, opened, answers, len, j, work[k].0, own);
        assert(refills(work[k], work[k].0, own));
    }
}

/// A prefetch refills what its manifest lists, from the task's own layers. Its
/// manifest is the one that the task committed to: the digest and the size of
/// the image agree. The proof finds what the index answered.
pub proof fn law_prefetch_refills_what_is_listed<F: Fn(Segment) -> Vec<SegmentMapping>>(
    task: StartupPackTask,
    manifest: &[u8],
    opened: &[OpenedLayer],
    lookup: F,
    sources: Seq<FinalLayerSource>,
    spans: Seq<(u64, u64)>,
    work: Vec<(usize, u64, u32)>,
) -> (answers: Seq<Vec<SegmentMapping>>)
    requires
        same_layers(sources, task.layers@),
        (Stack { layers: sources, opened: opened@ }).plannable(lookup, task.mem_virtual_size),
        (Stack { layers: sources, opened: opened@ }).ample_bytes() <= u64::MAX,
        parse_manifest(manifest@) is Ok ==> lists(parse_manifest(manifest@)->Ok_0, spans),
        call_ensures(
            StartupPackTask::plan_manifest_prefetch::<F>,
            (&task, manifest, opened, lookup),
            Ok::<Vec<(usize, u64, u32)>, PrefetchError>(work),
        ),
    ensures
        parse_manifest(manifest@) is Ok,
        parse_manifest(manifest@)->Ok_0.mem_virtual_size == task.mem_virtual_size,
        hex_of(sha256(manifest@)) == task.index_sha256@,
        refills_spans(
            sources,
            opened@,
            lookup,
            task.mem_virtual_size,
            spans,
            answers,
            work@,
        ),
{
    let stack = task.stack(opened@);
    let mem = task.mem_virtual_size;
    assert(sources =~= sources_of(task.layers@));
    assert(stack == (Stack { layers: sources, opened: opened@ }));
    let m = parse_manifest(manifest@)->Ok_0;
    assert(parse_manifest(manifest@) is Ok);
    assert(spans =~= spans_of(m));
    assert(layers_error(sources) is None);
    stack.lemma_layers_fine(lookup, mem);
    let budget = u64::MAX as int;
    let res = Ok::<Vec<(usize, u64, u32)>, PrefetchError>(work);
    let (found, answers) = choose|
        plan: Result<PackPlan, PlanError>,
        answers: Seq<Vec<SegmentMapping>>,
    | #[trigger]
        ranges_planned(plan, stack, lookup, spans, mem, answers, budget) && prefetch_planned(
            plan,
            res,
        );
    lemma_refills_spans(stack, lookup, mem, spans, answers, found->Ok_0, work@);
    answers
}

/// Planning spans into work refills what the spans need, from the task's own
/// layers. The proof finds what the index answered.
pub proof fn law_work_refills_what_spans_need<F: Fn(Segment) -> Vec<SegmentMapping>>(
    task: StartupPackTask,
    spans: &[(u64, u64)],
    opened: &[OpenedLayer],
    lookup: F,
    sources: Seq<FinalLayerSource>,
    work: Vec<(usize, u64, u32)>,
) -> (answers: Seq<Vec<SegmentMapping>>)
    requires
        same_layers(sources, task.layers@),
        (Stack { layers: sources, opened: opened@ }).plannable(lookup, task.mem_virtual_size),
        (Stack { layers: sources, opened: opened@ }).ample_bytes() <= u64::MAX,
        call_ensures(
            StartupPackTask::plan_work::<F>,
            (&task, spans, opened, lookup),
            Ok::<Vec<(usize, u64, u32)>, PlanError>(work),
        ),
    ensures
        refills_spans(
            sources,
            opened@,
            lookup,
            task.mem_virtual_size,
            spans@,
            answers,
            work@,
        ),
{
    let stack = task.stack(opened@);
    let mem = task.mem_virtual_size;
    assert(sources =~= sources_of(task.layers@));
    assert(stack == (Stack { layers: sources, opened: opened@ }));
    assert(layers_error(sources) is None);
    stack.lemma_layers_fine(lookup, mem);
    let budget = u64::MAX as int;
    let res = Ok::<Vec<(usize, u64, u32)>, PlanError>(work);
    let (found, answers) = choose|
        plan: Result<PackPlan, PlanError>,
        answers: Seq<Vec<SegmentMapping>>,
    | #[trigger]
        ranges_planned(plan, stack, lookup, spans@, mem, answers, budget) && work_planned(plan, res);
    lemma_refills_spans(stack, lookup, mem, spans@, answers, found->Ok_0, work@);
    answers
}

/// Where the index puts a byte of a listed span at a byte below the end of a
/// layer of the task, some item of the work list refills the block of that byte
/// of that layer.
pub proof fn law_listed_byte_is_refilled<F: Fn(Segment) -> Vec<SegmentMapping>>(
    task: StartupPackTask,
    sources: Seq<FinalLayerSource>,
    opened: Seq<OpenedLayer>,
    lookup: F,
    spans: Seq<(u64, u64)>,
    answers: Seq<Vec<SegmentMapping>>,
    work: Seq<(usize, u64, u32)>,
    i: int,
    k: int,
    v: int,
    layer: usize,
    at: int,
)
    requires
        same_layers(sources, task.layers@),
        refills_spans(
            sources,
            opened,
            lookup,
            task.mem_virtual_size,
            spans,
            answers,
            work,
        ),
        0 <= i < spans.len(),
        0 <= k < answers[i]@.len(),
        puts_byte(sources, opened, answers[i]@[k], v, layer as int, at),
        at / 262144 <= u32::MAX,
    ensures
        at < task.layers@[layer as int].size,
        exists|j: int|
            0 <= j < work.len() && (#[trigger] work[j]).0 == layer && work[j].1 <= at / 262144
                < work[j].1 + work[j].2,
{
    let block = (at / 262144) as u32;
    let l = layer as int;
    let n = spans.len() as int;
    assert(sources[l].size == task.layers@[l].size);
    lemma_puts_byte(sources, opened, answers[i]@[k], v, l, at);
    assert(answer_maps_into(sources, opened, answers[i]@, l, block as int));
    assert(units_map_into(sources, opened, answers, n, l, block as int));
    assert(units_touch(sources, opened, answers, n, l));
    assert(wanted(sources, opened, answers, n, layer, block));
    let j = choose|j: int| 0 <= j < work.len() && refills(#[trigger] work[j], layer, block);
    assert(work[j].0 == layer);
}

/// A prefetch asks for no more of its task and of the index than that the
/// numbers of planning can be computed, and takes any bytes for its manifest.
pub proof fn law_what_a_prefetch_asks_for<F: Fn(Segment) -> Vec<SegmentMapping>>(
    task: StartupPackTask,
    manifest: &[u8],
    opened: &[OpenedLayer],
    lookup: F,
    sources: Seq<FinalLayerSource>,
)
    requires
        same_layers(sources, task.layers@),
        opened@.len() == task.layers@.len(),
        forall|i: int| 0 <= i < opened@.len() ==> layer_in_64_bits(#[trigger] opened@[i]),
        index_answers(lookup, task.mem_virtual_size, opened@),
        blocks_of_layers(sources, sources.len() as int).len() <= usize::MAX,
        1_048_576 + task.mem_virtual_size as int / 4096 <= usize::MAX,
    ensures
        call_requires(
            StartupPackTask::plan_manifest_prefetch::<F>,
            (&task, manifest, opened, lookup),
        ),
{
    let stack = task.stack(opened@);
    assert(sources =~= sources_of(task.layers@));
    assert(stack == (Stack { layers: sources, opened: opened@ }));
    lemma_stack_usable(stack, lookup, task.mem_virtual_size);
}

/// A prefetch is refused for what its manifest is refused for, and otherwise
/// fails only where its spans cannot be planned.
pub proof fn law_refused_prefetch<F: Fn(Segment) -> Vec<SegmentMapping>>(
    task: StartupPackTask,
    manifest: &[u8],
    opened: &[OpenedLayer],
    lookup: F,
    accepted: Result<Vec<(u64, u64)>, PrefetchError>,
    res: Result<Vec<(usize, u64, u32)>, PrefetchError>,
)
    requires
        call_ensures(StartupPackTask::accept_manifest, (&task, manifest), accepted),
        call_ensures(
            StartupPackTask::plan_manifest_prefetch::<F>,
            (&task, manifest, opened, lookup),
            res,
        ),
    ensures
        accepted matches Err(e) ==> res == Err::<Vec<(usize, u64, u32)>, PrefetchError>(e),
        accepted is Ok && res is Err ==> res->Err_0 is Plan,
{
    if accepted is Ok && res is Err && layers_error(sources_of(task.layers@)) is None {
        let stack = task.stack(opened@);
        let budget = u64::MAX as int;
        let (found, answers) = choose|
            plan: Result<PackPlan, PlanError>,
            answers: Seq<Vec<SegmentMapping>>,
        | #[trigger]
            ranges_planned(
                plan,
                stack,
                lookup,
                accepted->Ok_0@,
                task.mem_virtual_size,
                answers,
                budget,
            ) && prefetch_planned(plan, res);
        assert(found is Err);
    }
}

impl Stack {
    /// An ample budget takes all spans.
    proof fn lemma_all_spans_planned<F: Fn(Segment) -> Vec<SegmentMapping>>(
        self,
        lookup: F,
        ranges: Seq<(u64, u64)>,
        mem: u64,
        answers: Seq<Vec<SegmentMapping>>,
        budget: int,
        plan: PackPlan,
    ) -> (n: int)
        requires
            self.wf(),
            self.lookup_ok(lookup, mem),
            self.ample_bytes() <= budget,
            ranges_planned(
                Ok::<PackPlan, PlanError>(plan),
                self,
                lookup,
                ranges,
                mem,
                answers,
                budget,
            ),
        ensures
            n == ranges.len(),
            plans_units(plan, self.layers, self.opened, answers, n),
            self.after_ranges(ranges.take(n), mem, answers, budget).failed is None,
            !self.after_ranges(ranges.take(n), mem, answers, budget).truncated,
    {
        let n = self.lemma_spans_by_bytes(lookup, ranges, mem, answers, budget, plan);
        if n < ranges.len() {
            let upto = ranges.take(n + 1);
            let p = self.after_ranges(ranges.take(n), mem, answers, budget);
            let q = self.after_ranges(upto, mem, answers, budget);
            assert(upto.drop_last() =~= ranges.take(n));
            if q.failed is Some {
                self.lemma_ranges_failed(ranges, mem, answers, budget, n + 1);
            }
            assert(self.looks_up_range(ranges, mem, answers, budget, n));
            self.lemma_span_answer_ok(lookup, ranges[n], mem, answers[n]@);
            assert forall|i: int| 0 <= i < n + 1 implies self.answer_ok(
                (#[trigger] answers[i])@,
            ) by {
                if i < n {
                    self.lemma_spans_asked(lookup, ranges, mem, answers, budget, n, i);
                }
            }
            self.law_ample_budget_cuts_no_span(upto, mem, answers, budget);
            assert(self.exceeds(p, answers[n]@, budget));
            assert(q.truncated);
        }
        n
    }
}

} // verus!
