//! The block plan and its parts.
use vstd::prelude::*;
use crate::extents::{OBJECT_BLOCK_BYTES, PlanError};
use crate::plan_model::{
    Need, Progress, Segment, SegmentMapping, Stack, metadata_count, resolution_of, total_pages,
};

verus! {

/// One planned object block: `block_id` counts in blocks of the object named
/// by `object`.
#[derive(Clone, Copy, Debug, PartialEq, Eq, Hash)]
pub struct PlannedBlock {
    pub object: u16,
    pub block_id: u32,
    /// True for layer metadata blocks (header and index region), false for
    /// data blocks.
    pub metadata: bool,
}

/// Object-table entry of the resulting plan.
#[derive(Clone, Debug, PartialEq, Eq)]
pub struct PlannedObject {
    pub digest: String,
    pub size: u64,
    /// Index into the input layer list; that layer holds the exact bytes
    /// behind this object.
    pub layer: usize,
}

/// Coverage and amplification accounting of a [`PackPlan`].
#[derive(Clone, Debug, PartialEq, Eq)]
pub struct PlanStats {
    /// Pages in the first-touch list.
    pub pages_total: usize,
    /// Pages mapped to at least one backed physical range.
    pub pages_backed: usize,
    /// Pages with no backed physical range (holes and unbacked zeros).
    pub pages_zero_hole: usize,
    /// Unique data blocks selected from page mappings.
    pub data_blocks: usize,
    /// Unique metadata blocks (headers and index regions) selected.
    pub metadata_blocks: usize,
    /// Data and metadata blocks together.
    pub unique_blocks: usize,
    /// Bytes of the unique blocks (slot payload).
    pub payload_bytes: u64,
    /// Pages whose dependency blocks did not fit the remaining budget; the
    /// plan stops at the first such page.
    pub pages_truncated_by_budget: usize,
    /// Missing-block runs in the complement of the selection (what the
    /// background still has to fetch), summed over contributing objects.
    pub gap_runs: usize,
    /// Total missing blocks in those runs.
    pub gap_blocks: usize,
}

impl Default for PlanStats {
    fn default() -> (stats: Self)
        ensures
            stats == (PlanStats {
                pages_total: 0,
                pages_backed: 0,
                pages_zero_hole: 0,
                data_blocks: 0,
                metadata_blocks: 0,
                unique_blocks: 0,
                payload_bytes: 0,
                pages_truncated_by_budget: 0,
                gap_runs: 0,
                gap_blocks: 0,
            }),
    {
        PlanStats {
            pages_total: 0,
            pages_backed: 0,
            pages_zero_hole: 0,
            data_blocks: 0,
            metadata_blocks: 0,
            unique_blocks: 0,
            payload_bytes: 0,
            pages_truncated_by_budget: 0,
            gap_runs: 0,
            gap_blocks: 0,
        }
    }
}

/// The ordered, deduplicated physical block plan.
pub struct PackPlan {
    pub objects: Vec<PlannedObject>,
    /// First-need order, unique per object and block.
    pub blocks: Vec<PlannedBlock>,
    pub stats: PlanStats,
}

/// How one page of a plan was resolved: the object, the block and the position
/// in the plan's block list of each block that the page depends on (none for
/// holes). A block that an earlier page selected keeps the position of its
/// first selection, so positions always describe first-need order.
#[derive(Clone, Debug, PartialEq, Eq)]
pub struct PageObservation {
    pub page: u32,
    pub blocks: Vec<(u16, u32, usize)>,
}

/// The layers behind the entries of an object table.
pub open spec fn object_layers(objects: Seq<PlannedObject>) -> Seq<usize> {
    objects.map_values(|o: PlannedObject| o.layer)
}

/// A planned block as a block of a layer.
pub open spec fn need_of(objects: Seq<PlannedObject>, block: PlannedBlock) -> Need {
    Need {
        layer: objects[block.object as int].layer,
        block: block.block_id,
        metadata: block.metadata,
    }
}

/// Planned blocks as blocks of layers.
pub open spec fn needs_of(objects: Seq<PlannedObject>, blocks: Seq<PlannedBlock>) -> Seq<Need> {
    blocks.map_values(|b: PlannedBlock| need_of(objects, b))
}

/// Every block names an entry of the object table.
pub open spec fn placed(objects: Seq<PlannedObject>, blocks: Seq<PlannedBlock>) -> bool {
    forall|i: int| 0 <= i < blocks.len() ==> (#[trigger] blocks[i]).object < objects.len()
}

/// Whether a plan is what planning has come to.
pub open spec fn plan_of(plan: PackPlan, stack: Stack, p: Progress, pages_total: int) -> bool {
    &&& object_layers(plan.objects@) == p.objects
    &&& forall|i: int|
        #![trigger plan.objects@[i]]
        0 <= i < plan.objects@.len() ==> {
            &&& plan.objects@[i].layer < stack.layers.len()
            &&& plan.objects@[i].digest == stack.layers[plan.objects@[i].layer as int].digest
            &&& plan.objects@[i].size == stack.layers[plan.objects@[i].layer as int].size
        }
    &&& placed(plan.objects@, plan.blocks@)
    &&& needs_of(plan.objects@, plan.blocks@) == p.blocks
    &&& plan.stats.pages_total == pages_total
    &&& plan.stats.pages_backed == p.backed
    &&& plan.stats.pages_zero_hole == p.holes
    &&& plan.stats.pages_truncated_by_budget == p.cut
    &&& plan.stats.metadata_blocks == metadata_count(p.blocks)
    &&& plan.stats.data_blocks == p.blocks.len() - metadata_count(p.blocks)
    &&& plan.stats.unique_blocks == p.blocks.len()
    &&& plan.stats.payload_bytes == p.blocks.len() * OBJECT_BLOCK_BYTES
    &&& plan.stats.gap_runs == stack.gap_runs(p, stack.layers.len() as int)
    &&& plan.stats.gap_blocks == stack.gap_blocks(p, stack.layers.len() as int)
}

/// Whether a result is what planning has come to: its error, or the plan.
pub open spec fn result_of(
    res: Result<PackPlan, PlanError>,
    stack: Stack,
    p: Progress,
    pages_total: int,
) -> bool {
    match p.failed {
        Some(e) => res == Err::<PackPlan, PlanError>(e),
        None => res is Ok && plan_of(res->Ok_0, stack, p, pages_total),
    }
}

/// Whether `log` tells of each page that was taken or found to be a hole, in
/// order, how it was resolved.
pub open spec fn observed(
    log: Seq<PageObservation>,
    stack: Stack,
    pages: Seq<u32>,
    answers: Seq<Vec<SegmentMapping>>,
    p: Progress,
) -> bool {
    &&& log.len() == p.backed + p.holes
    &&& forall|i: int|
        #![trigger log[i]]
        0 <= i < log.len() ==> {
            &&& log[i].page == pages[i]
            &&& stack.resolve(answers[i]@) is Ok
            &&& resolution_of(
                log[i].blocks@,
                stack.resolve(answers[i]@)->Ok_0,
                p.objects,
                p.blocks,
            )
        }
}

/// Whether a result is what planning these pages comes to, with these answers
/// of the index.
pub open spec fn blocks_planned<F: Fn(Segment) -> Vec<SegmentMapping>>(
    res: Result<PackPlan, PlanError>,
    stack: Stack,
    lookup: F,
    pages: Seq<u32>,
    mem_virtual_size: u64,
    answers: Seq<Vec<SegmentMapping>>,
    budget: int,
) -> bool {
    let p = stack.after_pages(pages, mem_virtual_size, answers, budget);
    &&& stack.page_answers(lookup, pages, mem_virtual_size, answers, budget, pages.len() as int)
    &&& result_of(res, stack, p, pages.len() as int)
}

/// Whether a result and the observations that came with it are what planning
/// these pages comes to, with these answers of the index.
pub open spec fn pages_planned<F: Fn(Segment) -> Vec<SegmentMapping>>(
    res: Result<PackPlan, PlanError>,
    before: Seq<PageObservation>,
    after: Seq<PageObservation>,
    stack: Stack,
    lookup: F,
    pages: Seq<u32>,
    mem_virtual_size: u64,
    answers: Seq<Vec<SegmentMapping>>,
    budget: int,
) -> bool {
    let p = stack.after_pages(pages, mem_virtual_size, answers, budget);
    &&& blocks_planned(res, stack, lookup, pages, mem_virtual_size, answers, budget)
    &&& before.is_prefix_of(after)
    &&& observed(after.skip(before.len() as int), stack, pages, answers, p)
}

/// Whether a result is what planning these spans comes to, with these answers
/// of the index.
pub open spec fn ranges_planned<F: Fn(Segment) -> Vec<SegmentMapping>>(
    res: Result<PackPlan, PlanError>,
    stack: Stack,
    lookup: F,
    ranges: Seq<(u64, u64)>,
    mem_virtual_size: u64,
    answers: Seq<Vec<SegmentMapping>>,
    budget: int,
) -> bool {
    let p = stack.after_ranges(ranges, mem_virtual_size, answers, budget);
    &&& stack.range_answers(lookup, ranges, mem_virtual_size, answers, budget, ranges.len() as int)
    &&& result_of(res, stack, p, total_pages(ranges))
}

} // verus!
