//! What the counters of a plan count, and what a planned artifact costs.
use vstd::prelude::*;
use crate::extents::object_blocks;
use crate::pack_plan::{PackPlan, need_of, object_layers, plan_of};
use crate::plan_byte_laws::units_touch;
use crate::plan_count_laws::backed_upto;
use crate::plan_model::{
    FinalLayerSource, Need, OpenedLayer, Progress, SegmentMapping, Stack, backed, backed_pages,
    backs, extend_blocks, extend_objects, frame_bytes, metadata_count, missing_blocks,
    missing_runs, no_progress, page_backed, page_in_image, range_in_image, selects, total_pages,
};
use crate::plan_result_laws::{block_at, units_need};

verus! {

/// Bytes of the table entries of some layers: ten each, and the digest.
pub open spec fn table_bytes(layers: Seq<FinalLayerSource>, objects: Seq<usize>) -> int
    decreases objects.len(),
{
    if objects.len() == 0 {
        0
    } else {
        table_bytes(layers, objects.skip(1)) + 10 + vstd::utf8::encode_utf8(
            layers[objects[0] as int].digest@,
        ).len() as usize
    }
}

/// Bytes of an artifact with an object table of these layers and `n` blocks: a
/// header of 64 bytes, the table, 262144 bytes and an entry of eight for each
/// block, and a checksum of four bytes for every four blocks begun.
pub open spec fn cost(layers: Seq<FinalLayerSource>, objects: Seq<usize>, n: int) -> int {
    64 + table_bytes(layers, objects) + 262152 * n + 4 * ((n + 3) / 4)
}

/// Bytes of the artifact that is planned.
pub open spec fn plan_cost(plan: PackPlan, layers: Seq<FinalLayerSource>) -> int {
    cost(
        layers,
        Seq::new(plan.objects@.len(), |o: int| plan.objects@[o].layer),
        plan.blocks@.len() as int,
    )
}

/// Whether the artifact with all that the first `n` units need costs more than
/// the budget.
pub open spec fn costs_more(
    layers: Seq<FinalLayerSource>,
    opened: Seq<OpenedLayer>,
    answers: Seq<Vec<SegmentMapping>>,
    n: int,
    budget: int,
) -> bool {
    exists|objects: Seq<usize>, blocks: Seq<Need>|
        #![trigger cost(layers, objects, blocks.len() as int)]
        {
            &&& objects.no_duplicates()
            &&& blocks.no_duplicates()
            &&& forall|layer: usize| #[trigger]
                objects.contains(layer) <==> units_touch(layers, opened, answers, n, layer as int)
            &&& forall|need: Need| #[trigger]
                blocks.contains(need) <==> units_need(layers, opened, answers, n, need)
            &&& cost(layers, objects, blocks.len() as int) > budget
        }
}

impl Stack {
    proof fn lemma_table_bytes(self, objects: Seq<usize>)
        ensures
            table_bytes(self.layers, objects) == self.object_bytes(objects),
        decreases objects.len(),
    {
        if objects.len() == 1 {
            assert(objects.skip(1) =~= Seq::empty());
            assert(objects.drop_last() =~= Seq::empty());
            assert(table_bytes(self.layers, Seq::empty()) == 0);
            assert(self.object_bytes(Seq::empty()) == 0);
        } else if objects.len() > 1 {
            let (rest, init) = (objects.skip(1), objects.drop_last());
            self.lemma_table_bytes(rest);
            self.lemma_table_bytes(init);
            let mid = rest.drop_last();
            assert(init.skip(1) =~= mid);
            self.lemma_table_bytes(mid);
            assert(rest.last() == objects.last());
            assert(init[0] == objects[0]);
        }
    }

    /// What an artifact costs is its size.
    pub proof fn lemma_cost(self, objects: Seq<usize>, n: int)
        requires
            0 <= n,
        ensures
            cost(self.layers, objects, n) == self.artifact_bytes(objects, n),
    {
        self.lemma_table_bytes(objects);
        assert((n * 262144 + 1048576 - 1) / 1048576 == (n + 3) / 4);
        assert(frame_bytes(n) == 4 * ((n + 3) / 4));
    }

    pub proof fn lemma_plan_cost(self, plan: PackPlan, p: Progress, total: int)
        requires
            plan_of(plan, self, p, total),
        ensures
            plan_cost(plan, self.layers) == self.file_bytes(p),
    {
        let objects = Seq::new(plan.objects@.len(), |o: int| plan.objects@[o].layer);
        assert(objects =~= p.objects);
        self.lemma_cost(objects, p.blocks.len() as int);
    }
}

/// Whether a block of a contributing layer is missing from a plan.
pub open spec fn gap_at(plan: PackPlan, layer: int, block: int) -> bool {
    &&& 0 <= block
    &&& exists|o: int|
        0 <= o < plan.objects@.len() && (#[trigger] plan.objects@[o]).layer == layer && block
            * 262144 < plan.objects@[o].size
    &&& forall|b: int|
        0 <= b < plan.blocks@.len() ==> (#[trigger] block_at(plan, b)).layer != layer || block_at(
            plan,
            b,
        ).block != block
}

/// The missing blocks of the contributing layers.
pub open spec fn gaps(plan: PackPlan) -> Set<(int, int)> {
    Set::new(|g: (int, int)| gap_at(plan, g.0, g.1))
}

/// Those of the missing blocks that a run of missing blocks starts with.
pub open spec fn gap_starts(plan: PackPlan) -> Set<(int, int)> {
    Set::new(|g: (int, int)| gap_at(plan, g.0, g.1) && !gap_at(plan, g.0, g.1 - 1))
}

/// The blocks of a plan that are metadata, or those that are data.
pub open spec fn blocks_that_are(plan: PackPlan, metadata: bool) -> Set<int> {
    Set::new(|b: int| 0 <= b < plan.blocks@.len() && plan.blocks@[b].metadata == metadata)
}

/// Whether the block counters of a plan count its blocks and what is missing.
pub open spec fn counts_blocks(plan: PackPlan) -> bool {
    &&& plan.stats.unique_blocks == plan.blocks@.len()
    &&& plan.stats.payload_bytes == 262144 * plan.blocks@.len()
    &&& blocks_that_are(plan, true).finite()
    &&& plan.stats.metadata_blocks == blocks_that_are(plan, true).len()
    &&& blocks_that_are(plan, false).finite()
    &&& plan.stats.data_blocks == blocks_that_are(plan, false).len()
    &&& gaps(plan).finite()
    &&& plan.stats.gap_blocks == gaps(plan).len()
    &&& gap_starts(plan).finite()
    &&& plan.stats.gap_runs == gap_starts(plan).len()
}

spec fn metadata_upto(blocks: Seq<Need>, n: int, metadata: bool) -> Set<int> {
    Set::new(|b: int| 0 <= b < n && blocks[b].metadata == metadata)
}

proof fn lemma_metadata_upto(blocks: Seq<Need>, n: int)
    requires
        0 <= n <= blocks.len(),
    ensures
        metadata_upto(blocks, n, true).finite(),
        metadata_upto(blocks, n, true).len() == metadata_count(blocks.take(n)),
        metadata_upto(blocks, n, false).finite(),
        metadata_upto(blocks, n, false).len() == n - metadata_count(blocks.take(n)),
    decreases n,
{
    let (yes, no) = (metadata_upto(blocks, n, true), metadata_upto(blocks, n, false));
    if n == 0 {
        assert(yes =~= Set::empty());
        assert(no =~= Set::empty());
    } else {
        lemma_metadata_upto(blocks, n - 1);
        assert(blocks.take(n).drop_last() =~= blocks.take(n - 1));
        let (yes1, no1) = (
            metadata_upto(blocks, n - 1, true),
            metadata_upto(blocks, n - 1, false),
        );
        if blocks[n - 1].metadata {
            assert(yes =~= yes1.insert(n - 1));
            assert(no =~= no1);
        } else {
            assert(yes =~= yes1);
            assert(no =~= no1.insert(n - 1));
        }
    }
}

/// The missing ones of the first `m` blocks of a layer.
spec fn missing_of(blocks: Seq<Need>, layer: usize, m: int) -> Set<(int, int)> {
    Set::new(
        |g: (int, int)| g.0 == layer as int && 0 <= g.1 < m && !selects(blocks, layer, g.1),
    )
}

/// Those among them that a run starts with.
spec fn missing_starts_of(blocks: Seq<Need>, layer: usize, m: int) -> Set<(int, int)> {
    Set::new(
        |g: (int, int)|
            g.0 == layer as int && 0 <= g.1 < m && !selects(blocks, layer, g.1) && (g.1 == 0
                || selects(blocks, layer, g.1 - 1)),
    )
}

proof fn lemma_missing_of(blocks: Seq<Need>, layer: usize, m: int)
    requires
        0 <= m,
    ensures
        missing_of(blocks, layer, m).finite(),
        missing_of(blocks, layer, m).len() == missing_blocks(blocks, layer, m),
        missing_starts_of(blocks, layer, m).finite(),
        missing_starts_of(blocks, layer, m).len() == missing_runs(blocks, layer, m),
    decreases m,
{
    let (all, starts) = (missing_of(blocks, layer, m), missing_starts_of(blocks, layer, m));
    if m == 0 {
        assert(all =~= Set::empty());
        assert(starts =~= Set::empty());
    } else {
        lemma_missing_of(blocks, layer, m - 1);
        let (all1, starts1) = (
            missing_of(blocks, layer, m - 1),
            missing_starts_of(blocks, layer, m - 1),
        );
        let g = (layer as int, m - 1);
        if !selects(blocks, layer, m - 1) {
            assert(all =~= all1.insert(g));
            if m == 1 || selects(blocks, layer, m - 2) {
                assert(starts =~= starts1.insert(g));
            } else {
                assert(starts =~= starts1);
            }
        } else {
            assert(all =~= all1);
            assert(starts =~= starts1);
        }
    }
}

impl Stack {
    /// The missing blocks of those of the first `n` layers that contribute.
    spec fn missing_in(self, p: Progress, n: int) -> Set<(int, int)> {
        Set::new(
            |g: (int, int)|
                0 <= g.0 < n && p.objects.contains(g.0 as usize) && missing_of(
                    p.blocks,
                    g.0 as usize,
                    object_blocks(self.layers[g.0].size as int),
                ).contains(g),
        )
    }

    /// Those among them that a run starts with.
    spec fn missing_starts_in(self, p: Progress, n: int) -> Set<(int, int)> {
        Set::new(
            |g: (int, int)|
                0 <= g.0 < n && p.objects.contains(g.0 as usize) && missing_starts_of(
                    p.blocks,
                    g.0 as usize,
                    object_blocks(self.layers[g.0].size as int),
                ).contains(g),
        )
    }

    proof fn lemma_missing_in(self, p: Progress, n: int)
        requires
            0 <= n <= self.layers.len(),
            self.layers.len() <= usize::MAX,
        ensures
            self.missing_in(p, n).finite(),
            self.missing_in(p, n).len() == self.gap_blocks(p, n),
            self.missing_starts_in(p, n).finite(),
            self.missing_starts_in(p, n).len() == self.gap_runs(p, n),
        decreases n,
    {
        let (all, starts) = (self.missing_in(p, n), self.missing_starts_in(p, n));
        if n == 0 {
            assert(all =~= Set::empty());
            assert(starts =~= Set::empty());
        } else {
            self.lemma_missing_in(p, n - 1);
            let (all1, starts1) = (self.missing_in(p, n - 1), self.missing_starts_in(p, n - 1));
            let layer = (n - 1) as usize;
            let m = object_blocks(self.layers[n - 1].size as int);
            if p.objects.contains(layer) {
                lemma_missing_of(p.blocks, layer, m);
                let own = missing_of(p.blocks, layer, m);
                let own_starts = missing_starts_of(p.blocks, layer, m);
                assert(all =~= all1 + own);
                assert(starts =~= starts1 + own_starts);
                vstd::set_lib::lemma_set_disjoint_lens(all1, own);
                vstd::set_lib::lemma_set_disjoint_lens(starts1, own_starts);
            } else {
                assert(all =~= all1);
                assert(starts =~= starts1);
            }
        }
    }

    /// A block is missing from a plan where planning has not selected it.
    proof fn lemma_gap_at(self, plan: PackPlan, p: Progress, total: int, layer: int, block: int)
        requires
            self.wf(),
            plan_of(plan, self, p, total),
        ensures
            gap_at(plan, layer, block) <==> {
                &&& 0 <= layer < self.layers.len()
                &&& p.objects.contains(layer as usize)
                &&& 0 <= block < object_blocks(self.layers[layer].size as int)
                &&& !selects(p.blocks, layer as usize, block)
            },
    {
        assert(object_layers(plan.objects@) == p.objects);
        assert forall|b: int| 0 <= b < plan.blocks@.len() implies #[trigger] block_at(plan, b)
            == p.blocks[b] by {
            assert(p.blocks[b] == need_of(plan.objects@, plan.blocks@[b]));
        }
        assert(p.blocks.len() == plan.blocks@.len());
        if 0 <= layer < self.layers.len() && p.objects.contains(layer as usize) {
            let o = choose|o: int| 0 <= o < p.objects.len() && p.objects[o] == layer as usize;
            assert(plan.objects@[o].layer == layer);
            if selects(p.blocks, layer as usize, block) {
                let b = choose|b: int|
                    0 <= b < p.blocks.len() && (#[trigger] p.blocks[b]).layer == layer as usize
                        && p.blocks[b].block == block;
                assert(block_at(plan, b).layer == layer);
            } else {
                assert forall|b: int| 0 <= b < plan.blocks@.len() implies (#[trigger] block_at(
                    plan,
                    b,
                )).layer != layer || block_at(plan, b).block != block by {
                    assert(p.blocks[b].layer != layer as usize || p.blocks[b].block != block);
                }
            }
            if 0 <= block < object_blocks(self.layers[layer].size as int) {
                assert(block * 262144 < plan.objects@[o].size);
            }
        }
        if gap_at(plan, layer, block) {
            let o = choose|o: int|
                0 <= o < plan.objects@.len() && (#[trigger] plan.objects@[o]).layer == layer
                    && block * 262144 < plan.objects@[o].size;
            assert(p.objects[o] == plan.objects@[o].layer);
            assert(p.objects.contains(layer as usize));
            assert(block < object_blocks(self.layers[layer].size as int));
        }
    }

    /// The block counters of a plan count its blocks and what is missing.
    pub proof fn lemma_counts_blocks(self, plan: PackPlan, p: Progress, total: int)
        requires
            self.wf(),
            plan_of(plan, self, p, total),
        ensures
            counts_blocks(plan),
    {
        let n = plan.blocks@.len() as int;
        assert(p.blocks.len() == n);
        lemma_metadata_upto(p.blocks, n);
        assert(p.blocks.take(n) =~= p.blocks);
        assert forall|b: int| 0 <= b < n implies #[trigger] plan.blocks@[b].metadata
            == p.blocks[b].metadata by {
            assert(p.blocks[b] == need_of(plan.objects@, plan.blocks@[b]));
        }
        assert(blocks_that_are(plan, true) =~= metadata_upto(p.blocks, n, true));
        assert(blocks_that_are(plan, false) =~= metadata_upto(p.blocks, n, false));
        let layers = self.layers.len() as int;
        self.lemma_missing_in(p, layers);
        assert forall|g: (int, int)| gaps(plan).contains(g) <==> self.missing_in(
            p,
            layers,
        ).contains(g) by {
            self.lemma_gap_at(plan, p, total, g.0, g.1);
        }
        assert(gaps(plan) =~= self.missing_in(p, layers));
        assert forall|g: (int, int)| gap_starts(plan).contains(g) <==> self.missing_starts_in(
            p,
            layers,
        ).contains(g) by {
            self.lemma_gap_at(plan, p, total, g.0, g.1);
            self.lemma_gap_at(plan, p, total, g.0, g.1 - 1);
        }
        assert(gap_starts(plan) =~= self.missing_starts_in(p, layers));
    }
}

/// The pages, among the first `n`, for which the index answered with a physical
/// range.
pub open spec fn pages_with_data(answers: Seq<Vec<SegmentMapping>>, n: int) -> Set<int> {
    Set::new(
        |i: int|
            0 <= i < n && exists|k: int|
                0 <= k < answers[i]@.len() && (#[trigger] answers[i]@[k]).physical,
    )
}

pub proof fn lemma_pages_with_data(answers: Seq<Vec<SegmentMapping>>, n: int)
    requires
        0 <= n,
    ensures
        pages_with_data(answers, n).finite(),
        pages_with_data(answers, n).len() == backed_upto(answers, n),
    decreases n,
{
    let all = pages_with_data(answers, n);
    if n == 0 {
        assert(all =~= Set::empty());
    } else {
        lemma_pages_with_data(answers, n - 1);
        let before = pages_with_data(answers, n - 1);
        if backed(answers[n - 1]@) {
            let k = choose|k: int|
                0 <= k < answers[n - 1]@.len() && (#[trigger] answers[n - 1]@[k]).physical;
            assert(answers[n - 1]@[k].physical);
            assert(all =~= before.insert(n - 1));
        } else {
            assert(all =~= before);
        }
    }
}

/// Whether an answer maps a sector of a page, of eight sectors, to a physical
/// range.
pub open spec fn page_has_data(answer: Seq<SegmentMapping>, page: int) -> bool {
    exists|k: int, sector: int|
        0 <= k < answer.len() && #[trigger] maps_sector(answer[k], sector) && 8 * page <= sector < 8
            * page + 8
}

/// Whether an answer maps a sector to a physical range.
pub open spec fn maps_sector(m: SegmentMapping, sector: int) -> bool {
    m.physical && m.offset <= sector < m.offset + m.length
}

/// The pages of the first `n` spans, each with the index of its span, of which
/// the index maps a sector to a physical range.
pub open spec fn span_pages_with_data(
    ranges: Seq<(u64, u64)>,
    answers: Seq<Vec<SegmentMapping>>,
    n: int,
) -> Set<(int, int)> {
    Set::new(
        |g: (int, int)|
            0 <= g.0 < n && ranges[g.0].0 <= 4096 * g.1 < ranges[g.0].0 + ranges[g.0].1
                && page_has_data(answers[g.0]@, g.1),
    )
}

pub proof fn lemma_page_has_data(answer: Seq<SegmentMapping>, page: int)
    ensures
        page_has_data(answer, page) <==> page_backed(answer, page),
{
    if page_has_data(answer, page) {
        let (k, sector) = choose|k: int, sector: int|
            0 <= k < answer.len() && #[trigger] maps_sector(answer[k], sector) && 8 * page <= sector
                < 8 * page + 8;
        assert(backs(answer[k], page));
    }
    if page_backed(answer, page) {
        let k = choose|k: int| 0 <= k < answer.len() && #[trigger] backs(answer[k], page);
        let m = answer[k];
        let sector = if m.offset < 8 * page {
            8 * page
        } else {
            m.offset as int
        };
        assert(maps_sector(m, sector));
    }
}

spec fn pages_from(
    answer: Seq<SegmentMapping>,
    span: int,
    first: int,
    count: int,
) -> Set<(int, int)> {
    Set::new(
        |g: (int, int)|
            g.0 == span && first <= g.1 < first + count && page_has_data(answer, g.1),
    )
}

proof fn lemma_pages_from(answer: Seq<SegmentMapping>, span: int, first: int, count: int)
    requires
        0 <= count,
    ensures
        pages_from(answer, span, first, count).finite(),
        pages_from(answer, span, first, count).len() == backed_pages(answer, first, count),
    decreases count,
{
    let all = pages_from(answer, span, first, count);
    if count == 0 {
        assert(all =~= Set::empty());
    } else {
        lemma_pages_from(answer, span, first, count - 1);
        let before = pages_from(answer, span, first, count - 1);
        let g = (span, first + count - 1);
        lemma_page_has_data(answer, g.1);
        if page_has_data(answer, g.1) {
            assert(all =~= before.insert(g));
        } else {
            assert(all =~= before);
        }
    }
}

impl Stack {
    /// The artifact with the unit behind an uncut part of planning costs more
    /// than the budget, where the unit does not fit.
    proof fn lemma_costs_more(
        self,
        q: Progress,
        answers: Seq<Vec<SegmentMapping>>,
        n: int,
        budget: int,
    )
        requires
            self.wf(),
            0 <= n,
            forall|i: int|
                #![trigger answers[i]]
                0 <= i < n ==> self.answer_ok(answers[i]@) && self.resolve(answers[i]@) is Ok,
            self.selects_exactly(q, self.used_upto(answers, n)),
            self.file_bytes(q) > budget,
        ensures
            costs_more(self.layers, self.opened, answers, n, budget),
    {
        let (objects, blocks) = (q.objects, q.blocks);
        self.lemma_cost(objects, blocks.len() as int);
        assert(blocks.no_duplicates()) by {
            assert forall|i: int, j: int|
                0 <= i < blocks.len() && 0 <= j < blocks.len() && i != j implies blocks[i]
                != blocks[j] by {
                if i < j {
                    assert(blocks[i].layer != blocks[j].layer || blocks[i].block
                        != blocks[j].block);
                } else {
                    assert(blocks[j].layer != blocks[i].layer || blocks[j].block
                        != blocks[i].block);
                }
            }
        }
        assert forall|layer: usize| #[trigger] objects.contains(layer) <==> units_touch(
            self.layers,
            self.opened,
            answers,
            n,
            layer as int,
        ) by {
            self.lemma_selected_by_bytes(
                q,
                answers,
                n,
                Need { layer, block: 0, metadata: false },
            );
        }
        assert forall|need: Need| #[trigger] blocks.contains(need) <==> units_need(
            self.layers,
            self.opened,
            answers,
            n,
            need,
        ) by {
            self.lemma_selected_by_bytes(q, answers, n, need);
        }
        assert(cost(self.layers, objects, blocks.len() as int) > budget);
    }

    pub proof fn lemma_cut_page_costs_more(
        self,
        pages: Seq<u32>,
        mem: u64,
        answers: Seq<Vec<SegmentMapping>>,
        budget: int,
        n: int,
    )
        requires
            self.wf(),
            0 <= n < pages.len(),
            forall|i: int|
                #![trigger answers[i]]
                0 <= i < n + 1 ==> self.answer_ok(answers[i]@) && self.resolve(answers[i]@) is Ok,
            self.after_pages(pages.take(n), mem, answers, budget).failed is None,
            !self.after_pages(pages.take(n), mem, answers, budget).truncated,
            page_in_image(pages[n], mem),
            self.exceeds(
                self.after_pages(pages.take(n), mem, answers, budget),
                answers[n]@,
                budget,
            ),
        ensures
            costs_more(self.layers, self.opened, answers, n + 1, budget),
    {
        let p = self.after_pages(pages.take(n), mem, answers, budget);
        let needs = self.unit_needs(p.objects, self.resolve(answers[n]@)->Ok_0)->Ok_0;
        let large = self.artifact_bytes(
            extend_objects(p.objects, needs),
            extend_blocks(p.blocks, needs).len() as int,
        );
        self.law_uncut_plan_needs_no_more(pages.take(n), mem, answers, budget, large);
        let upto = pages.take(n + 1);
        assert(upto.drop_last() =~= pages.take(n));
        let q = self.after_pages(upto, mem, answers, large);
        assert(q.failed is None && !q.truncated);
        self.law_pages_select_exactly(upto, mem, answers, large);
        self.lemma_costs_more(q, answers, n + 1, budget);
    }

    /// A span plan that is not cut is the same with a larger budget.
    pub proof fn law_uncut_span_plan_needs_no_more(
        self,
        ranges: Seq<(u64, u64)>,
        mem: u64,
        answers: Seq<Vec<SegmentMapping>>,
        budget: int,
        larger: int,
    )
        requires
            budget <= larger,
            !self.after_ranges(ranges, mem, answers, budget).truncated,
        ensures
            self.after_ranges(ranges, mem, answers, larger) == self.after_ranges(
                ranges,
                mem,
                answers,
                budget,
            ),
        decreases ranges.len(),
    {
        if ranges.len() > 0 {
            let init = ranges.drop_last();
            self.law_uncut_span_plan_needs_no_more(init, mem, answers, budget, larger);
        } else {
            assert(self.after_ranges(ranges, mem, answers, larger) == no_progress());
        }
    }

    pub proof fn lemma_cut_span_costs_more(
        self,
        ranges: Seq<(u64, u64)>,
        mem: u64,
        answers: Seq<Vec<SegmentMapping>>,
        budget: int,
        n: int,
    )
        requires
            self.wf(),
            0 <= n < ranges.len(),
            forall|i: int|
                #![trigger answers[i]]
                0 <= i < n + 1 ==> self.answer_ok(answers[i]@) && self.resolve(answers[i]@) is Ok,
            self.after_ranges(ranges.take(n), mem, answers, budget).failed is None,
            !self.after_ranges(ranges.take(n), mem, answers, budget).truncated,
            range_in_image(ranges[n], mem),
            self.exceeds(
                self.after_ranges(ranges.take(n), mem, answers, budget),
                answers[n]@,
                budget,
            ),
        ensures
            costs_more(self.layers, self.opened, answers, n + 1, budget),
    {
        let p = self.after_ranges(ranges.take(n), mem, answers, budget);
        let needs = self.unit_needs(p.objects, self.resolve(answers[n]@)->Ok_0)->Ok_0;
        let large = self.artifact_bytes(
            extend_objects(p.objects, needs),
            extend_blocks(p.blocks, needs).len() as int,
        );
        self.law_uncut_span_plan_needs_no_more(ranges.take(n), mem, answers, budget, large);
        let upto = ranges.take(n + 1);
        assert(upto.drop_last() =~= ranges.take(n));
        let q = self.after_ranges(upto, mem, answers, large);
        assert(q.failed is None && !q.truncated);
        self.law_ranges_select_exactly(upto, mem, answers, large);
        self.lemma_costs_more(q, answers, n + 1, budget);
    }

    /// A span plan that is neither cut nor failed counts the pages of its spans
    /// of which the index maps a sector to a physical range.
    pub proof fn lemma_spans_counted(
        self,
        ranges: Seq<(u64, u64)>,
        mem: u64,
        answers: Seq<Vec<SegmentMapping>>,
        budget: int,
    )
        requires
            self.after_ranges(ranges, mem, answers, budget).failed is None,
            !self.after_ranges(ranges, mem, answers, budget).truncated,
        ensures
            ({
                let p = self.after_ranges(ranges, mem, answers, budget);
                let with_data = span_pages_with_data(ranges, answers, ranges.len() as int);
                &&& with_data.finite()
                &&& p.backed == with_data.len()
                &&& p.backed + p.holes == total_pages(ranges)
            }),
        decreases ranges.len(),
    {
        let n = ranges.len() as int;
        let all = span_pages_with_data(ranges, answers, n);
        if n == 0 {
            assert(all =~= Set::empty());
        } else {
            let init = ranges.drop_last();
            let p = self.after_ranges(init, mem, answers, budget);
            assert(p.failed is None && !p.truncated);
            self.lemma_spans_counted(init, mem, answers, budget);
            let before = span_pages_with_data(init, answers, n - 1);
            let r = ranges[n - 1];
            let answer = answers[n - 1]@;
            assert(range_in_image(r, mem));
            let (first, count) = (r.0 as int / 4096, r.1 as int / 4096);
            let own = pages_from(answer, n - 1, first, count);
            lemma_pages_from(answer, n - 1, first, count);
            assert forall|g: (int, int)| all.contains(g) <==> (before + own).contains(g) by {
                if 0 <= g.0 < n - 1 {
                    assert(init[g.0] == ranges[g.0]);
                }
            }
            assert(all =~= before + own);
            vstd::set_lib::lemma_set_disjoint_lens(before, own);
            if !backed(answer) {
                assert(own =~= Set::empty()) by {
                    assert forall|g: (int, int)| !own.contains(g) by {
                        if own.contains(g) {
                            let (k, sector) = choose|k: int, sector: int|
                                0 <= k < answer.len() && #[trigger] maps_sector(answer[k], sector)
                                    && 8 * g.1 <= sector < 8 * g.1 + 8;
                            assert(answer[k].physical);
                        }
                    }
                }
            }
        }
    }
}

} // verus!
