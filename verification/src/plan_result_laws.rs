//! What the results of the planning calls say, in terms of their arguments and
//! of what the index answered.
use vstd::prelude::*;
use crate::extents::PlanError;
use crate::pack_plan::{
    PackPlan, PageObservation, blocks_planned, need_of, observed, pages_planned, plan_of,
    ranges_planned,
};
use crate::pack_planner::{plan_blocks, plan_blocks_with_observer, plan_ranges};
use crate::plan_byte_laws::{
    answer_maps_into, describes_layer, lemma_puts_byte, puts_byte, units_map_into, units_touch,
};
use crate::plan_cost_laws::{
    costs_more, counts_blocks, lemma_pages_with_data, pages_with_data, plan_cost,
    span_pages_with_data,
};
use crate::plan_lemmas::{distinct_blocks, lemma_layer_order};
use crate::plan_model::{
    FinalLayerSource, Need, OpenedLayer, Progress, Segment, SegmentMapping, Stack, Weight,
    extend_blocks, extend_objects, flat, layer_order, lookups, one_page, parts_answered,
    range_in_image, resolution_of, selects, span_answered, span_weight, total_pages,
};
use crate::plan_unit_laws::{unit_adds_in_order, units_add_in_order};
use crate::span_lookup::{lemma_lookup, look_up_span};

verus! {

/// Block `b` of a plan as a block of a layer.
pub open spec fn block_at(plan: PackPlan, b: int) -> Need {
    Need {
        layer: plan.objects@[plan.blocks@[b].object as int].layer,
        block: plan.blocks@[b].block_id,
        metadata: plan.blocks@[b].metadata,
    }
}

/// Whether the first `n` units need a block, by bytes: as metadata where it
/// describes a layer that they map into, as data where it does not and they map
/// into the block itself.
pub open spec fn units_need(
    layers: Seq<FinalLayerSource>,
    opened: Seq<OpenedLayer>,
    answers: Seq<Vec<SegmentMapping>>,
    n: int,
    need: Need,
) -> bool {
    let (layer, block) = (need.layer as int, need.block as int);
    &&& units_touch(layers, opened, answers, n, layer)
    &&& need.metadata == describes_layer(layers, opened, layer, block)
    &&& need.metadata || units_map_into(layers, opened, answers, n, layer, block)
}

/// Whether the first `len` blocks of a plan are those that the first `n` units
/// need.
pub open spec fn leads_with(
    plan: PackPlan,
    len: int,
    layers: Seq<FinalLayerSource>,
    opened: Seq<OpenedLayer>,
    answers: Seq<Vec<SegmentMapping>>,
    n: int,
) -> bool {
    &&& 0 <= len <= plan.blocks@.len()
    &&& forall|need: Need| #[trigger]
        units_need(layers, opened, answers, n, need) <==> exists|b: int|
            0 <= b < len && #[trigger] block_at(plan, b) == need
}

/// Whether the blocks and the objects of a plan are what the first `n` units
/// need, no block and no object twice, in first-need order: for every `j` the
/// blocks of the first `j` units stand in front. The objects are the layers
/// that the units map into, by their content identity, in the order of their
/// first blocks.
pub open spec fn plans_units(
    plan: PackPlan,
    layers: Seq<FinalLayerSource>,
    opened: Seq<OpenedLayer>,
    answers: Seq<Vec<SegmentMapping>>,
    n: int,
) -> bool {
    &&& leads_with(plan, plan.blocks@.len() as int, layers, opened, answers, n)
    &&& forall|j: int|
        #![trigger units_before(j, n)]
        units_before(j, n) ==> exists|len: int| #[trigger]
            leads_with(plan, len, layers, opened, answers, j)
    &&& forall|a: int, b: int|
        #![trigger block_at(plan, a), block_at(plan, b)]
        0 <= a < b < plan.blocks@.len() ==> block_at(plan, a).layer != block_at(plan, b).layer
            || block_at(plan, a).block != block_at(plan, b).block
    &&& forall|b: int|
        #![trigger plan.blocks@[b]]
        0 <= b < plan.blocks@.len() ==> plan.blocks@[b].object < plan.objects@.len()
    &&& forall|o: int|
        #![trigger plan.objects@[o]]
        0 <= o < plan.objects@.len() ==> {
            let layer = plan.objects@[o].layer as int;
            &&& layer < layers.len()
            &&& units_touch(layers, opened, answers, n, layer)
            &&& plan.objects@[o].digest == layers[layer].digest
            &&& plan.objects@[o].size == layers[layer].size
        }
    &&& forall|o: int, q: int|
        #![trigger plan.objects@[o], plan.objects@[q]]
        0 <= o < q < plan.objects@.len() ==> plan.objects@[o].layer != plan.objects@[q].layer
    &&& forall|layer: usize| #[trigger]
        units_touch(layers, opened, answers, n, layer as int) ==> exists|o: int|
            0 <= o < plan.objects@.len() && (#[trigger] plan.objects@[o]).layer == layer
    &&& forall|o: int, q: int|
        0 <= o < q < plan.objects@.len() ==> #[trigger] named_before(plan, o, q)
}

/// Whether a block of object `o` stands before all blocks of object `q` in a
/// plan.
pub open spec fn named_before(plan: PackPlan, o: int, q: int) -> bool {
    exists|b: int| #[trigger]
        block_of(plan, b, o) && forall|c: int| #[trigger] block_of(plan, c, q) ==> b < c
}

/// Whether block `b` of a plan is one of object `o`.
pub open spec fn block_of(plan: PackPlan, b: int, o: int) -> bool {
    0 <= b < plan.blocks@.len() && plan.blocks@[b].object == o
}

/// Whether a page of the image was looked up, and this is the answer for its
/// eight sectors.
pub open spec fn page_asked<F: Fn(Segment) -> Vec<SegmentMapping>>(
    lookup: F,
    page: u32,
    mem_virtual_size: u64,
    answer: Vec<SegmentMapping>,
) -> bool {
    &&& (page + 1) * 4096 <= mem_virtual_size
    &&& call_ensures(lookup, (Segment { offset: (page * 8) as u64, length: 8 },), answer)
}

/// Whether `j` counts some of the first `n` units.
pub open spec fn units_before(j: int, n: int) -> bool {
    0 <= j <= n
}

/// Blocks by their layers and their numbers.
pub open spec fn pairs(blocks: Seq<Need>) -> Seq<(usize, u32)> {
    blocks.map_values(|n: Need| (n.layer, n.block))
}

/// Where layer `u` of an order first occurs, it comes before layer `v`.
proof fn lemma_first_of(deps: Seq<(usize, u32)>, u: int, v: int) -> (d: int)
    requires
        0 <= u < v < layer_order(deps).len(),
    ensures
        0 <= d < deps.len(),
        deps[d].0 == layer_order(deps)[u],
        forall|e: int|
            0 <= e < deps.len() && (#[trigger] deps[e]).0 == layer_order(deps)[v] ==> d < e,
    decreases deps.len(),
{
    let init = deps.drop_last();
    let rest = layer_order(init);
    let order = layer_order(deps);
    lemma_layer_order(init);
    lemma_layer_order(deps);
    if v < rest.len() {
        let d = lemma_first_of(init, u, v);
        assert(init[d] == deps[d]);
        assert forall|e: int| 0 <= e < deps.len() && (#[trigger] deps[e]).0 == order[v] implies d
            < e by {
            if e < init.len() {
                assert(init[e] == deps[e]);
            }
        }
        d
    } else {
        assert(rest.contains(rest[u]));
        let d = choose|d: int| 0 <= d < init.len() && (#[trigger] init[d]).0 == rest[u];
        assert(init[d] == deps[d]);
        assert forall|e: int| 0 <= e < deps.len() && (#[trigger] deps[e]).0 == order[v] implies d
            < e by {
            if e < init.len() {
                assert(init[e].0 == order[v]);
                assert(rest.contains(order[v]));
            }
        }
        d
    }
}

/// What is added to the blocks is added to the objects alike.
proof fn lemma_extend_both(have: Seq<Need>, more: Seq<Need>)
    ensures
        extend_objects(layer_order(pairs(have)), more) == layer_order(
            pairs(extend_blocks(have, more)),
        ),
    decreases more.len(),
{
    if more.len() > 0 {
        let init = more.drop_last();
        let x = more.last();
        lemma_extend_both(have, init);
        let rest = extend_blocks(have, init);
        lemma_layer_order(pairs(rest));
        if selects(rest, x.layer, x.block as int) {
            let i = choose|i: int|
                0 <= i < rest.len() && (#[trigger] rest[i]).layer == x.layer && rest[i].block
                    == x.block as int;
            assert(pairs(rest)[i].0 == x.layer);
            assert(layer_order(pairs(rest)).contains(x.layer));
        } else {
            let all = pairs(rest.push(x));
            assert(all.drop_last() =~= pairs(rest));
            assert(all.last() == (x.layer, x.block));
        }
    }
}

impl Stack {
    /// The objects of planning are the layers of its blocks.
    proof fn lemma_page_objects(
        self,
        pages: Seq<u32>,
        mem: u64,
        answers: Seq<Vec<SegmentMapping>>,
        budget: int,
    )
        ensures
            ({
                let p = self.after_pages(pages, mem, answers, budget);
                p.objects == layer_order(pairs(p.blocks))
            }),
        decreases pages.len(),
    {
        if pages.len() == 0 {
            assert(pairs(Seq::empty()) =~= Seq::empty());
        } else {
            let init = pages.drop_last();
            self.lemma_page_objects(init, mem, answers, budget);
            let p = self.after_pages(init, mem, answers, budget);
            self.lemma_unit_objects(p, answers[pages.len() - 1]@, one_page(), budget);
        }
    }

    proof fn lemma_unit_objects(
        self,
        p: Progress,
        answer: Seq<SegmentMapping>,
        weight: Weight,
        budget: int,
    )
        requires
            p.objects == layer_order(pairs(p.blocks)),
        ensures
            ({
                let q = self.take_unit(p, answer, weight, budget);
                q.objects == layer_order(pairs(q.blocks))
            }),
    {
        if self.resolve(answer) is Ok {
            let deps = self.resolve(answer)->Ok_0;
            if self.unit_needs(p.objects, deps) is Ok {
                lemma_extend_both(p.blocks, self.unit_needs(p.objects, deps)->Ok_0);
            }
        }
    }

    proof fn lemma_span_objects(
        self,
        ranges: Seq<(u64, u64)>,
        mem: u64,
        answers: Seq<Vec<SegmentMapping>>,
        budget: int,
    )
        ensures
            ({
                let p = self.after_ranges(ranges, mem, answers, budget);
                p.objects == layer_order(pairs(p.blocks))
            }),
        decreases ranges.len(),
    {
        if ranges.len() == 0 {
            assert(pairs(Seq::empty()) =~= Seq::empty());
        } else {
            let init = ranges.drop_last();
            self.lemma_span_objects(init, mem, answers, budget);
            let p = self.after_ranges(init, mem, answers, budget);
            let answer = answers[ranges.len() - 1]@;
            self.lemma_unit_objects(p, answer, span_weight(ranges.last(), answer), budget);
        }
    }
}

impl Stack {
    /// The blocks of an uncut part of planning, as a front of the plan.
    proof fn lemma_leads_with(
        self,
        plan: PackPlan,
        p: Progress,
        q: Progress,
        total: int,
        answers: Seq<Vec<SegmentMapping>>,
        j: int,
    )
        requires
            self.wf(),
            0 <= j,
            forall|i: int|
                #![trigger answers[i]]
                0 <= i < j ==> self.answer_ok(answers[i]@) && self.resolve(answers[i]@) is Ok,
            self.selects_exactly(p, self.used_upto(answers, j)),
            p.blocks.is_prefix_of(q.blocks),
            plan_of(plan, self, q, total),
        ensures
            leads_with(plan, p.blocks.len() as int, self.layers, self.opened, answers, j),
    {
        let len = p.blocks.len() as int;
        assert(q.blocks.len() == plan.blocks@.len());
        assert forall|b: int| 0 <= b < len implies #[trigger] block_at(plan, b) == p.blocks[b] by {
            assert(q.blocks[b] == need_of(plan.objects@, plan.blocks@[b]));
        }
        assert forall|need: Need| #[trigger]
            units_need(self.layers, self.opened, answers, j, need) <==> exists|b: int|
                0 <= b < len && #[trigger] block_at(plan, b) == need by {
            self.lemma_selected_by_bytes(p, answers, j, need);
            if p.blocks.contains(need) {
                let b = choose|b: int| 0 <= b < p.blocks.len() && p.blocks[b] == need;
                assert(block_at(plan, b) == need);
            }
            if exists|b: int| 0 <= b < len && #[trigger] block_at(plan, b) == need {
                let b = choose|b: int| 0 <= b < len && #[trigger] block_at(plan, b) == need;
                assert(p.blocks[b] == need);
            }
        }
    }

    /// The objects of a plan that is exact.
    proof fn lemma_plan_objects(
        self,
        plan: PackPlan,
        p: Progress,
        q: Progress,
        total: int,
        answers: Seq<Vec<SegmentMapping>>,
        n: int,
    )
        requires
            self.wf(),
            0 <= n,
            forall|i: int|
                #![trigger answers[i]]
                0 <= i < n ==> self.answer_ok(answers[i]@) && self.resolve(answers[i]@) is Ok,
            self.selects_exactly(p, self.used_upto(answers, n)),
            p.blocks == q.blocks,
            p.objects == q.objects,
            p.objects == layer_order(pairs(p.blocks)),
            plan_of(plan, self, q, total),
            forall|j: int|
                #![trigger units_before(j, n)]
                units_before(j, n) ==> exists|len: int| #[trigger]
                    leads_with(plan, len, self.layers, self.opened, answers, j),
        ensures
            plans_units(plan, self.layers, self.opened, answers, n),
    {
        self.lemma_leads_with(plan, p, q, total, answers, n);
        assert forall|a: int, b: int|
            #![trigger block_at(plan, a), block_at(plan, b)]
            0 <= a < b < plan.blocks@.len() implies block_at(plan, a).layer != block_at(
            plan,
            b,
        ).layer || block_at(plan, a).block != block_at(plan, b).block by {
            assert(q.blocks[a] == need_of(plan.objects@, plan.blocks@[a]));
            assert(q.blocks[b] == need_of(plan.objects@, plan.blocks@[b]));
            assert(distinct_blocks(p.blocks));
        }
        assert forall|layer: usize|
            p.objects.contains(layer) <==> #[trigger] units_touch(
                self.layers,
                self.opened,
                answers,
                n,
                layer as int,
            ) by {
            self.lemma_selected_by_bytes(
                p,
                answers,
                n,
                Need { layer, block: 0, metadata: false },
            );
        }
        assert forall|o: int|
            #![trigger plan.objects@[o]]
            0 <= o < plan.objects@.len() implies units_touch(
            self.layers,
            self.opened,
            answers,
            n,
            plan.objects@[o].layer as int,
        ) by {
            assert(p.objects[o] == plan.objects@[o].layer);
            assert(p.objects.contains(p.objects[o]));
        }
        assert forall|o: int, k: int|
            #![trigger plan.objects@[o], plan.objects@[k]]
            0 <= o < k < plan.objects@.len() implies plan.objects@[o].layer
            != plan.objects@[k].layer by {
            assert(p.objects[o] == plan.objects@[o].layer);
            assert(p.objects[k] == plan.objects@[k].layer);
        }
        assert forall|layer: usize| #[trigger]
            units_touch(self.layers, self.opened, answers, n, layer as int) implies exists|o: int|
            0 <= o < plan.objects@.len() && (#[trigger] plan.objects@[o]).layer == layer by {
            assert(p.objects.contains(layer));
            let o = choose|o: int| 0 <= o < p.objects.len() && p.objects[o] == layer;
            assert(plan.objects@[o].layer == layer);
        }
        assert forall|o: int, k: int|
            0 <= o < k < plan.objects@.len() implies #[trigger] named_before(plan, o, k) by {
            self.lemma_named_before(plan, q, total, o, k);
        }
    }

    /// Objects stand in the order of their first blocks.
    proof fn lemma_named_before(self, plan: PackPlan, q: Progress, total: int, o: int, k: int)
        requires
            q.objects == layer_order(pairs(q.blocks)),
            plan_of(plan, self, q, total),
            0 <= o < k < plan.objects@.len(),
        ensures
            named_before(plan, o, k),
    {
        let deps = pairs(q.blocks);
        let order = layer_order(deps);
        lemma_layer_order(deps);
        assert(q.blocks.len() == plan.blocks@.len());
        let b = lemma_first_of(deps, o, k);
        assert forall|c: int| 0 <= c < plan.blocks@.len() implies deps[c].0
            == order[(#[trigger] plan.blocks@[c]).object as int] by {
            assert(q.blocks[c] == need_of(plan.objects@, plan.blocks@[c]));
            let x = plan.blocks@[c].object as int;
            assert(q.objects[x] == plan.objects@[x].layer);
        }
        assert(order[plan.blocks@[b].object as int] == order[o]);
        assert(block_of(plan, b, o));
        assert forall|c: int| #[trigger] block_of(plan, c, k) implies b < c by {
            assert(deps[c].0 == order[plan.blocks@[c].object as int]);
        }
    }

    /// The pages before the cut were looked up.
    proof fn lemma_pages_asked<F: Fn(Segment) -> Vec<SegmentMapping>>(
        self,
        lookup: F,
        pages: Seq<u32>,
        mem: u64,
        answers: Seq<Vec<SegmentMapping>>,
        budget: int,
        n: int,
        i: int,
    )
        requires
            self.lookup_ok(lookup, mem),
            self.page_answers(lookup, pages, mem, answers, budget, pages.len() as int),
            0 <= i < n <= pages.len(),
            self.after_pages(pages.take(n), mem, answers, budget).failed is None,
            !self.after_pages(pages.take(n), mem, answers, budget).truncated,
        ensures
            (pages[i] + 1) * 4096 <= mem,
            call_ensures(
                lookup,
                (Segment { offset: (pages[i] * 8) as u64, length: 8 },),
                answers[i],
            ),
            self.answer_ok(answers[i]@),
            self.resolve(answers[i]@) is Ok,
    {
        let front = pages.take(n);
        self.lemma_pages_taken(front, mem, answers, budget, i);
        self.lemma_pages_fine_before(front, mem, answers, budget, i);
        assert(front.take(i) =~= pages.take(i));
        assert(self.looks_up_page(pages, mem, answers, budget, i));
        self.lemma_page_answer_ok(lookup, mem, pages[i], answers[i]);
    }

    /// The answers for the pages before the cut can be resolved.
    pub proof fn lemma_pages_ok<F: Fn(Segment) -> Vec<SegmentMapping>>(
        self,
        lookup: F,
        pages: Seq<u32>,
        mem: u64,
        answers: Seq<Vec<SegmentMapping>>,
        budget: int,
        n: int,
        i: int,
    )
        requires
            self.lookup_ok(lookup, mem),
            self.page_answers(lookup, pages, mem, answers, budget, pages.len() as int),
            0 <= i < n <= pages.len(),
            self.after_pages(pages.take(n), mem, answers, budget).failed is None,
            !self.after_pages(pages.take(n), mem, answers, budget).truncated,
        ensures
            self.answer_ok(answers[i]@),
            self.resolve(answers[i]@) is Ok,
    {
        self.lemma_pages_asked(lookup, pages, mem, answers, budget, n, i);
    }

    /// A page before the cut adds its blocks in order.
    proof fn lemma_page_adds<F: Fn(Segment) -> Vec<SegmentMapping>>(
        self,
        lookup: F,
        pages: Seq<u32>,
        mem: u64,
        answers: Seq<Vec<SegmentMapping>>,
        budget: int,
        plan: PackPlan,
        n: int,
        j: int,
    )
        requires
            self.wf(),
            self.lookup_ok(lookup, mem),
            self.page_answers(lookup, pages, mem, answers, budget, pages.len() as int),
            0 <= j < n <= pages.len(),
            self.after_pages(pages.take(n), mem, answers, budget).failed is None,
            !self.after_pages(pages.take(n), mem, answers, budget).truncated,
            plan_of(
                plan,
                self,
                self.after_pages(pages, mem, answers, budget),
                pages.len() as int,
            ),
        ensures
            unit_adds_in_order(plan, self.layers, self.opened, answers, j),
    {
        let q = self.after_pages(pages, mem, answers, budget);
        let total = pages.len() as int;
        assert forall|i: int| #![trigger answers[i]] 0 <= i < n implies self.answer_ok(answers[i]@)
            && self.resolve(answers[i]@) is Ok by {
            self.lemma_pages_ok(lookup, pages, mem, answers, budget, n, i);
        }
        let before = self.after_pages(pages.take(j), mem, answers, budget);
        let after = self.after_pages(pages.take(j + 1), mem, answers, budget);
        assert(pages.take(j + 1).drop_last() =~= pages.take(j));
        assert(pages.take(n).take(j) =~= pages.take(j));
        assert(pages.take(n).take(j + 1) =~= pages.take(j + 1));
        self.lemma_pages_fine_before(pages.take(n), mem, answers, budget, j);
        self.lemma_pages_fine_before(pages.take(n), mem, answers, budget, j + 1);
        self.law_pages_select_exactly(pages.take(j), mem, answers, budget);
        self.law_pages_select_exactly(pages.take(j + 1), mem, answers, budget);
        self.law_pages_in_first_need_order(pages, mem, answers, budget, j);
        self.law_pages_in_first_need_order(pages, mem, answers, budget, j + 1);
        self.lemma_leads_with(plan, before, q, total, answers, j);
        self.lemma_leads_with(plan, after, q, total, answers, j + 1);
        self.lemma_pages_ok(lookup, pages, mem, answers, budget, n, j);
        self.lemma_unit_adds(
            plan,
            before,
            after,
            q,
            total,
            answers,
            j,
            one_page(),
            budget,
        );
    }

    proof fn lemma_pages_by_bytes<F: Fn(Segment) -> Vec<SegmentMapping>>(
        self,
        lookup: F,
        pages: Seq<u32>,
        mem: u64,
        answers: Seq<Vec<SegmentMapping>>,
        budget: int,
        plan: PackPlan,
    )
        requires
            self.wf(),
            self.lookup_ok(lookup, mem),
            blocks_planned(
                Ok::<PackPlan, PlanError>(plan),
                self,
                lookup,
                pages,
                mem,
                answers,
                budget,
            ),
        ensures
            ({
                let n = pages.len() - plan.stats.pages_truncated_by_budget;
                let p = self.after_pages(pages.take(n), mem, answers, budget);
                let q = self.after_pages(pages, mem, answers, budget);
                &&& 0 <= n <= pages.len()
                &&& plans_units(plan, self.layers, self.opened, answers, n)
                &&& units_add_in_order(plan, self.layers, self.opened, answers, n)
                &&& p.failed is None
                &&& !p.truncated
                &&& q == Progress { truncated: q.cut > 0, cut: q.cut, ..p }
            }),
    {
        let q = self.after_pages(pages, mem, answers, budget);
        let n = pages.len() - plan.stats.pages_truncated_by_budget;
        let p = self.after_pages(pages.take(n), mem, answers, budget);
        let total = pages.len() as int;
        self.law_cut_plan_is_that_of_the_pages_before(pages, mem, answers, budget, budget);
        assert(p.failed is None && !p.truncated);
        assert forall|i: int| #![trigger answers[i]] 0 <= i < n implies self.answer_ok(answers[i]@)
            && self.resolve(answers[i]@) is Ok by {
            self.lemma_pages_ok(lookup, pages, mem, answers, budget, n, i);
        }
        assert forall|j: int| #![trigger units_before(j, n)] units_before(j, n) implies exists|
            len: int,
        | #[trigger] leads_with(plan, len, self.layers, self.opened, answers, j) by {
            let part = self.after_pages(pages.take(j), mem, answers, budget);
            assert(pages.take(n).take(j) =~= pages.take(j));
            self.lemma_pages_fine_before(pages.take(n), mem, answers, budget, j);
            self.law_pages_select_exactly(pages.take(j), mem, answers, budget);
            self.law_pages_in_first_need_order(pages, mem, answers, budget, j);
            self.lemma_leads_with(plan, part, q, total, answers, j);
            assert(leads_with(
                plan,
                part.blocks.len() as int,
                self.layers,
                self.opened,
                answers,
                j,
            ));
        }
        self.law_pages_select_exactly(pages.take(n), mem, answers, budget);
        self.lemma_page_objects(pages.take(n), mem, answers, budget);
        self.lemma_plan_objects(plan, p, q, total, answers, n);
        assert forall|j: int| 0 <= j < n implies #[trigger] unit_adds_in_order(
            plan,
            self.layers,
            self.opened,
            answers,
            j,
        ) by {
            self.lemma_page_adds(lookup, pages, mem, answers, budget, plan, n, j);
        }
    }
}

/// A plan of pages selects, for the pages before the cut, exactly the blocks
/// that hold a stored byte of what the index maps for their sectors, and those
/// that hold the header and the index of the layers that these lie in, in the
/// order in which the pages need them. The artifact stays within the budget;
/// with the page at the cut it would not. The counters count the pages with
/// and without data, the blocks and the gaps between them. The proof finds what
/// the index answered, for the eight sectors of each page.
pub proof fn law_page_plan_by_bytes<F: Fn(Segment) -> Vec<SegmentMapping>>(
    pages: &[u32],
    mem_virtual_size: u64,
    layers: &[FinalLayerSource],
    opened: &[OpenedLayer],
    budget: u64,
    lookup: F,
    plan: PackPlan,
) -> (answers: Seq<Vec<SegmentMapping>>)
    requires
        (Stack { layers: layers@, opened: opened@ }).plannable(lookup, mem_virtual_size),
        call_ensures(
            plan_blocks::<F>,
            (pages, mem_virtual_size, layers, opened, budget, lookup),
            Ok::<PackPlan, PlanError>(plan),
        ),
    ensures
        plans_pages(
            plan,
            pages@,
            mem_virtual_size,
            layers@,
            opened@,
            budget,
            lookup,
            answers,
        ),
{
    let stack = Stack { layers: layers@, opened: opened@ };
    let res = Ok::<PackPlan, PlanError>(plan);
    stack.lemma_layers_fine(lookup, mem_virtual_size);
    let answers = choose|answers: Seq<Vec<SegmentMapping>>| #[trigger]
        blocks_planned(
            res,
            stack,
            lookup,
            pages@,
            mem_virtual_size,
            answers,
            budget as int,
        );
    stack.lemma_plans_pages(lookup, pages@, mem_virtual_size, answers, budget, plan);
    answers
}

impl Stack {
    proof fn lemma_page_accounts<F: Fn(Segment) -> Vec<SegmentMapping>>(
        self,
        lookup: F,
        pages: Seq<u32>,
        mem: u64,
        answers: Seq<Vec<SegmentMapping>>,
        budget: int,
        plan: PackPlan,
    )
        requires
            self.wf(),
            self.lookup_ok(lookup, mem),
            blocks_planned(
                Ok::<PackPlan, PlanError>(plan),
                self,
                lookup,
                pages,
                mem,
                answers,
                budget,
            ),
        ensures
            ({
                let n = pages.len() - plan.stats.pages_truncated_by_budget;
                &&& counts_blocks(plan)
                &&& plan.stats.pages_backed == pages_with_data(answers, n).len()
                &&& plan.stats.pages_backed + plan.stats.pages_zero_hole == n
                &&& plan.blocks@.len() > 0 ==> plan_cost(plan, self.layers) <= budget
                &&& n < pages.len() ==> {
                    &&& page_asked(lookup, pages[n], mem, answers[n])
                    &&& costs_more(self.layers, self.opened, answers, n + 1, budget)
                }
            }),
    {
        let q = self.after_pages(pages, mem, answers, budget);
        let n = pages.len() - plan.stats.pages_truncated_by_budget;
        let p = self.after_pages(pages.take(n), mem, answers, budget);
        let total = pages.len() as int;
        self.lemma_pages_by_bytes(lookup, pages, mem, answers, budget, plan);
        self.lemma_counts_blocks(plan, q, total);
        self.law_pages_count(pages.take(n), mem, answers, budget);
        lemma_pages_with_data(answers, n);
        self.lemma_plan_cost(plan, q, total);
        self.lemma_page_budget(lookup, pages, mem, answers, budget);
        assert(q.blocks.len() == plan.blocks@.len());
        if n < pages.len() {
            self.law_first_cut_page_exceeds_budget(pages, mem, answers, budget);
            assert(self.looks_up_page(pages, mem, answers, budget, n));
            self.lemma_page_answer_ok(lookup, mem, pages[n], answers[n]);
            assert forall|i: int| #![trigger answers[i]] 0 <= i < n + 1 implies self.answer_ok(
                answers[i]@,
            ) && self.resolve(answers[i]@) is Ok by {
                if i < n {
                    self.lemma_pages_asked(lookup, pages, mem, answers, budget, n, i);
                }
            }
            self.lemma_cut_page_costs_more(pages, mem, answers, budget, n);
        }
    }

    proof fn lemma_entries_not_negative(self, objects: Seq<usize>)
        ensures
            self.object_bytes(objects) >= 0,
        decreases objects.len(),
    {
        if objects.len() > 0 {
            self.lemma_entries_not_negative(objects.drop_last());
        }
    }

    /// The span at the cut was looked up, and does not fit.
    proof fn lemma_span_at_cut<F: Fn(Segment) -> Vec<SegmentMapping>>(
        self,
        lookup: F,
        ranges: Seq<(u64, u64)>,
        mem: u64,
        answers: Seq<Vec<SegmentMapping>>,
        budget: int,
        n: int,
    )
        requires
            self.wf(),
            self.lookup_ok(lookup, mem),
            self.range_answers(lookup, ranges, mem, answers, budget, ranges.len() as int),
            self.after_ranges(ranges, mem, answers, budget).failed is None,
            0 <= n < ranges.len(),
            self.after_ranges(ranges.take(n), mem, answers, budget).failed is None,
            !self.after_ranges(ranges.take(n), mem, answers, budget).truncated,
            self.exceeds(
                self.after_ranges(ranges.take(n), mem, answers, budget),
                answers[n]@,
                budget,
            ),
        ensures
            span_asked(lookup, ranges[n], mem, answers[n]@),
            costs_more(self.layers, self.opened, answers, n + 1, budget),
    {
        let upto = ranges.take(n + 1);
        assert(upto.drop_last() =~= ranges.take(n));
        if self.after_ranges(upto, mem, answers, budget).failed is Some {
            self.lemma_ranges_failed(ranges, mem, answers, budget, n + 1);
        }
        assert(range_in_image(ranges[n], mem));
        assert(self.looks_up_range(ranges, mem, answers, budget, n));
        self.lemma_span_answer_ok(lookup, ranges[n], mem, answers[n]@);
        assert forall|i: int| #![trigger answers[i]] 0 <= i < n + 1 implies self.answer_ok(
            answers[i]@,
        ) && self.resolve(answers[i]@) is Ok by {
            if i < n {
                self.lemma_spans_asked(lookup, ranges, mem, answers, budget, n, i);
            }
        }
        self.lemma_cut_span_costs_more(ranges, mem, answers, budget, n);
        lemma_span_asked(lookup, ranges[n], mem, answers[n]@);
    }

    proof fn lemma_span_accounts<F: Fn(Segment) -> Vec<SegmentMapping>>(
        self,
        lookup: F,
        ranges: Seq<(u64, u64)>,
        mem: u64,
        answers: Seq<Vec<SegmentMapping>>,
        budget: int,
        plan: PackPlan,
        n: int,
    )
        requires
            self.wf(),
            self.lookup_ok(lookup, mem),
            ranges_planned(
                Ok::<PackPlan, PlanError>(plan),
                self,
                lookup,
                ranges,
                mem,
                answers,
                budget,
            ),
            ({
                let p = self.after_ranges(ranges.take(n), mem, answers, budget);
                let q = self.after_ranges(ranges, mem, answers, budget);
                &&& 0 <= n <= ranges.len()
                &&& p.failed is None
                &&& !p.truncated
                &&& p.blocks == q.blocks
                &&& p.objects == q.objects
                &&& p.backed == q.backed
                &&& p.holes == q.holes
                &&& n < ranges.len() ==> self.exceeds(p, answers[n]@, budget)
            }),
        ensures
            counts_blocks(plan),
            plan.stats.pages_backed == span_pages_with_data(ranges, answers, n).len(),
            plan.stats.pages_backed + plan.stats.pages_zero_hole == total_pages(ranges.take(n)),
            plan.blocks@.len() > 0 ==> plan_cost(plan, self.layers) <= budget,
            n < ranges.len() ==> {
                &&& span_asked(lookup, ranges[n], mem, answers[n]@)
                &&& costs_more(self.layers, self.opened, answers, n + 1, budget)
            },
    {
        let q = self.after_ranges(ranges, mem, answers, budget);
        let p = self.after_ranges(ranges.take(n), mem, answers, budget);
        let total = total_pages(ranges);
        self.lemma_counts_blocks(plan, q, total);
        self.lemma_spans_counted(ranges.take(n), mem, answers, budget);
        assert(span_pages_with_data(ranges.take(n), answers, n) =~= span_pages_with_data(
            ranges,
            answers,
            n,
        ));
        assert forall|i: int| #![trigger answers[i]] 0 <= i < n implies self.answer_ok(answers[i]@)
            && self.resolve(answers[i]@) is Ok by {
            self.lemma_spans_asked(lookup, ranges, mem, answers, budget, n, i);
        }
        self.lemma_plan_cost(plan, q, total);
        if plan.blocks@.len() > 0 {
            self.law_range_plan(ranges.take(n), mem, answers, budget);
            self.lemma_spends(p, budget);
            assert(q.blocks.len() == plan.blocks@.len());
        }
        if n < ranges.len() {
            self.lemma_span_at_cut(lookup, ranges, mem, answers, budget, n);
        }
    }
}

/// Where the index puts a byte of a page before the cut, at a byte of a layer's
/// object, the plan has the block of that byte.
pub proof fn law_byte_of_a_page_is_planned(
    plan: PackPlan,
    layers: Seq<FinalLayerSource>,
    opened: Seq<OpenedLayer>,
    answers: Seq<Vec<SegmentMapping>>,
    n: int,
    i: int,
    k: int,
    v: int,
    layer: usize,
    at: int,
)
    requires
        plans_units(plan, layers, opened, answers, n),
        0 <= i < n,
        0 <= k < answers[i]@.len(),
        puts_byte(layers, opened, answers[i]@[k], v, layer as int, at),
        at / 262144 <= u32::MAX,
    ensures
        exists|b: int|
            0 <= b < plan.blocks@.len() && (#[trigger] block_at(plan, b)).layer == layer
                && block_at(plan, b).block == at / 262144,
{
    let block = (at / 262144) as u32;
    let l = layer as int;
    lemma_puts_byte(layers, opened, answers[i]@[k], v, l, at);
    assert(answer_maps_into(layers, opened, answers[i]@, l, block as int));
    assert(units_map_into(layers, opened, answers, n, l, block as int));
    assert(units_touch(layers, opened, answers, n, l));
    let need = Need { layer, block, metadata: describes_layer(layers, opened, l, block as int) };
    assert(units_need(layers, opened, answers, n, need));
    let b = choose|b: int| 0 <= b < plan.blocks@.len() && #[trigger] block_at(plan, b) == need;
    assert(block_at(plan, b).layer == layer);
}

/// Whether the log of a page tells where the blocks that its answer maps into
/// stand in the plan: for each of them the object, the block and the place, and
/// nothing else.
#[verifier::opaque]
pub open spec fn tells_places(
    plan: PackPlan,
    layers: Seq<FinalLayerSource>,
    opened: Seq<OpenedLayer>,
    answer: Seq<SegmentMapping>,
    found: Seq<(u16, u32, usize)>,
) -> bool {
    &&& forall|i: int|
        #![trigger found[i]]
        0 <= i < found.len() ==> {
            let place = found[i].2 as int;
            &&& place < plan.blocks@.len()
            &&& plan.blocks@[place].object == found[i].0
            &&& plan.blocks@[place].block_id == found[i].1
            &&& answer_maps_into(
                layers,
                opened,
                answer,
                block_at(plan, place).layer as int,
                block_at(plan, place).block as int,
            )
        }
    &&& forall|layer: usize, block: u32| #[trigger]
        answer_maps_into(layers, opened, answer, layer as int, block as int) ==> exists|i: int|
            #![trigger found[i]]
            0 <= i < found.len() && block_at(plan, found[i].2 as int).layer == layer && block_at(
                plan,
                found[i].2 as int,
            ).block == block
}

/// Whether a plan is what the first pages need, by the answers of the index, and
/// keeps the budget.
pub open spec fn plans_pages<F: Fn(Segment) -> Vec<SegmentMapping>>(
    plan: PackPlan,
    pages: Seq<u32>,
    mem_virtual_size: u64,
    layers: Seq<FinalLayerSource>,
    opened: Seq<OpenedLayer>,
    budget: u64,
    lookup: F,
    answers: Seq<Vec<SegmentMapping>>,
) -> bool {
    let n = pages.len() - plan.stats.pages_truncated_by_budget;
    &&& 0 <= n <= pages.len()
    &&& plan.stats.pages_total == pages.len()
    &&& forall|i: int|
        0 <= i < n ==> page_asked(lookup, pages[i], mem_virtual_size, #[trigger] answers[i])
    &&& plans_units(plan, layers, opened, answers, n)
    &&& units_add_in_order(plan, layers, opened, answers, n)
    &&& counts_blocks(plan)
    &&& plan.stats.pages_backed == pages_with_data(answers, n).len()
    &&& plan.stats.pages_backed + plan.stats.pages_zero_hole == n
    &&& plan.blocks@.len() > 0 ==> plan_cost(plan, layers) <= budget
    &&& n < pages.len() ==> {
        &&& page_asked(lookup, pages[n], mem_virtual_size, answers[n])
        &&& costs_more(layers, opened, answers, n + 1, budget as int)
    }
}

/// Whether a log has one observation more for each page before the cut, in
/// order: the page, and where the blocks that it depends on stand in the plan.
pub open spec fn observes_pages(
    plan: PackPlan,
    pages: Seq<u32>,
    layers: Seq<FinalLayerSource>,
    opened: Seq<OpenedLayer>,
    answers: Seq<Vec<SegmentMapping>>,
    before: Seq<PageObservation>,
    after: Seq<PageObservation>,
) -> bool {
    let n = pages.len() - plan.stats.pages_truncated_by_budget;
    &&& before.is_prefix_of(after)
    &&& after.len() == before.len() + n
    &&& forall|i: int|
        0 <= i < n ==> {
            let observation = #[trigger] after[before.len() + i];
            &&& observation.page == pages[i]
            &&& tells_places(plan, layers, opened, answers[i]@, observation.blocks@)
        }
}

/// Planning with an observer plans what the pages need as planning without one
/// does, and observes each page before the cut.
pub proof fn law_observed_page_plan<F: Fn(Segment) -> Vec<SegmentMapping>>(
    pages: &[u32],
    mem_virtual_size: u64,
    layers: &[FinalLayerSource],
    opened: &[OpenedLayer],
    budget: u64,
    lookup: F,
    log: &mut Vec<PageObservation>,
    plan: PackPlan,
)
    requires
        (Stack { layers: layers@, opened: opened@ }).plannable(lookup, mem_virtual_size),
        call_ensures(
            plan_blocks_with_observer::<F>,
            (pages, mem_virtual_size, layers, opened, budget, lookup, log),
            Ok::<PackPlan, PlanError>(plan),
        ),
    ensures
        exists|answers: Seq<Vec<SegmentMapping>>| #[trigger]
            plans_pages(
                plan,
                pages@,
                mem_virtual_size,
                layers@,
                opened@,
                budget,
                lookup,
                answers,
            ) && observes_pages(
                plan,
                pages@,
                layers@,
                opened@,
                answers,
                old(log)@,
                final(log)@,
            ),
{
    let stack = Stack { layers: layers@, opened: opened@ };
    let res = Ok::<PackPlan, PlanError>(plan);
    stack.lemma_layers_fine(lookup, mem_virtual_size);
    let answers = choose|answers: Seq<Vec<SegmentMapping>>| #[trigger]
        pages_planned(
            res,
            old(log)@,
            final(log)@,
            stack,
            lookup,
            pages@,
            mem_virtual_size,
            answers,
            budget as int,
        );
    stack.lemma_plans_pages(lookup, pages@, mem_virtual_size, answers, budget, plan);
    stack.lemma_observes_pages(
        lookup,
        pages@,
        mem_virtual_size,
        answers,
        budget as int,
        plan,
        old(log)@,
        final(log)@,
    );
}

impl Stack {
    /// What planning pages keeps of its object table and of the budget.
    proof fn lemma_page_budget<F: Fn(Segment) -> Vec<SegmentMapping>>(
        self,
        lookup: F,
        pages: Seq<u32>,
        mem: u64,
        answers: Seq<Vec<SegmentMapping>>,
        budget: int,
    )
        requires
            self.wf(),
            self.lookup_ok(lookup, mem),
            self.page_answers(lookup, pages, mem, answers, budget, pages.len() as int),
        ensures
            ({
                let q = self.after_pages(pages, mem, answers, budget);
                &&& q.objects.no_duplicates()
                &&& q.blocks.len() > 0 ==> self.file_bytes(q) <= budget
            }),
    {
        let total = pages.len() as int;
        let q = self.after_pages(pages, mem, answers, budget);
        self.lemma_pages_well_planned(lookup, pages, mem, answers, budget, total);
        assert(pages.take(total) =~= pages);
        self.lemma_spends(q, budget);
    }

    /// What is planned stays within the budget.
    proof fn lemma_spends(self, q: Progress, budget: int)
        requires
            self.well_planned(q, budget),
        ensures
            q.blocks.len() > 0 ==> self.file_bytes(q) <= budget,
    {
        self.lemma_cost(q.objects, q.blocks.len() as int);
        self.lemma_entries_not_negative(q.objects);
        assert(self.file_bytes(q) == self.artifact_bytes(q.objects, q.blocks.len() as int));
    }

    /// There is one observation for each page before the cut.
    proof fn lemma_observed_len(
        self,
        pages: Seq<u32>,
        mem: u64,
        answers: Seq<Vec<SegmentMapping>>,
        budget: int,
        n: int,
    )
        requires
            self.after_pages(pages, mem, answers, budget).failed is None,
            n == pages.len() - self.after_pages(pages, mem, answers, budget).cut,
        ensures
            ({
                let q = self.after_pages(pages, mem, answers, budget);
                &&& 0 <= n <= pages.len()
                &&& q.backed + q.holes == n
                &&& self.after_pages(pages.take(n), mem, answers, budget).failed is None
                &&& !self.after_pages(pages.take(n), mem, answers, budget).truncated
            }),
    {
        self.law_cut_plan_is_that_of_the_pages_before(pages, mem, answers, budget, budget);
        self.law_pages_count(pages.take(n), mem, answers, budget);
    }

    /// The observation of a page.
    proof fn lemma_observed_page<F: Fn(Segment) -> Vec<SegmentMapping>>(
        self,
        lookup: F,
        pages: Seq<u32>,
        mem: u64,
        answers: Seq<Vec<SegmentMapping>>,
        budget: int,
        plan: PackPlan,
        new: Seq<PageObservation>,
        n: int,
        i: int,
    )
        requires
            self.wf(),
            self.lookup_ok(lookup, mem),
            self.page_answers(lookup, pages, mem, answers, budget, pages.len() as int),
            0 <= i < n <= pages.len(),
            self.after_pages(pages.take(n), mem, answers, budget).failed is None,
            !self.after_pages(pages.take(n), mem, answers, budget).truncated,
            self.after_pages(pages, mem, answers, budget).objects.no_duplicates(),
            plan_of(
                plan,
                self,
                self.after_pages(pages, mem, answers, budget),
                pages.len() as int,
            ),
            new.len() == n,
            observed(new, self, pages, answers, self.after_pages(pages, mem, answers, budget)),
        ensures
            new[i].page == pages[i],
            tells_places(plan, self.layers, self.opened, answers[i]@, new[i].blocks@),
    {
        let p = self.after_pages(pages, mem, answers, budget);
        self.lemma_pages_asked(lookup, pages, mem, answers, budget, n, i);
        assert(new[i].page == pages[i]);
        self.lemma_tells_places(plan, p, pages.len() as int, answers[i]@, new[i].blocks@);
    }

    proof fn lemma_observes_pages<F: Fn(Segment) -> Vec<SegmentMapping>>(
        self,
        lookup: F,
        pages: Seq<u32>,
        mem: u64,
        answers: Seq<Vec<SegmentMapping>>,
        budget: int,
        plan: PackPlan,
        before: Seq<PageObservation>,
        after: Seq<PageObservation>,
    )
        requires
            self.wf(),
            self.lookup_ok(lookup, mem),
            pages_planned(
                Ok::<PackPlan, PlanError>(plan),
                before,
                after,
                self,
                lookup,
                pages,
                mem,
                answers,
                budget,
            ),
        ensures
            observes_pages(plan, pages, self.layers, self.opened, answers, before, after),
    {
        let n = pages.len() - plan.stats.pages_truncated_by_budget;
        let new = after.skip(before.len() as int);
        assert(observed(
            new,
            self,
            pages,
            answers,
            self.after_pages(pages, mem, answers, budget),
        ));
        self.lemma_observed_len(pages, mem, answers, budget, n);
        self.lemma_page_budget(lookup, pages, mem, answers, budget);
        assert(new.len() == n);
        assert forall|i: int| 0 <= i < n implies {
            let observation = #[trigger] after[before.len() + i];
            &&& observation.page == pages[i]
            &&& tells_places(
                plan,
                self.layers,
                self.opened,
                answers[i]@,
                observation.blocks@,
            )
        } by {
            self.lemma_observed_page(lookup, pages, mem, answers, budget, plan, new, n, i);
            assert(after[before.len() + i] == new[i]);
        }
    }

    pub proof fn lemma_plans_pages<F: Fn(Segment) -> Vec<SegmentMapping>>(
        self,
        lookup: F,
        pages: Seq<u32>,
        mem: u64,
        answers: Seq<Vec<SegmentMapping>>,
        budget: u64,
        plan: PackPlan,
    )
        requires
            self.wf(),
            self.lookup_ok(lookup, mem),
            blocks_planned(
                Ok::<PackPlan, PlanError>(plan),
                self,
                lookup,
                pages,
                mem,
                answers,
                budget as int,
            ),
        ensures
            plans_pages(
                plan,
                pages,
                mem,
                self.layers,
                self.opened,
                budget,
                lookup,
                answers,
            ),
    {
        let n = pages.len() - plan.stats.pages_truncated_by_budget;
        self.lemma_pages_by_bytes(lookup, pages, mem, answers, budget as int, plan);
        self.lemma_page_accounts(lookup, pages, mem, answers, budget as int, plan);
        assert forall|i: int| 0 <= i < n implies page_asked(
            lookup,
            pages[i],
            mem,
            #[trigger] answers[i],
        ) by {
            self.lemma_pages_asked(lookup, pages, mem, answers, budget as int, n, i);
        }
    }
}

impl Stack {
    proof fn lemma_tells_places(
        self,
        plan: PackPlan,
        p: Progress,
        total: int,
        answer: Seq<SegmentMapping>,
        found: Seq<(u16, u32, usize)>,
    )
        requires
            self.wf(),
            self.answer_ok(answer),
            self.resolve(answer) is Ok,
            plan_of(plan, self, p, total),
            p.objects.no_duplicates(),
            resolution_of(found, self.resolve(answer)->Ok_0, p.objects, p.blocks),
        ensures
            tells_places(plan, self.layers, self.opened, answer, found),
    {
        reveal(tells_places);
        let deps = self.resolve(answer)->Ok_0;
        assert(p.blocks.len() == plan.blocks@.len());
        assert forall|i: int| 0 <= i < found.len() implies {
            let place = (#[trigger] found[i]).2 as int;
            &&& place < plan.blocks@.len()
            &&& plan.blocks@[place].object == found[i].0
            &&& plan.blocks@[place].block_id == found[i].1
            &&& block_at(plan, place).layer == deps[i].0
            &&& block_at(plan, place).block == deps[i].1
        } by {
            let place = found[i].2 as int;
            assert(p.blocks[place] == need_of(plan.objects@, plan.blocks@[place]));
            let o = plan.blocks@[place].object as int;
            assert(p.objects[o] == plan.objects@[o].layer);
            assert(p.objects[found[i].0 as int] == deps[i].0);
        }
        assert forall|i: int| #![trigger found[i]] 0 <= i < found.len() implies answer_maps_into(
            self.layers,
            self.opened,
            answer,
            block_at(plan, found[i].2 as int).layer as int,
            block_at(plan, found[i].2 as int).block as int,
        ) by {
            assert(deps.contains(deps[i]));
            self.lemma_resolved_by_bytes(answer, deps[i].0, deps[i].1);
        }
        assert forall|layer: usize, block: u32| #[trigger]
            answer_maps_into(self.layers, self.opened, answer, layer as int, block as int) implies
            exists|i: int|
            #![trigger found[i]]
            0 <= i < found.len() && block_at(plan, found[i].2 as int).layer == layer && block_at(
                plan,
                found[i].2 as int,
            ).block == block by {
            self.lemma_resolved_by_bytes(answer, layer, block);
            let i = choose|i: int| 0 <= i < deps.len() && deps[i] == (layer, block);
            assert(block_at(plan, found[i].2 as int).layer == layer);
        }
    }
}

/// Whether these lookups ask for the sectors of a span, all of them, each once
/// and in order: in one lookup, unless 32 bits cannot count them; then each but
/// the last asks for as many whole pages as 32 bits can count the sectors of.
pub open spec fn asks_for(range: (u64, u64), segments: Seq<Segment>) -> bool {
    &&& segments.len() > 0
    &&& segments[0].offset * 512 == range.0
    &&& (segments.last().offset + segments.last().length) * 512 == range.0 + range.1
    &&& forall|j: int|
        #![trigger segments[j]]
        0 <= j < segments.len() ==> segments[j].length > 0 && (j + 1 < segments.len()
            ==> segments[j + 1].offset == segments[j].offset + segments[j].length
            && segments[j].length == 0xFFFF_FFF8)
}

/// Whether these are the answers to some lookups.
pub open spec fn all_answered<F: Fn(Segment) -> Vec<SegmentMapping>>(
    lookup: F,
    segments: Seq<Segment>,
    parts: Seq<Vec<SegmentMapping>>,
) -> bool {
    &&& parts.len() == segments.len()
    &&& forall|j: int|
        0 <= j < parts.len() ==> call_ensures(lookup, (segments[j],), #[trigger] parts[j])
}

/// Whether a span of the image was looked up, and these are the answers for
/// its sectors, one lookup after the other.
pub open spec fn span_asked<F: Fn(Segment) -> Vec<SegmentMapping>>(
    lookup: F,
    range: (u64, u64),
    mem_virtual_size: u64,
    answer: Seq<SegmentMapping>,
) -> bool {
    &&& range.1 > 0
    &&& range.0 % 4096 == 0
    &&& range.1 % 4096 == 0
    &&& range.0 + range.1 <= mem_virtual_size
    &&& exists|segments: Seq<Segment>, parts: Seq<Vec<SegmentMapping>>|
        asks_for(range, segments) && #[trigger] all_answered(lookup, segments, parts) && answer
            == parts.map_values(|part: Vec<SegmentMapping>| part@).flatten()
}

/// Answers, one after the other.
proof fn lemma_flat(parts: Seq<Vec<SegmentMapping>>)
    ensures
        flat(parts) == parts.map_values(|part: Vec<SegmentMapping>| part@).flatten(),
    decreases parts.len(),
{
    let all = parts.map_values(|part: Vec<SegmentMapping>| part@);
    all.lemma_flatten_and_flatten_alt_are_equivalent();
    if parts.len() > 0 {
        lemma_flat(parts.drop_last());
        let init = parts.drop_last().map_values(|part: Vec<SegmentMapping>| part@);
        init.lemma_flatten_and_flatten_alt_are_equivalent();
        assert(all.drop_last() =~= init);
        assert(all.last() == parts.last()@);
    }
}

/// One of the lookups of a span, in numbers.
proof fn lemma_one_of_lookups(range: (u64, u64), mem_virtual_size: u64, j: int)
    requires
        range_in_image(range, mem_virtual_size),
        0 <= j < lookups(range).len(),
    ensures
        ({
            let (first, sectors) = (range.0 as int / 512, range.1 as int / 512);
            let segment = lookups(range)[j];
            &&& segment.offset == first + 0xFFFF_FFF8 * j
            &&& segment.length > 0
            &&& j + 1 < lookups(range).len() ==> segment.length == 0xFFFF_FFF8
            &&& j + 1 == lookups(range).len() ==> segment.length == sectors - 0xFFFF_FFF8 * j
        }),
{
    let sectors = range.1 as int / 512;
    lemma_lookup(range, mem_virtual_size, j);
    let n = lookups(range).len() as int;
    assert(n == (sectors + 0xFFFF_FFF8 - 1) / 0xFFFF_FFF8);
    if j + 1 < n {
        assert(0xFFFF_FFF8 * (j + 1) <= 0xFFFF_FFF8 * (n - 1));
    }
}

/// The lookups of a span ask for its sectors.
proof fn lemma_asks_for(range: (u64, u64), mem_virtual_size: u64)
    requires
        range_in_image(range, mem_virtual_size),
    ensures
        asks_for(range, lookups(range)),
{
    let segments = lookups(range);
    let n = segments.len() as int;
    assert(n > 0) by {
        assert(n == (range.1 as int / 512 + 0xFFFF_FFF8 - 1) / 0xFFFF_FFF8);
    }
    lemma_one_of_lookups(range, mem_virtual_size, 0);
    lemma_one_of_lookups(range, mem_virtual_size, n - 1);
    assert(segments.last() == segments[n - 1]);
    assert forall|j: int| #![trigger segments[j]] 0 <= j < n implies segments[j].length > 0 && (j
        + 1 < n ==> segments[j + 1].offset == segments[j].offset + segments[j].length
        && segments[j].length == 0xFFFF_FFF8) by {
        lemma_one_of_lookups(range, mem_virtual_size, j);
        if j + 1 < n {
            lemma_one_of_lookups(range, mem_virtual_size, j + 1);
        }
    }
}

impl Stack {
    /// A span plan that is neither cut nor failed was neither before.
    proof fn lemma_spans_fine_before(
        self,
        ranges: Seq<(u64, u64)>,
        mem: u64,
        answers: Seq<Vec<SegmentMapping>>,
        budget: int,
        k: int,
    )
        requires
            0 <= k <= ranges.len(),
            self.after_ranges(ranges, mem, answers, budget).failed is None,
            !self.after_ranges(ranges, mem, answers, budget).truncated,
        ensures
            self.after_ranges(ranges.take(k), mem, answers, budget).failed is None,
            !self.after_ranges(ranges.take(k), mem, answers, budget).truncated,
        decreases ranges.len(),
    {
        if k == ranges.len() {
            assert(ranges.take(k) =~= ranges);
        } else {
            let init = ranges.drop_last();
            let p = self.after_ranges(init, mem, answers, budget);
            assert(p.failed is None && !p.truncated);
            assert(init.take(k) =~= ranges.take(k));
            self.lemma_spans_fine_before(init, mem, answers, budget, k);
        }
    }

    /// The spans before the cut were looked up.
    pub proof fn lemma_spans_asked<F: Fn(Segment) -> Vec<SegmentMapping>>(
        self,
        lookup: F,
        ranges: Seq<(u64, u64)>,
        mem: u64,
        answers: Seq<Vec<SegmentMapping>>,
        budget: int,
        n: int,
        i: int,
    )
        requires
            self.lookup_ok(lookup, mem),
            self.range_answers(lookup, ranges, mem, answers, budget, ranges.len() as int),
            0 <= i < n <= ranges.len(),
            self.after_ranges(ranges.take(n), mem, answers, budget).failed is None,
            !self.after_ranges(ranges.take(n), mem, answers, budget).truncated,
        ensures
            span_asked(lookup, ranges[i], mem, answers[i]@),
            self.answer_ok(answers[i]@),
            self.resolve(answers[i]@) is Ok,
    {
        let front = ranges.take(n);
        self.lemma_ranges_taken(front, mem, answers, budget, i);
        self.lemma_spans_fine_before(front, mem, answers, budget, i);
        assert(front.take(i) =~= ranges.take(i));
        assert(self.looks_up_range(ranges, mem, answers, budget, i));
        self.lemma_span_answer_ok(lookup, ranges[i], mem, answers[i]@);
        lemma_span_asked(lookup, ranges[i], mem, answers[i]@);
    }

    /// The answers for the spans before the cut can be resolved.
    pub proof fn lemma_spans_ok<F: Fn(Segment) -> Vec<SegmentMapping>>(
        self,
        lookup: F,
        ranges: Seq<(u64, u64)>,
        mem: u64,
        answers: Seq<Vec<SegmentMapping>>,
        budget: int,
        n: int,
        i: int,
    )
        requires
            self.lookup_ok(lookup, mem),
            self.range_answers(lookup, ranges, mem, answers, budget, ranges.len() as int),
            0 <= i < n <= ranges.len(),
            self.after_ranges(ranges.take(n), mem, answers, budget).failed is None,
            !self.after_ranges(ranges.take(n), mem, answers, budget).truncated,
        ensures
            self.answer_ok(answers[i]@),
            self.resolve(answers[i]@) is Ok,
    {
        self.lemma_spans_asked(lookup, ranges, mem, answers, budget, n, i);
    }

    /// A span before the cut adds its blocks in order.
    proof fn lemma_span_adds<F: Fn(Segment) -> Vec<SegmentMapping>>(
        self,
        lookup: F,
        ranges: Seq<(u64, u64)>,
        mem: u64,
        answers: Seq<Vec<SegmentMapping>>,
        budget: int,
        plan: PackPlan,
        n: int,
        j: int,
    )
        requires
            self.wf(),
            self.lookup_ok(lookup, mem),
            self.range_answers(lookup, ranges, mem, answers, budget, ranges.len() as int),
            0 <= j < n <= ranges.len(),
            self.after_ranges(ranges.take(n), mem, answers, budget).failed is None,
            !self.after_ranges(ranges.take(n), mem, answers, budget).truncated,
            plan_of(
                plan,
                self,
                self.after_ranges(ranges, mem, answers, budget),
                total_pages(ranges),
            ),
        ensures
            unit_adds_in_order(plan, self.layers, self.opened, answers, j),
    {
        let q = self.after_ranges(ranges, mem, answers, budget);
        let total = total_pages(ranges);
        assert forall|i: int| #![trigger answers[i]] 0 <= i < n implies self.answer_ok(answers[i]@)
            && self.resolve(answers[i]@) is Ok by {
            self.lemma_spans_ok(lookup, ranges, mem, answers, budget, n, i);
        }
        let before = self.after_ranges(ranges.take(j), mem, answers, budget);
        let after = self.after_ranges(ranges.take(j + 1), mem, answers, budget);
        assert(ranges.take(j + 1).drop_last() =~= ranges.take(j));
        assert(ranges.take(n).take(j) =~= ranges.take(j));
        assert(ranges.take(n).take(j + 1) =~= ranges.take(j + 1));
        self.lemma_spans_fine_before(ranges.take(n), mem, answers, budget, j);
        self.lemma_spans_fine_before(ranges.take(n), mem, answers, budget, j + 1);
        self.law_ranges_select_exactly(ranges.take(j), mem, answers, budget);
        self.law_ranges_select_exactly(ranges.take(j + 1), mem, answers, budget);
        self.law_ranges_in_first_need_order(ranges, mem, answers, budget, j);
        self.law_ranges_in_first_need_order(ranges, mem, answers, budget, j + 1);
        self.lemma_leads_with(plan, before, q, total, answers, j);
        self.lemma_leads_with(plan, after, q, total, answers, j + 1);
        self.lemma_spans_ok(lookup, ranges, mem, answers, budget, n, j);
        self.lemma_unit_adds(
            plan,
            before,
            after,
            q,
            total,
            answers,
            j,
            span_weight(ranges[j], answers[j]@),
            budget,
        );
    }

    pub proof fn lemma_spans_by_bytes<F: Fn(Segment) -> Vec<SegmentMapping>>(
        self,
        lookup: F,
        ranges: Seq<(u64, u64)>,
        mem: u64,
        answers: Seq<Vec<SegmentMapping>>,
        budget: int,
        plan: PackPlan,
    ) -> (n: int)
        requires
            self.wf(),
            self.lookup_ok(lookup, mem),
            ranges_planned(
                Ok::<PackPlan, PlanError>(plan),
                self,
                lookup,
                ranges,
                mem,
                answers,
                budget,
            ),
        ensures
            ({
                let p = self.after_ranges(ranges.take(n), mem, answers, budget);
                let q = self.after_ranges(ranges, mem, answers, budget);
                &&& 0 <= n <= ranges.len()
                &&& total_pages(ranges) - total_pages(ranges.take(n))
                    == plan.stats.pages_truncated_by_budget
                &&& plans_units(plan, self.layers, self.opened, answers, n)
                &&& units_add_in_order(plan, self.layers, self.opened, answers, n)
                &&& p.failed is None
                &&& !p.truncated
                &&& p.blocks == q.blocks
                &&& p.objects == q.objects
                &&& p.backed == q.backed
                &&& p.holes == q.holes
                &&& n < ranges.len() <==> q.truncated
                &&& n < ranges.len() ==> self.exceeds(p, answers[n]@, budget)
            }),
    {
        let q = self.after_ranges(ranges, mem, answers, budget);
        let total = total_pages(ranges);
        let n = if q.truncated {
            self.law_first_cut_span_exceeds_budget(ranges, mem, answers, budget)
        } else {
            assert(ranges.take(ranges.len() as int) =~= ranges);
            self.lemma_no_span_cut(ranges, mem, answers, budget);
            ranges.len() as int
        };
        let p = self.after_ranges(ranges.take(n), mem, answers, budget);
        assert(p.failed is None && !p.truncated);
        assert forall|i: int| #![trigger answers[i]] 0 <= i < n implies self.answer_ok(answers[i]@)
            && self.resolve(answers[i]@) is Ok by {
            self.lemma_spans_ok(lookup, ranges, mem, answers, budget, n, i);
        }
        assert forall|j: int| #![trigger units_before(j, n)] units_before(j, n) implies exists|
            len: int,
        | #[trigger] leads_with(plan, len, self.layers, self.opened, answers, j) by {
            let part = self.after_ranges(ranges.take(j), mem, answers, budget);
            assert(ranges.take(n).take(j) =~= ranges.take(j));
            self.lemma_spans_fine_before(ranges.take(n), mem, answers, budget, j);
            self.law_ranges_select_exactly(ranges.take(j), mem, answers, budget);
            self.law_ranges_in_first_need_order(ranges, mem, answers, budget, j);
            self.lemma_leads_with(plan, part, q, total, answers, j);
            assert(leads_with(
                plan,
                part.blocks.len() as int,
                self.layers,
                self.opened,
                answers,
                j,
            ));
        }
        self.law_ranges_select_exactly(ranges.take(n), mem, answers, budget);
        self.lemma_span_objects(ranges.take(n), mem, answers, budget);
        self.lemma_plan_objects(plan, p, q, total, answers, n);
        assert forall|j: int| 0 <= j < n implies #[trigger] unit_adds_in_order(
            plan,
            self.layers,
            self.opened,
            answers,
            j,
        ) by {
            self.lemma_span_adds(lookup, ranges, mem, answers, budget, plan, n, j);
        }
        n
    }
}

/// What answers a span's lookups answers for its sectors.
pub proof fn lemma_span_asked<F: Fn(Segment) -> Vec<SegmentMapping>>(
    lookup: F,
    range: (u64, u64),
    mem_virtual_size: u64,
    answer: Seq<SegmentMapping>,
)
    requires
        range_in_image(range, mem_virtual_size),
        span_answered(lookup, range, answer),
    ensures
        span_asked(lookup, range, mem_virtual_size, answer),
{
    let parts = choose|parts: Seq<Vec<SegmentMapping>>| #[trigger]
        parts_answered(lookup, range, parts) && answer == flat(parts);
    lemma_asks_for(range, mem_virtual_size);
    lemma_flat(parts);
    assert(all_answered(lookup, lookups(range), parts));
}

/// A span is looked up by asking for its sectors, all of them, each once and in
/// order, and answered by the answers one after the other.
pub proof fn law_looked_up_span<F: Fn(Segment) -> Vec<SegmentMapping>>(
    lookup: &F,
    range: (u64, u64),
    answer: Vec<SegmentMapping>,
)
    requires
        range.0 % 4096 == 0,
        range.1 % 4096 == 0,
        0 < range.1,
        range.0 + range.1 <= u64::MAX,
        call_ensures(look_up_span::<F>, (lookup, range), answer),
    ensures
        span_asked(*lookup, range, u64::MAX, answer@),
{
    lemma_span_asked(*lookup, range, u64::MAX, answer@);
}

/// A plan of spans selects, for the spans before the cut, exactly the blocks
/// that hold a stored byte of what the index maps for their sectors, and those
/// that hold the header and the index of the layers that these lie in, in the
/// order in which the spans need them. The artifact stays within the budget;
/// with the span at the cut it would not. The counters count the pages with
/// and without data, the blocks and the gaps between them. The proof finds how
/// many spans stand before the cut and what the index answered for each.
pub proof fn law_span_plan_by_bytes<F: Fn(Segment) -> Vec<SegmentMapping>>(
    ranges: &[(u64, u64)],
    mem_virtual_size: u64,
    layers: &[FinalLayerSource],
    opened: &[OpenedLayer],
    budget: u64,
    lookup: F,
    plan: PackPlan,
) -> (found: (int, Seq<Vec<SegmentMapping>>))
    requires
        (Stack { layers: layers@, opened: opened@ }).plannable(lookup, mem_virtual_size),
        call_ensures(
            plan_ranges::<F>,
            (ranges, mem_virtual_size, layers, opened, budget, lookup),
            Ok::<PackPlan, PlanError>(plan),
        ),
    ensures
        ({
            let (n, answers) = found;
            &&& 0 <= n <= ranges@.len()
            &&& plan.stats.pages_total == total_pages(ranges@)
            &&& plan.stats.pages_truncated_by_budget == total_pages(ranges@.skip(n))
            &&& forall|i: int|
                0 <= i < n ==> span_asked(
                    lookup,
                    ranges@[i],
                    mem_virtual_size,
                    (#[trigger] answers[i])@,
                )
            &&& plans_units(plan, layers@, opened@, answers, n)
            &&& units_add_in_order(plan, layers@, opened@, answers, n)
            &&& counts_blocks(plan)
            &&& plan.stats.pages_backed == span_pages_with_data(ranges@, answers, n).len()
            &&& plan.stats.pages_backed + plan.stats.pages_zero_hole == total_pages(
                ranges@.take(n),
            )
            &&& plan.blocks@.len() > 0 ==> plan_cost(plan, layers@) <= budget
            &&& n < ranges@.len() ==> {
                &&& span_asked(lookup, ranges@[n], mem_virtual_size, answers[n]@)
                &&& costs_more(layers@, opened@, answers, n + 1, budget as int)
            }
        }),
{
    let stack = Stack { layers: layers@, opened: opened@ };
    let res = Ok::<PackPlan, PlanError>(plan);
    stack.lemma_layers_fine(lookup, mem_virtual_size);
    let answers = choose|answers: Seq<Vec<SegmentMapping>>| #[trigger]
        ranges_planned(
            res,
            stack,
            lookup,
            ranges@,
            mem_virtual_size,
            answers,
            budget as int,
        );
    let n = stack.lemma_spans_by_bytes(
        lookup,
        ranges@,
        mem_virtual_size,
        answers,
        budget as int,
        plan,
    );
    lemma_total_split(ranges@, n);
    assert forall|i: int| 0 <= i < n implies span_asked(
        lookup,
        ranges@[i],
        mem_virtual_size,
        (#[trigger] answers[i])@,
    ) by {
        stack.lemma_spans_asked(
            lookup,
            ranges@,
            mem_virtual_size,
            answers,
            budget as int,
            n,
            i,
        );
    }
    stack.lemma_span_accounts(
        lookup,
        ranges@,
        mem_virtual_size,
        answers,
        budget as int,
        plan,
        n,
    );
    (n, answers)
}

/// The pages of spans, in two parts.
proof fn lemma_total_split(ranges: Seq<(u64, u64)>, n: int)
    requires
        0 <= n <= ranges.len(),
    ensures
        total_pages(ranges) == total_pages(ranges.take(n)) + total_pages(ranges.skip(n)),
    decreases ranges.len() - n,
{
    if n == ranges.len() {
        assert(ranges.take(n) =~= ranges);
    } else {
        let init = ranges.drop_last();
        lemma_total_split(init, n);
        assert(init.take(n) =~= ranges.take(n));
        assert(ranges.skip(n).drop_last() =~= init.skip(n));
        assert(ranges.skip(n).last() == ranges.last());
    }
}

} // verus!
