//! Plans depend on what the layers are and what the index answers, and on
//! nothing else.
use vstd::prelude::*;
use crate::extents::PlanError;
use crate::opened_layer::{
    ZFileTable, law_same_reads_open_alike, opened_alike, opened_from, tables_alike,
};
use crate::pack_plan::{
    PackPlan, PlannedObject, blocks_planned, need_of, needs_of, object_layers, plan_of,
    ranges_planned, result_of,
};
use crate::plan_lemmas::{lemma_extend_objects, lemma_layer_order};
use crate::plan_model::{
    FinalLayerSource, OpenedLayer, PLAN_PAGE_BYTES, Progress, ReadOnlyLayerMetadata, SECTOR_BYTES,
    Segment, SegmentMapping, Stack, Weight, backed, empty_layer, extend_blocks, extend_objects,
    flat, layer_order, layers_error, lookups, one_page, page_in_image, page_segment,
    parts_answered, segment_in_image, span_answered, span_weight, total_pages,
};

verus! {

/// Whether a lookup answers as this index does.
pub open spec fn answers_by<F: Fn(Segment) -> Vec<SegmentMapping>>(
    lookup: F,
    index: spec_fn(Segment) -> Seq<SegmentMapping>,
) -> bool {
    forall|segment: Segment, answer: Vec<SegmentMapping>| #[trigger]
        call_ensures(lookup, (segment,), answer) ==> answer@ == index(segment)
}

/// Answers that are the same one by one are the same together.
proof fn lemma_same_flat(x: Seq<Vec<SegmentMapping>>, y: Seq<Vec<SegmentMapping>>)
    requires
        x.len() == y.len(),
        forall|j: int| 0 <= j < x.len() ==> (#[trigger] x[j])@ == y[j]@,
    ensures
        flat(x) == flat(y),
    decreases x.len(),
{
    if x.len() > 0 {
        let (a, b) = (x.drop_last(), y.drop_last());
        assert forall|j: int| 0 <= j < a.len() implies (#[trigger] a[j])@ == b[j]@ by {
            assert(x[j]@ == y[j]@);
        }
        lemma_same_flat(a, b);
        assert(x[x.len() - 1]@ == y[x.len() - 1]@);
    }
}

/// The same index gives the same answer for a span.
pub proof fn lemma_same_span_answer<
    F: Fn(Segment) -> Vec<SegmentMapping>,
    G: Fn(Segment) -> Vec<SegmentMapping>,
>(
    f: F,
    g: G,
    index: spec_fn(Segment) -> Seq<SegmentMapping>,
    range: (u64, u64),
    a: Seq<SegmentMapping>,
    b: Seq<SegmentMapping>,
)
    requires
        answers_by(f, index),
        answers_by(g, index),
        span_answered(f, range, a),
        span_answered(g, range, b),
    ensures
        a == b,
{
    let x = choose|x: Seq<Vec<SegmentMapping>>| #[trigger]
        parts_answered(f, range, x) && a == flat(x);
    let y = choose|y: Seq<Vec<SegmentMapping>>| #[trigger]
        parts_answered(g, range, y) && b == flat(y);
    assert forall|j: int| 0 <= j < x.len() implies (#[trigger] x[j])@ == y[j]@ by {
        assert(call_ensures(f, (lookups(range)[j],), x[j]));
        assert(call_ensures(g, (lookups(range)[j],), y[j]));
    }
    lemma_same_flat(x, y);
}

/// Whether two object tables have the same entries.
pub open spec fn same_objects(a: Seq<PlannedObject>, b: Seq<PlannedObject>) -> bool {
    &&& a.len() == b.len()
    &&& forall|i: int|
        #![trigger a[i]]
        #![trigger b[i]]
        0 <= i < a.len() ==> a[i].digest@ == b[i].digest@ && a[i].size == b[i].size && a[i].layer
            == b[i].layer
}

/// Whether two plans are the same.
pub open spec fn same_plan(a: PackPlan, b: PackPlan) -> bool {
    same_objects(a.objects@, b.objects@) && a.blocks@ == b.blocks@ && a.stats == b.stats
}

/// Whether two results are the same plan or the same error.
pub open spec fn same_result(
    a: Result<PackPlan, PlanError>,
    b: Result<PackPlan, PlanError>,
) -> bool {
    match (a, b) {
        (Ok(x), Ok(y)) => same_plan(x, y),
        (Err(x), Err(y)) => x == y,
        _ => false,
    }
}

/// Whether a result is one that planning these pages may have.
pub open spec fn pages_result<F: Fn(Segment) -> Vec<SegmentMapping>>(
    res: Result<PackPlan, PlanError>,
    stack: Stack,
    lookup: F,
    pages: Seq<u32>,
    mem_virtual_size: u64,
    budget: int,
) -> bool {
    match layers_error(stack.layers) {
        Some(e) => res == Err::<PackPlan, PlanError>(e),
        None => exists|answers: Seq<Vec<SegmentMapping>>| #[trigger]
            blocks_planned(res, stack, lookup, pages, mem_virtual_size, answers, budget),
    }
}

/// Whether a result is one that planning these spans may have.
pub open spec fn ranges_result<F: Fn(Segment) -> Vec<SegmentMapping>>(
    res: Result<PackPlan, PlanError>,
    stack: Stack,
    lookup: F,
    ranges: Seq<(u64, u64)>,
    mem_virtual_size: u64,
    budget: int,
) -> bool {
    match layers_error(stack.layers) {
        Some(e) => res == Err::<PackPlan, PlanError>(e),
        None => exists|answers: Seq<Vec<SegmentMapping>>| #[trigger]
            ranges_planned(res, stack, lookup, ranges, mem_virtual_size, answers, budget),
    }
}

impl Stack {
    /// Whether the layers of two stacks have the same identity and size, and
    /// the same is known of them.
    pub open spec fn alike(self, other: Stack) -> bool {
        &&& self.layers.len() == other.layers.len()
        &&& self.opened.len() == other.opened.len()
        &&& forall|i: int|
            #![trigger self.layers[i]]
            #![trigger other.layers[i]]
            0 <= i < self.layers.len() ==> self.layers[i].size == other.layers[i].size
                && self.layers[i].digest@ == other.layers[i].digest@
        &&& forall|i: int|
            #![trigger self.opened[i]]
            #![trigger other.opened[i]]
            0 <= i < self.opened.len() ==> opened_alike(self.opened[i], other.opened[i])
    }

    /// What planning against the stack asks of it and of the lookups.
    pub open spec fn plannable<F: Fn(Segment) -> Vec<SegmentMapping>>(
        self,
        lookup: F,
        mem_virtual_size: u64,
    ) -> bool {
        &&& self.opened.len() == self.layers.len()
        &&& self.addressable()
        &&& self.lookup_ok(lookup, mem_virtual_size)
    }

    /// Layers that can be planned against.
    pub proof fn lemma_layers_fine<F: Fn(Segment) -> Vec<SegmentMapping>>(
        self,
        lookup: F,
        mem_virtual_size: u64,
    )
        requires
            self.plannable(lookup, mem_virtual_size),
            layers_error(self.layers) is None,
        ensures
            self.wf(),
    {
        lemma_none_empty(self.layers, 0);
    }

    /// What the index answers for a page of the image can be resolved.
    pub proof fn lemma_page_answer_ok<F: Fn(Segment) -> Vec<SegmentMapping>>(
        self,
        lookup: F,
        mem_virtual_size: u64,
        page: u32,
        answer: Vec<SegmentMapping>,
    )
        requires
            self.lookup_ok(lookup, mem_virtual_size),
            page_in_image(page, mem_virtual_size),
            call_ensures(lookup, (page_segment(page),), answer),
        ensures
            self.answer_ok(answer@),
    {
        let segment = page_segment(page);
        assert((page + 1) * PLAN_PAGE_BYTES == 4096 * page + 4096);
        assert(segment_in_image(segment, mem_virtual_size)) by {
            assert((segment.offset + segment.length) * SECTOR_BYTES == 512 * (8 * page + 8));
        }
        assert(call_requires(lookup, (segment,)));
    }

    proof fn lemma_alike_resolve(self, other: Stack, mappings: Seq<SegmentMapping>)
        requires
            self.alike(other),
            self.wf(),
            self.answer_ok(mappings),
        ensures
            self.resolve(mappings) == other.resolve(mappings),
        decreases mappings.len(),
    {
        if mappings.len() > 0 {
            let init = mappings.drop_last();
            let m = mappings.last();
            assert forall|i: int| 0 <= i < init.len() implies self.mapping_ok(
                #[trigger] init[i],
            ) by {
                assert(init[i] == mappings[i]);
            }
            self.lemma_alike_resolve(other, init);
            assert(self.mapping_ok(mappings[mappings.len() - 1]));
            if m.physical {
                let l = self.layer_of(m);
                assert(other.layer_of(m) == l);
                assert(0 <= l < self.layers.len());
                assert(opened_alike(self.opened[l], other.opened[l]));
                assert(self.layers[l].size == other.layers[l].size);
                assert(self.mapping_blocks(m) == other.mapping_blocks(m));
                if self.mapping_blocks(m) is Ok {
                    let blocks = self.mapping_blocks(m)->Ok_0;
                    assert(blocks.map_values(|b: u32| (self.layer_of(m) as usize, b))
                        =~= blocks.map_values(|b: u32| (other.layer_of(m) as usize, b)));
                }
            }
        }
    }

    proof fn lemma_alike_needs(self, other: Stack, order: Seq<usize>, objects: Seq<usize>)
        requires
            self.alike(other),
            self.wf(),
            forall|i: int| 0 <= i < order.len() ==> #[trigger] order[i] < self.layers.len(),
        ensures
            self.metadata_needs(order, objects) == other.metadata_needs(order, objects),
        decreases order.len(),
    {
        if order.len() > 0 {
            let init = order.drop_last();
            assert forall|i: int| 0 <= i < init.len() implies #[trigger] init[i]
                < self.layers.len() by {
                assert(init[i] == order[i]);
            }
            self.lemma_alike_needs(other, init, objects);
            let l = order[order.len() - 1] as int;
            assert(opened_alike(self.opened[l], other.opened[l]));
            assert(self.layers[l].size == other.layers[l].size);
            assert(self.metadata_blocks(order.last()) == other.metadata_blocks(order.last()));
        }
    }

    proof fn lemma_alike_bytes(self, other: Stack, objects: Seq<usize>)
        requires
            self.alike(other),
            forall|i: int| 0 <= i < objects.len() ==> #[trigger] objects[i] < self.layers.len(),
        ensures
            self.object_bytes(objects) == other.object_bytes(objects),
        decreases objects.len(),
    {
        if objects.len() > 0 {
            let init = objects.drop_last();
            assert forall|i: int| 0 <= i < init.len() implies #[trigger] init[i]
                < self.layers.len() by {
                assert(init[i] == objects[i]);
            }
            self.lemma_alike_bytes(other, init);
            let l = objects[objects.len() - 1] as int;
            assert(self.layers[l].digest@ == other.layers[l].digest@);
        }
    }

    /// The needs of a unit are alike, and so is the size of an artifact with
    /// them.
    proof fn lemma_alike_stage(
        self,
        other: Stack,
        objects: Seq<usize>,
        deps: Seq<(usize, u32)>,
        n: int,
    )
        requires
            self.alike(other),
            self.wf(),
            self.deps_in_objects(deps),
            forall|i: int| 0 <= i < objects.len() ==> #[trigger] objects[i] < self.layers.len(),
        ensures
            self.unit_needs(objects, deps) == other.unit_needs(objects, deps),
            self.unit_needs(objects, deps) matches Ok(needs) ==> self.artifact_bytes(
                extend_objects(objects, needs),
                n,
            ) == other.artifact_bytes(extend_objects(objects, needs), n),
    {
        let order = layer_order(deps);
        lemma_layer_order(deps);
        assert forall|i: int| 0 <= i < order.len() implies #[trigger] order[i]
            < self.layers.len() by {
            assert(order.contains(order[i]));
            let k = choose|k: int| 0 <= k < deps.len() && (#[trigger] deps[k]).0 == order[i];
            assert(deps[k].0 < self.layers.len());
        }
        self.lemma_alike_needs(other, order, objects);
        if self.unit_needs(objects, deps) is Ok {
            let needs = self.unit_needs(objects, deps)->Ok_0;
            let all = extend_objects(objects, needs);
            self.lemma_unit_in_objects(objects, deps);
            lemma_extend_objects(objects, needs);
            assert forall|i: int| 0 <= i < all.len() implies #[trigger] all[i]
                < self.layers.len() by {
                assert(all.contains(all[i]));
                if objects.contains(all[i]) {
                    let k = choose|k: int| 0 <= k < objects.len() && objects[k] == all[i];
                    assert(objects[k] < self.layers.len());
                } else {
                    let k = choose|k: int|
                        0 <= k < needs.len() && (#[trigger] needs[k]).layer == all[i];
                    assert(needs[k].layer < self.layers.len());
                }
            }
            self.lemma_alike_bytes(other, all);
        }
    }

    /// A unit is taken alike.
    pub proof fn lemma_alike_unit(
        self,
        other: Stack,
        p: Progress,
        mappings: Seq<SegmentMapping>,
        weight: Weight,
        budget: int,
    )
        requires
            self.alike(other),
            self.wf(),
            self.well_planned(p, budget),
            self.answer_ok(mappings),
        ensures
            self.take_unit(p, mappings, weight, budget) == other.take_unit(
                p,
                mappings,
                weight,
                budget,
            ),
    {
        self.lemma_alike_resolve(other, mappings);
        self.lemma_resolved_in_objects(mappings);
        if self.resolve(mappings) is Ok && backed(mappings) {
            let deps = self.resolve(mappings)->Ok_0;
            let needs = self.unit_needs(p.objects, deps)->Ok_0;
            let n = extend_blocks(p.blocks, needs).len() as int;
            assert forall|i: int| 0 <= i < p.objects.len() implies #[trigger] p.objects[i]
                < self.layers.len() by {}
            self.lemma_alike_stage(other, p.objects, deps, n);
        }
    }
}

/// No layer from `i` on is empty.
proof fn lemma_none_empty(layers: Seq<FinalLayerSource>, i: int)
    requires
        0 <= i,
        empty_layer(layers, i) is None,
    ensures
        forall|k: int| i <= k < layers.len() ==> (#[trigger] layers[k]).size > 0,
    decreases layers.len() - i,
{
    if i < layers.len() {
        lemma_none_empty(layers, i + 1);
    }
}

/// Layers that are alike cannot be planned against for the same reason.
proof fn lemma_same_empty_layer(a: Seq<FinalLayerSource>, b: Seq<FinalLayerSource>, i: int)
    requires
        a.len() == b.len(),
        forall|k: int| 0 <= k < a.len() ==> (#[trigger] a[k]).size == b[k].size,
    ensures
        empty_layer(a, i) == empty_layer(b, i),
    decreases a.len() - i,
{
    if 0 <= i < a.len() {
        assert(a[i].size == b[i].size);
        lemma_same_empty_layer(a, b, i + 1);
    }
}

/// Plans of the same selection have the same object table and blocks.
pub proof fn lemma_same_selection(
    a: PackPlan,
    b: PackPlan,
    s: Stack,
    t: Stack,
    p: Progress,
    q: Progress,
    m: int,
    n: int,
)
    requires
        plan_of(a, s, p, m),
        plan_of(b, t, q, n),
        s.alike(t),
        p.objects == q.objects,
        p.blocks == q.blocks,
        p.objects.no_duplicates(),
    ensures
        same_objects(a.objects@, b.objects@),
        a.blocks@ == b.blocks@,
        a.stats.data_blocks == b.stats.data_blocks,
        a.stats.metadata_blocks == b.stats.metadata_blocks,
        a.stats.unique_blocks == b.stats.unique_blocks,
        a.stats.payload_bytes == b.stats.payload_bytes,
        a.stats.gap_runs == b.stats.gap_runs,
        a.stats.gap_blocks == b.stats.gap_blocks,
{
    let (x, y) = (a.objects@, b.objects@);
    assert(x.len() == object_layers(x).len());
    assert(y.len() == object_layers(y).len());
    assert forall|i: int| 0 <= i < x.len() implies (#[trigger] x[i]).digest@ == y[i].digest@
        && x[i].size == y[i].size && x[i].layer == y[i].layer by {
        assert(object_layers(x)[i] == x[i].layer);
        assert(object_layers(y)[i] == y[i].layer);
        let l = x[i].layer as int;
        assert(s.layers[l].digest@ == t.layers[l].digest@);
    }
    assert(same_objects(x, y));
    let (u, v) = (needs_of(x, a.blocks@), needs_of(y, b.blocks@));
    assert(a.blocks@.len() == u.len());
    assert(b.blocks@.len() == v.len());
    assert forall|i: int| 0 <= i < a.blocks@.len() implies a.blocks@[i] == b.blocks@[i] by {
        let (c, d) = (a.blocks@[i], b.blocks@[i]);
        assert(u[i] == need_of(x, c));
        assert(v[i] == need_of(y, d));
        assert(c.object < x.len() && d.object < y.len());
        assert(object_layers(x)[c.object as int] == x[c.object as int].layer);
        assert(object_layers(y)[d.object as int] == y[d.object as int].layer);
        assert(p.objects[c.object as int] == p.objects[d.object as int]);
        assert(c.object == d.object);
    }
    assert(a.blocks@ =~= b.blocks@);
    s.lemma_alike_gaps(t, p, q, s.layers.len() as int);
}

impl Stack {
    /// Gaps are alike.
    proof fn lemma_alike_gaps(self, other: Stack, p: Progress, q: Progress, n: int)
        requires
            self.alike(other),
            p.objects == q.objects,
            p.blocks == q.blocks,
            n <= self.layers.len(),
        ensures
            self.gap_runs(p, n) == other.gap_runs(q, n),
            self.gap_blocks(p, n) == other.gap_blocks(q, n),
        decreases n,
    {
        if n > 0 {
            self.lemma_alike_gaps(other, p, q, n - 1);
            assert(self.layers[n - 1].size == other.layers[n - 1].size);
        }
    }

    /// What holds of planning holds whatever the index answers.
    pub proof fn lemma_pages_well_planned<F: Fn(Segment) -> Vec<SegmentMapping>>(
        self,
        lookup: F,
        pages: Seq<u32>,
        mem: u64,
        answers: Seq<Vec<SegmentMapping>>,
        budget: int,
        n: int,
    )
        requires
            self.wf(),
            self.lookup_ok(lookup, mem),
            0 <= n <= pages.len(),
            self.page_answers(lookup, pages, mem, answers, budget, n),
        ensures
            self.well_planned(self.after_pages(pages.take(n), mem, answers, budget), budget),
        decreases n,
    {
        if n == 0 {
            self.lemma_start_well_planned(budget);
        } else {
            let k = n - 1;
            self.lemma_pages_well_planned(lookup, pages, mem, answers, budget, k);
            let p = self.after_pages(pages.take(k), mem, answers, budget);
            assert(pages.take(n).drop_last() =~= pages.take(k));
            assert(pages.take(n).last() == pages[k]);
            if self.looks_up_page(pages, mem, answers, budget, k) {
                assert(call_ensures(lookup, (page_segment(pages[k]),), answers[k]));
                self.lemma_page_answer_ok(lookup, mem, pages[k], answers[k]);
                self.lemma_take_unit_well_planned(p, answers[k]@, one_page(), budget);
            }
        }
    }

    /// The same pages lead to the same progress.
    pub proof fn lemma_alike_pages<
        F: Fn(Segment) -> Vec<SegmentMapping>,
        G: Fn(Segment) -> Vec<SegmentMapping>,
    >(
        self,
        other: Stack,
        f: F,
        g: G,
        index: spec_fn(Segment) -> Seq<SegmentMapping>,
        pages: Seq<u32>,
        mem: u64,
        a: Seq<Vec<SegmentMapping>>,
        b: Seq<Vec<SegmentMapping>>,
        budget: int,
        n: int,
    )
        requires
            self.alike(other),
            self.wf(),
            self.lookup_ok(f, mem),
            answers_by(f, index),
            answers_by(g, index),
            0 <= n <= pages.len(),
            self.page_answers(f, pages, mem, a, budget, n),
            other.page_answers(g, pages, mem, b, budget, n),
        ensures
            self.after_pages(pages.take(n), mem, a, budget) == other.after_pages(
                pages.take(n),
                mem,
                b,
                budget,
            ),
            self.well_planned(self.after_pages(pages.take(n), mem, a, budget), budget),
        decreases n,
    {
        if n == 0 {
            self.lemma_start_well_planned(budget);
        } else {
            let k = n - 1;
            self.lemma_alike_pages(other, f, g, index, pages, mem, a, b, budget, k);
            let p = self.after_pages(pages.take(k), mem, a, budget);
            assert(pages.take(n).drop_last() =~= pages.take(k));
            assert(pages.take(n).last() == pages[k]);
            if self.looks_up_page(pages, mem, a, budget, k) {
                assert(other.looks_up_page(pages, mem, b, budget, k));
                assert(call_ensures(f, (page_segment(pages[k]),), a[k]));
                assert(call_ensures(g, (page_segment(pages[k]),), b[k]));
                self.lemma_page_answer_ok(f, mem, pages[k], a[k]);
                self.lemma_alike_unit(other, p, a[k]@, one_page(), budget);
                self.lemma_take_unit_well_planned(p, a[k]@, one_page(), budget);
            }
        }
    }

    /// The same spans lead to the same progress.
    pub proof fn lemma_alike_ranges<
        F: Fn(Segment) -> Vec<SegmentMapping>,
        G: Fn(Segment) -> Vec<SegmentMapping>,
    >(
        self,
        other: Stack,
        f: F,
        g: G,
        index: spec_fn(Segment) -> Seq<SegmentMapping>,
        ranges: Seq<(u64, u64)>,
        mem: u64,
        a: Seq<Vec<SegmentMapping>>,
        b: Seq<Vec<SegmentMapping>>,
        budget: int,
        n: int,
    )
        requires
            self.alike(other),
            self.wf(),
            self.lookup_ok(f, mem),
            answers_by(f, index),
            answers_by(g, index),
            0 <= n <= ranges.len(),
            self.range_answers(f, ranges, mem, a, budget, n),
            other.range_answers(g, ranges, mem, b, budget, n),
        ensures
            self.after_ranges(ranges.take(n), mem, a, budget) == other.after_ranges(
                ranges.take(n),
                mem,
                b,
                budget,
            ),
            self.well_planned(self.after_ranges(ranges.take(n), mem, a, budget), budget),
        decreases n,
    {
        if n == 0 {
            self.lemma_start_well_planned(budget);
        } else {
            let k = n - 1;
            self.lemma_alike_ranges(other, f, g, index, ranges, mem, a, b, budget, k);
            let p = self.after_ranges(ranges.take(k), mem, a, budget);
            assert(ranges.take(n).drop_last() =~= ranges.take(k));
            assert(ranges.take(n).last() == ranges[k]);
            if self.looks_up_range(ranges, mem, a, budget, k) {
                assert(other.looks_up_range(ranges, mem, b, budget, k));
                assert(span_answered(f, ranges[k], a[k]@));
                assert(span_answered(g, ranges[k], b[k]@));
                lemma_same_span_answer(f, g, index, ranges[k], a[k]@, b[k]@);
                let weight = span_weight(ranges[k], a[k]@);
                self.lemma_span_answer_ok(f, ranges[k], mem, a[k]@);
                self.lemma_alike_unit(other, p, a[k]@, weight, budget);
                self.lemma_take_unit_well_planned(p, a[k]@, weight, budget);
            }
        }
    }

    /// Results of the same planning are the same.
    pub proof fn lemma_same_result(
        self,
        other: Stack,
        p: Progress,
        n: int,
        a: Result<PackPlan, PlanError>,
        b: Result<PackPlan, PlanError>,
    )
        requires
            self.alike(other),
            p.objects.no_duplicates(),
            result_of(a, self, p, n),
            result_of(b, other, p, n),
        ensures
            same_result(a, b),
    {
        if p.failed is None {
            lemma_same_selection(a->Ok_0, b->Ok_0, self, other, p, p, n, n);
        }
    }
}

/// Pages are planned by what the layers are and what the index answers: layers
/// that are alike and lookups in the same index give the same plan, or the same
/// error, whatever the layers were read from.
pub proof fn law_pages_are_planned_alike<
    F: Fn(Segment) -> Vec<SegmentMapping>,
    G: Fn(Segment) -> Vec<SegmentMapping>,
>(
    s: Stack,
    t: Stack,
    f: F,
    g: G,
    index: spec_fn(Segment) -> Seq<SegmentMapping>,
    pages: Seq<u32>,
    mem_virtual_size: u64,
    budget: int,
    a: Result<PackPlan, PlanError>,
    b: Result<PackPlan, PlanError>,
)
    requires
        s.alike(t),
        s.plannable(f, mem_virtual_size),
        answers_by(f, index),
        answers_by(g, index),
        pages_result(a, s, f, pages, mem_virtual_size, budget),
        pages_result(b, t, g, pages, mem_virtual_size, budget),
    ensures
        same_result(a, b),
{
    lemma_same_empty_layer(s.layers, t.layers, 0);
    if layers_error(s.layers) is None {
        s.lemma_layers_fine(f, mem_virtual_size);
        let x = choose|x: Seq<Vec<SegmentMapping>>| #[trigger]
            blocks_planned(a, s, f, pages, mem_virtual_size, x, budget);
        let y = choose|y: Seq<Vec<SegmentMapping>>| #[trigger]
            blocks_planned(b, t, g, pages, mem_virtual_size, y, budget);
        let n = pages.len() as int;
        s.lemma_alike_pages(t, f, g, index, pages, mem_virtual_size, x, y, budget, n);
        assert(pages.take(n) =~= pages);
        let p = s.after_pages(pages, mem_virtual_size, x, budget);
        s.lemma_same_result(t, p, n, a, b);
    }
}

/// Spans are planned by what the layers are and what the index answers: layers
/// that are alike and lookups in the same index give the same plan, or the same
/// error, whatever the layers were read from.
pub proof fn law_spans_are_planned_alike<
    F: Fn(Segment) -> Vec<SegmentMapping>,
    G: Fn(Segment) -> Vec<SegmentMapping>,
>(
    s: Stack,
    t: Stack,
    f: F,
    g: G,
    index: spec_fn(Segment) -> Seq<SegmentMapping>,
    ranges: Seq<(u64, u64)>,
    mem_virtual_size: u64,
    budget: int,
    a: Result<PackPlan, PlanError>,
    b: Result<PackPlan, PlanError>,
)
    requires
        s.alike(t),
        s.plannable(f, mem_virtual_size),
        answers_by(f, index),
        answers_by(g, index),
        ranges_result(a, s, f, ranges, mem_virtual_size, budget),
        ranges_result(b, t, g, ranges, mem_virtual_size, budget),
    ensures
        same_result(a, b),
{
    lemma_same_empty_layer(s.layers, t.layers, 0);
    if layers_error(s.layers) is None {
        s.lemma_layers_fine(f, mem_virtual_size);
        let x = choose|x: Seq<Vec<SegmentMapping>>| #[trigger]
            ranges_planned(a, s, f, ranges, mem_virtual_size, x, budget);
        let y = choose|y: Seq<Vec<SegmentMapping>>| #[trigger]
            ranges_planned(b, t, g, ranges, mem_virtual_size, y, budget);
        let n = ranges.len() as int;
        s.lemma_alike_ranges(t, f, g, index, ranges, mem_virtual_size, x, y, budget, n);
        assert(ranges.take(n) =~= ranges);
        let p = s.after_ranges(ranges, mem_virtual_size, x, budget);
        s.lemma_same_result(t, p, total_pages(ranges), a, b);
    }
}

/// What is read of a layer to open it.
pub struct LayerReads {
    pub tar_base: Option<u64>,
    pub zfile: Option<ZFileTable>,
    pub metadata: Option<ReadOnlyLayerMetadata>,
}

/// Whether the layers of a stack are opened by these reads.
pub open spec fn opened_by(stack: Stack, reads: Seq<LayerReads>) -> bool {
    &&& stack.opened.len() == reads.len()
    &&& forall|i: int|
        #![trigger stack.opened[i]]
        0 <= i < reads.len() ==> opened_from(
            reads[i].tar_base,
            reads[i].zfile,
            reads[i].metadata,
        ) == Ok::<OpenedLayer, PlanError>(stack.opened[i])
}

/// Whether the same was read of two layers.
pub open spec fn reads_alike(a: LayerReads, b: LayerReads) -> bool {
    a.tar_base == b.tar_base && tables_alike(a.zfile, b.zfile) && a.metadata == b.metadata
}

/// Layers of the same identity and size of which the same is read are planned
/// against alike, whatever they are read from: the same pages give the same
/// plan, or the same error.
pub proof fn law_layers_read_alike_are_planned_alike<
    F: Fn(Segment) -> Vec<SegmentMapping>,
    G: Fn(Segment) -> Vec<SegmentMapping>,
>(
    s: Stack,
    t: Stack,
    x: Seq<LayerReads>,
    y: Seq<LayerReads>,
    f: F,
    g: G,
    index: spec_fn(Segment) -> Seq<SegmentMapping>,
    pages: Seq<u32>,
    mem_virtual_size: u64,
    budget: int,
    a: Result<PackPlan, PlanError>,
    b: Result<PackPlan, PlanError>,
)
    requires
        s.layers.len() == t.layers.len(),
        forall|i: int|
            #![trigger s.layers[i]]
            #![trigger t.layers[i]]
            0 <= i < s.layers.len() ==> s.layers[i].size == t.layers[i].size
                && s.layers[i].digest@ == t.layers[i].digest@,
        opened_by(s, x),
        opened_by(t, y),
        x.len() == y.len(),
        forall|i: int| 0 <= i < x.len() ==> reads_alike(#[trigger] x[i], y[i]),
        s.plannable(f, mem_virtual_size),
        answers_by(f, index),
        answers_by(g, index),
        pages_result(a, s, f, pages, mem_virtual_size, budget),
        pages_result(b, t, g, pages, mem_virtual_size, budget),
    ensures
        same_result(a, b),
{
    assert forall|i: int|
        #![trigger s.opened[i]]
        #![trigger t.opened[i]]
        0 <= i < s.opened.len() implies opened_alike(s.opened[i], t.opened[i]) by {
        assert(reads_alike(x[i], y[i]));
        law_same_reads_open_alike(x[i].tar_base, x[i].zfile, y[i].zfile, x[i].metadata);
        assert(opened_from(x[i].tar_base, x[i].zfile, x[i].metadata) == Ok::<
            OpenedLayer,
            PlanError,
        >(s.opened[i]));
        assert(opened_from(y[i].tar_base, y[i].zfile, y[i].metadata) == Ok::<
            OpenedLayer,
            PlanError,
        >(t.opened[i]));
    }
    law_pages_are_planned_alike(s, t, f, g, index, pages, mem_virtual_size, budget, a, b);
}

} // verus!
