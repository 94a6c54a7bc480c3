//! When planning succeeds, and what its errors say.
use vstd::prelude::*;
use crate::codec_laws::range_fits;
use crate::extent_laws::{
    law_failed_extent_is_explained, law_stored_bytes_have_blocks, reason, stored,
};
use crate::extents::{LayerLayout, PlanError, zfile_blocks};
use crate::pack_plan::{PackPlan, blocks_planned, ranges_planned};
use crate::pack_planner::{plan_blocks, plan_ranges};
use crate::plan_byte_laws::{answer_maps_into, units_touch};
use crate::plan_lemmas::lemma_layer_order;
use crate::plan_model::{
    FinalLayerSource, OpenedLayer, Progress, Segment, SegmentMapping, Stack, Weight, backed,
    empty_layer, flat, layer_order, layers_error, lookups, one_page, page_in_image, parts_answered,
    range_in_image, span_weight, tail_len, total_pages,
};
use crate::plan_result_laws::{
    lemma_span_asked, page_asked, plans_pages, plans_units, span_asked,
};

verus! {

/// Whether layer `i` is the first one whose object is empty.
pub open spec fn first_empty(layers: Seq<FinalLayerSource>, i: int) -> bool {
    &&& 0 <= i < layers.len()
    &&& layers[i].size == 0
    &&& forall|k: int| 0 <= k < i ==> (#[trigger] layers[k]).size > 0
}

/// Whether layers can be planned against: one at least, no more than 65536, and
/// none with an empty object.
pub open spec fn layers_usable(layers: Seq<FinalLayerSource>) -> bool {
    &&& 0 < layers.len() <= 65536
    &&& forall|i: int| 0 <= i < layers.len() ==> (#[trigger] layers[i]).size > 0
}

/// Whether a result is the error that the layers alone give.
pub open spec fn refuses_layers(
    layers: Seq<FinalLayerSource>,
    res: Result<PackPlan, PlanError>,
    i: int,
) -> bool {
    &&& layers.len() == 0 ==> res == Err::<PackPlan, PlanError>(PlanError::NoLayers)
    &&& layers.len() > 65536 ==> res == Err::<PackPlan, PlanError>(PlanError::TooManyLayers)
    &&& layers.len() <= 65536 && first_empty(layers, i) ==> res == Err::<PackPlan, PlanError>(
        PlanError::EmptyLayer { layer: i as usize },
    )
}

proof fn lemma_first_empty(layers: Seq<FinalLayerSource>, k: int, i: int)
    requires
        0 <= k <= i,
        first_empty(layers, i),
    ensures
        empty_layer(layers, k) == Some(PlanError::EmptyLayer { layer: i as usize }),
    decreases i - k,
{
    if k < i {
        assert(layers[k].size > 0);
        lemma_first_empty(layers, k + 1, i);
    }
}

proof fn lemma_usable(layers: Seq<FinalLayerSource>, k: int)
    requires
        0 <= k,
        forall|i: int| 0 <= i < layers.len() ==> (#[trigger] layers[i]).size > 0,
    ensures
        empty_layer(layers, k) is None,
    decreases layers.len() - k,
{
    if k < layers.len() {
        assert(layers[k].size > 0);
        lemma_usable(layers, k + 1);
    }
}

/// Layers that cannot be planned against are refused, whatever pages are asked
/// for.
pub proof fn law_unusable_layers<F: Fn(Segment) -> Vec<SegmentMapping>>(
    pages: &[u32],
    ranges: &[(u64, u64)],
    mem_virtual_size: u64,
    layers: &[FinalLayerSource],
    opened: &[OpenedLayer],
    budget: u64,
    lookup: F,
    by_page: Result<PackPlan, PlanError>,
    by_span: Result<PackPlan, PlanError>,
    i: int,
)
    requires
        call_ensures(
            plan_blocks::<F>,
            (pages, mem_virtual_size, layers, opened, budget, lookup),
            by_page,
        ),
        call_ensures(
            plan_ranges::<F>,
            (ranges, mem_virtual_size, layers, opened, budget, lookup),
            by_span,
        ),
    ensures
        refuses_layers(layers@, by_page, i),
        refuses_layers(layers@, by_span, i),
{
    if first_empty(layers@, i) {
        lemma_first_empty(layers@, 0, i);
    }
}

/// Whether every byte of a layer's header and index has a stored form.
pub open spec fn metadata_stored(o: OpenedLayer) -> bool {
    forall|x: int|
        0 <= x < 4096 || o.metadata.index_offset <= x < o.metadata.file_size ==> #[trigger] stored(
            o.layout,
            x,
        )
}

/// Whether every byte that an answer maps has a stored form.
pub open spec fn mapping_stored(opened: Seq<OpenedLayer>, m: SegmentMapping) -> bool {
    m.physical ==> forall|x: int|
        m.moffset * 512 <= x < (m.moffset + m.length) * 512 ==> #[trigger] stored(
            opened[opened.len() - 1 - m.tag].layout,
            x,
        )
}

/// Whether all is stored that planning may look at: the headers and indexes of
/// the layers, and whatever the index maps.
pub open spec fn all_stored<F: Fn(Segment) -> Vec<SegmentMapping>>(
    layers: Seq<FinalLayerSource>,
    opened: Seq<OpenedLayer>,
    lookup: F,
) -> bool {
    &&& forall|i: int| 0 <= i < opened.len() ==> metadata_stored(#[trigger] opened[i])
    &&& forall|i: int|
        0 <= i < layers.len() ==> (#[trigger] layers[i]).size <= 0x1_0000_0000 * 262144
    &&& forall|segment: Segment, answer: Vec<SegmentMapping>, k: int|
        #![trigger call_ensures(lookup, (segment,), answer), answer@[k]]
        call_ensures(lookup, (segment,), answer) && 0 <= k < answer@.len() ==> mapping_stored(
            opened,
            answer@[k],
        )
}

impl Stack {
    /// Answers whose bytes are stored can be resolved.
    proof fn lemma_stored_answer(self, answer: Seq<SegmentMapping>)
        requires
            self.wf(),
            self.answer_ok(answer),
            forall|i: int|
                0 <= i < self.layers.len() ==> (#[trigger] self.layers[i]).size <= 0x1_0000_0000
                    * 262144,
            forall|k: int|
                0 <= k < answer.len() ==> mapping_stored(self.opened, #[trigger] answer[k]),
        ensures
            self.resolve(answer) is Ok,
        decreases answer.len(),
    {
        if answer.len() > 0 {
            let init = answer.drop_last();
            let m = answer.last();
            assert forall|k: int| 0 <= k < init.len() implies self.mapping_ok(#[trigger] init[k])
                && mapping_stored(self.opened, init[k]) by {
                assert(init[k] == answer[k]);
            }
            self.lemma_stored_answer(init);
            assert(self.mapping_ok(answer[answer.len() - 1]));
            assert(mapping_stored(self.opened, answer[answer.len() - 1]));
            if m.physical {
                let l = self.layer_of(m);
                assert(self.layers[l].size <= 0x1_0000_0000 * 262144);
                law_stored_bytes_have_blocks(
                    self.opened[l].layout,
                    m.moffset * 512,
                    m.length * 512,
                    self.layers[l].size as int,
                );
            }
        }
    }

    /// Layers whose metadata is stored give metadata blocks.
    proof fn lemma_stored_metadata(self, order: Seq<usize>, objects: Seq<usize>)
        requires
            self.wf(),
            forall|i: int|
                0 <= i < self.opened.len() ==> metadata_stored(#[trigger] self.opened[i]),
            forall|i: int|
                0 <= i < self.layers.len() ==> (#[trigger] self.layers[i]).size <= 0x1_0000_0000
                    * 262144,
            forall|i: int| 0 <= i < order.len() ==> #[trigger] order[i] < self.layers.len(),
        ensures
            self.metadata_needs(order, objects) is Ok,
        decreases order.len(),
    {
        if order.len() > 0 {
            let init = order.drop_last();
            assert forall|i: int| 0 <= i < init.len() implies #[trigger] init[i]
                < self.layers.len() by {
                assert(init[i] == order[i]);
            }
            self.lemma_stored_metadata(init, objects);
            let l = order[order.len() - 1] as int;
            let o = self.opened[l];
            let size = self.layers[l].size as int;
            assert(metadata_stored(self.opened[l]));
            assert(self.layers[l].size <= 0x1_0000_0000 * 262144);
            law_stored_bytes_have_blocks(o.layout, 0, 4096, size);
            if o.metadata.file_size > o.metadata.index_offset {
                law_stored_bytes_have_blocks(
                    o.layout,
                    o.metadata.index_offset as int,
                    o.metadata.file_size - o.metadata.index_offset,
                    size,
                );
            }
        }
    }

    /// A unit whose bytes are stored is taken without an error.
    proof fn lemma_stored_unit(
        self,
        p: Progress,
        answer: Seq<SegmentMapping>,
        weight: Weight,
        budget: int,
    )
        requires
            self.wf(),
            self.answer_ok(answer),
            forall|i: int|
                0 <= i < self.opened.len() ==> metadata_stored(#[trigger] self.opened[i]),
            forall|i: int|
                0 <= i < self.layers.len() ==> (#[trigger] self.layers[i]).size <= 0x1_0000_0000
                    * 262144,
            forall|k: int|
                0 <= k < answer.len() ==> mapping_stored(self.opened, #[trigger] answer[k]),
            p.failed is None,
        ensures
            self.take_unit(p, answer, weight, budget).failed is None,
    {
        self.lemma_stored_answer(answer);
        if backed(answer) {
            let deps = self.resolve(answer)->Ok_0;
            self.lemma_resolved_in_objects(answer);
            let order = layer_order(deps);
            lemma_layer_order(deps);
            assert forall|i: int| 0 <= i < order.len() implies #[trigger] order[i]
                < self.layers.len() by {
                assert(order.contains(order[i]));
            }
            self.lemma_stored_metadata(order, p.objects);
        }
    }

    proof fn lemma_stored_pages<F: Fn(Segment) -> Vec<SegmentMapping>>(
        self,
        lookup: F,
        pages: Seq<u32>,
        mem: u64,
        answers: Seq<Vec<SegmentMapping>>,
        budget: int,
        n: int,
    )
        requires
            self.wf(),
            self.lookup_ok(lookup, mem),
            all_stored(self.layers, self.opened, lookup),
            0 <= n <= pages.len(),
            forall|i: int|
                0 <= i < pages.len() ==> ((#[trigger] pages[i]) + 1) * 4096 <= mem,
            self.page_answers(lookup, pages, mem, answers, budget, pages.len() as int),
        ensures
            self.after_pages(pages.take(n), mem, answers, budget).failed is None,
        decreases n,
    {
        if n > 0 {
            let k = n - 1;
            self.lemma_stored_pages(lookup, pages, mem, answers, budget, k);
            let p = self.after_pages(pages.take(k), mem, answers, budget);
            assert(pages.take(n).drop_last() =~= pages.take(k));
            assert((pages[k] + 1) * 4096 <= mem);
            if !p.truncated {
                assert(self.looks_up_page(pages, mem, answers, budget, k));
                self.lemma_page_answer_ok(lookup, mem, pages[k], answers[k]);
                self.lemma_stored_unit(p, answers[k]@, one_page(), budget);
            }
        }
    }

    proof fn lemma_stored_spans<F: Fn(Segment) -> Vec<SegmentMapping>>(
        self,
        lookup: F,
        ranges: Seq<(u64, u64)>,
        mem: u64,
        answers: Seq<Vec<SegmentMapping>>,
        budget: int,
        n: int,
    )
        requires
            self.wf(),
            self.lookup_ok(lookup, mem),
            all_stored(self.layers, self.opened, lookup),
            0 <= n <= ranges.len(),
            forall|i: int| 0 <= i < ranges.len() ==> range_fits(mem, #[trigger] ranges[i]),
            self.range_answers(lookup, ranges, mem, answers, budget, ranges.len() as int),
        ensures
            self.after_ranges(ranges.take(n), mem, answers, budget).failed is None,
        decreases n,
    {
        if n > 0 {
            let k = n - 1;
            self.lemma_stored_spans(lookup, ranges, mem, answers, budget, k);
            let p = self.after_ranges(ranges.take(k), mem, answers, budget);
            assert(ranges.take(n).drop_last() =~= ranges.take(k));
            assert(range_fits(mem, ranges[k]));
            if !p.truncated {
                assert(self.looks_up_range(ranges, mem, answers, budget, k));
                self.lemma_span_answer_ok(lookup, ranges[k], mem, answers[k]@);
                let parts = choose|parts: Seq<Vec<SegmentMapping>>| #[trigger]
                    parts_answered(lookup, ranges[k], parts) && answers[k]@
                        == flat(parts);
                self.lemma_stored_parts(lookup, ranges[k], parts);
                self.lemma_stored_unit(
                    p,
                    answers[k]@,
                    span_weight(ranges[k], answers[k]@),
                    budget,
                );
            }
        }
    }

    proof fn lemma_stored_parts<F: Fn(Segment) -> Vec<SegmentMapping>>(
        self,
        lookup: F,
        range: (u64, u64),
        parts: Seq<Vec<SegmentMapping>>,
    )
        requires
            all_stored(self.layers, self.opened, lookup),
            parts_answered(lookup, range, parts),
        ensures
            forall|k: int|
                0 <= k < flat(parts).len() ==> mapping_stored(
                    self.opened,
                    #[trigger] flat(parts)[k],
                ),
    {
        assert forall|j: int| 0 <= j < parts.len() implies all_of(
            self.opened,
            (#[trigger] parts[j])@,
        ) by {
            assert(call_ensures(lookup, (lookups(range)[j],), parts[j]));
            assert forall|k: int| 0 <= k < parts[j]@.len() implies mapping_stored(
                self.opened,
                #[trigger] parts[j]@[k],
            ) by {}
        }
        lemma_all_of_flat(self.opened, parts);
    }
}

spec fn all_of(opened: Seq<OpenedLayer>, answer: Seq<SegmentMapping>) -> bool {
    forall|k: int| 0 <= k < answer.len() ==> mapping_stored(opened, #[trigger] answer[k])
}

proof fn lemma_all_of_flat(opened: Seq<OpenedLayer>, parts: Seq<Vec<SegmentMapping>>)
    requires
        forall|j: int| 0 <= j < parts.len() ==> all_of(opened, (#[trigger] parts[j])@),
    ensures
        all_of(opened, flat(parts)),
    decreases parts.len(),
{
    if parts.len() > 0 {
        let init = parts.drop_last();
        assert forall|j: int| 0 <= j < init.len() implies all_of(opened, (#[trigger] init[j])@) by {
            assert(init[j] == parts[j]);
        }
        lemma_all_of_flat(opened, init);
        assert(all_of(opened, parts[parts.len() - 1]@));
        let (a, b) = (flat(init), parts.last()@);
        assert forall|k: int| 0 <= k < (a + b).len() implies mapping_stored(
            opened,
            #[trigger] (a + b)[k],
        ) by {
            if k < a.len() {
                assert((a + b)[k] == a[k]);
            } else {
                assert((a + b)[k] == b[k - a.len()]);
            }
        }
    }
}

/// Planning pages succeeds where the layers are usable, all pages lie in the
/// image, and all is stored that planning looks at.
pub proof fn law_pages_of_the_image_are_planned<F: Fn(Segment) -> Vec<SegmentMapping>>(
    pages: &[u32],
    mem_virtual_size: u64,
    layers: &[FinalLayerSource],
    opened: &[OpenedLayer],
    budget: u64,
    lookup: F,
    res: Result<PackPlan, PlanError>,
)
    requires
        (Stack { layers: layers@, opened: opened@ }).plannable(lookup, mem_virtual_size),
        layers_usable(layers@),
        all_stored(layers@, opened@, lookup),
        forall|i: int|
            0 <= i < pages@.len() ==> ((#[trigger] pages@[i]) + 1) * 4096 <= mem_virtual_size,
        call_ensures(
            plan_blocks::<F>,
            (pages, mem_virtual_size, layers, opened, budget, lookup),
            res,
        ),
    ensures
        res is Ok,
{
    let stack = Stack { layers: layers@, opened: opened@ };
    lemma_usable(layers@, 0);
    assert(layers_error(layers@) is None);
    let answers = choose|answers: Seq<Vec<SegmentMapping>>| #[trigger]
        blocks_planned(
            res,
            stack,
            lookup,
            pages@,
            mem_virtual_size,
            answers,
            budget as int,
        );
    stack.lemma_layers_fine(lookup, mem_virtual_size);
    let n = pages@.len() as int;
    stack.lemma_stored_pages(lookup, pages@, mem_virtual_size, answers, budget as int, n);
    assert(pages@.take(n) =~= pages@);
}

/// Planning spans succeeds where the layers are usable, all spans are non-empty
/// runs of whole pages of the image, and all is stored that planning looks at.
pub proof fn law_spans_of_the_image_are_planned<F: Fn(Segment) -> Vec<SegmentMapping>>(
    ranges: &[(u64, u64)],
    mem_virtual_size: u64,
    layers: &[FinalLayerSource],
    opened: &[OpenedLayer],
    budget: u64,
    lookup: F,
    res: Result<PackPlan, PlanError>,
)
    requires
        (Stack { layers: layers@, opened: opened@ }).plannable(lookup, mem_virtual_size),
        layers_usable(layers@),
        all_stored(layers@, opened@, lookup),
        forall|i: int|
            0 <= i < ranges@.len() ==> range_fits(mem_virtual_size, #[trigger] ranges@[i]),
        call_ensures(
            plan_ranges::<F>,
            (ranges, mem_virtual_size, layers, opened, budget, lookup),
            res,
        ),
    ensures
        res is Ok,
{
    let stack = Stack { layers: layers@, opened: opened@ };
    lemma_usable(layers@, 0);
    assert(layers_error(layers@) is None);
    let answers = choose|answers: Seq<Vec<SegmentMapping>>| #[trigger]
        ranges_planned(
            res,
            stack,
            lookup,
            ranges@,
            mem_virtual_size,
            answers,
            budget as int,
        );
    stack.lemma_layers_fine(lookup, mem_virtual_size);
    let n = ranges@.len() as int;
    stack.lemma_stored_spans(lookup, ranges@, mem_virtual_size, answers, budget as int, n);
    assert(ranges@.take(n) =~= ranges@);
}

impl Stack {
    /// What a failed part of planning says of a page that is out of range.
    proof fn lemma_page_out_of_range(
        self,
        pages: Seq<u32>,
        mem: u64,
        answers: Seq<Vec<SegmentMapping>>,
        budget: int,
        page: u32,
    ) -> (k: int)
        requires
            self.after_pages(pages, mem, answers, budget).failed == Some(
                PlanError::PageOutOfRange { page },
            ),
        ensures
            0 <= k < pages.len(),
            pages[k] == page,
            (page + 1) * 4096 > mem,
            forall|i: int| 0 <= i < k ==> ((#[trigger] pages[i]) + 1) * 4096 <= mem,
        decreases pages.len(),
    {
        let init = pages.drop_last();
        let p = self.after_pages(init, mem, answers, budget);
        if p.failed is Some {
            let k = self.lemma_page_out_of_range(init, mem, answers, budget, page);
            assert forall|i: int| 0 <= i < k implies ((#[trigger] pages[i]) + 1) * 4096 <= mem by {
                assert(init[i] == pages[i]);
            }
            k
        } else {
            let n = init.len() as int;
            if p.truncated || page_in_image(pages[n], mem) {
                self.lemma_unit_error(p, answers[n]@, one_page(), budget);
            }
            self.lemma_no_page_out_of_range(init, mem, answers, budget);
            assert forall|i: int| 0 <= i < n implies ((#[trigger] pages[i]) + 1) * 4096 <= mem by {
                assert(init[i] == pages[i]);
            }
            n
        }
    }

    /// The errors of a unit are not on ranges.
    proof fn lemma_unit_error(
        self,
        p: Progress,
        answer: Seq<SegmentMapping>,
        weight: Weight,
        budget: int,
    )
        requires
            p.failed is None,
        ensures
            self.take_unit(p, answer, weight, budget).failed matches Some(e) ==> !(e
                is PageOutOfRange) && !(e is RangeOutOfRange),
    {
        self.lemma_resolve_error(answer);
        if self.resolve(answer) is Ok {
            self.lemma_metadata_error(layer_order(self.resolve(answer)->Ok_0), p.objects);
        }
    }

    proof fn lemma_resolve_error(self, answer: Seq<SegmentMapping>)
        ensures
            self.resolve(answer) matches Err(e) ==> !(e is PageOutOfRange) && !(e
                is RangeOutOfRange),
        decreases answer.len(),
    {
        if answer.len() > 0 {
            self.lemma_resolve_error(answer.drop_last());
            let m = answer.last();
            let l = self.layer_of(m);
            lemma_extent_error(
                self.opened[l].layout,
                m.moffset * 512,
                m.length * 512,
                self.layers[l].size as int,
            );
        }
    }

    proof fn lemma_metadata_error(self, order: Seq<usize>, objects: Seq<usize>)
        ensures
            self.metadata_needs(order, objects) matches Err(e) ==> !(e is PageOutOfRange) && !(e
                is RangeOutOfRange),
        decreases order.len(),
    {
        if order.len() > 0 {
            self.lemma_metadata_error(order.drop_last(), objects);
            let l = order.last() as int;
            let o = self.opened[l];
            let size = self.layers[l].size as int;
            lemma_extent_error(o.layout, 0, 4096, size);
            lemma_extent_error(
                o.layout,
                o.metadata.index_offset as int,
                tail_len(o.metadata),
                size,
            );
        }
    }

    proof fn lemma_no_page_out_of_range(
        self,
        pages: Seq<u32>,
        mem: u64,
        answers: Seq<Vec<SegmentMapping>>,
        budget: int,
    )
        requires
            self.after_pages(pages, mem, answers, budget).failed is None,
            !self.after_pages(pages, mem, answers, budget).truncated,
        ensures
            forall|i: int| 0 <= i < pages.len() ==> ((#[trigger] pages[i]) + 1) * 4096 <= mem,
    {
        assert forall|i: int| 0 <= i < pages.len() implies ((#[trigger] pages[i]) + 1) * 4096
            <= mem by {
            self.lemma_pages_taken(pages, mem, answers, budget, i);
        }
    }

    proof fn lemma_spans_in_image(
        self,
        ranges: Seq<(u64, u64)>,
        mem: u64,
        answers: Seq<Vec<SegmentMapping>>,
        budget: int,
        i: int,
    )
        requires
            self.after_ranges(ranges, mem, answers, budget).failed is None,
            0 <= i < ranges.len(),
        ensures
            range_fits(mem, ranges[i]),
        decreases ranges.len(),
    {
        let init = ranges.drop_last();
        assert(self.after_ranges(init, mem, answers, budget).failed is None);
        if i < init.len() {
            assert(init[i] == ranges[i]);
            self.lemma_spans_in_image(init, mem, answers, budget, i);
        }
    }

    proof fn lemma_span_out_of_range(
        self,
        ranges: Seq<(u64, u64)>,
        mem: u64,
        answers: Seq<Vec<SegmentMapping>>,
        budget: int,
        range: (u64, u64),
    ) -> (k: int)
        requires
            self.after_ranges(ranges, mem, answers, budget).failed == Some(
                PlanError::RangeOutOfRange { voffset: range.0, vlen: range.1 },
            ),
        ensures
            0 <= k < ranges.len(),
            ranges[k] == range,
            !range_fits(mem, range),
            forall|i: int| 0 <= i < k ==> range_fits(mem, #[trigger] ranges[i]),
        decreases ranges.len(),
    {
        let init = ranges.drop_last();
        let p = self.after_ranges(init, mem, answers, budget);
        if p.failed is Some {
            let k = self.lemma_span_out_of_range(init, mem, answers, budget, range);
            assert forall|i: int| 0 <= i < k implies range_fits(mem, #[trigger] ranges[i]) by {
                assert(init[i] == ranges[i]);
            }
            k
        } else {
            let n = init.len() as int;
            if range_in_image(ranges[n], mem) {
                self.lemma_unit_error(p, answers[n]@, span_weight(ranges[n], answers[n]@), budget);
            }
            assert forall|i: int| 0 <= i < n implies range_fits(mem, #[trigger] ranges[i]) by {
                assert(init[i] == ranges[i]);
                self.lemma_spans_in_image(init, mem, answers, budget, i);
            }
            n
        }
    }
}

/// The errors of an extent are not on ranges.
proof fn lemma_extent_error(
    layout: LayerLayout,
    offset: int,
    len: int,
    size: int,
)
    ensures
        layout.blocks_of(offset, len, size) matches Err(e) ==> !(e is PageOutOfRange) && !(e
            is RangeOutOfRange),
{
    match layout {
        LayerLayout::Raw { .. } => {},
        LayerLayout::ZFile { block_size, extents, tar_base } => {
            lemma_zfile_error(
                extents@,
                tar_base as int,
                size,
                offset / block_size as int,
                (offset + len - 1) / block_size as int,
            );
        },
    }
}

proof fn lemma_zfile_error(
    extents: Seq<(u64, u64)>,
    tar_base: int,
    size: int,
    idx: int,
    last: int,
)
    ensures
        zfile_blocks(extents, tar_base, size, idx, last) matches Err(e) ==> !(e
            is PageOutOfRange) && !(e is RangeOutOfRange),
    decreases last + 1 - idx,
{
    if idx <= last && 0 <= idx < extents.len() {
        lemma_zfile_error(extents, tar_base, size, idx + 1, last);
    }
}

/// Whether an answer explains an error: it maps a byte that has no stored form,
/// or it maps into a layer whose header or index has such a byte, and the error
/// says why.
pub open spec fn explains(
    layers: Seq<FinalLayerSource>,
    opened: Seq<OpenedLayer>,
    answer: Seq<SegmentMapping>,
    e: PlanError,
) -> bool {
    ||| exists|k: int, x: int| #[trigger] mapping_unstored(opened, answer, k, x, e)
    ||| exists|layer: int, block: int, x: int|
        #![trigger answer_maps_into(layers, opened, answer, layer, block), reason(
            opened[layer].layout,
            x,
        )]
        answer_maps_into(layers, opened, answer, layer, block) && metadata_unstored(
            opened[layer],
            x,
            e,
        )
}

/// Whether mapping `k` of an answer maps a byte that has no stored form, for
/// this reason.
pub open spec fn mapping_unstored(
    opened: Seq<OpenedLayer>,
    answer: Seq<SegmentMapping>,
    k: int,
    x: int,
    e: PlanError,
) -> bool {
    let m = answer[k];
    let layout = opened[opened.len() - 1 - m.tag].layout;
    &&& 0 <= k < answer.len()
    &&& m.physical
    &&& m.moffset * 512 <= x < (m.moffset + m.length) * 512
    &&& !stored(layout, x)
    &&& e == reason(layout, x)
}

/// Whether a byte of a layer's header or index has no stored form, for this
/// reason.
pub open spec fn metadata_unstored(o: OpenedLayer, x: int, e: PlanError) -> bool {
    &&& 0 <= x < 4096 || o.metadata.index_offset <= x < o.metadata.file_size
    &&& !stored(o.layout, x)
    &&& e == reason(o.layout, x)
}

/// Whether the ids of the blocks of all objects fit in 32 bits.
pub open spec fn ids_fit(layers: Seq<FinalLayerSource>) -> bool {
    forall|i: int| 0 <= i < layers.len() ==> (#[trigger] layers[i]).size <= 0x1_0000_0000 * 262144
}

impl Stack {
    proof fn lemma_resolve_explained(self, answer: Seq<SegmentMapping>)
        requires
            self.wf(),
            self.answer_ok(answer),
            ids_fit(self.layers),
            self.resolve(answer) is Err,
        ensures
            exists|k: int, x: int| #[trigger]
                mapping_unstored(self.opened, answer, k, x, self.resolve(answer)->Err_0),
        decreases answer.len(),
    {
        let init = answer.drop_last();
        let n = init.len() as int;
        let m = answer.last();
        let e = self.resolve(answer)->Err_0;
        assert(self.answer_ok(init)) by {
            assert forall|i: int| 0 <= i < init.len() implies self.mapping_ok(
                #[trigger] init[i],
            ) by {
                assert(init[i] == answer[i]);
            }
        }
        if self.resolve(init) is Err {
            self.lemma_resolve_explained(init);
            let (k, x) = choose|k: int, x: int| #[trigger]
                mapping_unstored(self.opened, init, k, x, e);
            assert(init[k] == answer[k]);
            assert(mapping_unstored(self.opened, answer, k, x, e));
        } else {
            assert(self.mapping_ok(answer[n]));
            let l = self.layer_of(m);
            assert(self.layers[l].size <= 0x1_0000_0000 * 262144);
            let x = law_failed_extent_is_explained(
                self.opened[l].layout,
                m.moffset * 512,
                m.length * 512,
                self.layers[l].size as int,
            );
            assert(mapping_unstored(self.opened, answer, n, x, e));
        }
    }

    proof fn lemma_metadata_explained(self, order: Seq<usize>, objects: Seq<usize>) -> (w: (
        int,
        int,
    ))
        requires
            self.wf(),
            ids_fit(self.layers),
            forall|i: int| 0 <= i < order.len() ==> #[trigger] order[i] < self.layers.len(),
            self.metadata_needs(order, objects) is Err,
        ensures
            0 <= w.0 < order.len(),
            metadata_unstored(
                self.opened[order[w.0] as int],
                w.1,
                self.metadata_needs(order, objects)->Err_0,
            ),
        decreases order.len(),
    {
        let init = order.drop_last();
        assert forall|i: int| 0 <= i < init.len() implies #[trigger] init[i]
            < self.layers.len() by {
            assert(init[i] == order[i]);
        }
        if self.metadata_needs(init, objects) is Err {
            let w = self.lemma_metadata_explained(init, objects);
            assert(init[w.0] == order[w.0]);
            w
        } else {
            let n = init.len() as int;
            let l = order[n] as int;
            let o = self.opened[l];
            let size = self.layers[l].size as int;
            assert(self.layers[l].size <= 0x1_0000_0000 * 262144);
            if o.layout.blocks_of(0, 4096, size) is Err {
                let x = law_failed_extent_is_explained(o.layout, 0, 4096, size);
                (n, x)
            } else {
                let x = law_failed_extent_is_explained(
                    o.layout,
                    o.metadata.index_offset as int,
                    tail_len(o.metadata),
                    size,
                );
                (n, x)
            }
        }
    }

    /// The error of a unit is explained by its answer.
    proof fn lemma_unit_explained(
        self,
        p: Progress,
        answer: Seq<SegmentMapping>,
        weight: Weight,
        budget: int,
    )
        requires
            self.wf(),
            self.answer_ok(answer),
            ids_fit(self.layers),
            p.failed is None,
            self.take_unit(p, answer, weight, budget).failed is Some,
        ensures
            explains(
                self.layers,
                self.opened,
                answer,
                self.take_unit(p, answer, weight, budget).failed->0,
            ),
    {
        let e = self.take_unit(p, answer, weight, budget).failed->0;
        if self.resolve(answer) is Err {
            self.lemma_resolve_explained(answer);
        } else {
            let deps = self.resolve(answer)->Ok_0;
            self.lemma_resolved_in_objects(answer);
            let order = layer_order(deps);
            lemma_layer_order(deps);
            assert forall|i: int| 0 <= i < order.len() implies #[trigger] order[i]
                < self.layers.len() by {
                assert(order.contains(order[i]));
            }
            let (u, x) = self.lemma_metadata_explained(order, p.objects);
            let layer = order[u];
            assert(order.contains(layer));
            let d = choose|d: int| 0 <= d < deps.len() && (#[trigger] deps[d]).0 == layer;
            assert(deps.contains(deps[d]));
            self.lemma_resolved_by_bytes(answer, layer, deps[d].1);
            assert(answer_maps_into(
                self.layers,
                self.opened,
                answer,
                layer as int,
                deps[d].1 as int,
            ));
            assert(metadata_unstored(self.opened[layer as int], x, e));
            assert(e == reason(self.opened[layer as int].layout, x));
        }
    }

    proof fn lemma_page_explained<F: Fn(Segment) -> Vec<SegmentMapping>>(
        self,
        lookup: F,
        pages: Seq<u32>,
        mem: u64,
        answers: Seq<Vec<SegmentMapping>>,
        budget: int,
        n: int,
    ) -> (i: int)
        requires
            self.wf(),
            self.lookup_ok(lookup, mem),
            ids_fit(self.layers),
            0 <= n <= pages.len(),
            self.page_answers(lookup, pages, mem, answers, budget, pages.len() as int),
            self.after_pages(pages.take(n), mem, answers, budget).failed is Some,
        ensures
            0 <= i < pages.len(),
            ({
                let e = self.after_pages(pages.take(n), mem, answers, budget).failed->0;
                e is PageOutOfRange || (page_asked(lookup, pages[i], mem, answers[i]) && explains(
                    self.layers,
                    self.opened,
                    answers[i]@,
                    e,
                ))
            }),
        decreases n,
    {
        if n == 0 {
            assert(pages.take(0).len() == 0);
            0
        } else {
            let k = n - 1;
            let p = self.after_pages(pages.take(k), mem, answers, budget);
            assert(pages.take(n).drop_last() =~= pages.take(k));
            if p.failed is Some {
                self.lemma_page_explained(lookup, pages, mem, answers, budget, k)
            } else {
                if !p.truncated && page_in_image(pages[k], mem) {
                    assert(self.looks_up_page(pages, mem, answers, budget, k));
                    self.lemma_page_answer_ok(lookup, mem, pages[k], answers[k]);
                    self.lemma_unit_explained(p, answers[k]@, one_page(), budget);
                }
                k
            }
        }
    }

    proof fn lemma_span_explained<F: Fn(Segment) -> Vec<SegmentMapping>>(
        self,
        lookup: F,
        ranges: Seq<(u64, u64)>,
        mem: u64,
        answers: Seq<Vec<SegmentMapping>>,
        budget: int,
        n: int,
    ) -> (i: int)
        requires
            self.wf(),
            self.lookup_ok(lookup, mem),
            ids_fit(self.layers),
            0 <= n <= ranges.len(),
            self.range_answers(lookup, ranges, mem, answers, budget, ranges.len() as int),
            self.after_ranges(ranges.take(n), mem, answers, budget).failed is Some,
        ensures
            0 <= i < ranges.len(),
            ({
                let e = self.after_ranges(ranges.take(n), mem, answers, budget).failed->0;
                e is RangeOutOfRange || (span_asked(lookup, ranges[i], mem, answers[i]@)
                    && explains(self.layers, self.opened, answers[i]@, e))
            }),
        decreases n,
    {
        if n == 0 {
            assert(ranges.take(0).len() == 0);
            0
        } else {
            let k = n - 1;
            let p = self.after_ranges(ranges.take(k), mem, answers, budget);
            assert(ranges.take(n).drop_last() =~= ranges.take(k));
            if p.failed is Some {
                self.lemma_span_explained(lookup, ranges, mem, answers, budget, k)
            } else {
                if !p.truncated && range_in_image(ranges[k], mem) {
                    assert(self.looks_up_range(ranges, mem, answers, budget, k));
                    self.lemma_span_answer_ok(lookup, ranges[k], mem, answers[k]@);
                    self.lemma_unit_explained(
                        p,
                        answers[k]@,
                        span_weight(ranges[k], answers[k]@),
                        budget,
                    );
                    lemma_span_asked(lookup, ranges[k], mem, answers[k]@);
                }
                k
            }
        }
    }
}

/// Planning pages fails only for a page out of range, or where the index
/// answered for a page with what is not stored; the error then says why. The
/// proof finds the page and the answer.
pub proof fn law_failed_page_plan_is_explained<F: Fn(Segment) -> Vec<SegmentMapping>>(
    pages: &[u32],
    mem_virtual_size: u64,
    layers: &[FinalLayerSource],
    opened: &[OpenedLayer],
    budget: u64,
    lookup: F,
    e: PlanError,
) -> (found: (int, Vec<SegmentMapping>))
    requires
        (Stack { layers: layers@, opened: opened@ }).plannable(lookup, mem_virtual_size),
        layers_usable(layers@),
        ids_fit(layers@),
        call_ensures(
            plan_blocks::<F>,
            (pages, mem_virtual_size, layers, opened, budget, lookup),
            Err::<PackPlan, PlanError>(e),
        ),
    ensures
        e is PageOutOfRange || (0 <= found.0 < pages@.len() && page_asked(
            lookup,
            pages@[found.0],
            mem_virtual_size,
            found.1,
        ) && explains(layers@, opened@, found.1@, e)),
{
    let stack = Stack { layers: layers@, opened: opened@ };
    let res = Err::<PackPlan, PlanError>(e);
    lemma_usable(layers@, 0);
    assert(layers_error(layers@) is None);
    let answers = choose|answers: Seq<Vec<SegmentMapping>>| #[trigger]
        blocks_planned(
            res,
            stack,
            lookup,
            pages@,
            mem_virtual_size,
            answers,
            budget as int,
        );
    stack.lemma_layers_fine(lookup, mem_virtual_size);
    let n = pages@.len() as int;
    assert(pages@.take(n) =~= pages@);
    let i = stack.lemma_page_explained(
        lookup,
        pages@,
        mem_virtual_size,
        answers,
        budget as int,
        n,
    );
    (i, answers[i])
}

/// Planning spans fails only for a span out of range, or where the index
/// answered for a span with what is not stored; the error then says why. The
/// proof finds the span and the answer.
pub proof fn law_failed_span_plan_is_explained<F: Fn(Segment) -> Vec<SegmentMapping>>(
    ranges: &[(u64, u64)],
    mem_virtual_size: u64,
    layers: &[FinalLayerSource],
    opened: &[OpenedLayer],
    budget: u64,
    lookup: F,
    e: PlanError,
) -> (found: (int, Seq<SegmentMapping>))
    requires
        (Stack { layers: layers@, opened: opened@ }).plannable(lookup, mem_virtual_size),
        layers_usable(layers@),
        ids_fit(layers@),
        call_ensures(
            plan_ranges::<F>,
            (ranges, mem_virtual_size, layers, opened, budget, lookup),
            Err::<PackPlan, PlanError>(e),
        ),
    ensures
        e is RangeOutOfRange || (0 <= found.0 < ranges@.len() && span_asked(
            lookup,
            ranges@[found.0],
            mem_virtual_size,
            found.1,
        ) && explains(layers@, opened@, found.1, e)),
{
    let stack = Stack { layers: layers@, opened: opened@ };
    let res = Err::<PackPlan, PlanError>(e);
    lemma_usable(layers@, 0);
    assert(layers_error(layers@) is None);
    let answers = choose|answers: Seq<Vec<SegmentMapping>>| #[trigger]
        ranges_planned(
            res,
            stack,
            lookup,
            ranges@,
            mem_virtual_size,
            answers,
            budget as int,
        );
    stack.lemma_layers_fine(lookup, mem_virtual_size);
    let n = ranges@.len() as int;
    assert(ranges@.take(n) =~= ranges@);
    let i = stack.lemma_span_explained(
        lookup,
        ranges@,
        mem_virtual_size,
        answers,
        budget as int,
        n,
    );
    (i, answers[i]@)
}

/// Whether all is stored that the first `n` units need: every byte that the
/// index maps for them, and the header and the index of the layers that these
/// lie in.
pub open spec fn units_stored(
    layers: Seq<FinalLayerSource>,
    opened: Seq<OpenedLayer>,
    answers: Seq<Vec<SegmentMapping>>,
    n: int,
) -> bool {
    &&& forall|i: int, k: int|
        0 <= i < n && 0 <= k < answers[i]@.len() ==> mapping_stored(
            opened,
            #[trigger] answers[i]@[k],
        )
    &&& forall|layer: usize| #[trigger]
        units_touch(layers, opened, answers, n, layer as int) ==> metadata_stored(
            opened[layer as int],
        )
}

impl Stack {
    proof fn lemma_resolved_mapping(self, answer: Seq<SegmentMapping>, k: int)
        requires
            self.wf(),
            self.answer_ok(answer),
            ids_fit(self.layers),
            self.resolve(answer) is Ok,
            0 <= k < answer.len(),
        ensures
            mapping_stored(self.opened, answer[k]),
        decreases answer.len(),
    {
        let init = answer.drop_last();
        let n = init.len() as int;
        let m = answer.last();
        if k < n {
            assert(self.answer_ok(init)) by {
                assert forall|i: int| 0 <= i < init.len() implies self.mapping_ok(
                    #[trigger] init[i],
                ) by {
                    assert(init[i] == answer[i]);
                }
            }
            assert(init[k] == answer[k]);
            self.lemma_resolved_mapping(init, k);
        } else if m.physical {
            assert(self.mapping_ok(answer[n]));
            let l = self.layer_of(m);
            assert(self.layers[l].size <= 0x1_0000_0000 * 262144);
            law_stored_bytes_have_blocks(
                self.opened[l].layout,
                m.moffset * 512,
                m.length * 512,
                self.layers[l].size as int,
            );
        }
    }

    proof fn lemma_metadata_of(self, layer: usize)
        requires
            self.wf(),
            ids_fit(self.layers),
            layer < self.layers.len(),
            self.metadata_blocks(layer) is Ok,
        ensures
            metadata_stored(self.opened[layer as int]),
    {
        let o = self.opened[layer as int];
        let size = self.layers[layer as int].size as int;
        assert(self.layers[layer as int].size <= 0x1_0000_0000 * 262144);
        law_stored_bytes_have_blocks(o.layout, 0, 4096, size);
        if o.metadata.file_size > o.metadata.index_offset {
            law_stored_bytes_have_blocks(
                o.layout,
                o.metadata.index_offset as int,
                o.metadata.file_size - o.metadata.index_offset,
                size,
            );
        }
    }

    /// What exactly is selected is stored.
    proof fn lemma_units_stored(self, p: Progress, answers: Seq<Vec<SegmentMapping>>, n: int)
        requires
            self.wf(),
            ids_fit(self.layers),
            0 <= n,
            forall|i: int|
                #![trigger answers[i]]
                0 <= i < n ==> self.answer_ok(answers[i]@) && self.resolve(answers[i]@) is Ok,
            self.selects_exactly(p, self.used_upto(answers, n)),
        ensures
            units_stored(self.layers, self.opened, answers, n),
    {
        assert forall|i: int, k: int|
            0 <= i < n && 0 <= k < answers[i]@.len() implies mapping_stored(
            self.opened,
            #[trigger] answers[i]@[k],
        ) by {
            self.lemma_resolved_mapping(answers[i]@, k);
        }
        assert forall|layer: usize| #[trigger]
            units_touch(self.layers, self.opened, answers, n, layer as int) implies metadata_stored(
            self.opened[layer as int],
        ) by {
            self.lemma_touched_by_bytes(answers, n, layer);
            self.lemma_metadata_of(layer);
        }
    }
}

/// A plan of pages is made only of what is stored: for the pages before the cut
/// every byte that the index maps has a stored form, and so have the headers and
/// the indexes of the layers that these lie in.
pub proof fn law_planned_pages_are_stored<F: Fn(Segment) -> Vec<SegmentMapping>>(
    pages: &[u32],
    mem_virtual_size: u64,
    layers: &[FinalLayerSource],
    opened: &[OpenedLayer],
    budget: u64,
    lookup: F,
    plan: PackPlan,
) -> (answers: Seq<Vec<SegmentMapping>>)
    requires
        (Stack { layers: layers@, opened: opened@ }).plannable(lookup, mem_virtual_size),
        ids_fit(layers@),
        call_ensures(
            plan_blocks::<F>,
            (pages, mem_virtual_size, layers, opened, budget, lookup),
            Ok::<PackPlan, PlanError>(plan),
        ),
    ensures
        plans_pages(
            plan,
            pages@,
            mem_virtual_size,
            layers@,
            opened@,
            budget,
            lookup,
            answers,
        ),
        units_stored(
            layers@,
            opened@,
            answers,
            pages@.len() - plan.stats.pages_truncated_by_budget,
        ),
{
    let stack = Stack { layers: layers@, opened: opened@ };
    let res = Ok::<PackPlan, PlanError>(plan);
    let mem = mem_virtual_size;
    let limit = budget as int;
    stack.lemma_layers_fine(lookup, mem);
    let answers = choose|answers: Seq<Vec<SegmentMapping>>| #[trigger]
        blocks_planned(res, stack, lookup, pages@, mem, answers, limit);
    stack.lemma_plans_pages(lookup, pages@, mem, answers, budget, plan);
    let n = pages@.len() - plan.stats.pages_truncated_by_budget;
    stack.law_cut_plan_is_that_of_the_pages_before(pages@, mem, answers, limit, limit);
    let front = pages@.take(n);
    assert forall|i: int| #![trigger answers[i]] 0 <= i < n implies stack.answer_ok(answers[i]@)
        && stack.resolve(answers[i]@) is Ok by {
        stack.lemma_pages_ok(lookup, pages@, mem, answers, limit, n, i);
    }
    stack.law_pages_select_exactly(front, mem, answers, limit);
    stack.lemma_units_stored(
        stack.after_pages(front, mem, answers, limit),
        answers,
        n,
    );
    answers
}

/// A plan of spans is made only of what is stored: for the spans before the cut
/// every byte that the index maps has a stored form, and so have the headers and
/// the indexes of the layers that these lie in.
pub proof fn law_planned_spans_are_stored<F: Fn(Segment) -> Vec<SegmentMapping>>(
    ranges: &[(u64, u64)],
    mem_virtual_size: u64,
    layers: &[FinalLayerSource],
    opened: &[OpenedLayer],
    budget: u64,
    lookup: F,
    plan: PackPlan,
) -> (found: (int, Seq<Vec<SegmentMapping>>))
    requires
        (Stack { layers: layers@, opened: opened@ }).plannable(lookup, mem_virtual_size),
        ids_fit(layers@),
        call_ensures(
            plan_ranges::<F>,
            (ranges, mem_virtual_size, layers, opened, budget, lookup),
            Ok::<PackPlan, PlanError>(plan),
        ),
    ensures
        0 <= found.0 <= ranges@.len(),
        plan.stats.pages_truncated_by_budget == total_pages(ranges@) - total_pages(
            ranges@.take(found.0),
        ),
        forall|i: int|
            0 <= i < found.0 ==> span_asked(
                lookup,
                ranges@[i],
                mem_virtual_size,
                (#[trigger] found.1[i])@,
            ),
        plans_units(plan, layers@, opened@, found.1, found.0),
        units_stored(layers@, opened@, found.1, found.0),
{
    let stack = Stack { layers: layers@, opened: opened@ };
    let res = Ok::<PackPlan, PlanError>(plan);
    let mem = mem_virtual_size;
    let limit = budget as int;
    stack.lemma_layers_fine(lookup, mem);
    let answers = choose|answers: Seq<Vec<SegmentMapping>>| #[trigger]
        ranges_planned(res, stack, lookup, ranges@, mem, answers, limit);
    let n = stack.lemma_spans_by_bytes(lookup, ranges@, mem, answers, limit, plan);
    let front = ranges@.take(n);
    assert forall|i: int| #![trigger answers[i]] 0 <= i < n implies stack.answer_ok(answers[i]@)
        && stack.resolve(answers[i]@) is Ok by {
        stack.lemma_spans_ok(lookup, ranges@, mem, answers, limit, n, i);
    }
    assert forall|i: int| 0 <= i < n implies span_asked(
        lookup,
        ranges@[i],
        mem,
        (#[trigger] answers[i])@,
    ) by {
        stack.lemma_spans_asked(lookup, ranges@, mem, answers, limit, n, i);
    }
    stack.law_ranges_select_exactly(front, mem, answers, limit);
    stack.lemma_units_stored(
        stack.after_ranges(front, mem, answers, limit),
        answers,
        n,
    );
    (n, answers)
}

/// A page that is refused as out of range is the first one of the list that
/// does not end in the image.
pub proof fn law_refused_page<F: Fn(Segment) -> Vec<SegmentMapping>>(
    pages: &[u32],
    mem_virtual_size: u64,
    layers: &[FinalLayerSource],
    opened: &[OpenedLayer],
    budget: u64,
    lookup: F,
    page: u32,
) -> (k: int)
    requires
        layers_usable(layers@),
        call_ensures(
            plan_blocks::<F>,
            (pages, mem_virtual_size, layers, opened, budget, lookup),
            Err::<PackPlan, PlanError>(PlanError::PageOutOfRange { page }),
        ),
    ensures
        0 <= k < pages@.len(),
        pages@[k] == page,
        (page + 1) * 4096 > mem_virtual_size,
        forall|i: int| 0 <= i < k ==> ((#[trigger] pages@[i]) + 1) * 4096 <= mem_virtual_size,
{
    let stack = Stack { layers: layers@, opened: opened@ };
    let res = Err::<PackPlan, PlanError>(PlanError::PageOutOfRange { page });
    lemma_usable(layers@, 0);
    assert(layers_error(layers@) is None);
    let answers = choose|answers: Seq<Vec<SegmentMapping>>| #[trigger]
        blocks_planned(
            res,
            stack,
            lookup,
            pages@,
            mem_virtual_size,
            answers,
            budget as int,
        );
    stack.lemma_page_out_of_range(pages@, mem_virtual_size, answers, budget as int, page)
}

/// Spans are planned only where every one of them is a non-empty run of whole
/// pages of the image, behind the cut too. One that is refused as out of range
/// is the first one of the list that is not.
pub proof fn law_refused_span<F: Fn(Segment) -> Vec<SegmentMapping>>(
    ranges: &[(u64, u64)],
    mem_virtual_size: u64,
    layers: &[FinalLayerSource],
    opened: &[OpenedLayer],
    budget: u64,
    lookup: F,
    res: Result<PackPlan, PlanError>,
    i: int,
)
    requires
        layers_usable(layers@),
        call_ensures(
            plan_ranges::<F>,
            (ranges, mem_virtual_size, layers, opened, budget, lookup),
            res,
        ),
    ensures
        0 <= i < ranges@.len() && !range_fits(mem_virtual_size, ranges@[i]) ==> res is Err,
        res matches Err(PlanError::RangeOutOfRange { voffset, vlen }) ==> exists|k: int|
            #![trigger ranges@[k]]
            {
                &&& 0 <= k < ranges@.len()
                &&& ranges@[k] == (voffset, vlen)
                &&& !range_fits(mem_virtual_size, ranges@[k])
                &&& forall|i: int|
                    0 <= i < k ==> range_fits(mem_virtual_size, #[trigger] ranges@[i])
            },
{
    let stack = Stack { layers: layers@, opened: opened@ };
    lemma_usable(layers@, 0);
    assert(layers_error(layers@) is None);
    let answers = choose|answers: Seq<Vec<SegmentMapping>>| #[trigger]
        ranges_planned(
            res,
            stack,
            lookup,
            ranges@,
            mem_virtual_size,
            answers,
            budget as int,
        );
    match res {
        Ok(plan) => {
            if 0 <= i < ranges@.len() {
                stack.lemma_spans_in_image(ranges@, mem_virtual_size, answers, budget as int, i);
            }
        },
        Err(PlanError::RangeOutOfRange { voffset, vlen }) => {
            let k = stack.lemma_span_out_of_range(
                ranges@,
                mem_virtual_size,
                answers,
                budget as int,
                (voffset, vlen),
            );
            assert(ranges@[k] == (voffset, vlen));
        },
        Err(_) => {},
    }
}

} // verus!
