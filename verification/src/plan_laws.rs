//! What holds of every plan.
use vstd::prelude::*;
use crate::extents::{LayerLayout, OBJECT_BLOCK_BYTES, aligned_blocks, object_blocks, zfile_blocks};
use crate::plan_lemmas::{
    distinct_blocks, lemma_extend_blocks, lemma_extend_concat, lemma_extend_objects,
    lemma_layer_order,
};
use crate::plan_model::{
    HEADER_BYTES, Need, PLAN_PAGE_BYTES, Progress, SECTOR_BYTES, SegmentMapping, Stack, Weight,
    backed, data_needs, extend_blocks, extend_objects, layer_needs,
    layer_order, no_progress, one_page, selects, span_weight, tail_len,
};

verus! {

/// Every block lies below the limit.
pub open spec fn all_below(blocks: Seq<u32>, limit: int) -> bool {
    forall|i: int| 0 <= i < blocks.len() ==> #[trigger] blocks[i] < limit
}

proof fn lemma_aligned_in_object(offset: int, len: int, size: int)
    requires
        0 <= offset,
        0 < size,
    ensures
        aligned_blocks(offset, len, size) matches Ok(blocks) ==> all_below(
            blocks,
            object_blocks(size),
        ),
{
}

proof fn lemma_zfile_in_object(
    extents: Seq<(u64, u64)>,
    tar_base: int,
    size: int,
    idx: int,
    last: int,
)
    requires
        0 <= tar_base,
        0 < size,
    ensures
        zfile_blocks(extents, tar_base, size, idx, last) matches Ok(blocks) ==> all_below(
            blocks,
            object_blocks(size),
        ),
    decreases last + 1 - idx,
{
    if idx <= last && 0 <= idx < extents.len() {
        lemma_aligned_in_object(extents[idx].0 + tar_base, extents[idx].1 as int, size);
        lemma_zfile_in_object(extents, tar_base, size, idx + 1, last);
    }
}

/// The blocks behind an extent lie in the object.
pub proof fn lemma_blocks_in_object(layout: LayerLayout, offset: int, len: int, size: int)
    requires
        0 <= offset,
        0 < size,
    ensures
        layout.blocks_of(offset, len, size) matches Ok(blocks) ==> all_below(
            blocks,
            object_blocks(size),
        ),
{
    match layout {
        LayerLayout::Raw { tar_base } => {
            lemma_aligned_in_object(offset + tar_base, len, size);
        },
        LayerLayout::ZFile { block_size, extents, tar_base } => {
            lemma_zfile_in_object(
                extents@,
                tar_base as int,
                size,
                offset / block_size as int,
                (offset + len - 1) / block_size as int,
            );
        },
    }
}

impl Stack {
    /// Dependencies that lie in their layers' objects.
    pub open spec fn deps_in_objects(self, deps: Seq<(usize, u32)>) -> bool {
        forall|i: int|
            #![trigger deps[i]]
            0 <= i < deps.len() ==> deps[i].0 < self.layers.len() && deps[i].1 < object_blocks(
                self.layers[deps[i].0 as int].size as int,
            )
    }

    /// What answers resolve to lies in the layers' objects; without a
    /// physical range it is nothing.
    pub proof fn lemma_resolved_in_objects(self, mappings: Seq<SegmentMapping>)
        requires
            self.wf(),
            self.answer_ok(mappings),
        ensures
            self.resolve(mappings) matches Ok(deps) ==> self.deps_in_objects(deps) && (!backed(
                mappings,
            ) ==> deps.len() == 0),
        decreases mappings.len(),
    {
        if mappings.len() > 0 {
            let init = mappings.drop_last();
            let m = mappings.last();
            assert(self.answer_ok(init)) by {
                assert forall|i: int| 0 <= i < init.len() implies self.mapping_ok(
                    #[trigger] init[i],
                ) by {
                    assert(init[i] == mappings[i]);
                }
            }
            self.lemma_resolved_in_objects(init);
            assert(self.mapping_ok(mappings[mappings.len() - 1]));
            if backed(init) {
                let i = choose|i: int| 0 <= i < init.len() && (#[trigger] init[i]).physical;
                assert(mappings[i].physical);
            }
            if m.physical {
                assert(mappings[mappings.len() - 1].physical);
                let l = self.layer_of(m);
                assert(self.layers[l].size > 0);
                lemma_blocks_in_object(
                    self.opened[l].layout,
                    m.moffset * SECTOR_BYTES,
                    m.length * SECTOR_BYTES,
                    self.layers[l].size as int,
                );
            }
        }
    }

    /// The metadata blocks of a layer lie in its object.
    pub proof fn lemma_metadata_below(self, layer: usize)
        requires
            self.wf(),
            layer < self.layers.len(),
        ensures
            self.metadata_blocks(layer) matches Ok(blocks) ==> all_below(
                blocks,
                object_blocks(self.layers[layer as int].size as int),
            ),
    {
        let opened = self.opened[layer as int];
        let size = self.layers[layer as int].size as int;
        assert(self.layers[layer as int].size > 0);
        lemma_blocks_in_object(opened.layout, 0, PLAN_PAGE_BYTES as int, size);
        lemma_blocks_in_object(
            opened.layout,
            opened.metadata.index_offset as int,
            tail_len(opened.metadata),
            size,
        );
    }

    proof fn lemma_metadata_in_objects(self, order: Seq<usize>, objects: Seq<usize>)
        requires
            self.wf(),
            forall|i: int| 0 <= i < order.len() ==> #[trigger] order[i] < self.layers.len(),
        ensures
            self.metadata_needs(order, objects) matches Ok(needs) ==> self.in_objects(needs),
        decreases order.len(),
    {
        if order.len() > 0 {
            let init = order.drop_last();
            assert(forall|i: int| 0 <= i < init.len() ==> #[trigger] init[i] == order[i]);
            self.lemma_metadata_in_objects(init, objects);
            let l = order.last();
            assert(order[order.len() - 1] < self.layers.len());
            let opened = self.opened[l as int];
            let size = self.layers[l as int].size as int;
            assert(self.layers[l as int].size > 0);
            lemma_blocks_in_object(opened.layout, 0, PLAN_PAGE_BYTES as int, size);
            lemma_blocks_in_object(
                opened.layout,
                opened.metadata.index_offset as int,
                tail_len(opened.metadata),
                size,
            );
        }
    }

    /// All that a unit needs lies in the layers' objects.
    pub proof fn lemma_unit_in_objects(self, objects: Seq<usize>, deps: Seq<(usize, u32)>)
        requires
            self.wf(),
            self.deps_in_objects(deps),
        ensures
            self.unit_needs(objects, deps) matches Ok(needs) ==> self.in_objects(needs),
    {
        let order = layer_order(deps);
        crate::plan_lemmas::lemma_layer_order(deps);
        assert forall|i: int| 0 <= i < order.len() implies #[trigger] order[i]
            < self.layers.len() by {
            assert(order.contains(order[i]));
            let k = choose|k: int| 0 <= k < deps.len() && (#[trigger] deps[k]).0 == order[i];
        }
        self.lemma_metadata_in_objects(order, objects);
        if self.metadata_needs(order, objects) is Ok {
            let meta = self.metadata_needs(order, objects)->Ok_0;
            let needs = meta + data_needs(deps);
            assert forall|i: int| #![trigger needs[i]] 0 <= i < needs.len() implies needs[i].layer
                < self.layers.len() && needs[i].block < object_blocks(
                self.layers[needs[i].layer as int].size as int,
            ) by {
                if i < meta.len() {
                    assert(needs[i] == meta[i]);
                } else {
                    assert(deps[i - meta.len()].0 == needs[i].layer);
                }
            }
        }
    }

    /// Taking a unit keeps the selection within the layers' objects.
    pub proof fn lemma_stage_in_objects(
        self,
        p: Progress,
        deps: Seq<(usize, u32)>,
        weight: Weight,
        budget: int,
    )
        requires
            self.wf(),
            self.deps_in_objects(deps),
            self.in_objects(p.blocks),
        ensures
            self.in_objects(self.stage(p, deps, weight, budget).blocks),
    {
        self.lemma_unit_in_objects(p.objects, deps);
        if self.unit_needs(p.objects, deps) is Ok {
            let needs = self.unit_needs(p.objects, deps)->Ok_0;
            lemma_extend_blocks(p.blocks, needs);
            let all = extend_blocks(p.blocks, needs);
            assert forall|i: int| #![trigger all[i]] 0 <= i < all.len() implies all[i].layer
                < self.layers.len() && all[i].block < object_blocks(
                self.layers[all[i].layer as int].size as int,
            ) by {
                if i < p.blocks.len() {
                    assert(all[i] == p.blocks[i]);
                } else {
                    assert(needs.contains(all[i]));
                    let k = choose|k: int| 0 <= k < needs.len() && needs[k] == all[i];
                    assert(needs[k].layer < self.layers.len());
                }
            }
        }
    }
}

impl Stack {
    /// The size of the planned artifact: header, object table, entry table,
    /// frame checksums and slot payload.
    pub open spec fn file_bytes(self, p: Progress) -> int {
        self.artifact_bytes(p.objects, p.blocks.len() as int)
    }

    /// Whether all metadata blocks of a layer are among `blocks`.
    pub open spec fn metadata_selected(self, blocks: Seq<Need>, layer: usize) -> bool {
        self.metadata_blocks(layer) matches Ok(meta) && forall|i: int|
            0 <= i < meta.len() ==> selects(blocks, layer, #[trigger] meta[i] as int)
    }

    /// Whether the metadata blocks of each layer stand before the first of its
    /// data blocks.
    pub open spec fn metadata_first(self, blocks: Seq<Need>) -> bool {
        forall|i: int|
            0 <= i < blocks.len() && !(#[trigger] blocks[i]).metadata ==> self.metadata_selected(
                blocks.take(i),
                blocks[i].layer,
            )
    }

    /// What holds of planning after any units.
    pub open spec fn well_planned(self, p: Progress, budget: int) -> bool {
        &&& p.objects.no_duplicates()
        &&& distinct_blocks(p.blocks)
        &&& self.in_objects(p.blocks)
        &&& forall|i: int|
            0 <= i < p.blocks.len() ==> p.objects.contains((#[trigger] p.blocks[i]).layer)
        &&& forall|i: int|
            0 <= i < p.objects.len() ==> #[trigger] p.objects[i] < self.layers.len()
                && self.metadata_selected(p.blocks, p.objects[i])
        &&& self.metadata_first(p.blocks)
        &&& self.file_bytes(p) == p.spent
        &&& p.spent <= budget || p.spent == HEADER_BYTES
    }

    proof fn lemma_metadata_selected_grows(self, a: Seq<Need>, b: Seq<Need>, layer: usize)
        requires
            self.metadata_selected(a, layer),
            a.is_prefix_of(b),
        ensures
            self.metadata_selected(b, layer),
    {
        let meta = self.metadata_blocks(layer)->Ok_0;
        assert forall|i: int| 0 <= i < meta.len() implies selects(
            b,
            layer,
            #[trigger] meta[i] as int,
        ) by {
            assert(selects(a, layer, meta[i] as int));
            let k = choose|k: int|
                0 <= k < a.len() && (#[trigger] a[k]).layer == layer && a[k].block
                    == meta[i] as int;
            assert(b[k] == a[k]);
        }
    }

    /// The metadata that a unit needs holds that of each layer of `order` that
    /// is not among `objects`.
    proof fn lemma_metadata_needed(
        self,
        order: Seq<usize>,
        objects: Seq<usize>,
        have: Seq<Need>,
        layer: usize,
    )
        requires
            self.metadata_needs(order, objects) is Ok,
            order.contains(layer),
            !objects.contains(layer),
        ensures
            self.metadata_selected(
                extend_blocks(have, self.metadata_needs(order, objects)->Ok_0),
                layer,
            ),
        decreases order.len(),
    {
        let needs = self.metadata_needs(order, objects)->Ok_0;
        let init = order.drop_last();
        let rest = self.metadata_needs(init, objects)->Ok_0;
        if order.last() == layer {
            let meta = self.metadata_blocks(layer)->Ok_0;
            lemma_extend_blocks(have, needs);
            assert forall|i: int| 0 <= i < meta.len() implies selects(
                extend_blocks(have, needs),
                layer,
                #[trigger] meta[i] as int,
            ) by {
                let x = needs[rest.len() + i];
                assert(x == layer_needs(layer, meta)[i]);
            }
        } else {
            let k = choose|k: int| 0 <= k < order.len() && order[k] == layer;
            assert(init[k] == layer);
            self.lemma_metadata_needed(init, objects, have, layer);
            if objects.contains(order.last()) {
                assert(needs == rest);
            } else {
                let more = layer_needs(
                    order.last(),
                    self.metadata_blocks(order.last())->Ok_0,
                );
                lemma_extend_concat(have, objects, rest, more);
                lemma_extend_blocks(extend_blocks(have, rest), more);
                self.lemma_metadata_selected_grows(
                    extend_blocks(have, rest),
                    extend_blocks(have, needs),
                    layer,
                );
            }
        }
    }

    /// Taking a unit keeps the metadata of all touched layers selected, and
    /// before their data.
    proof fn lemma_stage_metadata(self, p: Progress, deps: Seq<(usize, u32)>)
        requires
            self.unit_needs(p.objects, deps) is Ok,
            self.metadata_first(p.blocks),
            forall|i: int|
                0 <= i < p.objects.len() ==> self.metadata_selected(
                    p.blocks,
                    #[trigger] p.objects[i],
                ),
        ensures
            ({
                let needs = self.unit_needs(p.objects, deps)->Ok_0;
                let objects = extend_objects(p.objects, needs);
                let blocks = extend_blocks(p.blocks, needs);
                &&& self.metadata_first(blocks)
                &&& forall|i: int|
                    0 <= i < objects.len() ==> self.metadata_selected(
                        blocks,
                        #[trigger] objects[i],
                    )
            }),
    {
        let order = layer_order(deps);
        let meta = self.metadata_needs(order, p.objects)->Ok_0;
        let data = data_needs(deps);
        let needs = self.unit_needs(p.objects, deps)->Ok_0;
        let objects = extend_objects(p.objects, needs);
        let blocks = extend_blocks(p.blocks, needs);
        let mid = extend_blocks(p.blocks, meta);
        lemma_extend_concat(p.blocks, p.objects, meta, data);
        lemma_extend_blocks(p.blocks, meta);
        lemma_extend_blocks(mid, data);
        lemma_extend_objects(p.objects, needs);
        lemma_layer_order(deps);
        self.lemma_metadata_layers(order, p.objects);
        assert forall|l: usize| objects.contains(l) implies self.metadata_selected(mid, l) by {
            if p.objects.contains(l) {
                let k = choose|k: int| 0 <= k < p.objects.len() && p.objects[k] == l;
                assert(self.metadata_selected(p.blocks, p.objects[k]));
                self.lemma_metadata_selected_grows(p.blocks, mid, l);
            } else {
                let k = choose|k: int| 0 <= k < needs.len() && (#[trigger] needs[k]).layer == l;
                if k < meta.len() {
                    assert(meta[k].layer == l);
                } else {
                    assert(deps[k - meta.len()].0 == l);
                }
                assert(order.contains(l));
                self.lemma_metadata_needed(order, p.objects, p.blocks, l);
            }
        }
        assert forall|i: int| 0 <= i < objects.len() implies self.metadata_selected(
            blocks,
            #[trigger] objects[i],
        ) by {
            assert(objects.contains(objects[i]));
            self.lemma_metadata_selected_grows(mid, blocks, objects[i]);
        }
        assert forall|i: int|
            0 <= i < blocks.len() && !(#[trigger] blocks[i]).metadata implies self.metadata_selected(
            blocks.take(i),
            blocks[i].layer,
        ) by {
            if i < p.blocks.len() {
                assert(blocks[i] == mid[i] && mid[i] == p.blocks[i]);
                assert(blocks.take(i) =~= p.blocks.take(i));
            } else if i < mid.len() {
                assert(blocks[i] == mid[i]);
                assert(meta.contains(mid[i]));
                let k = choose|k: int| 0 <= k < meta.len() && meta[k] == mid[i];
                assert(meta[k].metadata);
            } else {
                assert(data.contains(blocks[i]));
                let k = choose|k: int| 0 <= k < data.len() && data[k] == blocks[i];
                assert(needs[meta.len() + k].layer == blocks[i].layer);
                assert(objects.contains(blocks[i].layer));
                assert(mid.is_prefix_of(blocks.take(i)));
                self.lemma_metadata_selected_grows(mid, blocks.take(i), blocks[i].layer);
            }
        }
    }

    /// Taking a unit keeps what holds of planning.
    pub proof fn lemma_stage_well_planned(
        self,
        p: Progress,
        deps: Seq<(usize, u32)>,
        weight: Weight,
        budget: int,
    )
        requires
            self.wf(),
            self.deps_in_objects(deps),
            self.well_planned(p, budget),
        ensures
            self.well_planned(self.stage(p, deps, weight, budget), budget),
    {
        let q = self.stage(p, deps, weight, budget);
        let needs = self.unit_needs(p.objects, deps)->Ok_0;
        if self.unit_needs(p.objects, deps) is Ok && self.artifact_bytes(
            extend_objects(p.objects, needs),
            extend_blocks(p.blocks, needs).len() as int,
        ) <= budget {
            self.lemma_stage_in_objects(p, deps, weight, budget);
            self.lemma_unit_in_objects(p.objects, deps);
            lemma_extend_blocks(p.blocks, needs);
            lemma_extend_objects(p.objects, needs);
            self.lemma_stage_metadata(p, deps);
            assert forall|i: int| 0 <= i < q.blocks.len() implies q.objects.contains(
                (#[trigger] q.blocks[i]).layer,
            ) by {
                if i < p.blocks.len() {
                    assert(q.blocks[i] == p.blocks[i]);
                    assert(p.objects.contains(p.blocks[i].layer));
                } else {
                    assert(needs.contains(q.blocks[i]));
                    let k = choose|k: int| 0 <= k < needs.len() && needs[k] == q.blocks[i];
                    assert(needs[k].layer == q.blocks[i].layer);
                }
            }
            assert forall|i: int| 0 <= i < q.objects.len() implies #[trigger] q.objects[i]
                < self.layers.len() by {
                assert(q.objects.contains(q.objects[i]));
                if p.objects.contains(q.objects[i]) {
                    let k = choose|k: int| 0 <= k < p.objects.len() && p.objects[k]
                        == q.objects[i];
                    assert(p.objects[k] < self.layers.len());
                } else {
                    let k = choose|k: int|
                        0 <= k < needs.len() && (#[trigger] needs[k]).layer == q.objects[i];
                }
            }
        }
    }

    pub proof fn lemma_take_unit_well_planned(
        self,
        p: Progress,
        mappings: Seq<SegmentMapping>,
        weight: Weight,
        budget: int,
    )
        requires
            self.wf(),
            self.answer_ok(mappings),
            self.well_planned(p, budget),
        ensures
            self.well_planned(self.take_unit(p, mappings, weight, budget), budget),
    {
        self.lemma_resolved_in_objects(mappings);
        if self.resolve(mappings) is Ok {
            self.lemma_stage_well_planned(p, self.resolve(mappings)->Ok_0, weight, budget);
        }
    }

    /// Whether the answers for the first `n` units can be resolved within 64
    /// bits.
    pub open spec fn answers_ok(self, answers: Seq<Vec<SegmentMapping>>, n: int) -> bool {
        forall|i: int| 0 <= i < n ==> self.answer_ok((#[trigger] answers[i])@)
    }

    pub proof fn lemma_start_well_planned(self, budget: int)
        ensures
            self.well_planned(no_progress(), budget),
    {
        assert(self.object_bytes(Seq::empty()) == 0);
    }

    /// A page plan selects no block twice, only blocks of the layers' objects,
    /// and the metadata blocks of a layer before the first of its data blocks.
    /// It accounts for the whole artifact, and spends more than the header only
    /// within the budget.
    pub proof fn law_page_plan(
        self,
        pages: Seq<u32>,
        mem_virtual_size: u64,
        answers: Seq<Vec<SegmentMapping>>,
        budget: int,
    )
        requires
            self.wf(),
            self.answers_ok(answers, pages.len() as int),
        ensures
            self.well_planned(
                self.after_pages(pages, mem_virtual_size, answers, budget),
                budget,
            ),
        decreases pages.len(),
    {
        if pages.len() == 0 {
            self.lemma_start_well_planned(budget);
        } else {
            let init = pages.drop_last();
            self.law_page_plan(init, mem_virtual_size, answers, budget);
            let p = self.after_pages(init, mem_virtual_size, answers, budget);
            let answer = answers[pages.len() - 1]@;
            self.lemma_take_unit_well_planned(p, answer, one_page(), budget);
        }
    }

    /// A span plan selects no block twice, only blocks of the layers' objects,
    /// and the metadata blocks of a layer before the first of its data blocks.
    /// It accounts for the whole artifact, and spends more than the header only
    /// within the budget.
    pub proof fn law_range_plan(
        self,
        ranges: Seq<(u64, u64)>,
        mem_virtual_size: u64,
        answers: Seq<Vec<SegmentMapping>>,
        budget: int,
    )
        requires
            self.wf(),
            self.answers_ok(answers, ranges.len() as int),
        ensures
            self.well_planned(
                self.after_ranges(ranges, mem_virtual_size, answers, budget),
                budget,
            ),
        decreases ranges.len(),
    {
        if ranges.len() == 0 {
            self.lemma_start_well_planned(budget);
        } else {
            let init = ranges.drop_last();
            self.law_range_plan(init, mem_virtual_size, answers, budget);
            let p = self.after_ranges(init, mem_virtual_size, answers, budget);
            let answer = answers[ranges.len() - 1]@;
            let weight = span_weight(ranges.last(), answer);
            self.lemma_take_unit_well_planned(p, answer, weight, budget);
        }
    }

    /// Where the budget covers the header, the whole artifact stays within it.
    pub proof fn law_artifact_within_budget(self, p: Progress, budget: int)
        requires
            self.well_planned(p, budget),
            budget >= HEADER_BYTES,
        ensures
            self.file_bytes(p) <= budget,
            p.blocks.len() * OBJECT_BLOCK_BYTES <= budget,
    {
        assert(p.objects.take(p.objects.len() as int) =~= p.objects);
        self.lemma_object_bytes_grow(p.objects, 0);
    }
}

} // verus!
