//! Planner state: stages the blocks that a unit of pages depends on, and
//! selects them where they fit the budget.
use std::collections::HashMap;
use vstd::prelude::*;
use crate::extents::{OBJECT_BLOCK_BYTES, PlanError, div_ceil, map_extent_blocks, object_blocks};
use crate::plan_laws::all_below;
use crate::plan_lemmas::{
    distinct_blocks, lemma_extend_blocks, lemma_extend_blocks_push, lemma_extend_concat,
    lemma_extend_objects, lemma_extend_objects_push, lemma_gap, lemma_layer_order,
    lemma_layer_order_prefix, lemma_missing_bounds, lemma_pigeonhole,
};
use crate::plan_model::{
    ENTRY_BYTES, FRAME_BYTES, FRAME_CHECKSUM_BYTES, FinalLayerSource, HEADER_BYTES, MAX_LAYERS,
    Need, OBJECT_ENTRY_FIXED_BYTES, OpenedLayer, PLAN_PAGE_BYTES, Progress, SECTOR_BYTES,
    SegmentMapping, Stack, Weight, backed, data_needs, empty_layer, extend_blocks, extend_objects,
    frame_bytes, layer_needs, layer_order, layers_error, metadata_count, missing_blocks,
    missing_runs, no_progress, resolution_of, selects,
};
use crate::sorting::{lemma_same_elements, sort_triples, sorted_triples, triple_le};
use crate::pack_plan::{
    PackPlan, PlanStats, PlannedBlock, PlannedObject, need_of, needs_of, object_layers, placed,
    plan_of,
};

verus! {

/// The key of a planned block in the index of selected blocks.
pub open spec fn block_key(object: u16, block_id: u32) -> u64 {
    (object * 0x1_0000_0000 + block_id) as u64
}

/// Planner state: the selection so far and what it was selected from.
pub struct BlockPlanner<'a> {
    layers: &'a [FinalLayerSource],
    opened: &'a [OpenedLayer],
    budget_bytes: u64,
    spent_bytes: u64,
    stats: PlanStats,
    objects: Vec<PlannedObject>,
    object_of_layer: Vec<Option<u16>>,
    blocks: Vec<PlannedBlock>,
    seen: HashMap<u64, usize>,
    metadata_emitted: Vec<bool>,
}

impl<'a> BlockPlanner<'a> {
    /// The layers that are planned against.
    pub closed spec fn stack(self) -> Stack {
        Stack { layers: self.layers@, opened: self.opened@ }
    }

    /// The bytes that may be spent.
    pub closed spec fn budget(self) -> int {
        self.budget_bytes as int
    }

    /// The object table and its inverse agree.
    spec fn objects_ok(self) -> bool {
        &&& self.stack().wf()
        &&& self.object_of_layer@.len() == self.layers@.len()
        &&& self.metadata_emitted@.len() == self.layers@.len()
        &&& forall|i: int|
            #![trigger self.objects@[i]]
            0 <= i < self.objects@.len() ==> {
                let o = self.objects@[i];
                &&& i <= u16::MAX
                &&& o.layer < self.layers@.len()
                &&& o.digest == self.layers@[o.layer as int].digest
                &&& o.size == self.layers@[o.layer as int].size
                &&& self.object_of_layer@[o.layer as int] == Some(i as u16)
            }
        &&& forall|l: int|
            #![trigger self.object_of_layer@[l]]
            0 <= l < self.object_of_layer@.len() ==> (self.object_of_layer@[l] matches Some(o)
                ==> o < self.objects@.len() && self.objects@[o as int].layer == l)
    }

    /// The index of selected blocks holds exactly the selected blocks.
    spec fn seen_ok(self) -> bool {
        &&& forall|i: int|
            #![trigger self.blocks@[i]]
            0 <= i < self.blocks@.len() ==> {
                let k = block_key(self.blocks@[i].object, self.blocks@[i].block_id);
                self.seen@.contains_key(k) && self.seen@[k] == i
            }
        &&& forall|k: u64| #[trigger]
            self.seen@.contains_key(k) ==> self.seen@[k] < self.blocks@.len() && k == block_key(
                self.blocks@[self.seen@[k] as int].object,
                self.blocks@[self.seen@[k] as int].block_id,
            )
    }

    /// The selection is well-formed, and its gaps are not counted yet.
    pub closed spec fn wf(self) -> bool {
        &&& self.sound()
        &&& self.stats.gap_runs == 0
        &&& self.stats.gap_blocks == 0
    }

    /// The pages that are planned for.
    pub closed spec fn pages_total(self) -> int {
        self.stats.pages_total as int
    }

    /// The selection is well-formed.
    spec fn sound(self) -> bool {
        &&& self.objects_ok()
        &&& placed(self.objects@, self.blocks@)
        &&& self.seen_ok()
        &&& self.stats.metadata_blocks == metadata_count(needs_of(self.objects@, self.blocks@))
        &&& self.stats.data_blocks + self.stats.metadata_blocks == self.blocks@.len()
        &&& self.spent_bytes == self.stack().artifact_bytes(
            object_layers(self.objects@),
            self.blocks@.len() as int,
        )
    }

    /// The blocks in `staged` can join the selection: they are new, lie in
    /// their layers' objects and are counted.
    spec fn staging(self, staged: Seq<PlannedBlock>) -> bool {
        &&& self.objects_ok()
        &&& self.seen_ok()
        &&& placed(self.objects@, self.blocks@ + staged)
        &&& distinct_blocks(self.selection(staged))
        &&& self.stack().in_objects(self.selection(staged))
        &&& self.stack().total_blocks() <= usize::MAX
        &&& self.stats.metadata_blocks == metadata_count(self.selection(staged))
        &&& self.stats.data_blocks + self.stats.metadata_blocks == self.blocks@.len() + staged.len()
    }

    /// The layers in the object table have had their metadata staged, and no
    /// others.
    pub closed spec fn emitted_ok(self) -> bool {
        forall|l: int|
            #![trigger self.metadata_emitted@[l]]
            0 <= l < self.layers@.len() ==> self.metadata_emitted@[l] == object_layers(
                self.objects@,
            ).contains(l as usize)
    }

    /// Where planning stands; `truncated` tells whether a unit did not fit.
    pub closed spec fn progress(self, truncated: bool) -> Progress {
        Progress {
            objects: object_layers(self.objects@),
            blocks: needs_of(self.objects@, self.blocks@),
            spent: self.spent_bytes as int,
            truncated,
            failed: None,
            backed: self.stats.pages_backed as int,
            holes: self.stats.pages_zero_hole as int,
            cut: self.stats.pages_truncated_by_budget as int,
        }
    }

    /// All but the object table, its inverse, the metadata flags and the counts
    /// of blocks.
    spec fn same_but_objects(self, other: Self) -> bool {
        &&& self.layers == other.layers
        &&& self.opened == other.opened
        &&& self.budget_bytes == other.budget_bytes
        &&& self.spent_bytes == other.spent_bytes
        &&& self.stats == (PlanStats {
            data_blocks: self.stats.data_blocks,
            metadata_blocks: self.stats.metadata_blocks,
            ..other.stats
        })
        &&& self.blocks == other.blocks
        &&& self.seen == other.seen
    }

    /// What is selected once `staged` is committed.
    spec fn selection(self, staged: Seq<PlannedBlock>) -> Seq<Need> {
        needs_of(self.objects@, self.blocks@ + staged)
    }

    proof fn lemma_grown_objects(
        before: Seq<PlannedObject>,
        after: Seq<PlannedObject>,
        blocks: Seq<PlannedBlock>,
    )
        requires
            before.is_prefix_of(after),
            placed(before, blocks),
        ensures
            needs_of(before, blocks) == needs_of(after, blocks),
            placed(after, blocks),
    {
        assert(needs_of(before, blocks) =~= needs_of(after, blocks)) by {
            assert forall|i: int| 0 <= i < blocks.len() implies need_of(before, blocks[i])
                == need_of(after, blocks[i]) by {
                assert(blocks[i].object < before.len());
            }
        }
    }

    proof fn lemma_distinct_objects(self)
        requires
            self.objects_ok(),
        ensures
            object_layers(self.objects@).no_duplicates(),
            self.objects@.len() <= self.layers@.len(),
    {
        let ls = object_layers(self.objects@);
        assert forall|i: int, j: int|
            0 <= i < ls.len() && 0 <= j < ls.len() && i != j implies ls[i] != ls[j] by {
            assert(self.objects@[i].layer == ls[i]);
            assert(self.objects@[j].layer == ls[j]);
        }
        let ints = ls.map_values(|l: usize| l as int);
        assert(ints.no_duplicates());
        assert forall|i: int| 0 <= i < ints.len() implies 0 <= #[trigger] ints[i]
            < self.layers@.len() by {
            assert(self.objects@[i].layer == ints[i]);
        }
        lemma_pigeonhole(ints, self.layers@.len() as int);
    }

    proof fn lemma_room_for_object(self, layer: usize)
        requires
            self.objects_ok(),
            layer < self.layers@.len(),
            !object_layers(self.objects@).contains(layer),
        ensures
            self.objects@.len() < self.layers@.len(),
    {
        self.lemma_distinct_objects();
        let ls = object_layers(self.objects@);
        let more = ls.push(layer).map_values(|l: usize| l as int);
        assert forall|i: int, j: int|
            0 <= i < more.len() && 0 <= j < more.len() && i != j implies more[i] != more[j] by {
            if i < ls.len() {
                assert(ls.contains(ls[i]));
            }
            if j < ls.len() {
                assert(ls.contains(ls[j]));
            }
        }
        assert forall|i: int| 0 <= i < more.len() implies 0 <= #[trigger] more[i]
            < self.layers@.len() by {
            if i < ls.len() {
                assert(self.objects@[i].layer == more[i]);
            }
        }
        lemma_pigeonhole(more, self.layers@.len() as int);
    }

    /// Registers the object of `layer_idx` where that is new, and answers
    /// with the block where it is new both to the committed selection and to
    /// `staged`.
    fn stage_block(&mut self, layer_idx: usize, block_id: u32, staged: &Vec<PlannedBlock>) -> (res:
        Option<PlannedBlock>)
        requires
            old(self).objects_ok(),
            placed(old(self).objects@, old(self).blocks@ + staged@),
            old(self).seen_ok(),
            layer_idx < old(self).layers@.len(),
        ensures
            final(self).objects_ok(),
            final(self).same_but_objects(*old(self)),
            final(self).stats == old(self).stats,
            final(self).metadata_emitted == old(self).metadata_emitted,
            old(self).objects@.is_prefix_of(final(self).objects@),
            placed(final(self).objects@, final(self).blocks@ + staged@),
            final(self).selection(staged@) == old(self).selection(staged@),
            object_layers(final(self).objects@) == {
                let ls = object_layers(old(self).objects@);
                if ls.contains(layer_idx) {
                    ls
                } else {
                    ls.push(layer_idx)
                }
            },
            match res {
                None => selects(old(self).selection(staged@), layer_idx, block_id as int),
                Some(b) => {
                    &&& !selects(old(self).selection(staged@), layer_idx, block_id as int)
                    &&& b.object < final(self).objects@.len()
                    &&& !b.metadata
                    &&& need_of(final(self).objects@, b) == (Need {
                        layer: layer_idx,
                        block: block_id,
                        metadata: false,
                    })
                },
            },
    {
        let ghost before = *self;
        let known: Option<u16> = self.object_of_layer[layer_idx];
        let object: u16 = match known {
            Some(object) => {
                assert(object_layers(self.objects@)[object as int] == layer_idx);
                object
            },
            None => {
                proof {
                    if object_layers(self.objects@).contains(layer_idx) {
                        let i = choose|i: int|
                            0 <= i < self.objects@.len() && object_layers(self.objects@)[i]
                                == layer_idx;
                        assert(self.objects@[i].layer == layer_idx);
                    }
                    self.lemma_room_for_object(layer_idx);
                }
                let object: u16 = self.objects.len() as u16;
                self.objects.push(
                    PlannedObject {
                        digest: self.layers[layer_idx].digest.clone(),
                        size: self.layers[layer_idx].size,
                        layer: layer_idx,
                    },
                );
                self.object_of_layer[layer_idx] = Some(object);
                assert(object_layers(self.objects@) =~= object_layers(before.objects@).push(
                    layer_idx,
                ));
                object
            },
        };
        proof {
            Self::lemma_grown_objects(before.objects@, self.objects@, self.blocks@ + staged@);
        }
        assert(self.objects_ok());
        let ghost all = self.blocks@ + staged@;
        let ghost sel = self.selection(staged@);
        assert forall|i: int| 0 <= i < all.len() implies ((#[trigger] all[i]).object == object
            <==> sel[i].layer == layer_idx) by {
            assert(sel[i] == need_of(self.objects@, all[i]));
            assert(self.objects@[all[i].object as int].layer == sel[i].layer);
            assert(self.objects@[object as int].layer == layer_idx);
        }
        let key: u64 = object as u64 * 0x1_0000_0000 + block_id as u64;
        assert(key == block_key(object, block_id));
        if self.seen.contains_key(&key) {
            proof {
                let i = self.seen@[key] as int;
                assert(all[i] == self.blocks@[i]);
                assert(sel[i].layer == layer_idx && sel[i].block == block_id);
            }
            return None;
        }
        assert forall|i: int| 0 <= i < self.blocks@.len() implies sel[i].layer != layer_idx
            || sel[i].block != block_id by {
            assert(all[i] == self.blocks@[i]);
            assert(sel[i] == need_of(self.objects@, all[i]));
            if sel[i].layer == layer_idx && sel[i].block == block_id {
                assert(block_key(self.blocks@[i].object, self.blocks@[i].block_id) == key);
            }
        }
        let mut i: usize = 0;
        while i < staged.len()
            invariant
                i <= staged@.len(),
                all == self.blocks@ + staged@,
                sel == self.selection(staged@),
                forall|j: int|
                    0 <= j < all.len() ==> ((#[trigger] all[j]).object == object
                        <==> sel[j].layer == layer_idx),
                forall|j: int|
                    0 <= j < self.blocks@.len() + i ==> (#[trigger] sel[j]).layer != layer_idx
                        || sel[j].block != block_id,
                self.objects_ok(),
                self.same_but_objects(before),
                self.stats == before.stats,
                before == *old(self),
                self.metadata_emitted == before.metadata_emitted,
                before.objects@.is_prefix_of(self.objects@),
                placed(self.objects@, all),
                sel == before.selection(staged@),
                object_layers(self.objects@) == {
                    let ls = object_layers(before.objects@);
                    if ls.contains(layer_idx) {
                        ls
                    } else {
                        ls.push(layer_idx)
                    }
                },
            decreases staged@.len() - i,
        {
            let ghost at = self.blocks@.len() + i;
            assert(all[at] == staged@[i as int]);
            assert(sel[at] == need_of(self.objects@, all[at]));
            if staged[i].object == object && staged[i].block_id == block_id {
                return None;
            }
            i = i + 1;
        }
        Some(PlannedBlock { object, block_id, metadata: false })
    }

    /// Stages one block where it is new, and counts it.
    fn stage_one(
        &mut self,
        layer_idx: usize,
        block_id: u32,
        metadata: bool,
        staged: &mut Vec<PlannedBlock>,
    )
        requires
            old(self).staging(old(staged)@),
            layer_idx < old(self).layers@.len(),
            block_id < object_blocks(old(self).layers@[layer_idx as int].size as int),
        ensures
            final(self).staging(final(staged)@),
            final(self).same_but_objects(*old(self)),
            final(self).metadata_emitted == old(self).metadata_emitted,
            old(self).objects@.is_prefix_of(final(self).objects@),
            old(staged)@.is_prefix_of(final(staged)@),
            ({
                let n = final(staged)@.len() - old(staged)@.len();
                &&& final(self).stats.metadata_blocks == old(self).stats.metadata_blocks + if metadata {
                    n
                } else {
                    0
                }
                &&& final(self).stats.data_blocks == old(self).stats.data_blocks + if metadata {
                    0
                } else {
                    n
                }
            }),
            object_layers(final(self).objects@) == {
                let ls = object_layers(old(self).objects@);
                if ls.contains(layer_idx) {
                    ls
                } else {
                    ls.push(layer_idx)
                }
            },
            final(self).selection(final(staged)@) == {
                let sel = old(self).selection(old(staged)@);
                if selects(sel, layer_idx, block_id as int) {
                    sel
                } else {
                    sel.push(Need { layer: layer_idx, block: block_id, metadata })
                }
            },
    {
        let ghost before = staged@;
        let ghost sel = self.selection(staged@);
        match self.stage_block(layer_idx, block_id, staged) {
            None => {},
            Some(block) => {
                let pushed: PlannedBlock = PlannedBlock {
                    object: block.object,
                    block_id: block.block_id,
                    metadata,
                };
                staged.push(pushed);
                proof {
                    let all = self.blocks@ + before;
                    let need = Need { layer: layer_idx, block: block_id, metadata };
                    assert(self.blocks@ + staged@ =~= all.push(pushed));
                    assert(need_of(self.objects@, pushed) == need);
                    let more = self.selection(staged@);
                    assert(more =~= sel.push(need));
                    assert(more.drop_last() =~= sel);
                    assert forall|i: int, j: int|
                        #![trigger more[i], more[j]]
                        0 <= i < j < more.len() implies more[i].layer != more[j].layer
                        || more[i].block != more[j].block by {
                        if j == sel.len() {
                            assert(sel[i] == more[i]);
                        } else {
                            assert(sel[i] == more[i] && sel[j] == more[j]);
                        }
                    }
                    assert forall|i: int| #![trigger more[i]] 0 <= i < more.len() implies more[i].layer
                        < self.stack().layers.len() && more[i].block < object_blocks(
                        self.stack().layers[more[i].layer as int].size as int,
                    ) by {
                        if i < sel.len() {
                            assert(sel[i] == more[i]);
                        }
                    }
                    self.stack().lemma_blocks_bounded(more);
                }
                if metadata {
                    self.stats.metadata_blocks = self.stats.metadata_blocks + 1;
                } else {
                    self.stats.data_blocks = self.stats.data_blocks + 1;
                }
            },
        }
    }

    /// Stages a layer's metadata blocks (header and index region) the first
    /// time one of its data blocks is needed, and counts them. A layer whose
    /// metadata was staged before is left alone.
    fn stage_metadata(&mut self, layer_idx: usize, staged: &mut Vec<PlannedBlock>) -> (res: Result<
        (),
        PlanError,
    >)
        requires
            old(self).staging(old(staged)@),
            layer_idx < old(self).layers@.len(),
        ensures
            final(self).same_but_objects(*old(self)),
            final(self).stats.data_blocks == old(self).stats.data_blocks,
            final(self).stats.metadata_blocks == old(self).stats.metadata_blocks + (final(
                staged)@.len() - old(staged)@.len()),
            final(self).metadata_emitted@ == old(self).metadata_emitted@.update(
                layer_idx as int,
                true,
            ),
            old(self).objects@.is_prefix_of(final(self).objects@),
            old(staged)@.is_prefix_of(final(staged)@),
            final(self).staging(final(staged)@),
            forall|i: int|
                old(staged)@.len() <= i < final(staged)@.len() ==> {
                    &&& (#[trigger] final(staged)@[i]).metadata
                    &&& final(self).objects@[final(staged)@[i].object as int].layer == layer_idx
                },
            old(self).metadata_emitted@[layer_idx as int] ==> {
                &&& res is Ok
                &&& *final(self) == *old(self)
                &&& final(staged)@ == old(staged)@
            },
            !old(self).metadata_emitted@[layer_idx as int] ==> match old(
                self,
            ).stack().metadata_blocks(layer_idx) {
                Err(e) => {
                    &&& res == Err::<(), PlanError>(e)
                    &&& final(staged)@ == old(staged)@
                    &&& final(self).objects@ == old(self).objects@
                },
                Ok(blocks) => {
                    let needs = layer_needs(layer_idx, blocks);
                    &&& res is Ok
                    &&& object_layers(final(self).objects@) == extend_objects(
                        object_layers(old(self).objects@),
                        needs,
                    )
                    &&& final(self).selection(final(staged)@) == extend_blocks(
                        old(self).selection(old(staged)@),
                        needs,
                    )
                },
            },
    {
        if self.metadata_emitted[layer_idx] {
            assert(self.metadata_emitted@.update(layer_idx as int, true)
                =~= self.metadata_emitted@);
            return Ok(());
        }
        let ghost stack = self.stack();
        assert(stack.opened[layer_idx as int].layout.wf());
        self.metadata_emitted[layer_idx] = true;
        let ghost before = *self;
        let ghost sel = self.selection(staged@);
        let object_size: u64 = self.layers[layer_idx].size;
        let index_offset: u64 = self.opened[layer_idx].metadata.index_offset;
        let tail: u64 = self.opened[layer_idx].metadata.file_size.saturating_sub(index_offset);
        let mut meta_raw: Vec<u32> = Vec::new();
        match map_extent_blocks(
            &self.opened[layer_idx].layout,
            0,
            PLAN_PAGE_BYTES,
            object_size,
            &mut meta_raw,
        ) {
            Ok(()) => {},
            Err(e) => {
                return Err(e);
            },
        }
        let ghost header = meta_raw@;
        assert(Seq::<u32>::empty() + header =~= header);
        match map_extent_blocks(
            &self.opened[layer_idx].layout,
            index_offset,
            tail,
            object_size,
            &mut meta_raw,
        ) {
            Ok(()) => {},
            Err(e) => {
                return Err(e);
            },
        }
        assert(stack.metadata_blocks(layer_idx) == Ok::<Seq<u32>, PlanError>(meta_raw@));
        proof {
            stack.lemma_metadata_below(layer_idx);
        }
        let ghost needs = layer_needs(layer_idx, meta_raw@);
        assert(needs.take(0) =~= Seq::empty());
        let mut i: usize = 0;
        while i < meta_raw.len()
            invariant
                i <= meta_raw@.len(),
                needs == layer_needs(layer_idx, meta_raw@),
                self.staging(staged@),
                layer_idx < self.layers@.len(),
                all_below(
                    meta_raw@,
                    object_blocks(self.layers@[layer_idx as int].size as int),
                ),
                self.same_but_objects(before),
                self.metadata_emitted == before.metadata_emitted,
                before.objects@.is_prefix_of(self.objects@),
                old(staged)@.is_prefix_of(staged@),
                self.stats.data_blocks == before.stats.data_blocks,
                self.stats.metadata_blocks == before.stats.metadata_blocks + (staged@.len() - old(
                    staged,
                )@.len()),
                sel.len() == before.blocks@.len() + old(staged)@.len(),
                object_layers(self.objects@) == extend_objects(
                    object_layers(before.objects@),
                    needs.take(i as int),
                ),
                self.selection(staged@) == extend_blocks(sel, needs.take(i as int)),
            decreases meta_raw@.len() - i,
        {
            proof {
                let x = needs[i as int];
                assert(needs.take(i + 1) =~= needs.take(i as int).push(x));
                lemma_extend_blocks_push(sel, needs.take(i as int), x);
                lemma_extend_objects_push(
                    object_layers(before.objects@),
                    needs.take(i as int),
                    x,
                );
                assert(meta_raw@[i as int] < object_blocks(
                    self.layers@[layer_idx as int].size as int,
                ));
            }
            self.stage_one(layer_idx, meta_raw[i], true, staged);
            i = i + 1;
        }
        proof {
            assert(needs.take(i as int) =~= needs);
            lemma_extend_blocks(sel, needs);
            let all = self.blocks@ + staged@;
            let found = self.selection(staged@);
            assert forall|k: int| old(staged)@.len() <= k < staged@.len() implies (
            #[trigger] staged@[k]).metadata && self.objects@[staged@[k].object as int].layer
                == layer_idx by {
                let at = self.blocks@.len() + k;
                assert(all[at] == staged@[k]);
                assert(found[at] == need_of(self.objects@, all[at]));
                assert(needs.contains(extend_blocks(sel, needs)[at]));
                let j = choose|j: int| 0 <= j < needs.len() && needs[j] == found[at];
                assert(needs[j].metadata && needs[j].layer == layer_idx);
            }
        }
        Ok(())
    }

    /// Resolves one lookup's answers into the blocks that the span depends on,
    /// which are appended to `out`. Answers whether any of them has a physical
    /// range.
    fn resolve_span_blocks(
        &self,
        mappings: &Vec<SegmentMapping>,
        out: &mut Vec<(usize, u32)>,
    ) -> (res: Result<bool, PlanError>)
        requires
            self.stack().wf(),
            self.stack().answer_ok(mappings@),
        ensures
            match self.stack().resolve(mappings@) {
                Err(e) => res == Err::<bool, PlanError>(e),
                Ok(deps) => res == Ok::<bool, PlanError>(backed(mappings@)) && final(out)@ == old(
                    out,
                )@ + deps,
            },
    {
        let ghost stack = self.stack();
        let mut found: bool = false;
        let mut i: usize = 0;
        proof {
            assert(mappings@.take(0) =~= Seq::empty());
            assert(out@ + Seq::<(usize, u32)>::empty() =~= out@);
        }
        while i < mappings.len()
            invariant
                i <= mappings@.len(),
                stack == self.stack(),
                stack.wf(),
                stack.answer_ok(mappings@),
                found == backed(mappings@.take(i as int)),
                stack.resolve(mappings@.take(i as int)) is Ok,
                out@ == old(out)@ + stack.resolve(mappings@.take(i as int))->Ok_0,
            decreases mappings@.len() - i,
        {
            let mapping: SegmentMapping = mappings[i];
            proof {
                let upto = mappings@.take(i + 1);
                assert(upto.drop_last() =~= mappings@.take(i as int));
                assert(upto.last() == mapping);
                assert(stack.mapping_ok(mappings@[i as int]));
                if backed(upto) && !mapping.physical {
                    let k = choose|k: int| 0 <= k < upto.len() && (#[trigger] upto[k]).physical;
                    assert(mappings@.take(i as int)[k].physical);
                }
                if backed(mappings@.take(i as int)) {
                    let k = choose|k: int|
                        0 <= k < i && (#[trigger] mappings@.take(i as int)[k]).physical;
                    assert(upto[k].physical);
                }
                if mapping.physical {
                    assert(upto[i as int].physical);
                }
            }
            if mapping.physical {
                found = true;
                let layer_idx: usize = self.layers.len() - 1 - mapping.tag as usize;
                assert(layer_idx == stack.layer_of(mapping));
                let ghost layout = stack.opened[layer_idx as int].layout;
                assert(layout.wf());
                let mut raw_blocks: Vec<u32> = Vec::new();
                let ghost blocks = stack.mapping_blocks(mapping);
                match map_extent_blocks(
                    &self.opened[layer_idx].layout,
                    mapping.moffset * SECTOR_BYTES,
                    mapping.length as u64 * SECTOR_BYTES,
                    self.layers[layer_idx].size,
                    &mut raw_blocks,
                ) {
                    Ok(()) => {},
                    Err(e) => {
                        proof {
                            stack.lemma_resolve_fails(mappings@, i + 1, e);
                        }
                        return Err(e);
                    },
                }
                assert(Seq::<u32>::empty() + blocks->Ok_0 =~= blocks->Ok_0);
                let ghost before = out@;
                let ghost pairs = raw_blocks@.map_values(|b: u32| (layer_idx, b));
                let mut k: usize = 0;
                while k < raw_blocks.len()
                    invariant
                        k <= raw_blocks@.len(),
                        pairs == raw_blocks@.map_values(|b: u32| (layer_idx, b)),
                        out@ == before + pairs.take(k as int),
                    decreases raw_blocks@.len() - k,
                {
                    assert(pairs.take(k + 1) =~= pairs.take(k as int).push(
                        (layer_idx, raw_blocks@[k as int]),
                    ));
                    out.push((layer_idx, raw_blocks[k]));
                    assert(out@ =~= before + pairs.take(k as int + 1));
                    k = k + 1;
                }
                proof {
                    assert(pairs.take(k as int) =~= pairs);
                    let old_deps = stack.resolve(mappings@.take(i as int))->Ok_0;
                    assert(pairs =~= blocks->Ok_0.map_values(
                        |b: u32| (stack.layer_of(mapping) as usize, b),
                    ));
                    assert((old(out)@ + old_deps) + pairs =~= old(out)@ + (old_deps + pairs));
                }
            }
            i = i + 1;
        }
        assert(mappings@.take(i as int) =~= mappings@);
        Ok(found)
    }

    /// Stages the metadata of the layers that are touched first here.
    fn stage_new_layers(
        &mut self,
        span_blocks: &Vec<(usize, u32)>,
        staged: &mut Vec<PlannedBlock>,
    ) -> (res: Result<(), PlanError>)
        requires
            old(self).staging(old(staged)@),
            old(self).emitted_ok(),
            forall|i: int|
                0 <= i < span_blocks@.len() ==> (#[trigger] span_blocks@[i]).0 < old(
                    self,
                ).layers@.len(),
        ensures
            final(self).staging(final(staged)@),
            final(self).same_but_objects(*old(self)),
            old(self).objects@.is_prefix_of(final(self).objects@),
            match old(self).stack().metadata_needs(
                layer_order(span_blocks@),
                object_layers(old(self).objects@),
            ) {
                Err(e) => res == Err::<(), PlanError>(e),
                Ok(needs) => {
                    &&& res is Ok
                    &&& object_layers(final(self).objects@) == extend_objects(
                        object_layers(old(self).objects@),
                        needs,
                    )
                    &&& final(self).selection(final(staged)@) == extend_blocks(
                        old(self).selection(old(staged)@),
                        needs,
                    )
                    &&& forall|l: int|
                        #![trigger final(self).metadata_emitted@[l]]
                        0 <= l < final(self).layers@.len() ==> final(self).metadata_emitted@[l] == (
                        object_layers(old(self).objects@).contains(l as usize) || layer_order(
                            span_blocks@,
                        ).contains(l as usize))
                },
            },
    {
        let ghost stack = self.stack();
        let ghost deps = span_blocks@;
        let ghost before = *self;
        let ghost objs = object_layers(self.objects@);
        let ghost sel = self.selection(staged@);
        let mut staged_layers: Vec<usize> = Vec::new();
        let mut i: usize = 0;
        assert(deps.take(0) =~= Seq::empty());
        while i < span_blocks.len()
            invariant
                i <= deps.len(),
                deps == span_blocks@,
                stack == self.stack(),
                objs == object_layers(before.objects@),
                before == *old(self),
                sel == before.selection(old(staged)@),
                self.staging(staged@),
                self.same_but_objects(before),
                before.objects@.is_prefix_of(self.objects@),
                forall|k: int| 0 <= k < deps.len() ==> (#[trigger] deps[k]).0 < self.layers@.len(),
                staged_layers@ == layer_order(deps.take(i as int)),
                forall|l: int|
                    #![trigger self.metadata_emitted@[l]]
                    0 <= l < self.layers@.len() ==> self.metadata_emitted@[l] == (objs.contains(
                        l as usize,
                    ) || staged_layers@.contains(l as usize)),
                stack.metadata_needs(staged_layers@, objs) is Ok,
                object_layers(self.objects@) == extend_objects(
                    objs,
                    stack.metadata_needs(staged_layers@, objs)->Ok_0,
                ),
                self.selection(staged@) == extend_blocks(
                    sel,
                    stack.metadata_needs(staged_layers@, objs)->Ok_0,
                ),
            decreases deps.len() - i,
        {
            let layer_idx: usize = span_blocks[i].0;
            proof {
                let upto = deps.take(i + 1);
                assert(upto.drop_last() =~= deps.take(i as int));
                assert(upto.last() == deps[i as int]);
            }
            if !contains_layer(&staged_layers, layer_idx) {
                let ghost order = staged_layers@;
                staged_layers.push(layer_idx);
                assert(staged_layers@.drop_last() =~= order);
                let ghost emitted = self.metadata_emitted@;
                if !self.metadata_emitted[layer_idx] {
                    let ghost needs = stack.metadata_needs(order, objs)->Ok_0;
                    assert(emitted[layer_idx as int] == (objs.contains(layer_idx)
                        || order.contains(layer_idx)));
                    match self.stage_metadata(layer_idx, staged) {
                        Ok(()) => {},
                        Err(e) => {
                            proof {
                                lemma_layer_order_prefix(deps, i + 1);
                                let k = staged_layers@.len() as int;
                                assert(layer_order(deps).take(k) =~= staged_layers@);
                                stack.lemma_metadata_fails(layer_order(deps), objs, k, e);
                            }
                            return Err(e);
                        },
                    }
                    proof {
                        let added = layer_needs(
                            layer_idx,
                            stack.metadata_blocks(layer_idx)->Ok_0,
                        );
                        lemma_extend_concat(sel, objs, needs, added);
                    }
                } else {
                    assert(emitted[layer_idx as int] == (objs.contains(layer_idx)
                        || order.contains(layer_idx)));
                }
                assert forall|l: int|
                    #![trigger self.metadata_emitted@[l]]
                    0 <= l < self.layers@.len() implies self.metadata_emitted@[l] == (
                objs.contains(l as usize) || staged_layers@.contains(l as usize)) by {
                    assert(emitted[l] == (objs.contains(l as usize) || order.contains(
                        l as usize,
                    )));
                    if order.contains(l as usize) {
                        let k = choose|k: int| 0 <= k < order.len() && order[k] == l as usize;
                        assert(staged_layers@[k] == l as usize);
                    }
                    if staged_layers@.contains(l as usize) && l != layer_idx {
                        let k = choose|k: int|
                            0 <= k < staged_layers@.len() && staged_layers@[k] == l as usize;
                        assert(order[k] == l as usize);
                    }
                    if l == layer_idx {
                        assert(staged_layers@[order.len() as int] == layer_idx);
                    }
                }
            }
            i = i + 1;
        }
        assert(deps.take(i as int) =~= deps);
        Ok(())
    }

    /// Stages the data blocks of a span, and counts them.
    fn stage_data(&mut self, span_blocks: &Vec<(usize, u32)>, staged: &mut Vec<PlannedBlock>)
        requires
            old(self).staging(old(staged)@),
            old(self).stack().deps_in_objects(span_blocks@),
        ensures
            final(self).staging(final(staged)@),
            final(self).same_but_objects(*old(self)),
            final(self).metadata_emitted == old(self).metadata_emitted,
            old(self).objects@.is_prefix_of(final(self).objects@),
            object_layers(final(self).objects@) == extend_objects(
                object_layers(old(self).objects@),
                data_needs(span_blocks@),
            ),
            final(self).selection(final(staged)@) == extend_blocks(
                old(self).selection(old(staged)@),
                data_needs(span_blocks@),
            ),
    {
        let ghost before = *self;
        let ghost objs = object_layers(self.objects@);
        let ghost sel = self.selection(staged@);
        let ghost needs = data_needs(span_blocks@);
        let mut i: usize = 0;
        assert(needs.take(0) =~= Seq::empty());
        while i < span_blocks.len()
            invariant
                i <= span_blocks@.len(),
                needs == data_needs(span_blocks@),
                objs == object_layers(before.objects@),
                self.staging(staged@),
                self.same_but_objects(before),
                self.metadata_emitted == before.metadata_emitted,
                before.objects@.is_prefix_of(self.objects@),
                self.stack().deps_in_objects(span_blocks@),
                object_layers(self.objects@) == extend_objects(objs, needs.take(i as int)),
                self.selection(staged@) == extend_blocks(sel, needs.take(i as int)),
            decreases span_blocks@.len() - i,
        {
            proof {
                let x = needs[i as int];
                assert(needs.take(i + 1) =~= needs.take(i as int).push(x));
                lemma_extend_blocks_push(sel, needs.take(i as int), x);
                lemma_extend_objects_push(objs, needs.take(i as int), x);
                assert(span_blocks@[i as int].0 < self.stack().layers.len());
            }
            self.stage_one(span_blocks[i].0, span_blocks[i].1, false, staged);
            i = i + 1;
        }
        assert(needs.take(i as int) =~= needs);
    }

    /// The size of the artifact with the staged blocks, and with the objects
    /// from `first_object` on, which are new.
    fn staged_size(&self, first_object: usize, staged: &Vec<PlannedBlock>) -> (bytes: u128)
        requires
            self.objects_ok(),
            first_object <= self.objects@.len(),
            self.spent_bytes == self.stack().artifact_bytes(
                object_layers(self.objects@).take(first_object as int),
                self.blocks@.len() as int,
            ),
        ensures
            bytes == self.stack().artifact_bytes(
                object_layers(self.objects@),
                self.blocks@.len() as int + staged@.len(),
            ),
    {
        proof {
            self.lemma_distinct_objects();
        }
        let ghost stack = self.stack();
        let ghost ls = object_layers(self.objects@);
        let mut table: u128 = 0;
        let mut i: usize = first_object;
        while i < self.objects.len()
            invariant
                first_object <= i <= self.objects@.len(),
                self.objects_ok(),
                self.objects@.len() <= self.layers@.len(),
                stack == self.stack(),
                ls == object_layers(self.objects@),
                table == stack.object_bytes(ls.take(i as int)) - stack.object_bytes(
                    ls.take(first_object as int),
                ),
                table <= i * 0x2_0000_0000_0000_0000,
            decreases self.objects@.len() - i,
        {
            proof {
                assert(ls.take(i + 1).drop_last() =~= ls.take(i as int));
                assert(ls.take(i + 1).last() == ls[i as int]);
                assert(self.objects@[i as int].layer == ls[i as int]);
            }
            let len: usize = self.objects[i].digest.as_str().len();
            table = table + OBJECT_ENTRY_FIXED_BYTES as u128 + len as u128;
            i = i + 1;
        }
        assert(ls.take(i as int) =~= ls);
        let before: u128 = self.blocks.len() as u128;
        let more: u128 = staged.len() as u128;
        let entry: u128 = (OBJECT_BLOCK_BYTES + ENTRY_BYTES) as u128;
        let old_frames: u128 = frame_cost(before);
        let new_frames: u128 = frame_cost(before + more);
        proof {
            let (b, m, e) = (before as int, more as int, entry as int);
            assert((b + m) * e == b * e + m * e) by (nonlinear_arith);
        }
        self.spent_bytes as u128 + table + more * entry + (new_frames - old_frames)
    }

    /// Drops the objects from `count` on with their metadata flags, and sets the
    /// counts of blocks back.
    fn roll_back(&mut self, count: usize, data_blocks: usize, metadata_blocks: usize)
        requires
            old(self).objects_ok(),
            count <= old(self).objects@.len(),
        ensures
            final(self).objects_ok(),
            final(self).same_but_objects(*old(self)),
            final(self).stats.data_blocks == data_blocks,
            final(self).stats.metadata_blocks == metadata_blocks,
            final(self).objects@ == old(self).objects@.take(count as int),
            forall|l: int|
                #![trigger final(self).metadata_emitted@[l]]
                0 <= l < final(self).layers@.len() ==> final(self).metadata_emitted@[l] == (old(
                    self,
                ).metadata_emitted@[l] && !(old(self).object_of_layer@[l] matches Some(o) && o
                    >= count)),
    {
        let ghost before = *self;
        self.objects.truncate(count);
        self.stats.data_blocks = data_blocks;
        self.stats.metadata_blocks = metadata_blocks;
        let mut l: usize = 0;
        while l < self.object_of_layer.len()
            invariant
                l <= self.object_of_layer@.len(),
                before.objects_ok(),
                count <= before.objects@.len(),
                self.same_but_objects(before),
                self.stats.data_blocks == data_blocks,
                self.stats.metadata_blocks == metadata_blocks,
                self.objects@ == before.objects@.take(count as int),
                self.object_of_layer@.len() == before.object_of_layer@.len(),
                self.metadata_emitted@.len() == before.metadata_emitted@.len(),
                forall|k: int|
                    #![trigger self.object_of_layer@[k]]
                    l <= k < self.object_of_layer@.len() ==> self.object_of_layer@[k]
                        == before.object_of_layer@[k],
                forall|k: int|
                    #![trigger self.metadata_emitted@[k]]
                    l <= k < self.metadata_emitted@.len() ==> self.metadata_emitted@[k]
                        == before.metadata_emitted@[k],
                forall|k: int|
                    #![trigger self.object_of_layer@[k]]
                    0 <= k < l ==> self.object_of_layer@[k] == match before.object_of_layer@[k] {
                        Some(o) => if o < count {
                            Some(o)
                        } else {
                            None
                        },
                        None => None,
                    },
                forall|k: int|
                    #![trigger self.metadata_emitted@[k]]
                    0 <= k < l ==> self.metadata_emitted@[k] == (before.metadata_emitted@[k] && !(
                    before.object_of_layer@[k] matches Some(o) && o >= count)),
            decreases self.object_of_layer@.len() - l,
        {
            let entry: Option<u16> = self.object_of_layer[l];
            match entry {
                Some(object) => {
                    if object as usize >= count {
                        self.object_of_layer[l] = None;
                        self.metadata_emitted[l] = false;
                    }
                },
                None => {},
            }
            l = l + 1;
        }
        proof {
            assert forall|i: int| #![trigger self.objects@[i]] 0 <= i < self.objects@.len() implies {
                let o = self.objects@[i];
                &&& i <= u16::MAX
                &&& o.layer < self.layers@.len()
                &&& o.digest == self.layers@[o.layer as int].digest
                &&& o.size == self.layers@[o.layer as int].size
                &&& self.object_of_layer@[o.layer as int] == Some(i as u16)
            } by {
                assert(self.objects@[i] == before.objects@[i]);
            }
            assert forall|k: int|
                #![trigger self.object_of_layer@[k]]
                0 <= k < self.object_of_layer@.len() implies (self.object_of_layer@[k] matches Some(
                o,
            ) ==> o < self.objects@.len() && self.objects@[o as int].layer == k) by {
                if before.object_of_layer@[k] is Some {
                    let o = before.object_of_layer@[k]->0;
                    assert(before.objects@[o as int].layer == k);
                }
            }
        }
    }

    proof fn lemma_distinct_blocks(self)
        requires
            self.objects_ok(),
            placed(self.objects@, self.blocks@),
            self.seen_ok(),
        ensures
            distinct_blocks(needs_of(self.objects@, self.blocks@)),
    {
        let needs = needs_of(self.objects@, self.blocks@);
        assert forall|i: int, j: int|
            #![trigger needs[i], needs[j]]
            0 <= i < j < needs.len() implies needs[i].layer != needs[j].layer || needs[i].block
            != needs[j].block by {
            let (a, b) = (self.blocks@[i], self.blocks@[j]);
            assert(needs[i] == need_of(self.objects@, a));
            assert(needs[j] == need_of(self.objects@, b));
            if needs[i].layer == needs[j].layer && needs[i].block == needs[j].block {
                assert(self.objects@[a.object as int].layer == self.objects@[b.object as int].layer);
                assert(block_key(a.object, a.block_id) == block_key(b.object, b.block_id));
            }
        }
    }

    /// Adds the staged blocks to the selection; the artifact has `size` bytes
    /// with them.
    fn commit_staged(&mut self, staged: &Vec<PlannedBlock>, size: u64)
        requires
            old(self).staging(staged@),
            size == old(self).stack().artifact_bytes(
                object_layers(old(self).objects@),
                old(self).blocks@.len() as int + staged@.len(),
            ),
            old(self).stats.gap_runs == 0,
            old(self).stats.gap_blocks == 0,
        ensures
            final(self).wf(),
            final(self).layers == old(self).layers,
            final(self).opened == old(self).opened,
            final(self).budget_bytes == old(self).budget_bytes,
            final(self).spent_bytes == size,
            final(self).objects == old(self).objects,
            final(self).object_of_layer == old(self).object_of_layer,
            final(self).metadata_emitted == old(self).metadata_emitted,
            final(self).blocks@ == old(self).blocks@ + staged@,
            final(self).stats == old(self).stats,
    {
        let ghost before = *self;
        let ghost all = self.blocks@ + staged@;
        let ghost sel = self.selection(staged@);
        self.spent_bytes = size;
        let mut i: usize = 0;
        assert(self.blocks@ =~= before.blocks@ + staged@.take(0));
        while i < staged.len()
            invariant
                i <= staged@.len(),
                all == before.blocks@ + staged@,
                sel == needs_of(before.objects@, all),
                placed(self.objects@, all),
                distinct_blocks(sel),
                self.objects_ok(),
                self.seen_ok(),
                self.layers == before.layers,
                self.opened == before.opened,
                self.budget_bytes == before.budget_bytes,
                self.spent_bytes == size,
                self.objects == before.objects,
                self.object_of_layer == before.object_of_layer,
                self.metadata_emitted == before.metadata_emitted,
                self.blocks@ == before.blocks@ + staged@.take(i as int),
                self.stats == before.stats,
            decreases staged@.len() - i,
        {
            let block: PlannedBlock = staged[i];
            let key: u64 = block.object as u64 * 0x1_0000_0000 + block.block_id as u64;
            let position: usize = self.blocks.len();
            let ghost mid = *self;
            proof {
                assert(all[position as int] == block);
                if self.seen@.contains_key(key) {
                    let j = self.seen@[key] as int;
                    assert(all[j] == self.blocks@[j]);
                    assert(sel[j] == need_of(self.objects@, all[j]));
                    assert(sel[position as int] == need_of(self.objects@, block));
                    assert(false);
                }
            }
            self.seen.insert(key, position);
            self.blocks.push(block);
            proof {
                assert(staged@.take(i + 1) =~= staged@.take(i as int).push(block));
                assert(self.blocks@ =~= before.blocks@ + staged@.take(i + 1));
                assert forall|k: int| #![trigger self.blocks@[k]] 0 <= k < self.blocks@.len() implies {
                    let k2 = block_key(self.blocks@[k].object, self.blocks@[k].block_id);
                    self.seen@.contains_key(k2) && self.seen@[k2] == k
                } by {
                    if k < position {
                        assert(self.blocks@[k] == mid.blocks@[k]);
                    }
                }
                assert forall|k: u64| #[trigger] self.seen@.contains_key(k) implies self.seen@[k]
                    < self.blocks@.len() && k == block_key(
                    self.blocks@[self.seen@[k] as int].object,
                    self.blocks@[self.seen@[k] as int].block_id,
                ) by {
                    if k != key {
                        assert(mid.seen@.contains_key(k));
                    }
                }
                assert(self.seen_ok());
            }
            i = i + 1;
        }
        assert(staged@.take(i as int) =~= staged@);
    }

    /// Where the blocks of a span stand in the selection.
    fn positions(&self, span_blocks: &Vec<(usize, u32)>) -> (found: Vec<(u16, u32, usize)>)
        requires
            self.wf(),
            forall|i: int|
                #![trigger span_blocks@[i]]
                0 <= i < span_blocks@.len() ==> selects(
                    needs_of(self.objects@, self.blocks@),
                    span_blocks@[i].0,
                    span_blocks@[i].1 as int,
                ),
        ensures
            resolution_of(
                found@,
                span_blocks@,
                object_layers(self.objects@),
                needs_of(self.objects@, self.blocks@),
            ),
    {
        let ghost sel = needs_of(self.objects@, self.blocks@);
        let mut found: Vec<(u16, u32, usize)> = Vec::new();
        let mut i: usize = 0;
        assert(span_blocks@.take(0) =~= Seq::empty());
        while i < span_blocks.len()
            invariant
                i <= span_blocks@.len(),
                self.wf(),
                sel == needs_of(self.objects@, self.blocks@),
                forall|k: int|
                    #![trigger span_blocks@[k]]
                    0 <= k < span_blocks@.len() ==> selects(
                        sel,
                        span_blocks@[k].0,
                        span_blocks@[k].1 as int,
                    ),
                resolution_of(
                    found@,
                    span_blocks@.take(i as int),
                    object_layers(self.objects@),
                    sel,
                ),
            decreases span_blocks@.len() - i,
        {
            let layer_idx: usize = span_blocks[i].0;
            let block_id: u32 = span_blocks[i].1;
            proof {
                assert(selects(sel, span_blocks@[i as int].0, span_blocks@[i as int].1 as int));
            }
            let ghost at = choose|k: int|
                0 <= k < sel.len() && (#[trigger] sel[k]).layer == layer_idx && sel[k].block
                    == block_id as int;
            let ghost chosen = self.blocks@[at];
            assert(sel[at] == need_of(self.objects@, chosen));
            assert(self.objects@[chosen.object as int].layer == layer_idx);
            let entry: Option<u16> = self.object_of_layer[layer_idx];
            let ghost upto = span_blocks@.take(i as int);
            match entry {
                Some(object) => {
                    let key: u64 = object as u64 * 0x1_0000_0000 + block_id as u64;
                    assert(key == block_key(chosen.object, chosen.block_id));
                    match self.seen.get(&key) {
                        Some(position) => {
                            found.push((object, block_id, *position));
                            proof {
                                let next = span_blocks@.take(i + 1);
                                assert(next =~= upto.push(span_blocks@[i as int]));
                                assert(sel[*position as int] == need_of(
                                    self.objects@,
                                    self.blocks@[*position as int],
                                ));
                                assert(object_layers(self.objects@)[object as int]
                                    == self.objects@[object as int].layer);
                                assert forall|k: int|
                                    #![trigger found@[k]]
                                    #![trigger next[k]]
                                    0 <= k < next.len() implies {
                                    &&& found@[k].0 < object_layers(self.objects@).len()
                                    &&& object_layers(self.objects@)[found@[k].0 as int]
                                        == next[k].0
                                    &&& found@[k].1 == next[k].1
                                    &&& found@[k].2 < sel.len()
                                    &&& sel[found@[k].2 as int].layer == next[k].0
                                    &&& sel[found@[k].2 as int].block == next[k].1
                                } by {
                                    if k < upto.len() {
                                        assert(next[k] == upto[k]);
                                    }
                                }
                            }
                        },
                        None => {
                            assert(false);
                        },
                    }
                },
                None => {
                    assert(false);
                },
            }
            i = i + 1;
        }
        assert(span_blocks@.take(i as int) =~= span_blocks@);
        found
    }

    /// Stages the blocks of a span (metadata of freshly touched layers first)
    /// as one budget unit. Where they fit, they are selected and their
    /// positions returned; where they do not, the staging is rolled back.
    fn stage_span(&mut self, span_blocks: &Vec<(usize, u32)>) -> (res: Result<
        Option<Vec<(u16, u32, usize)>>,
        PlanError,
    >)
        requires
            old(self).wf(),
            old(self).emitted_ok(),
            old(self).stack().deps_in_objects(span_blocks@),
            old(self).stack().in_objects(old(self).progress(false).blocks),
            old(self).stack().total_blocks() <= usize::MAX,
        ensures
            ({
                let p = old(self).progress(false);
                let q = old(self).stack().stage(p, span_blocks@, no_pages(), old(self).budget());
                match res {
                    Err(e) => q.failed == Some(e),
                    Ok(None) => {
                        &&& q.failed is None && q.truncated
                        &&& final(self).wf() && final(self).emitted_ok()
                        &&& final(self).stack() == old(self).stack()
                        &&& final(self).budget() == old(self).budget()
                        &&& final(self).stats == old(self).stats
                        &&& final(self).objects@ == old(self).objects@
                        &&& final(self).blocks@ == old(self).blocks@
                        &&& final(self).metadata_emitted@ == old(self).metadata_emitted@
                        &&& final(self).progress(false) == p
                    },
                    Ok(Some(found)) => {
                        &&& q.failed is None && !q.truncated
                        &&& final(self).wf() && final(self).emitted_ok()
                        &&& final(self).stack() == old(self).stack()
                        &&& final(self).budget() == old(self).budget()
                        &&& final(self).stats == (PlanStats {
                            data_blocks: final(self).stats.data_blocks,
                            metadata_blocks: final(self).stats.metadata_blocks,
                            ..old(self).stats
                        })
                        &&& final(self).progress(false) == q
                        &&& resolution_of(found@, span_blocks@, q.objects, q.blocks)
                    },
                }
            }),
    {
        let ghost p = self.progress(false);
        let ghost stack = self.stack();
        let ghost before = *self;
        let first_object: usize = self.objects.len();
        let data_blocks: usize = self.stats.data_blocks;
        let metadata_blocks: usize = self.stats.metadata_blocks;
        let mut staged: Vec<PlannedBlock> = Vec::new();
        match self.stage_needs(span_blocks, &mut staged) {
            Ok(()) => {},
            Err(e) => {
                return Err(e);
            },
        }
        let ghost needs = stack.unit_needs(p.objects, span_blocks@)->Ok_0;
        let ghost objects = extend_objects(p.objects, needs);
        let ghost blocks = extend_blocks(p.blocks, needs);
        proof {
            assert(blocks.len() == before.blocks@.len() + staged@.len());
            before.lemma_objects_kept(*self);
        }
        let size: u128 = self.staged_size(first_object, &staged);
        assert(size == stack.artifact_bytes(objects, blocks.len() as int));
        if size > self.budget_bytes as u128 {
            let ghost mid = *self;
            self.roll_back(first_object, data_blocks, metadata_blocks);
            proof {
                before.lemma_rolled_back(mid, *self);
            }
            return Ok(None);
        }
        self.commit_staged(&staged, size as u64);
        proof {
            let meta = stack.metadata_needs(layer_order(span_blocks@), p.objects)->Ok_0;
            assert(needs.skip(meta.len() as int) =~= data_needs(span_blocks@));
            lemma_needs_selected(p.blocks, needs, span_blocks@);
        }
        Ok(Some(self.positions(span_blocks)))
    }

    /// Stages all that the blocks of a span need: the metadata of freshly
    /// touched layers first, then the blocks themselves.
    fn stage_needs(
        &mut self,
        span_blocks: &Vec<(usize, u32)>,
        staged: &mut Vec<PlannedBlock>,
    ) -> (res: Result<(), PlanError>)
        requires
            old(self).wf(),
            old(self).emitted_ok(),
            old(staged)@.len() == 0,
            old(self).stack().deps_in_objects(span_blocks@),
            old(self).stack().in_objects(old(self).progress(false).blocks),
            old(self).stack().total_blocks() <= usize::MAX,
        ensures
            match old(self).stack().unit_needs(
                old(self).progress(false).objects,
                span_blocks@,
            ) {
                Err(e) => res == Err::<(), PlanError>(e),
                Ok(needs) => {
                    &&& res is Ok
                    &&& final(self).staging(final(staged)@)
                    &&& final(self).same_but_objects(*old(self))
                    &&& final(self).emitted_ok()
                    &&& old(self).objects@.is_prefix_of(final(self).objects@)
                    &&& object_layers(final(self).objects@) == extend_objects(
                        old(self).progress(false).objects,
                        needs,
                    )
                    &&& final(self).selection(final(staged)@) == extend_blocks(
                        old(self).progress(false).blocks,
                        needs,
                    )
                },
            },
    {
        let ghost p = self.progress(false);
        let ghost stack = self.stack();
        let ghost deps = span_blocks@;
        assert(self.blocks@ + staged@ =~= self.blocks@);
        proof {
            self.lemma_distinct_blocks();
            assert forall|i: int| 0 <= i < span_blocks@.len() implies (
            #[trigger] span_blocks@[i]).0 < self.layers@.len() by {
                assert(span_blocks@[i].0 < stack.layers.len());
            }
        }
        match self.stage_new_layers(span_blocks, staged) {
            Ok(()) => {},
            Err(e) => {
                return Err(e);
            },
        }
        let ghost meta = stack.metadata_needs(layer_order(deps), p.objects)->Ok_0;
        let ghost emitted = self.metadata_emitted@;
        self.stage_data(span_blocks, staged);
        proof {
            let needs = meta + data_needs(deps);
            let objects = extend_objects(p.objects, needs);
            lemma_extend_concat(p.blocks, p.objects, meta, data_needs(deps));
            assert(object_layers(self.objects@) == objects);
            assert forall|l: int|
                #![trigger self.metadata_emitted@[l]]
                0 <= l < self.layers@.len() implies self.metadata_emitted@[l] == objects.contains(
                l as usize,
            ) by {
                assert(emitted[l] == (p.objects.contains(l as usize) || layer_order(
                    deps,
                ).contains(l as usize)));
                stack.lemma_new_objects(p.objects, deps, l as usize);
            }
        }
        Ok(())
    }

    /// What was in the object table before it grew.
    proof fn lemma_objects_kept(self, grown: Self)
        requires
            self.objects@.is_prefix_of(grown.objects@),
        ensures
            object_layers(grown.objects@).take(self.objects@.len() as int) == object_layers(
                self.objects@,
            ),
    {
        let (a, b) = (object_layers(self.objects@), object_layers(grown.objects@));
        assert forall|i: int| 0 <= i < a.len() implies b[i] == a[i] by {
            assert(grown.objects@[i] == self.objects@[i]);
        }
        assert(b.take(a.len() as int) =~= a);
    }

    /// Rolling back restores the object table and the metadata flags.
    proof fn lemma_rolled_back(self, grown: Self, after: Self)
        requires
            self.emitted_ok(),
            self.objects_ok(),
            grown.emitted_ok(),
            grown.objects_ok(),
            after.objects_ok(),
            self.layers == grown.layers,
            self.layers == after.layers,
            self.objects@.is_prefix_of(grown.objects@),
            after.objects@ == grown.objects@.take(self.objects@.len() as int),
            forall|l: int|
                #![trigger after.metadata_emitted@[l]]
                0 <= l < after.layers@.len() ==> after.metadata_emitted@[l] == (
                grown.metadata_emitted@[l] && !(grown.object_of_layer@[l] matches Some(o) && o
                    >= self.objects@.len())),
        ensures
            after.objects@ == self.objects@,
            after.metadata_emitted@ == self.metadata_emitted@,
    {
        let n = self.objects@.len() as int;
        assert(after.objects@ =~= self.objects@) by {
            assert forall|i: int| 0 <= i < n implies after.objects@[i] == self.objects@[i] by {}
        }
        self.lemma_objects_kept(grown);
        assert forall|l: int| 0 <= l < self.layers@.len() implies (
        #[trigger] after.metadata_emitted@[l]) == self.metadata_emitted@[l] by {
            assert(self.metadata_emitted@[l] == object_layers(self.objects@).contains(l as usize));
            assert(grown.metadata_emitted@[l] == object_layers(grown.objects@).contains(
                l as usize,
            ));
            grown.lemma_object_index(n, l);
        }
        assert(after.metadata_emitted@ =~= self.metadata_emitted@);
    }

    /// Where the objects from `count` on are new, a layer is among the others
    /// or has an index from `count` on.
    proof fn lemma_object_index(self, count: int, l: int)
        requires
            self.objects_ok(),
            0 <= count <= self.objects@.len(),
            0 <= l < self.layers@.len(),
        ensures
            ({
                let all = object_layers(self.objects@);
                let is_new = self.object_of_layer@[l] matches Some(o) && o >= count;
                &&& all.contains(l as usize) && !is_new <==> all.take(count).contains(l as usize)
            }),
    {
        let all = object_layers(self.objects@);
        if all.contains(l as usize) {
            let i = choose|i: int| 0 <= i < all.len() && all[i] == l as usize;
            assert(self.objects@[i].layer == l);
            if i < count {
                assert(all.take(count)[i] == l as usize);
            }
        }
        if all.take(count).contains(l as usize) {
            let i = choose|i: int| 0 <= i < count && all.take(count)[i] == l as usize;
            assert(all[i] == l as usize);
            assert(self.objects@[i].layer == l);
        }
    }

    /// The blocks of an object are those of its layer, each once.
    proof fn lemma_object_of_layer(self, layer: usize, object: u16)
        requires
            self.sound(),
            layer < self.layers@.len(),
            self.object_of_layer@[layer as int] == Some(object),
        ensures
            each_once(self.blocks@, object),
            forall|b: u64| #[trigger]
                has_block(self.blocks@, object, b) <==> selects(
                    needs_of(self.objects@, self.blocks@),
                    layer,
                    b as int,
                ),
    {
        let needs = needs_of(self.objects@, self.blocks@);
        self.lemma_distinct_blocks();
        assert(self.objects@[object as int].layer == layer);
        assert forall|i: int, j: int|
            #![trigger self.blocks@[i], self.blocks@[j]]
            0 <= i < j < self.blocks@.len() && self.blocks@[i].object == object
                && self.blocks@[j].object == object implies self.blocks@[i].block_id
            != self.blocks@[j].block_id by {
            assert(needs[i] == need_of(self.objects@, self.blocks@[i]));
            assert(needs[j] == need_of(self.objects@, self.blocks@[j]));
        }
        assert forall|b: u64| #[trigger]
            has_block(self.blocks@, object, b) <==> selects(needs, layer, b as int) by {
            if has_block(self.blocks@, object, b) {
                let i = choose|i: int|
                    0 <= i < self.blocks@.len() && (#[trigger] self.blocks@[i]).object == object
                        && self.blocks@[i].block_id == b;
                assert(needs[i] == need_of(self.objects@, self.blocks@[i]));
            }
            if selects(needs, layer, b as int) {
                let i = choose|i: int|
                    0 <= i < needs.len() && (#[trigger] needs[i]).layer == layer && needs[i].block
                        == b as int;
                assert(needs[i] == need_of(self.objects@, self.blocks@[i]));
                assert(self.objects@[self.blocks@[i].object as int].layer == layer);
            }
        }
    }

    /// The runs of missing blocks of one contributing layer, and the blocks in
    /// them.
    fn layer_gaps(&self, layer_idx: usize, object: u16) -> (gaps: (usize, usize))
        requires
            self.sound(),
            layer_idx < self.layers@.len(),
            self.object_of_layer@[layer_idx as int] == Some(object),
            self.stack().in_objects(needs_of(self.objects@, self.blocks@)),
            object_blocks(self.layers@[layer_idx as int].size as int) <= usize::MAX,
        ensures
            ({
                let needs = needs_of(self.objects@, self.blocks@);
                let total = object_blocks(self.layers@[layer_idx as int].size as int);
                &&& gaps.0 == missing_runs(needs, layer_idx, total)
                &&& gaps.1 == missing_blocks(needs, layer_idx, total)
            }),
    {
        let ghost needs = needs_of(self.objects@, self.blocks@);
        let total: u64 = div_ceil(self.layers[layer_idx].size, OBJECT_BLOCK_BYTES);
        proof {
            self.lemma_object_of_layer(layer_idx, object);
        }
        let selected: Vec<(u64, u64, u64)> = selected_blocks(&self.blocks, object);
        let mut runs: usize = 0;
        let mut blocks: usize = 0;
        let mut cursor: u64 = 0;
        let mut i: usize = 0;
        proof {
            assert forall|k: int| #![trigger selected@[k]] 0 <= k < selected@.len() implies
                selected@[k].0 < total && selects(needs, layer_idx, selected@[k].0 as int) by {
                assert(selected@.contains((selected@[k].0, 0, 0)));
                assert(has_block(self.blocks@, object, selected@[k].0));
                let j = choose|j: int|
                    0 <= j < needs.len() && (#[trigger] needs[j]).layer == layer_idx
                        && needs[j].block == selected@[k].0 as int;
                assert(self.stack().layers[needs[j].layer as int] == self.layers@[layer_idx as int]);
            }
            assert forall|x: int| 0 <= x < total && #[trigger] selects(
                needs,
                layer_idx,
                x,
            ) implies selected@.contains((x as u64, 0, 0)) by {
                assert(has_block(self.blocks@, object, x as u64));
            }
        }
        while i < selected.len()
            invariant
                i <= selected@.len(),
                total <= usize::MAX,
                sorted_triples(selected@),
                selected@.no_duplicates(),
                forall|k: int|
                    #![trigger selected@[k]]
                    0 <= k < selected@.len() ==> {
                        &&& selected@[k].1 == 0 && selected@[k].2 == 0
                        &&& selected@[k].0 < total
                        &&& selects(needs, layer_idx, selected@[k].0 as int)
                    },
                forall|x: int|
                    0 <= x < total && #[trigger] selects(needs, layer_idx, x)
                        ==> selected@.contains((x as u64, 0, 0)),
                cursor == if i == 0 {
                    0
                } else {
                    selected@[i - 1].0 + 1
                },
                cursor <= total,
                runs == missing_runs(needs, layer_idx, cursor as int),
                blocks == missing_blocks(needs, layer_idx, cursor as int),
            decreases selected@.len() - i,
        {
            let b: u64 = selected[i].0;
            proof {
                if i > 0 {
                    assert(selects(needs, layer_idx, cursor - 1)) by {
                        assert(selected@[i - 1].0 == cursor - 1);
                    }
                    assert(triple_le(selected@[i - 1], selected@[i as int]));
                    assert(selected@[i - 1] != selected@[i as int]);
                }
                assert(selects(needs, layer_idx, b as int));
                assert forall|x: int| cursor <= x < b implies !#[trigger] selects(
                    needs,
                    layer_idx,
                    x,
                ) by {
                    if selects(needs, layer_idx, x) {
                        let k = choose|k: int|
                            0 <= k < selected@.len() && selected@[k] == (x as u64, 0u64, 0u64);
                        if k < i {
                            if k < i - 1 {
                                assert(triple_le(selected@[k], selected@[i - 1]));
                            }
                        } else if k > i {
                            assert(triple_le(selected@[i as int], selected@[k]));
                        }
                    }
                }
                lemma_gap(needs, layer_idx, cursor as int, b as int);
                lemma_missing_bounds(needs, layer_idx, b as int);
            }
            if b > cursor {
                runs = runs + 1;
                blocks = blocks + (b - cursor) as usize;
            }
            cursor = b + 1;
            i = i + 1;
        }
        proof {
            if i > 0 {
                assert(selects(needs, layer_idx, cursor - 1)) by {
                    assert(selected@[i - 1].0 == cursor - 1);
                }
            }
            assert forall|x: int| cursor <= x < total implies !#[trigger] selects(
                needs,
                layer_idx,
                x,
            ) by {
                if selects(needs, layer_idx, x) {
                    let k = choose|k: int|
                        0 <= k < selected@.len() && selected@[k] == (x as u64, 0u64, 0u64);
                    if k < i - 1 {
                        assert(triple_le(selected@[k], selected@[i - 1]));
                    }
                }
            }
            lemma_gap(needs, layer_idx, cursor as int, total as int);
            lemma_missing_bounds(needs, layer_idx, total as int);
        }
        if cursor < total {
            runs = runs + 1;
            blocks = blocks + (total - cursor) as usize;
        }
        (runs, blocks)
    }

    /// Missing-block run statistics over contributing objects (what the
    /// background still has to fetch after this plan is imported).
    fn gap_stats(&mut self)
        requires
            old(self).sound(),
            old(self).stack().in_objects(old(self).progress(false).blocks),
            old(self).stack().total_blocks() <= usize::MAX,
            old(self).stats.gap_runs == 0,
            old(self).stats.gap_blocks == 0,
        ensures
            final(self).sound(),
            *final(self) == (BlockPlanner {
                stats: PlanStats {
                    gap_runs: final(self).stats.gap_runs,
                    gap_blocks: final(self).stats.gap_blocks,
                    ..old(self).stats
                },
                ..*old(self)
            }),
            ({
                let n = old(self).stack().layers.len() as int;
                let p = old(self).progress(false);
                &&& final(self).stats.gap_runs == old(self).stack().gap_runs(p, n)
                &&& final(self).stats.gap_blocks == old(self).stack().gap_blocks(p, n)
            }),
    {
        let ghost before = *self;
        let ghost stack = self.stack();
        let ghost p = self.progress(false);
        let mut l: usize = 0;
        while l < self.layers.len()
            invariant
                l <= self.layers@.len(),
                self.sound(),
                before == *old(self),
                stack == before.stack(),
                p == before.progress(false),
                stack.in_objects(p.blocks),
                stack.total_blocks() <= usize::MAX,
                *self == (BlockPlanner {
                    stats: PlanStats {
                        gap_runs: self.stats.gap_runs,
                        gap_blocks: self.stats.gap_blocks,
                        ..before.stats
                    },
                    ..before
                }),
                self.stats.gap_runs == stack.gap_runs(p, l as int),
                self.stats.gap_blocks == stack.gap_blocks(p, l as int),
            decreases self.layers@.len() - l,
        {
            let entry: Option<u16> = self.object_of_layer[l];
            proof {
                stack.lemma_gap_bounds(p, l as int);
                stack.lemma_gap_bounds(p, l + 1);
                assert(stack.layers[l as int] == self.layers@[l as int]);
                assert(entry is Some <==> p.objects.contains(l)) by {
                    if entry is Some {
                        assert(object_layers(self.objects@)[entry->0 as int] == l);
                    }
                    if p.objects.contains(l) {
                        let i = choose|i: int| 0 <= i < p.objects.len() && p.objects[i] == l;
                        assert(self.objects@[i].layer == l);
                    }
                }
            }
            match entry {
                Some(object) => {
                    let gaps: (usize, usize) = self.layer_gaps(l, object);
                    self.stats.gap_runs = self.stats.gap_runs + gaps.0;
                    self.stats.gap_blocks = self.stats.gap_blocks + gaps.1;
                },
                None => {},
            }
            l = l + 1;
        }
    }

    /// A planner that has selected nothing yet.
    pub(crate) fn new(
        layers: &'a [FinalLayerSource],
        opened: &'a [OpenedLayer],
        budget_bytes: u64,
    ) -> (res: Result<Self, PlanError>)
        requires
            opened@.len() == layers@.len(),
            (Stack { layers: layers@, opened: opened@ }).addressable(),
        ensures
            match layers_error(layers@) {
                Some(e) => res == Err::<Self, PlanError>(e),
                None => {
                    &&& res is Ok
                    &&& res->Ok_0.wf()
                    &&& res->Ok_0.emitted_ok()
                    &&& res->Ok_0.stack() == (Stack { layers: layers@, opened: opened@ })
                    &&& res->Ok_0.budget() == budget_bytes
                    &&& res->Ok_0.progress(false) == no_progress()
                    &&& res->Ok_0.pages_total() == 0
                },
            },
    {
        match check_layer_count(layers.len()) {
            Ok(()) => {},
            Err(e) => {
                return Err(e);
            },
        }
        let mut object_of_layer: Vec<Option<u16>> = Vec::new();
        let mut metadata_emitted: Vec<bool> = Vec::new();
        let mut i: usize = 0;
        while i < layers.len()
            invariant
                i <= layers@.len(),
                0 < layers@.len() <= MAX_LAYERS,
                layers_error(layers@) == empty_layer(layers@, i as int),
                object_of_layer@.len() == i,
                metadata_emitted@.len() == i,
                forall|k: int| 0 <= k < i ==> (#[trigger] layers@[k]).size > 0,
                forall|k: int| 0 <= k < i ==> (#[trigger] object_of_layer@[k]) is None,
                forall|k: int| 0 <= k < i ==> !#[trigger] metadata_emitted@[k],
            decreases layers@.len() - i,
        {
            match check_layer(i, &layers[i]) {
                Ok(()) => {},
                Err(e) => {
                    return Err(e);
                },
            }
            object_of_layer.push(None);
            metadata_emitted.push(false);
            i = i + 1;
        }
        let planner: BlockPlanner<'a> = BlockPlanner {
            layers,
            opened,
            budget_bytes,
            spent_bytes: HEADER_BYTES,
            stats: PlanStats::default(),
            objects: Vec::new(),
            object_of_layer,
            blocks: Vec::new(),
            seen: HashMap::new(),
            metadata_emitted,
        };
        proof {
            assert(planner.progress(false).objects =~= Seq::<usize>::empty());
            assert(planner.progress(false).blocks =~= Seq::<Need>::empty());
            assert(planner.stack().object_bytes(Seq::empty()) == 0);
            assert forall|l: int|
                #![trigger planner.metadata_emitted@[l]]
                0 <= l < planner.layers@.len() implies planner.metadata_emitted@[l]
                == object_layers(planner.objects@).contains(l as usize) by {
                assert(object_layers(planner.objects@).len() == 0);
            }
        }
        Ok(planner)
    }

    /// The finished plan.
    pub(crate) fn finish(self) -> (plan: PackPlan)
        requires
            self.wf(),
            self.stack().in_objects(self.progress(false).blocks),
            self.stack().total_blocks() <= usize::MAX,
        ensures
            forall|truncated: bool|
                plan_of(
                    plan,
                    self.stack(),
                    #[trigger] self.progress(truncated),
                    self.pages_total(),
                ),
    {
        let mut planner = self;
        planner.gap_stats();
        proof {
            assert forall|i: int|
                #![trigger planner.objects@[i]]
                0 <= i < planner.objects@.len() implies {
                &&& planner.objects@[i].layer < self.stack().layers.len()
                &&& planner.objects@[i].digest
                    == self.stack().layers[planner.objects@[i].layer as int].digest
                &&& planner.objects@[i].size
                    == self.stack().layers[planner.objects@[i].layer as int].size
            } by {
                assert(planner.objects_ok());
            }
        }
        proof {
            let ls = object_layers(self.objects@);
            assert(ls.take(ls.len() as int) =~= ls);
            self.stack().lemma_object_bytes_grow(ls, ls.len() as int);
        }
        planner.stats.unique_blocks = planner.blocks.len();
        planner.stats.payload_bytes = planner.stats.unique_blocks as u64 * OBJECT_BLOCK_BYTES;
        proof {
            assert forall|truncated: bool| true implies {
                let (p, q) = (self.progress(false), #[trigger] self.progress(truncated));
                let n = self.stack().layers.len() as int;
                &&& self.stack().gap_runs(p, n) == self.stack().gap_runs(q, n)
                &&& self.stack().gap_blocks(p, n) == self.stack().gap_blocks(q, n)
            } by {
                self.stack().lemma_gaps_of_blocks(
                    self.progress(false),
                    self.progress(truncated),
                    self.stack().layers.len() as int,
                );
            }
        }
        PackPlan { objects: planner.objects, blocks: planner.blocks, stats: planner.stats }
    }

    /// Takes one span of `pages` pages, of which `backed_count` are mapped to a
    /// physical range, for which the index gave these answers. Answers with the
    /// positions of its blocks, or with none where they do not fit the budget.
    pub(crate) fn take_span(
        &mut self,
        mappings: &Vec<SegmentMapping>,
        pages: usize,
        backed_count: usize,
    ) -> (res: Result<Option<Vec<(u16, u32, usize)>>, PlanError>)
        requires
            old(self).wf(),
            old(self).emitted_ok(),
            old(self).stack().answer_ok(mappings@),
            old(self).stack().in_objects(old(self).progress(false).blocks),
            old(self).stack().total_blocks() <= usize::MAX,
            backed_count <= pages,
            old(self).progress(false).backed + pages <= usize::MAX,
            old(self).progress(false).holes + pages <= usize::MAX,
            old(self).progress(false).cut + pages <= usize::MAX,
        ensures
            ({
                let p = old(self).progress(false);
                let q = old(self).stack().take_unit(
                    p,
                    mappings@,
                    Weight { pages: pages as int, backed: backed_count as int },
                    old(self).budget(),
                );
                let deps = old(self).stack().resolve(mappings@);
                &&& res is Ok ==> {
                    &&& final(self).wf()
                    &&& final(self).stack() == old(self).stack()
                    &&& final(self).budget() == old(self).budget()
                    &&& final(self).pages_total() == old(self).pages_total()
                    &&& final(self).stack().in_objects(q.blocks)
                }
                &&& match res {
                    Err(e) => q.failed == Some(e),
                    Ok(None) => q.failed is None && q.truncated && final(self).progress(true) == q,
                    Ok(Some(found)) => {
                        &&& q.failed is None && !q.truncated
                        &&& final(self).emitted_ok()
                        &&& final(self).progress(false) == q
                        &&& deps is Ok
                        &&& resolution_of(found@, deps->Ok_0, q.objects, q.blocks)
                    },
                }
            }),
    {
        let ghost p = self.progress(false);
        let ghost stack = self.stack();
        let mut span_blocks: Vec<(usize, u32)> = Vec::new();
        let found: bool = match self.resolve_span_blocks(mappings, &mut span_blocks) {
            Ok(found) => found,
            Err(e) => {
                return Err(e);
            },
        };
        proof {
            stack.lemma_resolved_in_objects(mappings@);
            assert(Seq::<(usize, u32)>::empty() + stack.resolve(mappings@)->Ok_0
                =~= stack.resolve(mappings@)->Ok_0);
            stack.lemma_stage_in_objects(
                p,
                span_blocks@,
                Weight { pages: pages as int, backed: backed_count as int },
                self.budget(),
            );
        }
        if !found {
            self.stats.pages_zero_hole = self.stats.pages_zero_hole + pages;
            return Ok(Some(Vec::new()));
        }
        match self.stage_span(&span_blocks) {
            Err(e) => Err(e),
            Ok(None) => {
                self.stats.pages_truncated_by_budget =
                self.stats.pages_truncated_by_budget + pages;
                Ok(None)
            },
            Ok(Some(found)) => {
                self.stats.pages_backed = self.stats.pages_backed + backed_count;
                self.stats.pages_zero_hole = self.stats.pages_zero_hole + (pages - backed_count);
                Ok(Some(found))
            },
        }
    }

    /// Counts pages in.
    pub(crate) fn add_pages(&mut self, count: usize)
        requires
            old(self).wf(),
            old(self).pages_total() + count <= usize::MAX,
        ensures
            final(self).wf(),
            old(self).emitted_ok() ==> final(self).emitted_ok(),
            final(self).stack() == old(self).stack(),
            final(self).budget() == old(self).budget(),
            final(self).pages_total() == old(self).pages_total() + count,
            forall|truncated: bool| #[trigger]
                final(self).progress(truncated) == old(self).progress(truncated),
    {
        self.stats.pages_total = self.stats.pages_total + count;
    }

    /// Counts pages behind the cut.
    pub(crate) fn skip_pages(&mut self, count: usize)
        requires
            old(self).wf(),
            old(self).progress(true).cut + count <= usize::MAX,
        ensures
            final(self).wf(),
            final(self).stack() == old(self).stack(),
            final(self).budget() == old(self).budget(),
            final(self).pages_total() == old(self).pages_total(),
            final(self).progress(true) == (Progress {
                cut: old(self).progress(true).cut + count,
                ..old(self).progress(true)
            }),
    {
        self.stats.pages_truncated_by_budget = self.stats.pages_truncated_by_budget + count;
    }

    /// Both counts of a selection, and what it was selected from, are those of
    /// a stack.
    pub proof fn lemma_wf(self)
        requires
            self.wf(),
        ensures
            self.stack().wf(),
            forall|truncated: bool| #[trigger]
                self.progress(truncated) == (Progress { truncated, ..self.progress(false) }),
    {
    }
}

/// The weight of a unit whose pages are counted elsewhere.
spec fn no_pages() -> Weight {
    Weight { pages: 0, backed: 0 }
}

/// Bytes of the checksums of `n` blocks.
fn frame_cost(n: u128) -> (bytes: u128)
    requires
        n <= 0x4_0000_0000_0000_0000,
    ensures
        bytes == frame_bytes(n as int),
        bytes <= 0x4_0000_0000_0000_0000_0000,
{
    let payload: u128 = n * OBJECT_BLOCK_BYTES as u128;
    assert(payload == n * 262144);
    let frames: u128 = (payload + FRAME_BYTES as u128 - 1) / FRAME_BYTES as u128;
    let checksum: u128 = FRAME_CHECKSUM_BYTES as u128;
    assert(checksum == 4 && frames <= payload + 1);
    checksum * frames
}

/// Whether `blocks` holds this block of this object.
pub open spec fn has_block(blocks: Seq<PlannedBlock>, object: u16, b: u64) -> bool {
    exists|i: int|
        0 <= i < blocks.len() && (#[trigger] blocks[i]).object == object && blocks[i].block_id == b
}

/// No block of this object occurs twice.
pub open spec fn each_once(blocks: Seq<PlannedBlock>, object: u16) -> bool {
    forall|i: int, j: int|
        #![trigger blocks[i], blocks[j]]
        0 <= i < j < blocks.len() && blocks[i].object == object && blocks[j].object == object
            ==> blocks[i].block_id != blocks[j].block_id
}

/// The blocks of one object, in ascending order.
fn selected_blocks(blocks: &Vec<PlannedBlock>, object: u16) -> (selected: Vec<(u64, u64, u64)>)
    requires
        each_once(blocks@, object),
    ensures
        sorted_triples(selected@),
        selected@.no_duplicates(),
        forall|i: int|
            #![trigger selected@[i]]
            0 <= i < selected@.len() ==> selected@[i].1 == 0 && selected@[i].2 == 0,
        forall|b: u64| #[trigger]
            selected@.contains((b, 0, 0)) <==> has_block(blocks@, object, b),
{
    let mut selected: Vec<(u64, u64, u64)> = Vec::new();
    let mut i: usize = 0;
    while i < blocks.len()
        invariant
            i <= blocks@.len(),
            each_once(blocks@, object),
            selected@.no_duplicates(),
            forall|k: int|
                #![trigger selected@[k]]
                0 <= k < selected@.len() ==> selected@[k].1 == 0 && selected@[k].2 == 0,
            forall|b: u64| #[trigger]
                selected@.contains((b, 0, 0)) <==> has_block(blocks@.take(i as int), object, b),
        decreases blocks@.len() - i,
    {
        let ghost before = selected@;
        let ghost upto = blocks@.take(i as int);
        let ghost next = blocks@.take(i + 1);
        let block: PlannedBlock = blocks[i];
        if block.object == object {
            let x: (u64, u64, u64) = (block.block_id as u64, 0, 0);
            selected.push(x);
            assert(!before.contains(x)) by {
                if before.contains(x) {
                    assert(has_block(upto, object, x.0));
                    let k = choose|k: int|
                        0 <= k < upto.len() && (#[trigger] upto[k]).object == object
                            && upto[k].block_id == x.0;
                    assert(blocks@[k].block_id == blocks@[i as int].block_id);
                }
            }
        }
        assert forall|b: u64| #[trigger]
            selected@.contains((b, 0, 0)) <==> has_block(next, object, b) by {
            if selected@.contains((b, 0, 0)) {
                let k = choose|k: int| 0 <= k < selected@.len() && selected@[k] == (b, 0u64, 0u64);
                if k < before.len() {
                    assert(before[k] == (b, 0u64, 0u64));
                    assert(before.contains((b, 0, 0)));
                    let j = choose|j: int|
                        0 <= j < upto.len() && (#[trigger] upto[j]).object == object
                            && upto[j].block_id == b;
                    assert(next[j] == upto[j]);
                } else {
                    assert(next[i as int] == block);
                }
            }
            if has_block(next, object, b) {
                let j = choose|j: int|
                    0 <= j < next.len() && (#[trigger] next[j]).object == object
                        && next[j].block_id == b;
                if j < i {
                    assert(upto[j] == next[j]);
                    assert(before.contains((b, 0, 0)));
                    let k = choose|k: int| 0 <= k < before.len() && before[k] == (b, 0u64, 0u64);
                    assert(selected@[k] == (b, 0u64, 0u64));
                } else {
                    assert(selected@[before.len() as int] == (b, 0u64, 0u64));
                }
            }
        }
        i = i + 1;
    }
    assert(blocks@.take(i as int) =~= blocks@);
    let ghost unsorted = selected@;
    sort_triples(&mut selected);
    proof {
        lemma_same_elements(unsorted, selected@);
        assert forall|k: int| #![trigger selected@[k]] 0 <= k < selected@.len() implies
            selected@[k].1 == 0 && selected@[k].2 == 0 by {
            assert(selected@.contains(selected@[k]));
            assert(unsorted.contains(selected@[k]));
        }
        assert forall|b: u64| #[trigger]
            selected@.contains((b, 0, 0)) <==> has_block(blocks@, object, b) by {
            assert(unsorted.contains((b, 0, 0)) <==> selected@.contains((b, 0, 0)));
        }
    }
    selected
}

/// Checks that there are layers to plan against, and no more than an object
/// table can index.
pub fn check_layer_count(count: usize) -> (res: Result<(), PlanError>)
    ensures
        count == 0 ==> res == Err::<(), PlanError>(PlanError::NoLayers),
        count > MAX_LAYERS ==> res == Err::<(), PlanError>(PlanError::TooManyLayers),
        0 < count <= MAX_LAYERS ==> res is Ok,
{
    if count == 0 {
        return Err(PlanError::NoLayers);
    }
    if count > MAX_LAYERS {
        return Err(PlanError::TooManyLayers);
    }
    Ok(())
}

/// Checks that the layer at `index` has a final object that is not empty.
pub fn check_layer(index: usize, layer: &FinalLayerSource) -> (res: Result<(), PlanError>)
    ensures
        layer.size == 0 ==> res == Err::<(), PlanError>(PlanError::EmptyLayer { layer: index }),
        layer.size > 0 ==> res is Ok,
{
    if layer.size == 0 {
        Err(PlanError::EmptyLayer { layer: index })
    } else {
        Ok(())
    }
}

/// Whether `layers` holds `layer`.
fn contains_layer(layers: &Vec<usize>, layer: usize) -> (res: bool)
    ensures
        res == layers@.contains(layer),
{
    let mut i: usize = 0;
    while i < layers.len()
        invariant
            i <= layers@.len(),
            forall|k: int| 0 <= k < i ==> layers@[k] != layer,
        decreases layers@.len() - i,
    {
        if layers[i] == layer {
            return true;
        }
        i = i + 1;
    }
    false
}

impl Stack {
    /// A unit brings the layers of its dependencies into the object table.
    proof fn lemma_new_objects(self, objects: Seq<usize>, deps: Seq<(usize, u32)>, l: usize)
        requires
            self.metadata_needs(layer_order(deps), objects) is Ok,
        ensures
            extend_objects(
                objects,
                self.metadata_needs(layer_order(deps), objects)->Ok_0 + data_needs(deps),
            ).contains(l) <==> objects.contains(l) || layer_order(deps).contains(l),
    {
        let meta = self.metadata_needs(layer_order(deps), objects)->Ok_0;
        let needs = meta + data_needs(deps);
        lemma_extend_objects(objects, needs);
        lemma_layer_order(deps);
        self.lemma_metadata_layers(layer_order(deps), objects);
        if layer_order(deps).contains(l) {
            let i = choose|i: int| 0 <= i < deps.len() && (#[trigger] deps[i]).0 == l;
            assert(needs[meta.len() + i].layer == l);
        }
        if extend_objects(objects, needs).contains(l) && !objects.contains(l) {
            let i = choose|i: int| 0 <= i < needs.len() && (#[trigger] needs[i]).layer == l;
            if i < meta.len() {
                assert(meta[i].layer == l);
            } else {
                assert(deps[i - meta.len()].0 == l);
            }
        }
    }
}

/// The dependencies of a unit that was taken are selected.
proof fn lemma_needs_selected(have: Seq<Need>, needs: Seq<Need>, deps: Seq<(usize, u32)>)
    requires
        deps.len() <= needs.len(),
        needs.skip(needs.len() - deps.len()) == data_needs(deps),
    ensures
        forall|i: int|
            #![trigger deps[i]]
            0 <= i < deps.len() ==> selects(
                extend_blocks(have, needs),
                deps[i].0,
                deps[i].1 as int,
            ),
{
    lemma_extend_blocks(have, needs);
    let n = needs.len() - deps.len();
    assert forall|i: int| #![trigger deps[i]] 0 <= i < deps.len() implies selects(
        extend_blocks(have, needs),
        deps[i].0,
        deps[i].1 as int,
    ) by {
        assert(needs[n + i] == needs.skip(n)[i]);
        assert(needs.skip(n)[i] == data_needs(deps)[i]);
    }
}

} // verus!
