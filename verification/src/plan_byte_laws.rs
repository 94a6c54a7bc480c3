//! Laws on plans, byte by byte: a plan selects the blocks that hold a stored
//! byte of what the index maps, and those that hold the header or the index of
//! a layer among them.
use vstd::prelude::*;
use crate::extent_laws::{
    law_blocks_hold_every_stored_byte, law_blocks_hold_stored_bytes_only, stores,
};
use crate::extents::LayerLayout;
use crate::plan_model::{FinalLayerSource, Need, OpenedLayer, Progress, SegmentMapping, Stack};
use crate::plan_span_laws::touches;

verus! {

/// Whether a block of an object of `size` bytes holds a byte of the stored form
/// of a logical byte from `from` to before `to`.
pub open spec fn holds_stored(
    layout: LayerLayout,
    size: int,
    from: int,
    to: int,
    block: int,
) -> bool {
    &&& 0 <= block * 262144 < size
    &&& exists|x: int, at: int|
        from <= x < to && #[trigger] stores(layout, x, at) && at / 262144 == block
}

/// Whether a block of a layer, counted from the bottom, holds a stored byte of
/// what an answer of the index maps: sectors of 512 bytes of the layer that is
/// `tag` layers below the top.
pub open spec fn maps_into(
    layers: Seq<FinalLayerSource>,
    opened: Seq<OpenedLayer>,
    m: SegmentMapping,
    layer: int,
    block: int,
) -> bool {
    &&& m.physical
    &&& 0 <= layer
    &&& layer + 1 + m.tag == layers.len()
    &&& holds_stored(
        opened[layer].layout,
        layers[layer].size as int,
        m.moffset * 512,
        (m.moffset + m.length) * 512,
        block,
    )
}

/// Whether a block of a layer holds a stored byte of the layer's header, the
/// first 4096 bytes of its file, or of its index, which the file ends with.
pub open spec fn describes_layer(
    layers: Seq<FinalLayerSource>,
    opened: Seq<OpenedLayer>,
    layer: int,
    block: int,
) -> bool {
    let o = opened[layer];
    ||| holds_stored(o.layout, layers[layer].size as int, 0, 4096, block)
    ||| holds_stored(
        o.layout,
        layers[layer].size as int,
        o.metadata.index_offset as int,
        o.metadata.file_size as int,
        block,
    )
}

/// Whether some of the answers maps into a block of a layer.
pub open spec fn answer_maps_into(
    layers: Seq<FinalLayerSource>,
    opened: Seq<OpenedLayer>,
    answer: Seq<SegmentMapping>,
    layer: int,
    block: int,
) -> bool {
    exists|k: int|
        0 <= k < answer.len() && #[trigger] maps_into(layers, opened, answer[k], layer, block)
}

/// Whether some answer for the first `n` units maps into a block of a layer.
pub open spec fn units_map_into(
    layers: Seq<FinalLayerSource>,
    opened: Seq<OpenedLayer>,
    answers: Seq<Vec<SegmentMapping>>,
    n: int,
    layer: int,
    block: int,
) -> bool {
    exists|i: int|
        0 <= i < n && #[trigger] answer_maps_into(layers, opened, answers[i]@, layer, block)
}

/// Whether some answer for the first `n` units maps into a layer.
pub open spec fn units_touch(
    layers: Seq<FinalLayerSource>,
    opened: Seq<OpenedLayer>,
    answers: Seq<Vec<SegmentMapping>>,
    n: int,
    layer: int,
) -> bool {
    exists|block: int| #[trigger] units_map_into(layers, opened, answers, n, layer, block)
}

/// Whether an answer puts virtual byte `v` of the image at byte `at` of the
/// object of a layer, counted from the bottom: the sector of the byte is mapped,
/// and the byte of the layer's file that it is mapped to is stored there.
pub open spec fn puts_byte(
    layers: Seq<FinalLayerSource>,
    opened: Seq<OpenedLayer>,
    m: SegmentMapping,
    v: int,
    layer: int,
    at: int,
) -> bool {
    &&& m.physical
    &&& 0 <= layer
    &&& layer + 1 + m.tag == layers.len()
    &&& m.offset * 512 <= v < (m.offset + m.length) * 512
    &&& stores(opened[layer].layout, v - m.offset * 512 + m.moffset * 512, at)
    &&& 0 <= at < layers[layer].size
}

/// An answer that puts a byte somewhere maps into that block.
pub proof fn lemma_puts_byte(
    layers: Seq<FinalLayerSource>,
    opened: Seq<OpenedLayer>,
    m: SegmentMapping,
    v: int,
    layer: int,
    at: int,
)
    requires
        puts_byte(layers, opened, m, v, layer, at),
    ensures
        maps_into(layers, opened, m, layer, at / 262144),
{
    let x = v - m.offset * 512 + m.moffset * 512;
    assert(m.moffset * 512 <= x < (m.moffset + m.length) * 512);
    assert(stores(opened[layer].layout, x, at));
}

/// The blocks of an extent are those that hold a stored byte of it.
proof fn lemma_blocks_hold(layout: LayerLayout, size: int, from: int, to: int, block: u32)
    requires
        0 <= from <= to,
        0 < size,
        layout.blocks_of(from, to - from, size) is Ok,
    ensures
        layout.blocks_of(from, to - from, size)->Ok_0.contains(block) <==> holds_stored(
            layout,
            size,
            from,
            to,
            block as int,
        ),
{
    let blocks = layout.blocks_of(from, to - from, size)->Ok_0;
    if blocks.contains(block) {
        let i = choose|i: int| 0 <= i < blocks.len() && blocks[i] == block;
        law_blocks_hold_stored_bytes_only(layout, from, to - from, size, i);
    }
    if holds_stored(layout, size, from, to, block as int) {
        let (x, at) = choose|x: int, at: int|
            from <= x < to && #[trigger] stores(layout, x, at) && at / 262144 == block as int;
        law_blocks_hold_every_stored_byte(layout, from, to - from, size, x, at);
    }
}

/// A block that holds a stored byte of an extent has an id of 32 bits.
proof fn lemma_held_id(layout: LayerLayout, size: int, from: int, to: int, block: int)
    requires
        0 <= from <= to,
        layout.blocks_of(from, to - from, size) is Ok,
        holds_stored(layout, size, from, to, block),
    ensures
        0 <= block <= u32::MAX,
{
    let (x, at) = choose|x: int, at: int|
        from <= x < to && #[trigger] stores(layout, x, at) && at / 262144 == block;
    law_blocks_hold_every_stored_byte(layout, from, to - from, size, x, at);
}

impl Stack {
    /// What answers resolve to are the blocks that they map into.
    pub proof fn lemma_resolved_by_bytes(
        self,
        answer: Seq<SegmentMapping>,
        layer: usize,
        block: u32,
    )
        requires
            self.wf(),
            self.answer_ok(answer),
            self.resolve(answer) is Ok,
        ensures
            self.resolve(answer)->Ok_0.contains((layer, block)) <==> answer_maps_into(
                self.layers,
                self.opened,
                answer,
                layer as int,
                block as int,
            ),
        decreases answer.len(),
    {
        let dep = (layer, block);
        let (l, b) = (layer as int, block as int);
        if answer.len() > 0 {
            let init = answer.drop_last();
            let n = init.len() as int;
            let m = answer.last();
            assert(self.answer_ok(init)) by {
                assert forall|i: int| 0 <= i < init.len() implies self.mapping_ok(
                    #[trigger] init[i],
                ) by {
                    assert(init[i] == answer[i]);
                }
            }
            self.lemma_resolved_by_bytes(init, layer, block);
            assert(self.mapping_ok(answer[n]));
            let deps = self.resolve(init)->Ok_0;
            let more = if m.physical {
                self.mapping_blocks(m)->Ok_0.map_values(
                    |b: u32| (self.layer_of(m) as usize, b),
                )
            } else {
                Seq::empty()
            };
            assert(self.resolve(answer)->Ok_0 =~= deps + more);
            let (from, to) = (m.moffset * 512, (m.moffset + m.length) * 512);
            if m.physical {
                let blocks = self.mapping_blocks(m)->Ok_0;
                let own = self.layer_of(m);
                assert(self.layers[own].size > 0);
                assert(own as usize == own);
                lemma_blocks_hold(
                    self.opened[own].layout,
                    self.layers[own].size as int,
                    from,
                    to,
                    block,
                );
                if more.contains(dep) {
                    let k = choose|k: int| 0 <= k < more.len() && more[k] == dep;
                    assert(blocks[k] == block);
                    assert(maps_into(self.layers, self.opened, answer[n], l, b));
                }
                if maps_into(self.layers, self.opened, m, l, b) {
                    let k = choose|k: int| 0 <= k < blocks.len() && blocks[k] == block;
                    assert(more[k] == dep);
                }
            }
            if (deps + more).contains(dep) {
                let k = choose|k: int| 0 <= k < (deps + more).len() && (deps + more)[k] == dep;
                if k < deps.len() {
                    assert(deps[k] == dep);
                    let j = choose|j: int|
                        0 <= j < init.len() && #[trigger] maps_into(
                            self.layers,
                            self.opened,
                            init[j],
                            l,
                            b,
                        );
                    assert(maps_into(self.layers, self.opened, answer[j], l, b));
                } else {
                    assert(more[k - deps.len()] == dep);
                }
            }
            if answer_maps_into(self.layers, self.opened, answer, l, b) {
                let j = choose|j: int|
                    0 <= j < answer.len() && #[trigger] maps_into(
                        self.layers,
                        self.opened,
                        answer[j],
                        l,
                        b,
                    );
                if j < n {
                    assert(maps_into(self.layers, self.opened, init[j], l, b));
                    let k = choose|k: int| 0 <= k < deps.len() && deps[k] == dep;
                    assert((deps + more)[k] == dep);
                } else {
                    let k = choose|k: int| 0 <= k < more.len() && more[k] == dep;
                    assert((deps + more)[deps.len() + k] == dep);
                }
            }
        }
    }

    /// A block that answers map into has an id of 32 bits.
    pub proof fn lemma_mapped_id(self, answer: Seq<SegmentMapping>, layer: int, block: int)
        requires
            self.wf(),
            self.answer_ok(answer),
            self.resolve(answer) is Ok,
            answer_maps_into(self.layers, self.opened, answer, layer, block),
        ensures
            0 <= block <= u32::MAX,
            0 <= layer < self.layers.len(),
        decreases answer.len(),
    {
        let init = answer.drop_last();
        let n = init.len() as int;
        let m = answer.last();
        assert(self.mapping_ok(answer[n]));
        let j = choose|j: int|
            0 <= j < answer.len() && #[trigger] maps_into(
                self.layers,
                self.opened,
                answer[j],
                layer,
                block,
            );
        if j < n {
            assert(maps_into(self.layers, self.opened, init[j], layer, block));
            assert(self.answer_ok(init)) by {
                assert forall|i: int| 0 <= i < init.len() implies self.mapping_ok(
                    #[trigger] init[i],
                ) by {
                    assert(init[i] == answer[i]);
                }
            }
            self.lemma_mapped_id(init, layer, block);
        } else {
            lemma_held_id(
                self.opened[layer].layout,
                self.layers[layer].size as int,
                m.moffset * 512,
                (m.moffset + m.length) * 512,
                block,
            );
        }
    }

    /// The metadata blocks of a layer are those that describe it.
    proof fn lemma_metadata_by_bytes(self, layer: usize, block: u32)
        requires
            self.wf(),
            layer < self.layers.len(),
            self.metadata_blocks(layer) is Ok,
        ensures
            self.metadata_blocks(layer)->Ok_0.contains(block) <==> describes_layer(
                self.layers,
                self.opened,
                layer as int,
                block as int,
            ),
    {
        let o = self.opened[layer as int];
        let size = self.layers[layer as int].size as int;
        let (from, to) = (o.metadata.index_offset as int, o.metadata.file_size as int);
        assert(self.layers[layer as int].size > 0);
        let header = o.layout.blocks_of(0, 4096, size)->Ok_0;
        lemma_blocks_hold(o.layout, size, 0, 4096, block);
        let all = self.metadata_blocks(layer)->Ok_0;
        if to > from {
            let tail = o.layout.blocks_of(from, to - from, size)->Ok_0;
            lemma_blocks_hold(o.layout, size, from, to, block);
            assert(all =~= header + tail);
            if header.contains(block) {
                let k = choose|k: int| 0 <= k < header.len() && header[k] == block;
                assert(all[k] == block);
            }
            if tail.contains(block) {
                let k = choose|k: int| 0 <= k < tail.len() && tail[k] == block;
                assert(all[header.len() + k] == block);
            }
            if all.contains(block) {
                let k = choose|k: int| 0 <= k < all.len() && all[k] == block;
                if k < header.len() {
                    assert(header[k] == block);
                } else {
                    assert(tail[k - header.len()] == block);
                }
            }
        } else {
            assert(all =~= header);
        }
    }

    /// What the first units depend on are the blocks that they map into.
    proof fn lemma_used_by_bytes(
        self,
        answers: Seq<Vec<SegmentMapping>>,
        n: int,
        layer: usize,
        block: u32,
    )
        requires
            self.wf(),
            0 <= n,
            forall|i: int|
                #![trigger answers[i]]
                0 <= i < n ==> self.answer_ok(answers[i]@) && self.resolve(answers[i]@) is Ok,
        ensures
            self.used_upto(answers, n).contains((layer, block)) <==> units_map_into(
                self.layers,
                self.opened,
                answers,
                n,
                layer as int,
                block as int,
            ),
        decreases n,
    {
        if n > 0 {
            let (l, b) = (layer as int, block as int);
            self.lemma_used_by_bytes(answers, n - 1, layer, block);
            let answer = answers[n - 1]@;
            self.lemma_resolved_by_bytes(answer, layer, block);
            if answer_maps_into(self.layers, self.opened, answer, l, b) {
                assert(units_map_into(self.layers, self.opened, answers, n, l, b));
            }
            if units_map_into(self.layers, self.opened, answers, n - 1, l, b) {
                let i = choose|i: int|
                    0 <= i < n - 1 && #[trigger] answer_maps_into(
                        self.layers,
                        self.opened,
                        answers[i]@,
                        l,
                        b,
                    );
                assert(units_map_into(self.layers, self.opened, answers, n, l, b));
            }
            if units_map_into(self.layers, self.opened, answers, n, l, b) {
                let i = choose|i: int|
                    0 <= i < n && #[trigger] answer_maps_into(
                        self.layers,
                        self.opened,
                        answers[i]@,
                        l,
                        b,
                    );
                if i < n - 1 {
                    assert(units_map_into(self.layers, self.opened, answers, n - 1, l, b));
                }
            }
        }
    }

    /// The layers that the first units touch are those that they map into.
    pub proof fn lemma_touched_by_bytes(
        self,
        answers: Seq<Vec<SegmentMapping>>,
        n: int,
        layer: usize,
    )
        requires
            self.wf(),
            0 <= n,
            forall|i: int|
                #![trigger answers[i]]
                0 <= i < n ==> self.answer_ok(answers[i]@) && self.resolve(answers[i]@) is Ok,
        ensures
            touches(self.used_upto(answers, n), layer) <==> units_touch(
                self.layers,
                self.opened,
                answers,
                n,
                layer as int,
            ),
            touches(self.used_upto(answers, n), layer) ==> layer < self.layers.len(),
    {
        let used = self.used_upto(answers, n);
        let l = layer as int;
        if touches(used, layer) {
            let block = choose|block: u32| #[trigger] used.contains((layer, block));
            self.lemma_used_by_bytes(answers, n, layer, block);
            assert(units_map_into(self.layers, self.opened, answers, n, l, block as int));
            let i = choose|i: int|
                0 <= i < n && #[trigger] answer_maps_into(
                    self.layers,
                    self.opened,
                    answers[i]@,
                    l,
                    block as int,
                );
            self.lemma_mapped_id(answers[i]@, l, block as int);
        }
        if units_touch(self.layers, self.opened, answers, n, l) {
            let b = choose|b: int| #[trigger]
                units_map_into(self.layers, self.opened, answers, n, l, b);
            let i = choose|i: int|
                0 <= i < n && #[trigger] answer_maps_into(
                    self.layers,
                    self.opened,
                    answers[i]@,
                    l,
                    b,
                );
            self.lemma_mapped_id(answers[i]@, l, b);
            self.lemma_used_by_bytes(answers, n, layer, b as u32);
            assert(used.contains((layer, b as u32)));
        }
    }

    /// Where exactly what some units need is selected, it is by bytes: a block
    /// is selected as metadata where it describes a layer that the units map
    /// into, and as data where it describes none and the units map into it.
    pub proof fn lemma_selected_by_bytes(
        self,
        p: Progress,
        answers: Seq<Vec<SegmentMapping>>,
        n: int,
        need: Need,
    )
        requires
            self.wf(),
            0 <= n,
            forall|i: int|
                #![trigger answers[i]]
                0 <= i < n ==> self.answer_ok(answers[i]@) && self.resolve(answers[i]@) is Ok,
            self.selects_exactly(p, self.used_upto(answers, n)),
        ensures
            p.blocks.contains(need) <==> {
                &&& units_touch(self.layers, self.opened, answers, n, need.layer as int)
                &&& need.metadata == describes_layer(
                    self.layers,
                    self.opened,
                    need.layer as int,
                    need.block as int,
                )
                &&& need.metadata || units_map_into(
                    self.layers,
                    self.opened,
                    answers,
                    n,
                    need.layer as int,
                    need.block as int,
                )
            },
            p.objects.contains(need.layer) <==> units_touch(
                self.layers,
                self.opened,
                answers,
                n,
                need.layer as int,
            ),
    {
        let used = self.used_upto(answers, n);
        self.lemma_touched_by_bytes(answers, n, need.layer);
        self.lemma_used_by_bytes(answers, n, need.layer, need.block);
        assert(p.blocks.contains(need) <==> self.needs_block(used, need));
        if touches(used, need.layer) {
            self.lemma_metadata_by_bytes(need.layer, need.block);
        }
    }
}

} // verus!
