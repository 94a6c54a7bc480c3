//! The order of the blocks that one unit of a plan adds.
use vstd::prelude::*;
use crate::extent_laws::{
    law_blocks_hold_stored_bytes_only, law_blocks_in_byte_order, stored_in_order, stores,
};
use crate::extents::LayerLayout;
use crate::pack_plan::{PackPlan, need_of, plan_of};
use crate::plan_byte_laws::{answer_maps_into, maps_into};
use crate::plan_lemmas::{lemma_layer_order, lemma_layer_order_prefix};
use crate::plan_model::{
    FinalLayerSource, Need, OpenedLayer, Progress, SegmentMapping, Stack, Weight, backed,
    data_needs, extend_blocks, layer_order,
};
use crate::plan_result_laws::{block_at, leads_with};

verus! {

/// Whether an answer maps into a layer.
pub open spec fn maps_into_layer(
    layers: Seq<FinalLayerSource>,
    opened: Seq<OpenedLayer>,
    m: SegmentMapping,
    layer: int,
) -> bool {
    exists|block: int| #[trigger] maps_into(layers, opened, m, layer, block)
}

/// Whether layer `a` comes before layer `b` in an answer: the first mapping
/// into it does.
pub open spec fn layer_first(
    layers: Seq<FinalLayerSource>,
    opened: Seq<OpenedLayer>,
    answer: Seq<SegmentMapping>,
    a: int,
    b: int,
) -> bool {
    exists|k: int|
        0 <= k < answer.len() && #[trigger] maps_into_layer(layers, opened, answer[k], a)
            && forall|l: int|
            0 <= l < answer.len() && #[trigger] maps_into_layer(layers, opened, answer[l], b)
                ==> k < l
}

/// Whether block `a` of an object has a stored byte of a logical extent before
/// one that block `b` has.
pub open spec fn bytes_in_order(
    layout: LayerLayout,
    from: int,
    to: int,
    a: int,
    b: int,
) -> bool {
    exists|x: int, s: int, y: int, t: int| #[trigger]
        stored_in_order(layout, x, s, y, t) && from <= x && y < to && s / 262144 == a && t / 262144
            == b
}

/// Whether block `a` of a layer comes before block `b` of the layer among those
/// that hold its header and its index: the header comes first, and in both the
/// blocks stand in the order of their bytes.
pub open spec fn metadata_in_order(o: OpenedLayer, size: int, a: int, b: int) -> bool {
    let (from, to) = (o.metadata.index_offset as int, o.metadata.file_size as int);
    ||| bytes_in_order(o.layout, 0, 4096, a, b)
    ||| bytes_in_order(o.layout, from, to, a, b)
    ||| holds_byte(o.layout, 0, 4096, a) && holds_byte(o.layout, from, to, b)
}

/// Whether a block holds a stored byte of a logical extent.
pub open spec fn holds_byte(layout: LayerLayout, from: int, to: int, block: int) -> bool {
    exists|x: int, at: int|
        from <= x < to && #[trigger] stores(layout, x, at) && at / 262144 == block
}

/// Whether block `a` comes before block `b` among those that an answer maps
/// into: an earlier mapping maps into it, or one mapping has a byte of it
/// first.
pub open spec fn data_in_order(
    layers: Seq<FinalLayerSource>,
    opened: Seq<OpenedLayer>,
    answer: Seq<SegmentMapping>,
    a: Need,
    b: Need,
) -> bool {
    exists|k: int, l: int|
        #![trigger answer[k], answer[l]]
        {
            &&& 0 <= k <= l < answer.len()
            &&& maps_into(layers, opened, answer[k], a.layer as int, a.block as int)
            &&& maps_into(layers, opened, answer[l], b.layer as int, b.block as int)
            &&& k == l ==> bytes_in_order(
                opened[a.layer as int].layout,
                answer[k].moffset * 512,
                (answer[k].moffset + answer[k].length) * 512,
                a.block as int,
                b.block as int,
            )
        }
}

/// Whether a unit may add block `a` before block `b`: metadata before data; of
/// metadata, that of the layer that the answer maps into first, and of one
/// layer the header before the index; of data, in the order of the answer.
pub open spec fn added_in_order(
    layers: Seq<FinalLayerSource>,
    opened: Seq<OpenedLayer>,
    answer: Seq<SegmentMapping>,
    a: Need,
    b: Need,
) -> bool {
    &&& b.metadata ==> a.metadata
    &&& a.metadata && b.metadata && a.layer != b.layer ==> layer_first(
        layers,
        opened,
        answer,
        a.layer as int,
        b.layer as int,
    )
    &&& a.metadata && b.metadata && a.layer == b.layer ==> metadata_in_order(
        opened[a.layer as int],
        layers[a.layer as int].size as int,
        a.block as int,
        b.block as int,
    )
    &&& !a.metadata && !b.metadata ==> data_in_order(layers, opened, answer, a, b)
}

/// Whether the blocks `from..to` of a plan are those that unit `j` adds, in the
/// order in which it may add them.
pub open spec fn unit_adds(
    plan: PackPlan,
    layers: Seq<FinalLayerSource>,
    opened: Seq<OpenedLayer>,
    answers: Seq<Vec<SegmentMapping>>,
    j: int,
    from: int,
    to: int,
) -> bool {
    &&& leads_with(plan, from, layers, opened, answers, j)
    &&& leads_with(plan, to, layers, opened, answers, j + 1)
    &&& forall|a: int, b: int|
        #![trigger block_at(plan, a), block_at(plan, b)]
        from <= a < b < to ==> added_in_order(
            layers,
            opened,
            answers[j]@,
            block_at(plan, a),
            block_at(plan, b),
        )
}

/// Whether every one of the first `n` units adds its blocks in order.
pub open spec fn units_add_in_order(
    plan: PackPlan,
    layers: Seq<FinalLayerSource>,
    opened: Seq<OpenedLayer>,
    answers: Seq<Vec<SegmentMapping>>,
    n: int,
) -> bool {
    forall|j: int|
        0 <= j < n ==> #[trigger] unit_adds_in_order(plan, layers, opened, answers, j)
}

/// Whether unit `j` adds its blocks in order.
pub open spec fn unit_adds_in_order(
    plan: PackPlan,
    layers: Seq<FinalLayerSource>,
    opened: Seq<OpenedLayer>,
    answers: Seq<Vec<SegmentMapping>>,
    j: int,
) -> bool {
    exists|from: int, to: int| #[trigger]
        unit_adds(plan, layers, opened, answers, j, from, to)
}

proof fn lemma_extend_source(have: Seq<Need>, more: Seq<Need>, a: int) -> (i: int)
    requires
        have.len() <= a < extend_blocks(have, more).len(),
    ensures
        0 <= i < more.len(),
        more[i] == extend_blocks(have, more)[a],
    decreases more.len(),
{
    let init = more.drop_last();
    let rest = extend_blocks(have, init);
    if more.len() > 0 && a < rest.len() {
        let i = lemma_extend_source(have, init, a);
        assert(init[i] == more[i]);
        i
    } else {
        more.len() - 1
    }
}

/// What is added stands in the order in which it is given.
proof fn lemma_extend_order(have: Seq<Need>, more: Seq<Need>, a: int, b: int) -> (w: (int, int))
    requires
        have.len() <= a < b < extend_blocks(have, more).len(),
    ensures
        0 <= w.0 < w.1 < more.len(),
        more[w.0] == extend_blocks(have, more)[a],
        more[w.1] == extend_blocks(have, more)[b],
    decreases more.len(),
{
    let init = more.drop_last();
    let rest = extend_blocks(have, init);
    if b < rest.len() {
        let (i, j) = lemma_extend_order(have, init, a, b);
        assert(init[i] == more[i] && init[j] == more[j]);
        (i, j)
    } else {
        let i = lemma_extend_source(have, init, a);
        assert(init[i] == more[i]);
        (i, more.len() - 1)
    }
}

impl Stack {
    /// The mapping that a dependency comes from, and its place there.
    proof fn lemma_dep_mapping(self, answer: Seq<SegmentMapping>, d: int) -> (w: (int, int))
        requires
            self.resolve(answer) is Ok,
            0 <= d < self.resolve(answer)->Ok_0.len(),
        ensures
            0 <= w.0 < answer.len(),
            answer[w.0].physical,
            self.mapping_blocks(answer[w.0]) is Ok,
            0 <= w.1 < self.mapping_blocks(answer[w.0])->Ok_0.len(),
            self.resolve(answer)->Ok_0[d] == (
                self.layer_of(answer[w.0]) as usize,
                self.mapping_blocks(answer[w.0])->Ok_0[w.1],
            ),
        decreases answer.len(),
    {
        let init = answer.drop_last();
        let deps = self.resolve(init)->Ok_0;
        if d < deps.len() {
            let (k, i) = self.lemma_dep_mapping(init, d);
            assert(init[k] == answer[k]);
            (k, i)
        } else {
            (answer.len() - 1, d - deps.len())
        }
    }

    /// Dependencies stand in the order of the mappings that they come from.
    proof fn lemma_dep_order(self, answer: Seq<SegmentMapping>, d: int, e: int) -> (w: (
        int,
        int,
        int,
        int,
    ))
        requires
            self.resolve(answer) is Ok,
            0 <= d < e < self.resolve(answer)->Ok_0.len(),
        ensures
            0 <= w.0 <= w.2 < answer.len(),
            w.0 == w.2 ==> w.1 < w.3,
            answer[w.0].physical,
            answer[w.2].physical,
            self.mapping_blocks(answer[w.0]) is Ok,
            self.mapping_blocks(answer[w.2]) is Ok,
            0 <= w.1 < self.mapping_blocks(answer[w.0])->Ok_0.len(),
            0 <= w.3 < self.mapping_blocks(answer[w.2])->Ok_0.len(),
            self.resolve(answer)->Ok_0[d] == (
                self.layer_of(answer[w.0]) as usize,
                self.mapping_blocks(answer[w.0])->Ok_0[w.1],
            ),
            self.resolve(answer)->Ok_0[e] == (
                self.layer_of(answer[w.2]) as usize,
                self.mapping_blocks(answer[w.2])->Ok_0[w.3],
            ),
        decreases answer.len(),
    {
        let init = answer.drop_last();
        let deps = self.resolve(init)->Ok_0;
        let n = init.len() as int;
        if e < deps.len() {
            let w = self.lemma_dep_order(init, d, e);
            assert(init[w.0] == answer[w.0] && init[w.2] == answer[w.2]);
            w
        } else if d < deps.len() {
            let (k, i) = self.lemma_dep_mapping(init, d);
            assert(init[k] == answer[k]);
            (k, i, n, e - deps.len())
        } else {
            (n, d - deps.len(), n, e - deps.len())
        }
    }

    /// A block of a mapping is one that it maps into.
    proof fn lemma_maps_into(self, m: SegmentMapping, i: int)
        requires
            self.wf(),
            m.physical,
            self.mapping_ok(m),
            self.mapping_blocks(m) is Ok,
            0 <= i < self.mapping_blocks(m)->Ok_0.len(),
        ensures
            maps_into(
                self.layers,
                self.opened,
                m,
                self.layer_of(m),
                self.mapping_blocks(m)->Ok_0[i] as int,
            ),
    {
        let l = self.layer_of(m);
        assert(self.layers[l].size > 0);
        law_blocks_hold_stored_bytes_only(
            self.opened[l].layout,
            m.moffset * 512,
            m.length * 512,
            self.layers[l].size as int,
            i,
        );
    }

    /// Dependencies stand in the order of the answer.
    proof fn lemma_data_in_order(self, answer: Seq<SegmentMapping>, d: int, e: int)
        requires
            self.wf(),
            self.answer_ok(answer),
            self.resolve(answer) is Ok,
            0 <= d < e < self.resolve(answer)->Ok_0.len(),
        ensures
            ({
                let deps = self.resolve(answer)->Ok_0;
                data_in_order(
                    self.layers,
                    self.opened,
                    answer,
                    Need { layer: deps[d].0, block: deps[d].1, metadata: false },
                    Need { layer: deps[e].0, block: deps[e].1, metadata: false },
                )
            }),
    {
        let deps = self.resolve(answer)->Ok_0;
        let (k, i, l, j) = self.lemma_dep_order(answer, d, e);
        assert(self.mapping_ok(answer[k]) && self.mapping_ok(answer[l]));
        self.lemma_maps_into(answer[k], i);
        self.lemma_maps_into(answer[l], j);
        if k == l {
            let m = answer[k];
            let own = self.layer_of(m);
            law_blocks_in_byte_order(
                self.opened[own].layout,
                m.moffset * 512,
                m.length * 512,
                self.layers[own].size as int,
                i,
                j,
            );
            assert(bytes_in_order(
                self.opened[own].layout,
                m.moffset * 512,
                (m.moffset + m.length) * 512,
                deps[d].1 as int,
                deps[e].1 as int,
            ));
        }
        assert(answer[k].physical && answer[l].physical);
    }

    /// The metadata blocks of a layer stand in order.
    proof fn lemma_metadata_in_order(self, layer: usize, s: int, t: int)
        requires
            self.wf(),
            layer < self.layers.len(),
            self.metadata_blocks(layer) is Ok,
            0 <= s < t < self.metadata_blocks(layer)->Ok_0.len(),
        ensures
            metadata_in_order(
                self.opened[layer as int],
                self.layers[layer as int].size as int,
                self.metadata_blocks(layer)->Ok_0[s] as int,
                self.metadata_blocks(layer)->Ok_0[t] as int,
            ),
    {
        let o = self.opened[layer as int];
        let size = self.layers[layer as int].size as int;
        let (from, to) = (o.metadata.index_offset as int, o.metadata.file_size as int);
        let len = if to > from {
            to - from
        } else {
            0
        };
        assert(self.layers[layer as int].size > 0);
        let header = o.layout.blocks_of(0, 4096, size)->Ok_0;
        let tail = o.layout.blocks_of(from, len, size)->Ok_0;
        let all = self.metadata_blocks(layer)->Ok_0;
        assert(all =~= header + tail);
        let n = header.len();
        if t < n {
            law_blocks_in_byte_order(o.layout, 0, 4096, size, s, t);
            assert(bytes_in_order(o.layout, 0, 4096, all[s] as int, all[t] as int));
        } else if s >= n {
            law_blocks_in_byte_order(o.layout, from, len, size, s - n, t - n);
            assert(bytes_in_order(o.layout, from, to, all[s] as int, all[t] as int));
        } else {
            law_blocks_hold_stored_bytes_only(o.layout, 0, 4096, size, s);
            law_blocks_hold_stored_bytes_only(
                o.layout,
                from,
                len,
                size,
                t - n,
            );
            assert(holds_byte(o.layout, 0, 4096, all[s] as int));
            assert(holds_byte(o.layout, from, to, all[t] as int));
        }
    }

    /// The layer that a metadata need comes from, and its place there.
    proof fn lemma_metadata_source(self, order: Seq<usize>, objects: Seq<usize>, i: int) -> (w: (
        int,
        int,
    ))
        requires
            self.metadata_needs(order, objects) is Ok,
            0 <= i < self.metadata_needs(order, objects)->Ok_0.len(),
        ensures
            0 <= w.0 < order.len(),
            self.metadata_blocks(order[w.0]) is Ok,
            0 <= w.1 < self.metadata_blocks(order[w.0])->Ok_0.len(),
            self.metadata_needs(order, objects)->Ok_0[i] == (Need {
                layer: order[w.0],
                block: self.metadata_blocks(order[w.0])->Ok_0[w.1],
                metadata: true,
            }),
        decreases order.len(),
    {
        let init = order.drop_last();
        let needs = self.metadata_needs(init, objects)->Ok_0;
        if i < needs.len() {
            let (u, s) = self.lemma_metadata_source(init, objects, i);
            assert(init[u] == order[u]);
            (u, s)
        } else {
            (order.len() - 1, i - needs.len())
        }
    }

    /// Metadata needs stand in the order of the layers.
    proof fn lemma_metadata_order(
        self,
        order: Seq<usize>,
        objects: Seq<usize>,
        i: int,
        j: int,
    ) -> (w: (int, int, int, int))
        requires
            self.metadata_needs(order, objects) is Ok,
            0 <= i < j < self.metadata_needs(order, objects)->Ok_0.len(),
        ensures
            0 <= w.0 <= w.2 < order.len(),
            w.0 == w.2 ==> w.1 < w.3,
            self.metadata_blocks(order[w.0]) is Ok,
            self.metadata_blocks(order[w.2]) is Ok,
            0 <= w.1 < self.metadata_blocks(order[w.0])->Ok_0.len(),
            0 <= w.3 < self.metadata_blocks(order[w.2])->Ok_0.len(),
            self.metadata_needs(order, objects)->Ok_0[i] == (Need {
                layer: order[w.0],
                block: self.metadata_blocks(order[w.0])->Ok_0[w.1],
                metadata: true,
            }),
            self.metadata_needs(order, objects)->Ok_0[j] == (Need {
                layer: order[w.2],
                block: self.metadata_blocks(order[w.2])->Ok_0[w.3],
                metadata: true,
            }),
        decreases order.len(),
    {
        let init = order.drop_last();
        let needs = self.metadata_needs(init, objects)->Ok_0;
        let n = init.len() as int;
        if j < needs.len() {
            let w = self.lemma_metadata_order(init, objects, i, j);
            assert(init[w.0] == order[w.0] && init[w.2] == order[w.2]);
            w
        } else if i < needs.len() {
            let (u, s) = self.lemma_metadata_source(init, objects, i);
            assert(init[u] == order[u]);
            (u, s, n, j - needs.len())
        } else {
            (n, i - needs.len(), n, j - needs.len())
        }
    }

    /// What the first mappings resolve to stands in front.
    proof fn lemma_resolve_front(self, answer: Seq<SegmentMapping>, k: int)
        requires
            self.resolve(answer) is Ok,
            0 <= k <= answer.len(),
        ensures
            self.resolve(answer.take(k)) is Ok,
            self.resolve(answer.take(k))->Ok_0.is_prefix_of(self.resolve(answer)->Ok_0),
        decreases answer.len(),
    {
        if k == answer.len() {
            assert(answer.take(k) =~= answer);
        } else {
            let init = answer.drop_last();
            assert(init.take(k) =~= answer.take(k));
            self.lemma_resolve_front(init, k);
        }
    }

    /// Layers stand in the order in which the answer maps into them.
    proof fn lemma_layer_first(self, answer: Seq<SegmentMapping>, u: int, v: int)
        requires
            self.wf(),
            self.answer_ok(answer),
            self.resolve(answer) is Ok,
            0 <= u < v < layer_order(self.resolve(answer)->Ok_0).len(),
        ensures
            ({
                let order = layer_order(self.resolve(answer)->Ok_0);
                layer_first(self.layers, self.opened, answer, order[u] as int, order[v] as int)
            }),
    {
        let deps = self.resolve(answer)->Ok_0;
        let order = layer_order(deps);
        let (a, b) = (order[u], order[v]);
        lemma_layer_order(deps);
        assert(order.contains(a));
        let d = choose|d: int| 0 <= d < deps.len() && (#[trigger] deps[d]).0 == a;
        let (k0, i0) = self.lemma_dep_mapping(answer, d);
        assert(self.mapping_ok(answer[k0]));
        self.lemma_maps_into(answer[k0], i0);
        assert(maps_into_layer(self.layers, self.opened, answer[k0], a as int));
        let k = self.lemma_first_mapping(answer, a as int, k0, 0);
        assert forall|l: int|
            0 <= l < answer.len() && #[trigger] maps_into_layer(
                self.layers,
                self.opened,
                answer[l],
                b as int,
            ) implies k < l by {
            if l <= k {
                let block = choose|block: int| #[trigger]
                    maps_into(self.layers, self.opened, answer[l], b as int, block);
                assert(l != k) by {
                    if l == k {
                        assert(self.mapping_ok(answer[k]));
                        assert(maps_into_layer(self.layers, self.opened, answer[k], a as int));
                        assert(a == b);
                        assert(order.no_duplicates());
                    }
                }
                let front = answer.take(l + 1);
                self.lemma_resolve_front(answer, l + 1);
                let part = self.resolve(front)->Ok_0;
                assert(self.answer_ok(front)) by {
                    assert forall|i: int| 0 <= i < front.len() implies self.mapping_ok(
                        #[trigger] front[i],
                    ) by {
                        assert(front[i] == answer[i]);
                    }
                }
                assert(front[l] == answer[l]);
                assert(maps_into(self.layers, self.opened, front[l], b as int, block));
                assert(answer_maps_into(self.layers, self.opened, front, b as int, block));
                self.lemma_mapped_id(front, b as int, block);
                self.lemma_resolved_by_bytes(front, b, block as u32);
                assert(part.contains((b, block as u32)));
                let part_order = layer_order(part);
                lemma_layer_order(part);
                let e = choose|e: int| 0 <= e < part.len() && part[e] == (b, block as u32);
                assert(part[e].0 == b);
                assert(part_order.contains(b));
                assert(!part_order.contains(a)) by {
                    if part_order.contains(a) {
                        let f = choose|f: int| 0 <= f < part.len() && (#[trigger] part[f]).0 == a;
                        let (g, h) = self.lemma_dep_mapping(front, f);
                        assert(front[g] == answer[g]);
                        assert(self.mapping_ok(answer[g]));
                        self.lemma_maps_into(answer[g], h);
                        assert(maps_into_layer(self.layers, self.opened, answer[g], a as int));
                    }
                }
                lemma_layer_order_prefix(deps, part.len() as int);
                assert(deps.take(part.len() as int) =~= part);
                let y = choose|y: int| 0 <= y < part_order.len() && part_order[y] == b;
                assert(order[y] == b);
                assert(y == v);
                assert(part_order[u] == order[u]);
                assert(part_order.contains(a));
            }
        }
        assert(maps_into_layer(self.layers, self.opened, answer[k], a as int));
    }

    /// The first mapping into a layer.
    proof fn lemma_first_mapping(
        self,
        answer: Seq<SegmentMapping>,
        layer: int,
        k: int,
        from: int,
    ) -> (first: int)
        requires
            0 <= from <= k < answer.len(),
            maps_into_layer(self.layers, self.opened, answer[k], layer),
            forall|i: int|
                0 <= i < from ==> !#[trigger] maps_into_layer(
                    self.layers,
                    self.opened,
                    answer[i],
                    layer,
                ),
        ensures
            0 <= first < answer.len(),
            maps_into_layer(self.layers, self.opened, answer[first], layer),
            forall|i: int|
                0 <= i < first ==> !#[trigger] maps_into_layer(
                    self.layers,
                    self.opened,
                    answer[i],
                    layer,
                ),
        decreases k - from,
    {
        if maps_into_layer(self.layers, self.opened, answer[from], layer) {
            from
        } else {
            self.lemma_first_mapping(answer, layer, k, from + 1)
        }
    }

    /// What a unit adds, it adds in order.
    pub proof fn lemma_unit_order(
        self,
        p: Progress,
        answer: Seq<SegmentMapping>,
        weight: Weight,
        budget: int,
        a: int,
        b: int,
    )
        requires
            self.wf(),
            self.answer_ok(answer),
            p.failed is None,
            ({
                let q = self.take_unit(p, answer, weight, budget);
                &&& q.failed is None
                &&& !q.truncated
                &&& p.blocks.len() <= a < b < q.blocks.len()
            }),
        ensures
            ({
                let q = self.take_unit(p, answer, weight, budget);
                added_in_order(self.layers, self.opened, answer, q.blocks[a], q.blocks[b])
            }),
    {
        let q = self.take_unit(p, answer, weight, budget);
        assert(backed(answer));
        let deps = self.resolve(answer)->Ok_0;
        let order = layer_order(deps);
        let meta = self.metadata_needs(order, p.objects)->Ok_0;
        let data = data_needs(deps);
        let needs = meta + data;
        assert(q.blocks == extend_blocks(p.blocks, needs));
        let (i, j) = lemma_extend_order(p.blocks, needs, a, b);
        let n = meta.len() as int;
        self.lemma_resolved_in_objects(answer);
        lemma_layer_order(deps);
        if j < n {
            assert(needs[i] == meta[i] && needs[j] == meta[j]);
            let (u, s, v, t) = self.lemma_metadata_order(order, p.objects, i, j);
            assert(order.contains(order[u]));
            assert(order[u] < self.layers.len());
            if u == v {
                self.lemma_metadata_in_order(order[u], s, t);
            } else {
                assert(order[u] != order[v]);
                self.lemma_layer_first(answer, u, v);
            }
        } else if i < n {
            let (u, s) = self.lemma_metadata_source(order, p.objects, i);
            assert(needs[i] == meta[i]);
            assert(needs[j] == data[j - n]);
        } else {
            assert(needs[i] == data[i - n] && needs[j] == data[j - n]);
            self.lemma_data_in_order(answer, i - n, j - n);
        }
    }

    /// The blocks that a unit adds, as blocks of the plan.
    pub proof fn lemma_unit_adds(
        self,
        plan: PackPlan,
        p: Progress,
        q: Progress,
        whole: Progress,
        total: int,
        answers: Seq<Vec<SegmentMapping>>,
        j: int,
        weight: Weight,
        budget: int,
    )
        requires
            self.wf(),
            self.answer_ok(answers[j]@),
            p.failed is None,
            q == self.take_unit(p, answers[j]@, weight, budget),
            q.failed is None,
            !q.truncated,
            q.blocks.is_prefix_of(whole.blocks),
            plan_of(plan, self, whole, total),
            leads_with(plan, p.blocks.len() as int, self.layers, self.opened, answers, j),
            leads_with(plan, q.blocks.len() as int, self.layers, self.opened, answers, j + 1),
        ensures
            unit_adds(
                plan,
                self.layers,
                self.opened,
                answers,
                j,
                p.blocks.len() as int,
                q.blocks.len() as int,
            ),
    {
        let (from, to) = (p.blocks.len() as int, q.blocks.len() as int);
        assert forall|a: int, b: int|
            #![trigger block_at(plan, a), block_at(plan, b)]
            from <= a < b < to implies added_in_order(
            self.layers,
            self.opened,
            answers[j]@,
            block_at(plan, a),
            block_at(plan, b),
        ) by {
            assert(whole.blocks[a] == need_of(plan.objects@, plan.blocks@[a]));
            assert(whole.blocks[b] == need_of(plan.objects@, plan.blocks@[b]));
            assert(q.blocks[a] == block_at(plan, a) && q.blocks[b] == block_at(plan, b));
            self.lemma_unit_order(p, answers[j]@, weight, budget, a, b);
        }
    }
}

} // verus!
