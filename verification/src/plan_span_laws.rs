//! Plans of spans against plans of their pages.
use vstd::prelude::*;
use crate::extents::PlanError;
use crate::plan_cut_laws::{first_uses, lemma_first_uses, lemma_same_uses};
use crate::plan_lemmas::{
    distinct_blocks, lemma_extend_blocks, lemma_extend_concat, lemma_extend_objects,
    lemma_layer_order, lemma_total_pages,
};
use crate::plan_model::{
    Need, PLAN_PAGE_BYTES, Progress, SegmentMapping, Stack, Weight, backed, data_needs,
    extend_blocks, extend_objects, flat, layer_needs, layer_order, no_progress, one_page,
    page_in_image, range_in_image, range_pages, selects, span_weight, total_pages,
};
use crate::plan_sector_laws::same_sectors;

verus! {

/// The pages of a span, in order.
pub open spec fn pages_of(range: (u64, u64)) -> Seq<u32> {
    Seq::new(range_pages(range) as nat, |i: int| (range.0 / PLAN_PAGE_BYTES + i) as u32)
}

/// The pages of some spans, in order.
pub open spec fn pages_of_all(ranges: Seq<(u64, u64)>) -> Seq<u32>
    decreases ranges.len(),
{
    if ranges.len() == 0 {
        Seq::empty()
    } else {
        pages_of_all(ranges.drop_last()) + pages_of(ranges.last())
    }
}

/// Whether the pages of all spans have numbers of 32 bits.
pub open spec fn page_numbers_fit(ranges: Seq<(u64, u64)>) -> bool {
    forall|k: int|
        #![trigger ranges[k]]
        0 <= k < ranges.len() ==> ranges[k].0 + ranges[k].1 <= 0x1_0000_0000 * PLAN_PAGE_BYTES
}

/// The answers for the pages of span `k`.
pub open spec fn answers_of_span(
    ranges: Seq<(u64, u64)>,
    page_answers: Seq<Vec<SegmentMapping>>,
    k: int,
) -> Seq<Vec<SegmentMapping>> {
    page_answers.subrange(total_pages(ranges.take(k)), total_pages(ranges.take(k + 1)))
}

/// Whether the index maps for the pages of each span the sectors that it maps
/// for the span.
pub open spec fn answers_agree(
    ranges: Seq<(u64, u64)>,
    span_answers: Seq<Vec<SegmentMapping>>,
    page_answers: Seq<Vec<SegmentMapping>>,
) -> bool {
    &&& total_pages(ranges) <= page_answers.len()
    &&& forall|k: int|
        0 <= k < ranges.len() ==> same_sectors(
            (#[trigger] span_answers[k])@,
            flat(answers_of_span(ranges, page_answers, k)),
        )
}

/// Whether some dependency is on a block of this layer.
pub open spec fn touches(used: Set<(usize, u32)>, layer: usize) -> bool {
    exists|block: u32| #[trigger] used.contains((layer, block))
}

impl Stack {
    /// The dependencies of the first `n` units together.
    pub open spec fn used_upto(self, answers: Seq<Vec<SegmentMapping>>, n: int) -> Set<(usize, u32)>
        decreases n,
    {
        if n <= 0 {
            Set::empty()
        } else {
            self.used_upto(answers, n - 1).union(self.resolve(answers[n - 1]@)->Ok_0.to_set())
        }
    }

    /// Whether a block is needed where these dependencies are: a metadata
    /// block of a layer that is touched, or a data block that is no metadata
    /// block.
    pub open spec fn needs_block(self, used: Set<(usize, u32)>, n: Need) -> bool {
        &&& touches(used, n.layer)
        &&& self.metadata_blocks(n.layer)->Ok_0.contains(n.block) == n.metadata
        &&& n.metadata || used.contains((n.layer, n.block))
    }

    /// Whether exactly what these dependencies need is selected.
    pub open spec fn selects_exactly(self, p: Progress, used: Set<(usize, u32)>) -> bool {
        &&& p.objects.no_duplicates()
        &&& distinct_blocks(p.blocks)
        &&& forall|l: usize| #[trigger] p.objects.contains(l) <==> touches(used, l)
        &&& forall|l: usize| #[trigger] touches(used, l) ==> self.metadata_blocks(l) is Ok
        &&& forall|n: Need| #[trigger] p.blocks.contains(n) <==> self.needs_block(used, n)
    }

    /// The metadata that a unit needs, layer by layer.
    proof fn lemma_metadata_list(self, order: Seq<usize>, objects: Seq<usize>)
        requires
            self.metadata_needs(order, objects) is Ok,
        ensures
            forall|l: usize| #[trigger]
                order.contains(l) && !objects.contains(l) ==> self.metadata_blocks(l) is Ok,
            forall|n: Need| #[trigger]
                self.metadata_needs(order, objects)->Ok_0.contains(n) <==> {
                    &&& n.metadata
                    &&& order.contains(n.layer)
                    &&& !objects.contains(n.layer)
                    &&& self.metadata_blocks(n.layer)->Ok_0.contains(n.block)
                },
        decreases order.len(),
    {
        if order.len() > 0 {
            let init = order.drop_last();
            let last = order.last();
            self.lemma_metadata_list(init, objects);
            let before = self.metadata_needs(init, objects)->Ok_0;
            let all = self.metadata_needs(order, objects)->Ok_0;
            assert forall|l: usize| order.contains(l) <==> init.contains(l) || l == last by {
                if init.contains(l) {
                    let i = choose|i: int| 0 <= i < init.len() && init[i] == l;
                    assert(order[i] == l);
                }
                if l == last {
                    assert(order[order.len() - 1] == l);
                }
                if order.contains(l) {
                    let i = choose|i: int| 0 <= i < order.len() && order[i] == l;
                    if i < init.len() {
                        assert(init[i] == l);
                    }
                }
            }
            if !objects.contains(last) {
                let blocks = self.metadata_blocks(last)->Ok_0;
                let more = layer_needs(last, blocks);
                assert forall|n: Need| #[trigger] all.contains(n) <==> before.contains(n) || (
                n.metadata && n.layer == last && blocks.contains(n.block)) by {
                    if before.contains(n) {
                        let i = choose|i: int| 0 <= i < before.len() && before[i] == n;
                        assert(all[i] == n);
                    }
                    if n.metadata && n.layer == last && blocks.contains(n.block) {
                        let i = choose|i: int| 0 <= i < blocks.len() && blocks[i] == n.block;
                        assert(more[i] == n);
                        assert(all[before.len() + i] == n);
                    }
                    if all.contains(n) {
                        let i = choose|i: int| 0 <= i < all.len() && all[i] == n;
                        if i < before.len() {
                            assert(before[i] == n);
                        } else {
                            assert(more[i - before.len()] == n);
                            assert(blocks[i - before.len()] == n.block);
                        }
                    }
                }
            }
        }
    }
}

/// What extending a selection makes of it, block by block.
proof fn lemma_extended(have: Seq<Need>, more: Seq<Need>, n: Need)
    requires
        distinct_blocks(have),
    ensures
        have.contains(n) ==> extend_blocks(have, more).contains(n),
        extend_blocks(have, more).contains(n) ==> have.contains(n) || (more.contains(n)
            && !selects(have, n.layer, n.block as int)),
        more.contains(n) ==> exists|m: Need| #[trigger]
            extend_blocks(have, more).contains(m) && m.layer == n.layer && m.block == n.block,
{
    let all = extend_blocks(have, more);
    lemma_extend_blocks(have, more);
    if have.contains(n) {
        let i = choose|i: int| 0 <= i < have.len() && have[i] == n;
        assert(all[i] == n);
    }
    if all.contains(n) && !have.contains(n) {
        let i = choose|i: int| 0 <= i < all.len() && all[i] == n;
        if i < have.len() {
            assert(have[i] == all[i]);
        }
        assert(more.contains(all[i]));
        if selects(have, n.layer, n.block as int) {
            let j = choose|j: int|
                0 <= j < have.len() && (#[trigger] have[j]).layer == n.layer && have[j].block
                    == n.block as int;
            assert(all[j] == have[j]);
            assert(all[j].layer != all[i].layer || all[j].block != all[i].block);
        }
    }
    if more.contains(n) {
        let i = choose|i: int| 0 <= i < more.len() && more[i] == n;
        assert(selects(all, more[i].layer, more[i].block as int));
        let k = choose|k: int|
            0 <= k < all.len() && (#[trigger] all[k]).layer == n.layer && all[k].block
                == n.block as int;
        assert(all.contains(all[k]));
    }
}

/// The layers of some dependencies.
pub proof fn lemma_touched(deps: Seq<(usize, u32)>, l: usize)
    ensures
        touches(deps.to_set(), l) <==> layer_order(deps).contains(l),
{
    lemma_layer_order(deps);
    if touches(deps.to_set(), l) {
        let b = choose|b: u32| #[trigger] deps.to_set().contains((l, b));
        let i = choose|i: int| 0 <= i < deps.len() && deps[i] == (l, b);
        assert(deps[i].0 == l);
    }
    if layer_order(deps).contains(l) {
        let i = choose|i: int| 0 <= i < deps.len() && (#[trigger] deps[i]).0 == l;
        assert(deps.contains(deps[i]));
        assert(deps.to_set().contains((l, deps[i].1)));
    }
}

impl Stack {
    /// Taking a unit selects exactly what it needs, too.
    pub proof fn lemma_stage_exact(
        self,
        p: Progress,
        used: Set<(usize, u32)>,
        deps: Seq<(usize, u32)>,
        weight: Weight,
        budget: int,
    )
        requires
            p.failed is None,
            !p.truncated,
            self.selects_exactly(p, used),
            self.stage(p, deps, weight, budget).failed is None,
            !self.stage(p, deps, weight, budget).truncated,
        ensures
            self.selects_exactly(
                self.stage(p, deps, weight, budget),
                used.union(deps.to_set()),
            ),
    {
        let order = layer_order(deps);
        let meta = self.metadata_needs(order, p.objects)->Ok_0;
        let data = data_needs(deps);
        let needs = meta + data;
        let q = self.stage(p, deps, weight, budget);
        let all = used.union(deps.to_set());
        let mid = extend_blocks(p.blocks, meta);
        self.lemma_metadata_list(order, p.objects);
        lemma_extend_concat(p.blocks, p.objects, meta, data);
        lemma_extend_blocks(p.blocks, meta);
        lemma_extend_blocks(mid, data);
        lemma_extend_objects(p.objects, needs);
        assert(q.blocks == extend_blocks(mid, data));
        assert forall|l: usize| #[trigger] touches(all, l) <==> touches(used, l) || order.contains(
            l,
        ) by {
            lemma_touched(deps, l);
            if touches(used, l) {
                let b = choose|b: u32| #[trigger] used.contains((l, b));
                assert(all.contains((l, b)));
            }
            if touches(deps.to_set(), l) {
                let b = choose|b: u32| #[trigger] deps.to_set().contains((l, b));
                assert(all.contains((l, b)));
            }
            if touches(all, l) {
                let b = choose|b: u32| #[trigger] all.contains((l, b));
                if used.contains((l, b)) {
                } else {
                    assert(deps.to_set().contains((l, b)));
                }
            }
        }
        assert forall|l: usize| #[trigger] touches(all, l) implies self.metadata_blocks(l) is Ok by {
            if !touches(used, l) {
                assert(!p.objects.contains(l));
            }
        }
        assert forall|l: usize| #[trigger] q.objects.contains(l) <==> touches(all, l) by {
            lemma_extend_objects(p.objects, needs);
            lemma_layer_order(deps);
            if order.contains(l) {
                let i = choose|i: int| 0 <= i < deps.len() && (#[trigger] deps[i]).0 == l;
                assert(needs[meta.len() + i].layer == l);
            }
            if exists|i: int| 0 <= i < needs.len() && (#[trigger] needs[i]).layer == l {
                let i = choose|i: int| 0 <= i < needs.len() && (#[trigger] needs[i]).layer == l;
                if i < meta.len() {
                    assert(meta.contains(meta[i]));
                } else {
                    assert(deps[i - meta.len()].0 == l);
                }
            }
        }
        assert forall|n: Need| #[trigger] q.blocks.contains(n) implies self.needs_block(all, n) by {
            lemma_extended(mid, data, n);
            lemma_extended(p.blocks, meta, n);
            if p.blocks.contains(n) {
                assert(self.needs_block(used, n));
                assert(touches(all, n.layer));
            } else if mid.contains(n) {
                assert(meta.contains(n));
                assert(touches(all, n.layer));
            } else {
                let i = choose|i: int| 0 <= i < data.len() && data[i] == n;
                assert(deps[i] == (n.layer, n.block));
                assert(deps.to_set().contains((n.layer, n.block)));
                assert(all.contains((n.layer, n.block)));
                assert(touches(all, n.layer));
                lemma_touched(deps, n.layer);
                if self.metadata_blocks(n.layer)->Ok_0.contains(n.block) {
                    let m = Need { metadata: true, ..n };
                    if p.objects.contains(n.layer) {
                        assert(touches(used, n.layer));
                        assert(self.needs_block(used, m));
                        assert(p.blocks.contains(m));
                        lemma_extended(p.blocks, meta, m);
                    } else {
                        assert(meta.contains(m));
                        lemma_extended(p.blocks, meta, m);
                    }
                    let e = choose|e: Need| #[trigger]
                        mid.contains(e) && e.layer == n.layer && e.block == n.block;
                    let k = choose|k: int| 0 <= k < mid.len() && mid[k] == e;
                    assert(selects(mid, n.layer, n.block as int));
                }
            }
        }
        assert forall|n: Need| #[trigger] self.needs_block(all, n) implies q.blocks.contains(n) by {
            assert(touches(all, n.layer));
            lemma_extended(p.blocks, meta, n);
            lemma_extended(mid, data, n);
            if n.metadata {
                if touches(used, n.layer) {
                    assert(self.needs_block(used, n));
                    assert(p.blocks.contains(n));
                } else {
                    assert(!p.objects.contains(n.layer));
                    assert(meta.contains(n));
                    let e = choose|e: Need| #[trigger]
                        mid.contains(e) && e.layer == n.layer && e.block == n.block;
                    lemma_extended(p.blocks, meta, e);
                    if p.blocks.contains(e) {
                        assert(self.needs_block(used, e));
                    }
                    assert(meta.contains(e));
                    assert(e == n);
                }
            } else if used.contains((n.layer, n.block)) {
                assert(touches(used, n.layer));
                assert(self.needs_block(used, n));
                assert(p.blocks.contains(n));
            } else {
                assert(deps.to_set().contains((n.layer, n.block)));
                let i = choose|i: int| 0 <= i < deps.len() && deps[i] == (n.layer, n.block);
                assert(data[i] == n);
                let e = choose|e: Need| #[trigger]
                    q.blocks.contains(e) && e.layer == n.layer && e.block == n.block;
                assert(self.needs_block(all, e));
                assert(e == n);
            }
        }
    }
}

impl Stack {
    proof fn lemma_take_unit_exact(
        self,
        p: Progress,
        used: Set<(usize, u32)>,
        mappings: Seq<SegmentMapping>,
        weight: Weight,
        budget: int,
    )
        requires
            p.failed is None,
            !p.truncated,
            self.selects_exactly(p, used),
            self.take_unit(p, mappings, weight, budget).failed is None,
            !self.take_unit(p, mappings, weight, budget).truncated,
        ensures
            self.selects_exactly(
                self.take_unit(p, mappings, weight, budget),
                used.union(self.resolve(mappings)->Ok_0.to_set()),
            ),
    {
        if backed(mappings) {
            self.lemma_stage_exact(p, used, self.resolve(mappings)->Ok_0, weight, budget);
        } else {
            self.lemma_holes_resolve(mappings);
            assert(used.union(Seq::<(usize, u32)>::empty().to_set()) =~= used);
        }
    }

    proof fn lemma_start_exact(self)
        ensures
            self.selects_exactly(no_progress(), Set::empty()),
    {
        assert(!exists|l: usize| #[trigger] touches(Set::empty(), l));
    }

    /// A page plan that is neither cut nor failed selects exactly what its
    /// pages need.
    pub proof fn law_pages_select_exactly(
        self,
        pages: Seq<u32>,
        mem_virtual_size: u64,
        answers: Seq<Vec<SegmentMapping>>,
        budget: int,
    )
        requires
            self.after_pages(pages, mem_virtual_size, answers, budget).failed is None,
            !self.after_pages(pages, mem_virtual_size, answers, budget).truncated,
        ensures
            self.selects_exactly(
                self.after_pages(pages, mem_virtual_size, answers, budget),
                self.used_upto(answers, pages.len() as int),
            ),
        decreases pages.len(),
    {
        if pages.len() == 0 {
            self.lemma_start_exact();
        } else {
            let init = pages.drop_last();
            let p = self.after_pages(init, mem_virtual_size, answers, budget);
            assert(p.failed is None && !p.truncated);
            self.law_pages_select_exactly(init, mem_virtual_size, answers, budget);
            self.lemma_take_unit_exact(
                p,
                self.used_upto(answers, init.len() as int),
                answers[pages.len() - 1]@,
                one_page(),
                budget,
            );
        }
    }

    /// A span plan that is neither cut nor failed selects exactly what its
    /// spans need.
    pub proof fn law_ranges_select_exactly(
        self,
        ranges: Seq<(u64, u64)>,
        mem_virtual_size: u64,
        answers: Seq<Vec<SegmentMapping>>,
        budget: int,
    )
        requires
            self.after_ranges(ranges, mem_virtual_size, answers, budget).failed is None,
            !self.after_ranges(ranges, mem_virtual_size, answers, budget).truncated,
        ensures
            self.selects_exactly(
                self.after_ranges(ranges, mem_virtual_size, answers, budget),
                self.used_upto(answers, ranges.len() as int),
            ),
        decreases ranges.len(),
    {
        if ranges.len() == 0 {
            self.lemma_start_exact();
        } else {
            let init = ranges.drop_last();
            let p = self.after_ranges(init, mem_virtual_size, answers, budget);
            assert(p.failed is None && !p.truncated);
            self.law_ranges_select_exactly(init, mem_virtual_size, answers, budget);
            self.lemma_take_unit_exact(
                p,
                self.used_upto(answers, init.len() as int),
                answers[ranges.len() - 1]@,
                span_weight(ranges.last(), answers[ranges.len() - 1]@),
                budget,
            );
        }
    }

    /// Answers resolve one after the other.
    proof fn lemma_resolve_concat(self, a: Seq<SegmentMapping>, b: Seq<SegmentMapping>)
        requires
            self.resolve(a + b) is Ok,
        ensures
            self.resolve(a) is Ok,
            self.resolve(b) is Ok,
            self.resolve(a + b)->Ok_0 == self.resolve(a)->Ok_0 + self.resolve(b)->Ok_0,
        decreases b.len(),
    {
        if b.len() == 0 {
            assert(a + b =~= a);
            assert(self.resolve(a)->Ok_0 + Seq::<(usize, u32)>::empty() =~= self.resolve(a)->Ok_0);
        } else {
            let init = b.drop_last();
            let m = b.last();
            assert((a + b).drop_last() =~= a + init);
            self.lemma_resolve_concat(a, init);
            if m.physical {
                let blocks = self.mapping_blocks(m)->Ok_0.map_values(
                    |x: u32| (self.layer_of(m) as usize, x),
                );
                let (x, y) = (self.resolve(a)->Ok_0, self.resolve(init)->Ok_0);
                assert((x + y) + blocks =~= x + (y + blocks));
            }
        }
    }

    /// Where the answers of some pages, put together, can be resolved, each of
    /// them can be.
    proof fn lemma_flat_resolves(self, answers: Seq<Vec<SegmentMapping>>, j: int)
        requires
            self.resolve(flat(answers)) is Ok,
            0 <= j < answers.len(),
        ensures
            self.resolve(answers[j]@) is Ok,
        decreases answers.len(),
    {
        let init = answers.drop_last();
        self.lemma_resolve_concat(flat(init), answers.last()@);
        if j < init.len() {
            assert(init[j] == answers[j]);
            self.lemma_flat_resolves(init, j);
        }
    }

    /// The dependencies of pages `a..b`, put together.
    proof fn lemma_used_flat(self, answers: Seq<Vec<SegmentMapping>>, a: int, b: int)
        requires
            0 <= a <= b <= answers.len(),
            self.resolve(flat(answers.subrange(a, b))) is Ok,
        ensures
            self.used_upto(answers, b) == self.used_upto(answers, a).union(
                self.resolve(flat(answers.subrange(a, b)))->Ok_0.to_set(),
            ),
        decreases b - a,
    {
        let part = answers.subrange(a, b);
        let deps = self.resolve(flat(part))->Ok_0;
        if a == b {
            assert(deps.to_set() =~= Set::empty());
            assert(self.used_upto(answers, a).union(Set::empty()) =~= self.used_upto(answers, a));
        } else {
            let init = answers.subrange(a, b - 1);
            assert(part.drop_last() =~= init);
            assert(part.last() == answers[b - 1]);
            self.lemma_resolve_concat(flat(init), answers[b - 1]@);
            self.lemma_used_flat(answers, a, b - 1);
            let x = self.resolve(flat(init))->Ok_0;
            let y = self.resolve(answers[b - 1]@)->Ok_0;
            assert forall|d: (usize, u32)| #[trigger] deps.to_set().contains(d) <==> x.to_set().contains(
                d,
            ) || y.to_set().contains(d) by {
                if x.contains(d) {
                    let i = choose|i: int| 0 <= i < x.len() && x[i] == d;
                    assert(deps[i] == d);
                }
                if y.contains(d) {
                    let i = choose|i: int| 0 <= i < y.len() && y[i] == d;
                    assert(deps[x.len() + i] == d);
                }
                if deps.contains(d) {
                    let i = choose|i: int| 0 <= i < deps.len() && deps[i] == d;
                    if i < x.len() {
                        assert(x[i] == d);
                    } else {
                        assert(y[i - x.len()] == d);
                    }
                }
            }
            let before = self.used_upto(answers, a);
            assert(before.union(deps.to_set()) =~= before.union(x.to_set()).union(y.to_set()));
        }
    }
}

/// There are as many pages as are counted.
pub proof fn lemma_pages_counted(ranges: Seq<(u64, u64)>)
    ensures
        pages_of_all(ranges).len() == total_pages(ranges),
    decreases ranges.len(),
{
    if ranges.len() > 0 {
        lemma_pages_counted(ranges.drop_last());
    }
}

pub proof fn lemma_numbers_init(ranges: Seq<(u64, u64)>)
    requires
        page_numbers_fit(ranges),
        ranges.len() > 0,
    ensures
        page_numbers_fit(ranges.drop_last()),
{
    let init = ranges.drop_last();
    assert forall|k: int|
        #![trigger init[k]]
        0 <= k < init.len() implies init[k].0 + init[k].1 <= 0x1_0000_0000 * PLAN_PAGE_BYTES by {
        assert(init[k] == ranges[k]);
    }
}

/// The pages of spans of an image lie in the image.
pub proof fn lemma_pages_in_image(ranges: Seq<(u64, u64)>, mem_virtual_size: u64, j: int)
    requires
        page_numbers_fit(ranges),
        forall|k: int|
            0 <= k < ranges.len() ==> range_in_image(#[trigger] ranges[k], mem_virtual_size),
        0 <= j < pages_of_all(ranges).len(),
    ensures
        page_in_image(pages_of_all(ranges)[j], mem_virtual_size),
    decreases ranges.len(),
{
    let init = ranges.drop_last();
    let last = ranges.last();
    assert forall|k: int| 0 <= k < init.len() implies range_in_image(
        #[trigger] init[k],
        mem_virtual_size,
    ) by {
        assert(init[k] == ranges[k]);
    }
    lemma_numbers_init(ranges);
    if j < pages_of_all(init).len() {
        lemma_pages_in_image(init, mem_virtual_size, j);
    } else {
        let i = j - pages_of_all(init).len();
        assert(last == ranges[ranges.len() - 1]);
        assert(range_in_image(last, mem_virtual_size));
        assert(pages_of_all(ranges)[j] == pages_of(last)[i]);
        assert(i < last.1 as int / 4096);
        assert(last.0 / 4096 + i < 0x1_0000_0000);
    }
}

/// The answers for the pages of the first spans are the same without the last.
pub proof fn lemma_agree_init(
    ranges: Seq<(u64, u64)>,
    span_answers: Seq<Vec<SegmentMapping>>,
    page_answers: Seq<Vec<SegmentMapping>>,
)
    requires
        ranges.len() > 0,
        answers_agree(ranges, span_answers, page_answers),
    ensures
        answers_agree(ranges.drop_last(), span_answers, page_answers),
        ({
            let n = ranges.len() - 1;
            let (a, b) = (total_pages(ranges.drop_last()), total_pages(ranges));
            &&& 0 <= a <= b <= page_answers.len()
            &&& b - a == range_pages(ranges.last())
            &&& same_sectors(span_answers[n]@, flat(page_answers.subrange(a, b)))
        }),
{
    let init = ranges.drop_last();
    let n = ranges.len() - 1;
    lemma_total_pages(init, init.len() as int);
    assert(init.take(init.len() as int) =~= init);
    assert forall|k: int| 0 <= k < init.len() implies same_sectors(
        (#[trigger] span_answers[k])@,
        flat(answers_of_span(init, page_answers, k)),
    ) by {
        assert(init.take(k) =~= ranges.take(k));
        assert(init.take(k + 1) =~= ranges.take(k + 1));
    }
    assert(ranges.take(n) =~= init);
    assert(ranges.take(n + 1) =~= ranges);
    assert(same_sectors(span_answers[n]@, flat(answers_of_span(ranges, page_answers, n))));
}

impl Stack {
    /// What a span plan that is neither cut nor failed says of its spans.
    pub proof fn lemma_ranges_taken(
        self,
        ranges: Seq<(u64, u64)>,
        mem_virtual_size: u64,
        answers: Seq<Vec<SegmentMapping>>,
        budget: int,
        k: int,
    )
        requires
            self.after_ranges(ranges, mem_virtual_size, answers, budget).failed is None,
            !self.after_ranges(ranges, mem_virtual_size, answers, budget).truncated,
            0 <= k < ranges.len(),
        ensures
            range_in_image(ranges[k], mem_virtual_size),
            self.resolve(answers[k]@) is Ok,
        decreases ranges.len(),
    {
        let init = ranges.drop_last();
        let p = self.after_ranges(init, mem_virtual_size, answers, budget);
        assert(p.failed is None && !p.truncated);
        if k < init.len() {
            assert(init[k] == ranges[k]);
            self.lemma_ranges_taken(init, mem_virtual_size, answers, budget, k);
        }
    }

    /// Spans and their pages have the same dependencies.
    pub proof fn lemma_used_agree(
        self,
        ranges: Seq<(u64, u64)>,
        span_answers: Seq<Vec<SegmentMapping>>,
        page_answers: Seq<Vec<SegmentMapping>>,
    )
        requires
            answers_agree(ranges, span_answers, page_answers),
            forall|k: int|
                0 <= k < ranges.len() ==> self.resolve((#[trigger] span_answers[k])@) is Ok,
        ensures
            self.used_upto(span_answers, ranges.len() as int) == self.used_upto(
                page_answers,
                total_pages(ranges),
            ),
            forall|j: int|
                0 <= j < total_pages(ranges) ==> self.resolve((#[trigger] page_answers[j])@) is Ok,
        decreases ranges.len(),
    {
        if ranges.len() > 0 {
            let init = ranges.drop_last();
            let n = ranges.len() - 1;
            let (a, b) = (total_pages(init), total_pages(ranges));
            let part = page_answers.subrange(a, b);
            let span = span_answers[n]@;
            lemma_agree_init(ranges, span_answers, page_answers);
            self.lemma_used_agree(init, span_answers, page_answers);
            self.law_same_sectors_have_the_same_uses(span, flat(part));
            self.lemma_used_flat(page_answers, a, b);
            let x = self.resolve(span)->Ok_0;
            let y = self.resolve(flat(part))->Ok_0;
            lemma_same_uses(x, y);
            assert(x.to_set() =~= y.to_set());
            assert forall|j: int| 0 <= j < b implies self.resolve(
                (#[trigger] page_answers[j])@,
            ) is Ok by {
                if j >= a {
                    assert(part[j - a] == page_answers[j]);
                    self.lemma_flat_resolves(part, j - a);
                }
            }
        }
    }

    pub proof fn lemma_metadata_ok(self, order: Seq<usize>, objects: Seq<usize>)
        requires
            forall|l: usize| #[trigger] order.contains(l) ==> self.metadata_blocks(l) is Ok,
        ensures
            self.metadata_needs(order, objects) is Ok,
        decreases order.len(),
    {
        if order.len() > 0 {
            let init = order.drop_last();
            assert forall|l: usize| #[trigger] init.contains(l) implies self.metadata_blocks(
                l,
            ) is Ok by {
                let i = choose|i: int| 0 <= i < init.len() && init[i] == l;
                assert(order[i] == l);
                assert(order.contains(l));
            }
            self.lemma_metadata_ok(init, objects);
            assert(order[order.len() - 1] == order.last());
            assert(order.contains(order.last()));
        }
    }

    /// Pages of the image fail for no reason of their own.
    proof fn lemma_pages_do_not_fail(
        self,
        pages: Seq<u32>,
        mem_virtual_size: u64,
        answers: Seq<Vec<SegmentMapping>>,
        budget: int,
    )
        requires
            forall|i: int|
                0 <= i < pages.len() ==> page_in_image(#[trigger] pages[i], mem_virtual_size),
            forall|i: int|
                0 <= i < pages.len() ==> self.resolve((#[trigger] answers[i])@) is Ok,
            forall|l: usize| #[trigger]
                touches(self.used_upto(answers, pages.len() as int), l) ==> self.metadata_blocks(
                    l,
                ) is Ok,
            !self.after_pages(pages, mem_virtual_size, answers, budget).truncated,
        ensures
            self.after_pages(pages, mem_virtual_size, answers, budget).failed is None,
        decreases pages.len(),
    {
        if pages.len() > 0 {
            let init = pages.drop_last();
            let n = pages.len() as int;
            let p = self.after_pages(init, mem_virtual_size, answers, budget);
            let before = self.used_upto(answers, n - 1);
            let all = self.used_upto(answers, n);
            let deps = self.resolve(answers[n - 1]@)->Ok_0;
            assert(!p.truncated);
            assert forall|i: int| 0 <= i < init.len() implies page_in_image(
                #[trigger] init[i],
                mem_virtual_size,
            ) by {
                assert(init[i] == pages[i]);
            }
            assert forall|l: usize| #[trigger] touches(before, l) implies self.metadata_blocks(
                l,
            ) is Ok by {
                let b = choose|b: u32| #[trigger] before.contains((l, b));
                assert(all.contains((l, b)));
                assert(touches(all, l));
            }
            self.lemma_pages_do_not_fail(init, mem_virtual_size, answers, budget);
            assert(page_in_image(pages[n - 1], mem_virtual_size));
            assert forall|l: usize| #[trigger] layer_order(deps).contains(
                l,
            ) implies self.metadata_blocks(l) is Ok by {
                lemma_touched(deps, l);
                let b = choose|b: u32| #[trigger] deps.to_set().contains((l, b));
                assert(all.contains((l, b)));
                assert(touches(all, l));
            }
            self.lemma_metadata_ok(layer_order(deps), p.objects);
        }
    }

    /// Spans that are planned without a cut or an error select the blocks that
    /// their pages select one by one, where the budget cuts none of them and
    /// the index answers for the pages what it answers for the spans.
    pub proof fn law_spans_select_what_their_pages_select(
        self,
        ranges: Seq<(u64, u64)>,
        mem_virtual_size: u64,
        span_answers: Seq<Vec<SegmentMapping>>,
        page_answers: Seq<Vec<SegmentMapping>>,
        span_budget: int,
        page_budget: int,
    )
        requires
            page_numbers_fit(ranges),
            answers_agree(ranges, span_answers, page_answers),
            ({
                let p = self.after_ranges(ranges, mem_virtual_size, span_answers, span_budget);
                p.failed is None && !p.truncated
            }),
            !self.after_pages(
                pages_of_all(ranges),
                mem_virtual_size,
                page_answers,
                page_budget,
            ).truncated,
        ensures
            ({
                let p = self.after_ranges(ranges, mem_virtual_size, span_answers, span_budget);
                let q = self.after_pages(
                    pages_of_all(ranges),
                    mem_virtual_size,
                    page_answers,
                    page_budget,
                );
                &&& q.failed is None
                &&& forall|l: usize| #[trigger] p.objects.contains(l) <==> q.objects.contains(l)
                &&& forall|n: Need| #[trigger] p.blocks.contains(n) <==> q.blocks.contains(n)
            }),
    {
        let pages = pages_of_all(ranges);
        let p = self.after_ranges(ranges, mem_virtual_size, span_answers, span_budget);
        assert forall|k: int| 0 <= k < ranges.len() implies self.resolve(
            (#[trigger] span_answers[k])@,
        ) is Ok by {
            self.lemma_ranges_taken(ranges, mem_virtual_size, span_answers, span_budget, k);
        }
        assert forall|k: int| 0 <= k < ranges.len() implies range_in_image(
            #[trigger] ranges[k],
            mem_virtual_size,
        ) by {
            self.lemma_ranges_taken(ranges, mem_virtual_size, span_answers, span_budget, k);
        }
        lemma_pages_counted(ranges);
        assert forall|i: int| 0 <= i < pages.len() implies page_in_image(
            #[trigger] pages[i],
            mem_virtual_size,
        ) by {
            lemma_pages_in_image(ranges, mem_virtual_size, i);
        }
        self.lemma_used_agree(ranges, span_answers, page_answers);
        self.law_ranges_select_exactly(ranges, mem_virtual_size, span_answers, span_budget);
        self.lemma_pages_do_not_fail(pages, mem_virtual_size, page_answers, page_budget);
        self.law_pages_select_exactly(pages, mem_virtual_size, page_answers, page_budget);
        let used = self.used_upto(page_answers, pages.len() as int);
        let q = self.after_pages(pages, mem_virtual_size, page_answers, page_budget);
        assert forall|l: usize| #[trigger] p.objects.contains(l) <==> q.objects.contains(l) by {
            assert(p.objects.contains(l) <==> touches(used, l));
        }
        assert forall|n: Need| #[trigger] p.blocks.contains(n) <==> q.blocks.contains(n) by {
            assert(p.blocks.contains(n) <==> self.needs_block(used, n));
        }
    }
}

/// Whether no layer is new but that of the first dependency.
pub open spec fn first_layer_leads(deps: Seq<(usize, u32)>, objects: Seq<usize>) -> bool {
    forall|i: int|
        0 <= i < deps.len() ==> (#[trigger] deps[i]).0 == deps[0].0 || objects.contains(deps[i].0)
}

/// Whether the first dependency is on a layer that is new.
spec fn opens_layer(deps: Seq<(usize, u32)>, objects: Seq<usize>) -> bool {
    deps.len() > 0 && !objects.contains(deps[0].0)
}

/// The object table behind dependencies of which the first layer leads.
spec fn led_objects(deps: Seq<(usize, u32)>, objects: Seq<usize>) -> Seq<usize> {
    if opens_layer(deps, objects) {
        objects.push(deps[0].0)
    } else {
        objects
    }
}

/// Layers that are there already, or one that is not.
proof fn lemma_objects_led(objects: Seq<usize>, needs: Seq<Need>, layer: usize)
    requires
        forall|i: int|
            0 <= i < needs.len() ==> (#[trigger] needs[i]).layer == layer || objects.contains(
                needs[i].layer,
            ),
    ensures
        extend_objects(objects, needs) == if !objects.contains(layer) && exists|i: int|
            0 <= i < needs.len() && (#[trigger] needs[i]).layer == layer {
            objects.push(layer)
        } else {
            objects
        },
    decreases needs.len(),
{
    if needs.len() > 0 {
        let init = needs.drop_last();
        let last = needs[needs.len() - 1];
        assert forall|i: int| 0 <= i < init.len() implies (#[trigger] init[i]).layer == layer
            || objects.contains(init[i].layer) by {
            assert(init[i] == needs[i]);
        }
        lemma_objects_led(objects, init, layer);
        let more = objects.push(layer);
        assert(more[objects.len() as int] == layer);
        if objects.contains(last.layer) {
            let i = choose|i: int| 0 <= i < objects.len() && objects[i] == last.layer;
            assert(more[i] == last.layer);
        }
        if exists|i: int| 0 <= i < init.len() && (#[trigger] init[i]).layer == layer {
            let i = choose|i: int| 0 <= i < init.len() && (#[trigger] init[i]).layer == layer;
            assert(needs[i].layer == layer);
        } else if exists|i: int| 0 <= i < needs.len() && (#[trigger] needs[i]).layer == layer {
            let i = choose|i: int| 0 <= i < needs.len() && (#[trigger] needs[i]).layer == layer;
            if i < init.len() {
                assert(init[i].layer == layer);
            }
        }
    }
}

impl Stack {
    /// All that a unit needs of which the first layer leads.
    spec fn led_needs(self, deps: Seq<(usize, u32)>, objects: Seq<usize>) -> Seq<Need> {
        if opens_layer(deps, objects) {
            layer_needs(deps[0].0, self.metadata_blocks(deps[0].0)->Ok_0) + data_needs(deps)
        } else {
            data_needs(deps)
        }
    }

    proof fn lemma_metadata_led(self, order: Seq<usize>, objects: Seq<usize>)
        requires
            order.len() > 0,
            !objects.contains(order[0]),
            forall|i: int| 0 < i < order.len() ==> objects.contains(#[trigger] order[i]),
        ensures
            self.metadata_needs(order, objects) == match self.metadata_blocks(order[0]) {
                Err(e) => Err::<Seq<Need>, PlanError>(e),
                Ok(blocks) => Ok(layer_needs(order[0], blocks)),
            },
        decreases order.len(),
    {
        let init = order.drop_last();
        if order.len() == 1 {
            assert(init =~= Seq::empty());
            assert(self.metadata_needs(init, objects) == Ok::<Seq<Need>, PlanError>(Seq::empty()));
            if self.metadata_blocks(order[0]) is Ok {
                let needs = layer_needs(order[0], self.metadata_blocks(order[0])->Ok_0);
                assert(Seq::<Need>::empty() + needs =~= needs);
            }
        } else {
            assert forall|i: int| 0 < i < init.len() implies objects.contains(
                #[trigger] init[i],
            ) by {
                assert(init[i] == order[i]);
            }
            assert(init[0] == order[0]);
            self.lemma_metadata_led(init, objects);
            assert(objects.contains(order[order.len() - 1]));
        }
    }

    proof fn lemma_metadata_known(self, order: Seq<usize>, objects: Seq<usize>)
        requires
            forall|i: int| 0 <= i < order.len() ==> objects.contains(#[trigger] order[i]),
        ensures
            self.metadata_needs(order, objects) == Ok::<Seq<Need>, PlanError>(Seq::empty()),
        decreases order.len(),
    {
        if order.len() > 0 {
            let init = order.drop_last();
            assert forall|i: int| 0 <= i < init.len() implies objects.contains(
                #[trigger] init[i],
            ) by {
                assert(init[i] == order[i]);
            }
            self.lemma_metadata_known(init, objects);
            assert(objects.contains(order[order.len() - 1]));
        }
    }

    /// A unit of which the first layer leads needs the metadata of that layer
    /// where it is new, and its data blocks.
    proof fn lemma_led_unit(self, deps: Seq<(usize, u32)>, objects: Seq<usize>)
        requires
            first_layer_leads(deps, objects),
        ensures
            self.unit_needs(objects, deps) is Ok ==> self.unit_needs(objects, deps)->Ok_0
                == self.led_needs(deps, objects),
            self.unit_needs(objects, deps) is Ok && opens_layer(deps, objects)
                ==> self.metadata_blocks(deps[0].0) is Ok,
            extend_objects(objects, self.led_needs(deps, objects)) == led_objects(deps, objects),
    {
        let order = layer_order(deps);
        let needs = self.led_needs(deps, objects);
        let data = data_needs(deps);
        lemma_layer_order(deps);
        if deps.len() > 0 {
            lemma_first_layer(deps);
            let layer = deps[0].0;
            assert forall|i: int| 0 < i < order.len() implies objects.contains(
                #[trigger] order[i],
            ) by {
                assert(order.contains(order[i]));
                let k = choose|k: int| 0 <= k < deps.len() && (#[trigger] deps[k]).0 == order[i];
                assert(order[0] != order[i]);
            }
            if opens_layer(deps, objects) {
                self.lemma_metadata_led(order, objects);
            } else {
                self.lemma_metadata_known(order, objects);
                assert(Seq::<Need>::empty() + data =~= data);
            }
            let m = needs.len() - data.len();
            assert forall|i: int| 0 <= i < needs.len() implies (#[trigger] needs[i]).layer == layer
                || objects.contains(needs[i].layer) by {
                if i >= m {
                    assert(deps[i - m].0 == layer || objects.contains(deps[i - m].0));
                }
            }
            lemma_objects_led(objects, needs, layer);
            assert(needs[m].layer == layer);
        } else {
            assert(order =~= Seq::empty());
            self.lemma_metadata_known(order, objects);
            assert(data =~= Seq::empty());
            assert(Seq::<Need>::empty() + data =~= data);
        }
    }
}

/// The layers of some dependencies start with the first.
proof fn lemma_first_layer(deps: Seq<(usize, u32)>)
    requires
        deps.len() > 0,
    ensures
        layer_order(deps).len() > 0,
        layer_order(deps)[0] == deps[0].0,
    decreases deps.len(),
{
    let init = deps.drop_last();
    if init.len() == 0 {
        assert(layer_order(init) =~= Seq::empty());
    } else {
        assert(init[0] == deps[0]);
        lemma_first_layer(init);
    }
}

/// First uses start with the first dependency.
proof fn lemma_first_use(deps: Seq<(usize, u32)>)
    ensures
        deps.len() == 0 ==> first_uses(deps).len() == 0,
        deps.len() > 0 ==> {
            &&& first_uses(deps).len() > 0
            &&& first_uses(deps)[0].layer == deps[0].0
        },
{
    let none = Seq::<Need>::empty();
    let data = data_needs(deps);
    if deps.len() == 0 {
        assert(data =~= none);
    } else {
        let head = data.take(1);
        let tail = data.skip(1);
        assert(data =~= head + tail);
        lemma_extend_concat(none, Seq::empty(), head, tail);
        assert(head.drop_last() =~= none);
        assert(extend_blocks(none, head) =~= head) by {
            assert(extend_blocks(none, none) =~= none);
            assert(!selects(none, head.last().layer, head.last().block as int));
        }
        lemma_extend_blocks(head, tail);
        assert(first_uses(deps)[0] == head[0]);
    }
}

impl Stack {
    /// Pages `a..b` of a plan, where their first layer leads, select together
    /// what a unit of all their dependencies selects.
    proof fn lemma_pages_led(
        self,
        pages: Seq<u32>,
        mem_virtual_size: u64,
        answers: Seq<Vec<SegmentMapping>>,
        budget: int,
        a: int,
    )
        requires
            0 <= a <= pages.len() <= answers.len(),
            self.after_pages(pages, mem_virtual_size, answers, budget).failed is None,
            !self.after_pages(pages, mem_virtual_size, answers, budget).truncated,
            self.resolve(flat(answers.subrange(a, pages.len() as int))) is Ok,
            first_layer_leads(
                self.resolve(flat(answers.subrange(a, pages.len() as int)))->Ok_0,
                self.after_pages(pages.take(a), mem_virtual_size, answers, budget).objects,
            ),
        ensures
            ({
                let p = self.after_pages(pages.take(a), mem_virtual_size, answers, budget);
                let q = self.after_pages(pages, mem_virtual_size, answers, budget);
                let deps = self.resolve(flat(answers.subrange(a, pages.len() as int)))->Ok_0;
                &&& q.objects == led_objects(deps, p.objects)
                &&& q.blocks == extend_blocks(p.blocks, self.led_needs(deps, p.objects))
            }),
        decreases pages.len() - a,
    {
        let n = pages.len() as int;
        let part = answers.subrange(a, n);
        let deps = self.resolve(flat(part))->Ok_0;
        let p = self.after_pages(pages.take(a), mem_virtual_size, answers, budget);
        if a == n {
            assert(pages.take(a) =~= pages);
            assert(flat(part) =~= Seq::empty());
            assert(data_needs(deps) =~= Seq::empty());
        } else {
            let init = pages.drop_last();
            let front = answers.subrange(a, n - 1);
            let answer = answers[n - 1]@;
            let mid = self.after_pages(init, mem_virtual_size, answers, budget);
            assert(part.drop_last() =~= front);
            assert(part.last() == answers[n - 1]);
            self.lemma_resolve_concat(flat(front), answer);
            let x = self.resolve(flat(front))->Ok_0;
            let y = self.resolve(answer)->Ok_0;
            assert(deps == x + y);
            assert(init.take(a) =~= pages.take(a));
            assert(mid.failed is None && !mid.truncated);
            assert forall|i: int| 0 <= i < x.len() implies (#[trigger] x[i]).0 == x[0].0
                || p.objects.contains(x[i].0) by {
                assert(deps[i] == x[i] && deps[0] == x[0]);
            }
            self.lemma_pages_led(init, mem_virtual_size, answers, budget, a);
            assert(mid.objects == led_objects(x, p.objects));
            if !backed(answer) {
                self.lemma_holes_resolve(answer);
                assert(deps =~= x);
            } else {
                assert(self.unit_needs(mid.objects, y) is Ok);
                assert forall|i: int| 0 <= i < y.len() implies (#[trigger] y[i]).0 == y[0].0
                    || mid.objects.contains(y[i].0) by {
                    assert(deps[x.len() + i] == y[i]);
                    assert(deps[x.len() + i].0 == deps[0].0 || p.objects.contains(
                        deps[x.len() + i].0,
                    ));
                    if x.len() == 0 {
                        assert(deps[0] == y[0]);
                    } else {
                        assert(deps[0] == x[0]);
                        lemma_led_contains(x, p.objects, y[i].0);
                    }
                }
                self.lemma_led_unit(y, mid.objects);
                if x.len() == 0 {
                    assert(deps =~= y);
                    assert(data_needs(x) =~= Seq::empty());
                    assert(mid.blocks == p.blocks);
                } else {
                    assert(deps[0] == x[0]);
                    if y.len() > 0 {
                        assert(deps[x.len() as int] == y[0]);
                        assert(deps[x.len() as int].0 == deps[0].0 || p.objects.contains(
                            deps[x.len() as int].0,
                        ));
                        lemma_led_contains(x, p.objects, y[0].0);
                    }
                    assert(!opens_layer(y, mid.objects));
                    lemma_extend_concat(
                        p.blocks,
                        p.objects,
                        self.led_needs(x, p.objects),
                        data_needs(y),
                    );
                    assert(self.led_needs(deps, p.objects) =~= self.led_needs(x, p.objects)
                        + data_needs(y));
                }
            }
        }
    }

    /// Units with the same first uses select the same.
    proof fn lemma_led_alike(
        self,
        a: Seq<(usize, u32)>,
        b: Seq<(usize, u32)>,
        objects: Seq<usize>,
        blocks: Seq<Need>,
    )
        requires
            first_uses(a) == first_uses(b),
            first_layer_leads(a, objects),
        ensures
            first_layer_leads(b, objects),
            led_objects(a, objects) == led_objects(b, objects),
            extend_blocks(blocks, self.led_needs(a, objects)) == extend_blocks(
                blocks,
                self.led_needs(b, objects),
            ),
    {
        lemma_first_use(a);
        lemma_first_use(b);
        lemma_same_uses(a, b);
        assert forall|i: int| 0 <= i < b.len() implies (#[trigger] b[i]).0 == b[0].0
            || objects.contains(b[i].0) by {
            assert(b.contains(b[i]));
            assert(a.contains(b[i]));
            let k = choose|k: int| 0 <= k < a.len() && a[k] == b[i];
            assert(a[k].0 == a[0].0 || objects.contains(a[k].0));
        }
        if opens_layer(a, objects) {
            let meta = layer_needs(a[0].0, self.metadata_blocks(a[0].0)->Ok_0);
            let have = extend_blocks(blocks, meta);
            lemma_extend_concat(blocks, objects, meta, data_needs(a));
            lemma_extend_concat(blocks, objects, meta, data_needs(b));
            lemma_first_uses(have, data_needs(a));
            lemma_first_uses(have, data_needs(b));
        } else {
            lemma_first_uses(blocks, data_needs(a));
            lemma_first_uses(blocks, data_needs(b));
        }
    }
}

/// What leads is in the object table.
proof fn lemma_led_contains(deps: Seq<(usize, u32)>, objects: Seq<usize>, layer: usize)
    requires
        deps.len() > 0,
        layer == deps[0].0 || objects.contains(layer),
    ensures
        led_objects(deps, objects).contains(layer),
{
    let led = led_objects(deps, objects);
    if opens_layer(deps, objects) {
        assert(led[objects.len() as int] == deps[0].0);
        if objects.contains(layer) {
            let i = choose|i: int| 0 <= i < objects.len() && objects[i] == layer;
            assert(led[i] == layer);
        }
    }
}

impl Stack {
    /// Whether the spans of a plan bring in new layers with their first block
    /// only.
    pub open spec fn layers_lead(
        self,
        ranges: Seq<(u64, u64)>,
        mem_virtual_size: u64,
        span_answers: Seq<Vec<SegmentMapping>>,
        budget: int,
    ) -> bool {
        forall|k: int|
            0 <= k < ranges.len() ==> first_layer_leads(
                self.resolve((#[trigger] span_answers[k])@)->Ok_0,
                self.after_ranges(ranges.take(k), mem_virtual_size, span_answers, budget).objects,
            )
    }

    /// Spans that are planned without a cut or an error come to the same plan
    /// as their pages one by one, block for block and in the same order, where
    /// the budget cuts none of the pages, the index answers for the pages what
    /// it answers for the spans, and each span brings in a new layer with its
    /// first block only.
    pub proof fn law_spans_plan_like_their_pages(
        self,
        ranges: Seq<(u64, u64)>,
        mem_virtual_size: u64,
        span_answers: Seq<Vec<SegmentMapping>>,
        page_answers: Seq<Vec<SegmentMapping>>,
        span_budget: int,
        page_budget: int,
    )
        requires
            page_numbers_fit(ranges),
            answers_agree(ranges, span_answers, page_answers),
            self.layers_lead(ranges, mem_virtual_size, span_answers, span_budget),
            ({
                let p = self.after_ranges(ranges, mem_virtual_size, span_answers, span_budget);
                p.failed is None && !p.truncated
            }),
            !self.after_pages(
                pages_of_all(ranges),
                mem_virtual_size,
                page_answers,
                page_budget,
            ).truncated,
        ensures
            ({
                let p = self.after_ranges(ranges, mem_virtual_size, span_answers, span_budget);
                let q = self.after_pages(
                    pages_of_all(ranges),
                    mem_virtual_size,
                    page_answers,
                    page_budget,
                );
                &&& q.failed is None
                &&& q.objects == p.objects
                &&& q.blocks == p.blocks
            }),
        decreases ranges.len(),
    {
        self.law_spans_select_what_their_pages_select(
            ranges,
            mem_virtual_size,
            span_answers,
            page_answers,
            span_budget,
            page_budget,
        );
        if ranges.len() > 0 {
            let init = ranges.drop_last();
            let n = ranges.len() - 1;
            let pages = pages_of_all(ranges);
            let front = pages_of_all(init);
            let (a, b) = (total_pages(init), total_pages(ranges));
            let part = page_answers.subrange(a, b);
            let span = span_answers[n]@;
            lemma_agree_init(ranges, span_answers, page_answers);
            lemma_pages_counted(init);
            lemma_pages_counted(ranges);
            assert(pages.take(a) =~= front);
            let p = self.after_ranges(init, mem_virtual_size, span_answers, span_budget);
            let q = self.after_pages(front, mem_virtual_size, page_answers, page_budget);
            assert(p.failed is None && !p.truncated);
            self.lemma_cut_stays(pages, mem_virtual_size, page_answers, page_budget, a);
            lemma_numbers_init(ranges);
            assert(self.layers_lead(init, mem_virtual_size, span_answers, span_budget)) by {
                assert forall|k: int| 0 <= k < init.len() implies first_layer_leads(
                    self.resolve((#[trigger] span_answers[k])@)->Ok_0,
                    self.after_ranges(
                        init.take(k),
                        mem_virtual_size,
                        span_answers,
                        span_budget,
                    ).objects,
                ) by {
                    assert(init.take(k) =~= ranges.take(k));
                }
            }
            self.law_spans_plan_like_their_pages(
                init,
                mem_virtual_size,
                span_answers,
                page_answers,
                span_budget,
                page_budget,
            );
            assert(ranges.take(n) =~= init);
            let x = self.resolve(span)->Ok_0;
            assert(self.resolve(span) is Ok);
            assert(first_layer_leads(self.resolve(span_answers[n]@)->Ok_0, p.objects));
            self.law_same_sectors_have_the_same_uses(span, flat(part));
            let y = self.resolve(flat(part))->Ok_0;
            self.lemma_led_alike(x, y, p.objects, p.blocks);
            self.lemma_pages_led(pages, mem_virtual_size, page_answers, page_budget, a);
            if backed(span) {
                self.lemma_led_unit(x, p.objects);
            } else {
                self.lemma_holes_resolve(span);
                assert(data_needs(x) =~= Seq::empty());
            }
        }
    }

    /// A plan that is not cut was not cut before.
    pub proof fn lemma_cut_stays(
        self,
        pages: Seq<u32>,
        mem_virtual_size: u64,
        answers: Seq<Vec<SegmentMapping>>,
        budget: int,
        k: int,
    )
        requires
            0 <= k <= pages.len(),
            !self.after_pages(pages, mem_virtual_size, answers, budget).truncated,
        ensures
            !self.after_pages(pages.take(k), mem_virtual_size, answers, budget).truncated,
        decreases pages.len(),
    {
        if k == pages.len() {
            assert(pages.take(k) =~= pages);
        } else {
            let init = pages.drop_last();
            assert(init.take(k) =~= pages.take(k));
            self.lemma_cut_stays(init, mem_virtual_size, answers, budget, k);
        }
    }
}

} // verus!
