//! How plans grow, what they take and what they leave.
use vstd::prelude::*;
use crate::extents::PlanError;
use crate::plan_lemmas::lemma_extend_blocks;
use crate::plan_model::{
    Need, Progress, SegmentMapping, Stack, Weight, backed, data_needs, layer_needs, layer_order,
    one_page, page_in_image, range_pages, selects, span_weight, total_pages,
};

verus! {

impl Stack {
    proof fn lemma_page_step(
        self,
        p: Progress,
        page: u32,
        mem: u64,
        answer: Seq<SegmentMapping>,
        budget: int,
    )
        ensures
            ({
                let q = self.take_page(p, page, mem, answer, budget);
                &&& p.objects.is_prefix_of(q.objects)
                &&& p.blocks.is_prefix_of(q.blocks)
                &&& p.failed is Some ==> q == p
                &&& p.failed is None && p.truncated ==> q == Progress { cut: p.cut + 1, ..p }
                &&& q.failed is None ==> q.backed + q.holes + q.cut == p.backed + p.holes + p.cut
                    + 1
            }),
    {
        self.lemma_take_unit_prefix(p, answer, one_page(), budget);
    }

    proof fn lemma_range_step(
        self,
        p: Progress,
        range: (u64, u64),
        mem: u64,
        answer: Seq<SegmentMapping>,
        budget: int,
    )
        ensures
            ({
                let q = self.take_range(p, range, mem, answer, budget);
                &&& p.objects.is_prefix_of(q.objects)
                &&& p.blocks.is_prefix_of(q.blocks)
                &&& p.failed is Some ==> q == p
                &&& p.failed is None && p.truncated ==> q.objects == p.objects && q.blocks
                    == p.blocks && q.spent == p.spent && q.truncated
                &&& q.failed is None ==> q.backed + q.holes + q.cut == p.backed + p.holes + p.cut
                    + range_pages(range)
            }),
    {
        self.lemma_take_unit_prefix(p, answer, span_weight(range, answer), budget);
    }

    /// Blocks come in first-need order: what the first pages select stands in
    /// front, in place, whatever pages follow.
    pub proof fn law_pages_in_first_need_order(
        self,
        pages: Seq<u32>,
        mem_virtual_size: u64,
        answers: Seq<Vec<SegmentMapping>>,
        budget: int,
        k: int,
    )
        requires
            0 <= k <= pages.len(),
        ensures
            self.after_pages(pages.take(k), mem_virtual_size, answers, budget).objects.is_prefix_of(
                self.after_pages(pages, mem_virtual_size, answers, budget).objects,
            ),
            self.after_pages(pages.take(k), mem_virtual_size, answers, budget).blocks.is_prefix_of(
                self.after_pages(pages, mem_virtual_size, answers, budget).blocks,
            ),
        decreases pages.len(),
    {
        if k == pages.len() {
            assert(pages.take(k) =~= pages);
        } else {
            let init = pages.drop_last();
            assert(init.take(k) =~= pages.take(k));
            self.law_pages_in_first_need_order(init, mem_virtual_size, answers, budget, k);
            self.lemma_page_step(
                self.after_pages(init, mem_virtual_size, answers, budget),
                pages.last(),
                mem_virtual_size,
                answers[pages.len() - 1]@,
                budget,
            );
        }
    }

    /// Blocks come in first-need order: what the first spans select stands in
    /// front, in place, whatever spans follow.
    pub proof fn law_ranges_in_first_need_order(
        self,
        ranges: Seq<(u64, u64)>,
        mem_virtual_size: u64,
        answers: Seq<Vec<SegmentMapping>>,
        budget: int,
        k: int,
    )
        requires
            0 <= k <= ranges.len(),
        ensures
            self.after_ranges(
                ranges.take(k),
                mem_virtual_size,
                answers,
                budget,
            ).objects.is_prefix_of(
                self.after_ranges(ranges, mem_virtual_size, answers, budget).objects,
            ),
            self.after_ranges(
                ranges.take(k),
                mem_virtual_size,
                answers,
                budget,
            ).blocks.is_prefix_of(
                self.after_ranges(ranges, mem_virtual_size, answers, budget).blocks,
            ),
        decreases ranges.len(),
    {
        if k == ranges.len() {
            assert(ranges.take(k) =~= ranges);
        } else {
            let init = ranges.drop_last();
            assert(init.take(k) =~= ranges.take(k));
            self.law_ranges_in_first_need_order(init, mem_virtual_size, answers, budget, k);
            self.lemma_range_step(
                self.after_ranges(init, mem_virtual_size, answers, budget),
                ranges.last(),
                mem_virtual_size,
                answers[ranges.len() - 1]@,
                budget,
            );
        }
    }

    /// Every page is counted once: as backed, as a hole, or as cut by the
    /// budget.
    pub proof fn law_pages_all_counted(
        self,
        pages: Seq<u32>,
        mem_virtual_size: u64,
        answers: Seq<Vec<SegmentMapping>>,
        budget: int,
    )
        ensures
            ({
                let p = self.after_pages(pages, mem_virtual_size, answers, budget);
                p.failed is None ==> p.backed + p.holes + p.cut == pages.len()
            }),
        decreases pages.len(),
    {
        if pages.len() > 0 {
            let init = pages.drop_last();
            self.law_pages_all_counted(init, mem_virtual_size, answers, budget);
            self.lemma_page_step(
                self.after_pages(init, mem_virtual_size, answers, budget),
                pages.last(),
                mem_virtual_size,
                answers[pages.len() - 1]@,
                budget,
            );
        }
    }

    /// Every page of the spans is counted once: as backed, as a hole, or as
    /// cut by the budget.
    pub proof fn law_range_pages_all_counted(
        self,
        ranges: Seq<(u64, u64)>,
        mem_virtual_size: u64,
        answers: Seq<Vec<SegmentMapping>>,
        budget: int,
    )
        ensures
            ({
                let p = self.after_ranges(ranges, mem_virtual_size, answers, budget);
                p.failed is None ==> p.backed + p.holes + p.cut == total_pages(ranges)
            }),
        decreases ranges.len(),
    {
        if ranges.len() > 0 {
            let init = ranges.drop_last();
            self.law_range_pages_all_counted(init, mem_virtual_size, answers, budget);
            self.lemma_range_step(
                self.after_ranges(init, mem_virtual_size, answers, budget),
                ranges.last(),
                mem_virtual_size,
                answers[ranges.len() - 1]@,
                budget,
            );
        }
    }

    /// The plan stops at the first page that does not fit: the pages behind it
    /// are neither looked at nor selected for.
    pub proof fn law_plan_stops_at_the_cut(
        self,
        pages: Seq<u32>,
        mem_virtual_size: u64,
        answers: Seq<Vec<SegmentMapping>>,
        budget: int,
        k: int,
    )
        requires
            0 <= k <= pages.len(),
            self.after_pages(pages.take(k), mem_virtual_size, answers, budget).truncated,
            self.after_pages(pages.take(k), mem_virtual_size, answers, budget).failed is None,
        ensures
            ({
                let p = self.after_pages(pages.take(k), mem_virtual_size, answers, budget);
                self.after_pages(pages, mem_virtual_size, answers, budget) == Progress {
                    cut: p.cut + (pages.len() - k),
                    ..p
                }
            }),
        decreases pages.len(),
    {
        if k == pages.len() {
            assert(pages.take(k) =~= pages);
        } else {
            let init = pages.drop_last();
            assert(init.take(k) =~= pages.take(k));
            self.law_plan_stops_at_the_cut(init, mem_virtual_size, answers, budget, k);
        }
    }

    /// A page without a physical range changes nothing but the count of
    /// holes.
    pub proof fn law_holes_select_nothing(
        self,
        p: Progress,
        page: u32,
        mem_virtual_size: u64,
        answer: Seq<SegmentMapping>,
        budget: int,
    )
        requires
            self.wf(),
            p.failed is None,
            !p.truncated,
            page_in_image(page, mem_virtual_size),
            !backed(answer),
        ensures
            self.take_page(p, page, mem_virtual_size, answer, budget) == (Progress {
                holes: p.holes + 1,
                ..p
            }),
    {
        self.lemma_holes_resolve(answer);
    }

    pub proof fn lemma_holes_resolve(self, answer: Seq<SegmentMapping>)
        requires
            !backed(answer),
        ensures
            self.resolve(answer) == Ok::<Seq<(usize, u32)>, PlanError>(Seq::empty()),
        decreases answer.len(),
    {
        if answer.len() > 0 {
            let init = answer.drop_last();
            if backed(init) {
                let i = choose|i: int| 0 <= i < init.len() && (#[trigger] init[i]).physical;
                assert(answer[i].physical);
            }
            self.lemma_holes_resolve(init);
            assert(!answer[answer.len() - 1].physical);
        }
    }

    /// The dependencies of page `i`, or of span `i`.
    pub open spec fn deps_of(self, answers: Seq<Vec<SegmentMapping>>, i: int) -> Seq<(usize, u32)> {
        self.resolve(answers[i]@)->Ok_0
    }

    /// Whether all dependencies are selected.
    pub open spec fn all_selected(self, blocks: Seq<Need>, deps: Seq<(usize, u32)>) -> bool {
        forall|k: int|
            0 <= k < deps.len() ==> selects(
                blocks,
                (#[trigger] deps[k]).0,
                deps[k].1 as int,
            )
    }

    proof fn lemma_selected_grows(self, a: Seq<Need>, b: Seq<Need>, deps: Seq<(usize, u32)>)
        requires
            self.all_selected(a, deps),
            a.is_prefix_of(b),
        ensures
            self.all_selected(b, deps),
    {
        assert forall|k: int| 0 <= k < deps.len() implies selects(
            b,
            (#[trigger] deps[k]).0,
            deps[k].1 as int,
        ) by {
            assert(selects(a, deps[k].0, deps[k].1 as int));
            let i = choose|i: int|
                0 <= i < a.len() && (#[trigger] a[i]).layer == deps[k].0 && a[i].block
                    == deps[k].1 as int;
            assert(b[i] == a[i]);
        }
    }

    /// Taking a unit selects all that it depends on.
    proof fn lemma_unit_selected(
        self,
        p: Progress,
        answer: Seq<SegmentMapping>,
        weight: Weight,
        budget: int,
    )
        requires
            p.failed is None,
            !p.truncated,
        ensures
            ({
                let q = self.take_unit(p, answer, weight, budget);
                q.failed is None && !q.truncated ==> self.resolve(answer) is Ok
                    && self.all_selected(q.blocks, self.resolve(answer)->Ok_0)
            }),
    {
        let q = self.take_unit(p, answer, weight, budget);
        if q.failed is None && !q.truncated {
            let deps = self.resolve(answer)->Ok_0;
            if backed(answer) {
                let needs = self.unit_needs(p.objects, deps)->Ok_0;
                let meta = self.metadata_needs(layer_order(deps), p.objects)->Ok_0;
                lemma_extend_blocks(p.blocks, needs);
                assert forall|k: int| 0 <= k < deps.len() implies selects(
                    q.blocks,
                    (#[trigger] deps[k]).0,
                    deps[k].1 as int,
                ) by {
                    assert(needs[meta.len() + k] == data_needs(deps)[k]);
                }
            } else {
                self.lemma_holes_resolve(answer);
            }
        }
    }

    /// No half sets: every page before the cut has all its blocks selected.
    pub proof fn law_taken_pages_are_complete(
        self,
        pages: Seq<u32>,
        mem_virtual_size: u64,
        answers: Seq<Vec<SegmentMapping>>,
        budget: int,
        i: int,
    )
        requires
            0 <= i < pages.len(),
            ({
                let p = self.after_pages(pages.take(i + 1), mem_virtual_size, answers, budget);
                p.failed is None && !p.truncated
            }),
        ensures
            self.resolve(answers[i]@) is Ok,
            self.all_selected(
                self.after_pages(pages, mem_virtual_size, answers, budget).blocks,
                self.deps_of(answers, i),
            ),
    {
        let upto = pages.take(i + 1);
        let p = self.after_pages(upto.drop_last(), mem_virtual_size, answers, budget);
        self.lemma_unit_selected(p, answers[i]@, one_page(), budget);
        self.law_pages_in_first_need_order(pages, mem_virtual_size, answers, budget, i + 1);
        self.lemma_selected_grows(
            self.after_pages(upto, mem_virtual_size, answers, budget).blocks,
            self.after_pages(pages, mem_virtual_size, answers, budget).blocks,
            self.deps_of(answers, i),
        );
    }

    /// No half sets: every span before the cut has all its blocks selected.
    pub proof fn law_taken_ranges_are_complete(
        self,
        ranges: Seq<(u64, u64)>,
        mem_virtual_size: u64,
        answers: Seq<Vec<SegmentMapping>>,
        budget: int,
        i: int,
    )
        requires
            0 <= i < ranges.len(),
            ({
                let p = self.after_ranges(ranges.take(i + 1), mem_virtual_size, answers, budget);
                p.failed is None && !p.truncated
            }),
        ensures
            self.resolve(answers[i]@) is Ok,
            self.all_selected(
                self.after_ranges(ranges, mem_virtual_size, answers, budget).blocks,
                self.deps_of(answers, i),
            ),
    {
        let upto = ranges.take(i + 1);
        let p = self.after_ranges(upto.drop_last(), mem_virtual_size, answers, budget);
        let weight = span_weight(ranges[i], answers[i]@);
        self.lemma_unit_selected(p, answers[i]@, weight, budget);
        self.law_ranges_in_first_need_order(ranges, mem_virtual_size, answers, budget, i + 1);
        self.lemma_selected_grows(
            self.after_ranges(upto, mem_virtual_size, answers, budget).blocks,
            self.after_ranges(ranges, mem_virtual_size, answers, budget).blocks,
            self.deps_of(answers, i),
        );
    }

    /// Whether a block is one that the first `n` units need: a data block that
    /// one of them depends on, or a metadata block of a layer that one of them
    /// touches.
    pub open spec fn needed(
        self,
        answers: Seq<Vec<SegmentMapping>>,
        n: int,
        block: Need,
    ) -> bool {
        exists|i: int| 0 <= i < n && #[trigger] self.needed_by(answers, i, block)
    }

    /// Whether unit `i` needs a block.
    pub open spec fn needed_by(
        self,
        answers: Seq<Vec<SegmentMapping>>,
        i: int,
        block: Need,
    ) -> bool {
        &&& self.resolve(answers[i]@) is Ok
        &&& if block.metadata {
            &&& self.metadata_blocks(block.layer) is Ok
            &&& self.metadata_blocks(block.layer)->Ok_0.contains(block.block)
            &&& layer_order(self.deps_of(answers, i)).contains(block.layer)
        } else {
            self.deps_of(answers, i).contains((block.layer, block.block))
        }
    }

    /// The metadata that a unit needs is what holds its layers' headers and
    /// indexes.
    proof fn lemma_metadata_of_layers(self, order: Seq<usize>, objects: Seq<usize>)
        ensures
            self.metadata_needs(order, objects) matches Ok(needs) ==> forall|i: int|
                #![trigger needs[i]]
                0 <= i < needs.len() ==> {
                    &&& needs[i].metadata
                    &&& order.contains(needs[i].layer)
                    &&& self.metadata_blocks(needs[i].layer) is Ok
                    &&& self.metadata_blocks(needs[i].layer)->Ok_0.contains(needs[i].block)
                },
        decreases order.len(),
    {
        if order.len() > 0 {
            let init = order.drop_last();
            self.lemma_metadata_of_layers(init, objects);
            if self.metadata_needs(order, objects) is Ok {
                let needs = self.metadata_needs(order, objects)->Ok_0;
                let rest = self.metadata_needs(init, objects)->Ok_0;
                assert forall|i: int| #![trigger needs[i]] 0 <= i < needs.len() implies {
                    &&& needs[i].metadata
                    &&& order.contains(needs[i].layer)
                    &&& self.metadata_blocks(needs[i].layer) is Ok
                    &&& self.metadata_blocks(needs[i].layer)->Ok_0.contains(needs[i].block)
                } by {
                    if i < rest.len() {
                        assert(needs[i] == rest[i]);
                        let k = choose|k: int| 0 <= k < init.len() && init[k] == rest[i].layer;
                        assert(order[k] == needs[i].layer);
                    } else {
                        let meta = self.metadata_blocks(order.last())->Ok_0;
                        assert(needs[i] == layer_needs(order.last(), meta)[i - rest.len()]);
                        assert(meta[i - rest.len()] == needs[i].block);
                        assert(order[order.len() - 1] == needs[i].layer);
                    }
                }
            }
        }
    }

    /// What a unit adds to the selection is what it needs.
    proof fn lemma_unit_needed(
        self,
        p: Progress,
        answers: Seq<Vec<SegmentMapping>>,
        n: int,
        weight: Weight,
        budget: int,
    )
        requires
            0 <= n,
        ensures
            ({
                let q = self.take_unit(p, answers[n]@, weight, budget);
                forall|j: int|
                    p.blocks.len() <= j < q.blocks.len() ==> self.needed_by(
                        answers,
                        n,
                        #[trigger] q.blocks[j],
                    )
            }),
    {
        let q = self.take_unit(p, answers[n]@, weight, budget);
        if q.blocks.len() > p.blocks.len() {
            let deps = self.resolve(answers[n]@)->Ok_0;
            let order = layer_order(deps);
            let needs = self.unit_needs(p.objects, deps)->Ok_0;
            let meta = self.metadata_needs(order, p.objects)->Ok_0;
            lemma_extend_blocks(p.blocks, needs);
            self.lemma_metadata_of_layers(order, p.objects);
            assert forall|j: int| p.blocks.len() <= j < q.blocks.len() implies self.needed_by(
                answers,
                n,
                #[trigger] q.blocks[j],
            ) by {
                assert(needs.contains(q.blocks[j]));
                let k = choose|k: int| 0 <= k < needs.len() && needs[k] == q.blocks[j];
                if k < meta.len() {
                    assert(needs[k] == meta[k]);
                } else {
                    assert(needs[k] == data_needs(deps)[k - meta.len()]);
                    assert(deps[k - meta.len()] == (q.blocks[j].layer, q.blocks[j].block));
                }
            }
        }
    }

    /// Nothing is selected that no page needs.
    pub proof fn law_pages_need_what_is_selected(
        self,
        pages: Seq<u32>,
        mem_virtual_size: u64,
        answers: Seq<Vec<SegmentMapping>>,
        budget: int,
    )
        ensures
            ({
                let p = self.after_pages(pages, mem_virtual_size, answers, budget);
                forall|j: int|
                    0 <= j < p.blocks.len() ==> self.needed(
                        answers,
                        pages.len() as int,
                        #[trigger] p.blocks[j],
                    )
            }),
        decreases pages.len(),
    {
        if pages.len() > 0 {
            let init = pages.drop_last();
            let n = init.len() as int;
            self.law_pages_need_what_is_selected(init, mem_virtual_size, answers, budget);
            let p = self.after_pages(init, mem_virtual_size, answers, budget);
            let q = self.after_pages(pages, mem_virtual_size, answers, budget);
            self.lemma_unit_needed(p, answers, n, one_page(), budget);
            self.lemma_page_step(p, pages.last(), mem_virtual_size, answers[n]@, budget);
            assert forall|j: int| 0 <= j < q.blocks.len() implies self.needed(
                answers,
                pages.len() as int,
                #[trigger] q.blocks[j],
            ) by {
                if j < p.blocks.len() {
                    assert(q.blocks[j] == p.blocks[j]);
                    assert(self.needed(answers, n, p.blocks[j]));
                    let i = choose|i: int|
                        0 <= i < n && #[trigger] self.needed_by(answers, i, p.blocks[j]);
                    assert(self.needed_by(answers, i, q.blocks[j]));
                } else {
                    assert(self.needed_by(answers, n, q.blocks[j]));
                }
            }
        }
    }

    /// Nothing is selected that no span needs.
    pub proof fn law_ranges_need_what_is_selected(
        self,
        ranges: Seq<(u64, u64)>,
        mem_virtual_size: u64,
        answers: Seq<Vec<SegmentMapping>>,
        budget: int,
    )
        ensures
            ({
                let p = self.after_ranges(ranges, mem_virtual_size, answers, budget);
                forall|j: int|
                    0 <= j < p.blocks.len() ==> self.needed(
                        answers,
                        ranges.len() as int,
                        #[trigger] p.blocks[j],
                    )
            }),
        decreases ranges.len(),
    {
        if ranges.len() > 0 {
            let init = ranges.drop_last();
            let n = init.len() as int;
            self.law_ranges_need_what_is_selected(init, mem_virtual_size, answers, budget);
            let p = self.after_ranges(init, mem_virtual_size, answers, budget);
            let q = self.after_ranges(ranges, mem_virtual_size, answers, budget);
            let weight = span_weight(ranges.last(), answers[n]@);
            self.lemma_unit_needed(p, answers, n, weight, budget);
            self.lemma_range_step(p, ranges.last(), mem_virtual_size, answers[n]@, budget);
            assert forall|j: int| 0 <= j < q.blocks.len() implies self.needed(
                answers,
                ranges.len() as int,
                #[trigger] q.blocks[j],
            ) by {
                if j < p.blocks.len() {
                    assert(q.blocks[j] == p.blocks[j]);
                    assert(self.needed(answers, n, p.blocks[j]));
                    let i = choose|i: int|
                        0 <= i < n && #[trigger] self.needed_by(answers, i, p.blocks[j]);
                    assert(self.needed_by(answers, i, q.blocks[j]));
                } else {
                    assert(self.needed_by(answers, n, q.blocks[j]));
                }
            }
        }
    }
}

} // verus!
