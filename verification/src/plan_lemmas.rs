//! Facts about selections of blocks.
use vstd::prelude::*;
use crate::extents::{PlanError, object_blocks};
use crate::plan_model::{
    Need, Progress, Segment, SegmentMapping, Stack, Weight, backed_pages, extend_blocks,
    extend_objects, layer_order, missing_blocks, missing_runs, page_segment, span_answered,
    resolution_of, selects, total_blocks_upto, total_pages,
};

verus! {

/// No block of a layer occurs twice.
pub open spec fn distinct_blocks(blocks: Seq<Need>) -> bool {
    forall|i: int, j: int|
        #![trigger blocks[i], blocks[j]]
        0 <= i < j < blocks.len() ==> blocks[i].layer != blocks[j].layer || blocks[i].block
            != blocks[j].block
}

/// A sequence of distinct numbers below `n` has at most `n` elements.
pub proof fn lemma_pigeonhole(s: Seq<int>, n: int)
    requires
        s.no_duplicates(),
        0 <= n,
        forall|i: int| 0 <= i < s.len() ==> 0 <= #[trigger] s[i] < n,
    ensures
        s.len() <= n,
{
    s.unique_seq_to_set();
    vstd::set_lib::lemma_int_range(0, n);
    assert(s.to_set().subset_of(vstd::set_lib::set_int_range(0, n)));
    vstd::set_lib::lemma_len_subset(s.to_set(), vstd::set_lib::set_int_range(0, n));
}

pub proof fn lemma_extend_blocks_push(have: Seq<Need>, more: Seq<Need>, x: Need)
    ensures
        extend_blocks(have, more.push(x)) == {
            let rest = extend_blocks(have, more);
            if selects(rest, x.layer, x.block as int) {
                rest
            } else {
                rest.push(x)
            }
        },
{
    assert(more.push(x).drop_last() =~= more);
}

pub proof fn lemma_extend_objects_push(have: Seq<usize>, more: Seq<Need>, x: Need)
    ensures
        extend_objects(have, more.push(x)) == {
            let rest = extend_objects(have, more);
            if rest.contains(x.layer) {
                rest
            } else {
                rest.push(x.layer)
            }
        },
{
    assert(more.push(x).drop_last() =~= more);
}

pub proof fn lemma_extend_concat(
    blocks: Seq<Need>,
    objects: Seq<usize>,
    a: Seq<Need>,
    b: Seq<Need>,
)
    ensures
        extend_blocks(blocks, a + b) == extend_blocks(extend_blocks(blocks, a), b),
        extend_objects(objects, a + b) == extend_objects(extend_objects(objects, a), b),
    decreases b.len(),
{
    if b.len() == 0 {
        assert(a + b =~= a);
    } else {
        lemma_extend_concat(blocks, objects, a, b.drop_last());
        assert((a + b).drop_last() =~= a + b.drop_last());
        assert((a + b).last() == b.last());
    }
}

/// Extending a selection keeps what is there in place, adds nothing twice,
/// selects all that is asked for, and nothing else.
pub proof fn lemma_extend_blocks(have: Seq<Need>, more: Seq<Need>)
    ensures
        have.is_prefix_of(extend_blocks(have, more)),
        distinct_blocks(have) ==> distinct_blocks(extend_blocks(have, more)),
        forall|i: int|
            #![trigger more[i]]
            0 <= i < more.len() ==> selects(
                extend_blocks(have, more),
                more[i].layer,
                more[i].block as int,
            ),
        forall|i: int|
            #![trigger extend_blocks(have, more)[i]]
            have.len() <= i < extend_blocks(have, more).len() ==> more.contains(
                extend_blocks(have, more)[i],
            ),
    decreases more.len(),
{
    if more.len() > 0 {
        let init = more.drop_last();
        lemma_extend_blocks(have, init);
        let rest = extend_blocks(have, init);
        let all = extend_blocks(have, more);
        assert forall|i: int| #![trigger more[i]] 0 <= i < more.len() implies selects(
            all,
            more[i].layer,
            more[i].block as int,
        ) by {
            if i < init.len() {
                assert(init[i] == more[i]);
                let j = choose|j: int|
                    0 <= j < rest.len() && (#[trigger] rest[j]).layer == more[i].layer
                        && rest[j].block == more[i].block as int;
                assert(all[j] == rest[j]);
            } else if !selects(rest, more.last().layer, more.last().block as int) {
                assert(all[rest.len() as int] == more.last());
            }
        }
        assert forall|i: int| #![trigger all[i]] have.len() <= i < all.len() implies more.contains(
            all[i],
        ) by {
            if i < rest.len() {
                assert(all[i] == rest[i]);
                let j = choose|j: int| 0 <= j < init.len() && init[j] == rest[i];
                assert(more[j] == rest[i]);
            } else {
                assert(more[more.len() - 1] == all[i]);
            }
        }
    }
}

/// Extending an object table keeps what is there in place, adds nothing twice,
/// and adds exactly the layers that are asked for.
pub proof fn lemma_extend_objects(have: Seq<usize>, more: Seq<Need>)
    ensures
        have.is_prefix_of(extend_objects(have, more)),
        have.no_duplicates() ==> extend_objects(have, more).no_duplicates(),
        forall|l: usize| #[trigger]
            extend_objects(have, more).contains(l) <==> have.contains(l) || exists|i: int|
                0 <= i < more.len() && (#[trigger] more[i]).layer == l,
    decreases more.len(),
{
    if more.len() > 0 {
        let init = more.drop_last();
        lemma_extend_objects(have, init);
        let rest = extend_objects(have, init);
        let all = extend_objects(have, more);
        assert forall|l: usize| #[trigger] all.contains(l) <==> have.contains(l) || exists|i: int|
            0 <= i < more.len() && (#[trigger] more[i]).layer == l by {
            if all.contains(l) {
                let k = choose|k: int| 0 <= k < all.len() && all[k] == l;
                if k < rest.len() {
                    assert(rest.contains(l)) by {
                        assert(rest[k] == l);
                    }
                    if !have.contains(l) {
                        let i = choose|i: int| 0 <= i < init.len() && (#[trigger] init[i]).layer
                            == l;
                        assert(more[i].layer == l);
                    }
                } else {
                    assert(more[more.len() - 1].layer == l);
                }
            }
            if have.contains(l) || exists|i: int|
                0 <= i < more.len() && (#[trigger] more[i]).layer == l {
                if l != more.last().layer {
                    if !have.contains(l) {
                        let i = choose|i: int| 0 <= i < more.len() && (#[trigger] more[i]).layer
                            == l;
                        assert(init[i].layer == l);
                    }
                    assert(rest.contains(l));
                    let k = choose|k: int| 0 <= k < rest.len() && rest[k] == l;
                    assert(all[k] == l);
                } else if !rest.contains(l) {
                    assert(all[rest.len() as int] == l);
                }
            }
        }
        if have.no_duplicates() && !rest.contains(more.last().layer) {
            assert forall|i: int, j: int|
                0 <= i < all.len() && 0 <= j < all.len() && i != j implies all[i] != all[j] by {
                if i < rest.len() && j < rest.len() {
                } else if i < rest.len() {
                    assert(rest.contains(rest[i]));
                } else if j < rest.len() {
                    assert(rest.contains(rest[j]));
                }
            }
        }
    }
}

/// The layers of some dependencies, each once.
pub proof fn lemma_layer_order(deps: Seq<(usize, u32)>)
    ensures
        layer_order(deps).no_duplicates(),
        forall|l: usize| #[trigger]
            layer_order(deps).contains(l) <==> exists|i: int|
                0 <= i < deps.len() && (#[trigger] deps[i]).0 == l,
    decreases deps.len(),
{
    if deps.len() > 0 {
        let init = deps.drop_last();
        lemma_layer_order(init);
        let rest = layer_order(init);
        let all = layer_order(deps);
        assert forall|l: usize| #[trigger] all.contains(l) <==> exists|i: int|
            0 <= i < deps.len() && (#[trigger] deps[i]).0 == l by {
            if all.contains(l) {
                let k = choose|k: int| 0 <= k < all.len() && all[k] == l;
                if k < rest.len() {
                    assert(rest[k] == l);
                    assert(rest.contains(l));
                    let i = choose|i: int| 0 <= i < init.len() && (#[trigger] init[i]).0 == l;
                    assert(deps[i].0 == l);
                } else {
                    assert(deps[deps.len() - 1].0 == l);
                }
            }
            if exists|i: int| 0 <= i < deps.len() && (#[trigger] deps[i]).0 == l {
                if l != deps.last().0 {
                    let i = choose|i: int| 0 <= i < deps.len() && (#[trigger] deps[i]).0 == l;
                    assert(init[i].0 == l);
                    assert(rest.contains(l));
                    let k = choose|k: int| 0 <= k < rest.len() && rest[k] == l;
                    assert(all[k] == l);
                } else if !rest.contains(l) {
                    assert(all[rest.len() as int] == l);
                }
            }
        }
        if !rest.contains(deps.last().0) {
            assert forall|i: int, j: int|
                0 <= i < all.len() && 0 <= j < all.len() && i != j implies all[i] != all[j] by {
                if i < rest.len() && j < rest.len() {
                } else if i < rest.len() {
                    assert(rest.contains(rest[i]));
                } else if j < rest.len() {
                    assert(rest.contains(rest[j]));
                }
            }
        }
    }
}

impl Stack {
    /// An error while resolving some of the answers is the error of all.
    pub proof fn lemma_resolve_fails(
        self,
        mappings: Seq<SegmentMapping>,
        k: int,
        e: PlanError,
    )
        requires
            0 <= k <= mappings.len(),
            self.resolve(mappings.take(k)) == Err::<Seq<(usize, u32)>, PlanError>(e),
        ensures
            self.resolve(mappings) == Err::<Seq<(usize, u32)>, PlanError>(e),
        decreases mappings.len(),
    {
        if k == mappings.len() {
            assert(mappings.take(k) =~= mappings);
        } else {
            assert(mappings.drop_last().take(k) =~= mappings.take(k));
            self.lemma_resolve_fails(mappings.drop_last(), k, e);
        }
    }

    /// An error in the metadata of some layers is the error of all.
    pub proof fn lemma_metadata_fails(
        self,
        order: Seq<usize>,
        objects: Seq<usize>,
        k: int,
        e: PlanError,
    )
        requires
            0 <= k <= order.len(),
            self.metadata_needs(order.take(k), objects) == Err::<Seq<Need>, PlanError>(e),
        ensures
            self.metadata_needs(order, objects) == Err::<Seq<Need>, PlanError>(e),
        decreases order.len(),
    {
        if k == order.len() {
            assert(order.take(k) =~= order);
        } else {
            assert(order.drop_last().take(k) =~= order.take(k));
            self.lemma_metadata_fails(order.drop_last(), objects, k, e);
        }
    }
}

impl Stack {
    /// The metadata that a unit needs is of its own layers.
    pub proof fn lemma_metadata_layers(self, order: Seq<usize>, objects: Seq<usize>)
        ensures
            self.metadata_needs(order, objects) matches Ok(needs) ==> forall|i: int|
                #![trigger needs[i]]
                0 <= i < needs.len() ==> needs[i].metadata && order.contains(needs[i].layer)
                    && !objects.contains(needs[i].layer),
        decreases order.len(),
    {
        if order.len() > 0 {
            self.lemma_metadata_layers(order.drop_last(), objects);
            if self.metadata_needs(order, objects) is Ok {
                let needs = self.metadata_needs(order, objects)->Ok_0;
                let rest = self.metadata_needs(order.drop_last(), objects)->Ok_0;
                assert forall|i: int| #![trigger needs[i]] 0 <= i < needs.len() implies {
                    needs[i].metadata && order.contains(needs[i].layer) && !objects.contains(
                        needs[i].layer,
                    )
                } by {
                    if i < rest.len() {
                        assert(needs[i] == rest[i]);
                        let k = choose|k: int|
                            0 <= k < order.drop_last().len() && order.drop_last()[k]
                                == rest[i].layer;
                        assert(order[k] == needs[i].layer);
                    } else {
                        assert(order[order.len() - 1] == needs[i].layer);
                    }
                }
            }
        }
    }

    /// A longer object table takes no fewer bytes.
    pub proof fn lemma_object_bytes_grow(self, objects: Seq<usize>, k: int)
        requires
            0 <= k <= objects.len(),
        ensures
            0 <= self.object_bytes(objects.take(k)) <= self.object_bytes(objects),
        decreases objects.len(),
    {
        if k == objects.len() {
            assert(objects.take(k) =~= objects);
            if objects.len() > 0 {
                self.lemma_object_bytes_grow(objects.drop_last(), k - 1);
            }
        } else {
            assert(objects.drop_last().take(k) =~= objects.take(k));
            self.lemma_object_bytes_grow(objects.drop_last(), k);
        }
    }
}

/// Blocks `a..b` that are not selected, behind one that is, are one run.
pub proof fn lemma_gap(blocks: Seq<Need>, layer: usize, a: int, b: int)
    requires
        0 <= a <= b,
        a == 0 || selects(blocks, layer, a - 1),
        forall|x: int| a <= x < b ==> !#[trigger] selects(blocks, layer, x),
    ensures
        missing_blocks(blocks, layer, b) == missing_blocks(blocks, layer, a) + (b - a),
        missing_runs(blocks, layer, b) == missing_runs(blocks, layer, a) + if a < b {
            1int
        } else {
            0int
        },
    decreases b - a,
{
    if a < b {
        lemma_gap(blocks, layer, a, b - 1);
        assert(!selects(blocks, layer, b - 1));
        if a < b - 1 {
            assert(!selects(blocks, layer, b - 2));
        }
    }
}

/// No more blocks are missing than there are, and each run misses one.
pub proof fn lemma_missing_bounds(blocks: Seq<Need>, layer: usize, n: int)
    requires
        0 <= n,
    ensures
        0 <= missing_runs(blocks, layer, n) <= missing_blocks(blocks, layer, n) <= n,
    decreases n,
{
    if n > 0 {
        lemma_missing_bounds(blocks, layer, n - 1);
    }
}

impl Stack {
    /// No more blocks are missing than the layers have.
    pub proof fn lemma_gap_bounds(self, p: Progress, n: int)
        requires
            0 <= n <= self.layers.len(),
        ensures
            0 <= self.gap_runs(p, n) <= self.gap_blocks(p, n) <= total_blocks_upto(
                self.layers,
                n,
            ) <= self.total_blocks(),
        decreases self.layers.len() - n,
    {
        self.lemma_gap_sums(p, n);
        if n < self.layers.len() {
            self.lemma_gap_bounds(p, n + 1);
        }
    }

    proof fn lemma_gap_sums(self, p: Progress, n: int)
        requires
            0 <= n <= self.layers.len(),
        ensures
            0 <= self.gap_runs(p, n) <= self.gap_blocks(p, n) <= total_blocks_upto(self.layers, n),
        decreases n,
    {
        if n > 0 {
            self.lemma_gap_sums(p, n - 1);
            lemma_missing_bounds(
                p.blocks,
                (n - 1) as usize,
                object_blocks(self.layers[n - 1].size as int),
            );
        }
    }
}

impl Stack {
    /// Progress depends on the answers for the pages taken so far only.
    pub proof fn lemma_page_answers_upto(
        self,
        pages: Seq<u32>,
        mem: u64,
        a: Seq<Vec<SegmentMapping>>,
        b: Seq<Vec<SegmentMapping>>,
        budget: int,
    )
        requires
            forall|i: int| 0 <= i < pages.len() ==> a[i] == b[i],
        ensures
            self.after_pages(pages, mem, a, budget) == self.after_pages(pages, mem, b, budget),
        decreases pages.len(),
    {
        if pages.len() > 0 {
            self.lemma_page_answers_upto(pages.drop_last(), mem, a, b, budget);
            assert(a[pages.len() - 1] == b[pages.len() - 1]);
        }
    }

    pub proof fn lemma_range_answers_upto(
        self,
        ranges: Seq<(u64, u64)>,
        mem: u64,
        a: Seq<Vec<SegmentMapping>>,
        b: Seq<Vec<SegmentMapping>>,
        budget: int,
    )
        requires
            forall|i: int| 0 <= i < ranges.len() ==> a[i] == b[i],
        ensures
            self.after_ranges(ranges, mem, a, budget) == self.after_ranges(ranges, mem, b, budget),
        decreases ranges.len(),
    {
        if ranges.len() > 0 {
            self.lemma_range_answers_upto(ranges.drop_last(), mem, a, b, budget);
            assert(a[ranges.len() - 1] == b[ranges.len() - 1]);
        }
    }

    /// Once planning has failed, nothing changes any more.
    pub proof fn lemma_pages_failed(
        self,
        pages: Seq<u32>,
        mem: u64,
        answers: Seq<Vec<SegmentMapping>>,
        budget: int,
        k: int,
    )
        requires
            0 <= k <= pages.len(),
            self.after_pages(pages.take(k), mem, answers, budget).failed is Some,
        ensures
            self.after_pages(pages, mem, answers, budget) == self.after_pages(
                pages.take(k),
                mem,
                answers,
                budget,
            ),
        decreases pages.len(),
    {
        if k == pages.len() {
            assert(pages.take(k) =~= pages);
        } else {
            assert(pages.drop_last().take(k) =~= pages.take(k));
            self.lemma_pages_failed(pages.drop_last(), mem, answers, budget, k);
        }
    }

    pub proof fn lemma_ranges_failed(
        self,
        ranges: Seq<(u64, u64)>,
        mem: u64,
        answers: Seq<Vec<SegmentMapping>>,
        budget: int,
        k: int,
    )
        requires
            0 <= k <= ranges.len(),
            self.after_ranges(ranges.take(k), mem, answers, budget).failed is Some,
        ensures
            self.after_ranges(ranges, mem, answers, budget) == self.after_ranges(
                ranges.take(k),
                mem,
                answers,
                budget,
            ),
        decreases ranges.len(),
    {
        if k == ranges.len() {
            assert(ranges.take(k) =~= ranges);
        } else {
            assert(ranges.drop_last().take(k) =~= ranges.take(k));
            self.lemma_ranges_failed(ranges.drop_last(), mem, answers, budget, k);
        }
    }

    /// Taking a unit keeps what is selected in place.
    pub proof fn lemma_stage_prefix(
        self,
        p: Progress,
        deps: Seq<(usize, u32)>,
        weight: Weight,
        budget: int,
    )
        ensures
            p.objects.is_prefix_of(self.stage(p, deps, weight, budget).objects),
            p.blocks.is_prefix_of(self.stage(p, deps, weight, budget).blocks),
    {
        if self.unit_needs(p.objects, deps) is Ok {
            let needs = self.unit_needs(p.objects, deps)->Ok_0;
            lemma_extend_blocks(p.blocks, needs);
            lemma_extend_objects(p.objects, needs);
        }
    }
}

/// No more pages are backed than there are.
pub proof fn lemma_backed_pages(mappings: Seq<SegmentMapping>, first: int, n: int)
    requires
        0 <= n,
    ensures
        0 <= backed_pages(mappings, first, n) <= n,
    decreases n,
{
    if n > 0 {
        lemma_backed_pages(mappings, first, n - 1);
    }
}

/// Positions in a selection still hold in a larger one.
pub proof fn lemma_resolution_grows(
    found: Seq<(u16, u32, usize)>,
    deps: Seq<(usize, u32)>,
    objects: Seq<usize>,
    blocks: Seq<Need>,
    more_objects: Seq<usize>,
    more_blocks: Seq<Need>,
)
    requires
        resolution_of(found, deps, objects, blocks),
        objects.is_prefix_of(more_objects),
        blocks.is_prefix_of(more_blocks),
    ensures
        resolution_of(found, deps, more_objects, more_blocks),
{
}

impl Stack {
    /// Gaps depend on the selection only.
    pub proof fn lemma_gaps_of_blocks(self, p: Progress, q: Progress, n: int)
        requires
            p.objects == q.objects,
            p.blocks == q.blocks,
        ensures
            self.gap_runs(p, n) == self.gap_runs(q, n),
            self.gap_blocks(p, n) == self.gap_blocks(q, n),
        decreases n,
    {
        if n > 0 {
            self.lemma_gaps_of_blocks(p, q, n - 1);
        }
    }

    /// Taking a unit keeps what is selected in place.
    pub proof fn lemma_take_unit_prefix(
        self,
        p: Progress,
        mappings: Seq<SegmentMapping>,
        weight: Weight,
        budget: int,
    )
        ensures
            p.objects.is_prefix_of(self.take_unit(p, mappings, weight, budget).objects),
            p.blocks.is_prefix_of(self.take_unit(p, mappings, weight, budget).blocks),
    {
        if self.resolve(mappings) is Ok {
            self.lemma_stage_prefix(p, self.resolve(mappings)->Ok_0, weight, budget);
        }
    }

    /// One more answer does not change what came before it.
    pub proof fn lemma_page_answers_push<F: Fn(Segment) -> Vec<SegmentMapping>>(
        self,
        lookup: F,
        pages: Seq<u32>,
        mem: u64,
        answers: Seq<Vec<SegmentMapping>>,
        answer: Vec<SegmentMapping>,
        budget: int,
    )
        requires
            answers.len() < pages.len(),
            self.page_answers(lookup, pages, mem, answers, budget, answers.len() as int),
            call_ensures(lookup, (page_segment(pages[answers.len() as int]),), answer),
        ensures
            self.page_answers(
                lookup,
                pages,
                mem,
                answers.push(answer),
                budget,
                answers.len() as int + 1,
            ),
            self.after_pages(pages.take(answers.len() as int), mem, answers.push(answer), budget)
                == self.after_pages(pages.take(answers.len() as int), mem, answers, budget),
    {
        let more = answers.push(answer);
        assert forall|i: int|
            0 <= i < answers.len() + 1 && #[trigger] self.looks_up_page(
                pages,
                mem,
                more,
                budget,
                i,
            ) implies call_ensures(lookup, (page_segment(pages[i]),), more[i]) by {
            self.lemma_page_answers_upto(pages.take(i), mem, answers, more, budget);
            if i < answers.len() {
                assert(more[i] == answers[i]);
                assert(self.looks_up_page(pages, mem, answers, budget, i));
            }
        }
        self.lemma_page_answers_upto(
            pages.take(answers.len() as int),
            mem,
            answers,
            more,
            budget,
        );
    }

    /// Where planning fails at page `i`, the pages behind it are not looked
    /// up.
    pub proof fn lemma_pages_end<F: Fn(Segment) -> Vec<SegmentMapping>>(
        self,
        lookup: F,
        pages: Seq<u32>,
        mem: u64,
        answers: Seq<Vec<SegmentMapping>>,
        budget: int,
        i: int,
    )
        requires
            0 <= i < pages.len(),
            self.after_pages(pages.take(i + 1), mem, answers, budget).failed is Some,
            self.page_answers(lookup, pages, mem, answers, budget, i),
            self.looks_up_page(pages, mem, answers, budget, i) ==> call_ensures(
                lookup,
                (page_segment(pages[i]),),
                answers[i],
            ),
        ensures
            self.page_answers(lookup, pages, mem, answers, budget, pages.len() as int),
            self.after_pages(pages, mem, answers, budget) == self.after_pages(
                pages.take(i + 1),
                mem,
                answers,
                budget,
            ),
    {
        self.lemma_pages_failed(pages, mem, answers, budget, i + 1);
        assert forall|k: int|
            0 <= k < pages.len() && #[trigger] self.looks_up_page(
                pages,
                mem,
                answers,
                budget,
                k,
            ) implies call_ensures(lookup, (page_segment(pages[k]),), answers[k]) by {
            if k > i {
                assert(pages.take(k).take(i + 1) =~= pages.take(i + 1));
                self.lemma_pages_failed(pages.take(k), mem, answers, budget, i + 1);
            }
        }
    }

    /// One more answer does not change what came before it.
    pub proof fn lemma_range_answers_push<F: Fn(Segment) -> Vec<SegmentMapping>>(
        self,
        lookup: F,
        ranges: Seq<(u64, u64)>,
        mem: u64,
        answers: Seq<Vec<SegmentMapping>>,
        answer: Vec<SegmentMapping>,
        budget: int,
    )
        requires
            answers.len() < ranges.len(),
            self.range_answers(lookup, ranges, mem, answers, budget, answers.len() as int),
            span_answered(lookup, ranges[answers.len() as int], answer@),
        ensures
            self.range_answers(
                lookup,
                ranges,
                mem,
                answers.push(answer),
                budget,
                answers.len() as int + 1,
            ),
            self.after_ranges(ranges.take(answers.len() as int), mem, answers.push(answer), budget)
                == self.after_ranges(ranges.take(answers.len() as int), mem, answers, budget),
    {
        let more = answers.push(answer);
        assert forall|i: int|
            0 <= i < answers.len() + 1 && #[trigger] self.looks_up_range(
                ranges,
                mem,
                more,
                budget,
                i,
            ) implies span_answered(lookup, ranges[i], more[i]@) by {
            self.lemma_range_answers_upto(ranges.take(i), mem, answers, more, budget);
            if i < answers.len() {
                assert(more[i] == answers[i]);
                assert(self.looks_up_range(ranges, mem, answers, budget, i));
            }
        }
        self.lemma_range_answers_upto(
            ranges.take(answers.len() as int),
            mem,
            answers,
            more,
            budget,
        );
    }

    /// Where planning fails at span `i`, the spans behind it are not looked
    /// up.
    pub proof fn lemma_ranges_end<F: Fn(Segment) -> Vec<SegmentMapping>>(
        self,
        lookup: F,
        ranges: Seq<(u64, u64)>,
        mem: u64,
        answers: Seq<Vec<SegmentMapping>>,
        budget: int,
        i: int,
    )
        requires
            0 <= i < ranges.len(),
            self.after_ranges(ranges.take(i + 1), mem, answers, budget).failed is Some,
            self.range_answers(lookup, ranges, mem, answers, budget, i),
            self.looks_up_range(ranges, mem, answers, budget, i) ==> span_answered(
                lookup,
                ranges[i],
                answers[i]@,
            ),
        ensures
            self.range_answers(lookup, ranges, mem, answers, budget, ranges.len() as int),
            self.after_ranges(ranges, mem, answers, budget) == self.after_ranges(
                ranges.take(i + 1),
                mem,
                answers,
                budget,
            ),
    {
        self.lemma_ranges_failed(ranges, mem, answers, budget, i + 1);
        assert forall|k: int|
            0 <= k < ranges.len() && #[trigger] self.looks_up_range(
                ranges,
                mem,
                answers,
                budget,
                k,
            ) implies span_answered(lookup, ranges[k], answers[k]@) by {
            if k > i {
                assert(ranges.take(k).take(i + 1) =~= ranges.take(i + 1));
                self.lemma_ranges_failed(ranges.take(k), mem, answers, budget, i + 1);
            }
        }
    }
}

/// The first spans have no more pages than all.
pub proof fn lemma_total_pages(ranges: Seq<(u64, u64)>, k: int)
    requires
        0 <= k <= ranges.len(),
    ensures
        0 <= total_pages(ranges.take(k)) <= total_pages(ranges),
    decreases ranges.len(),
{
    if k == ranges.len() {
        assert(ranges.take(k) =~= ranges);
        if ranges.len() > 0 {
            lemma_total_pages(ranges.drop_last(), k - 1);
        }
    } else {
        assert(ranges.drop_last().take(k) =~= ranges.take(k));
        lemma_total_pages(ranges.drop_last(), k);
    }
}

/// The layers of the first dependencies come first.
pub proof fn lemma_layer_order_prefix(deps: Seq<(usize, u32)>, k: int)
    requires
        0 <= k <= deps.len(),
    ensures
        layer_order(deps.take(k)).is_prefix_of(layer_order(deps)),
    decreases deps.len(),
{
    if k == deps.len() {
        assert(deps.take(k) =~= deps);
    } else {
        assert(deps.drop_last().take(k) =~= deps.take(k));
        lemma_layer_order_prefix(deps.drop_last(), k);
    }
}

} // verus!
