//! Sizes and counts of plans of spans against those of plans of their pages.
use vstd::prelude::*;
use crate::plan_lemmas::distinct_blocks;
use crate::plan_model::{
    Need, PAGE_SECTORS, PLAN_PAGE_BYTES, Progress, SegmentMapping, Stack, Weight, backed,
    backed_pages, backs, extend_blocks, extend_objects, flat, layer_order, lookups, no_progress,
    one_page, page_backed, page_in_image, page_segment, range_in_image, range_pages,
    range_sectors, span_weight, total_pages,
};
use crate::plan_sector_laws::law_same_sectors_back_the_same_pages;
use crate::plan_span_laws::{
    answers_agree, lemma_agree_init, lemma_numbers_init, lemma_pages_counted,
    lemma_touched, page_numbers_fit, pages_of, pages_of_all, touches,
};
use crate::span_lookup::lemma_one_lookup;

verus! {

/// Whether all spans are runs of whole pages of a memory image.
pub open spec fn spans_in_image(ranges: Seq<(u64, u64)>, mem_virtual_size: u64) -> bool {
    forall|k: int| 0 <= k < ranges.len() ==> range_in_image(#[trigger] ranges[k], mem_virtual_size)
}

/// Whether the physical ranges of the answers are sectors of this page.
pub open spec fn in_page(mappings: Seq<SegmentMapping>, page: u32) -> bool {
    forall|i: int|
        #![trigger mappings[i]]
        0 <= i < mappings.len() && mappings[i].physical ==> {
            &&& mappings[i].length > 0
            &&& page * PAGE_SECTORS <= mappings[i].offset
            &&& mappings[i].offset + mappings[i].length <= (page + 1) * PAGE_SECTORS
        }
}

/// Whether the index answers for each page with sectors of that page.
pub open spec fn answers_in_pages(pages: Seq<u32>, answers: Seq<Vec<SegmentMapping>>) -> bool {
    forall|j: int| 0 <= j < pages.len() ==> in_page((#[trigger] answers[j])@, pages[j])
}

/// Answers with sectors of a page back that page, or none.
proof fn lemma_in_page(mappings: Seq<SegmentMapping>, page: u32, other: int)
    requires
        in_page(mappings, page),
    ensures
        page_backed(mappings, other) <==> backed(mappings) && other == page,
{
    if page_backed(mappings, other) {
        let i = choose|i: int| 0 <= i < mappings.len() && #[trigger] backs(mappings[i], other);
        assert(mappings[i].physical);
        assert(other == page) by {
            assert((page + 1) * PAGE_SECTORS == 8 * page + 8 && page * PAGE_SECTORS == 8 * page);
            assert((other + 1) * PAGE_SECTORS == 8 * other + 8);
            assert(other * PAGE_SECTORS == 8 * other);
        }
    }
    if backed(mappings) && other == page {
        let i = choose|i: int| 0 <= i < mappings.len() && (#[trigger] mappings[i]).physical;
        assert((page + 1) * PAGE_SECTORS == 8 * page + 8 && page * PAGE_SECTORS == 8 * page);
        assert(backs(mappings[i], other));
    }
}

/// A page is backed by the answers of some pages where one of them backs it.
proof fn lemma_flat_page(answers: Seq<Vec<SegmentMapping>>, page: int)
    ensures
        page_backed(flat(answers), page) <==> exists|j: int|
            0 <= j < answers.len() && #[trigger] page_backed(answers[j]@, page),
    decreases answers.len(),
{
    if answers.len() > 0 {
        let init = answers.drop_last();
        let last = answers.last()@;
        let before = flat(init);
        let all = flat(answers);
        lemma_flat_page(init, page);
        if page_backed(before, page) {
            let j = choose|j: int| 0 <= j < init.len() && #[trigger] page_backed(init[j]@, page);
            assert(page_backed(answers[j]@, page));
            let i = choose|i: int| 0 <= i < before.len() && #[trigger] backs(before[i], page);
            assert(backs(all[i], page));
        }
        if page_backed(last, page) {
            let i = choose|i: int| 0 <= i < last.len() && #[trigger] backs(last[i], page);
            assert(backs(all[before.len() + i], page));
            assert(page_backed(answers[answers.len() - 1]@, page));
        }
        if page_backed(all, page) {
            let i = choose|i: int| 0 <= i < all.len() && #[trigger] backs(all[i], page);
            if i < before.len() {
                assert(backs(before[i], page));
            } else {
                assert(backs(last[i - before.len()], page));
            }
        }
        if exists|j: int| 0 <= j < answers.len() && #[trigger] page_backed(answers[j]@, page) {
            let j = choose|j: int|
                0 <= j < answers.len() && #[trigger] page_backed(answers[j]@, page);
            if j < init.len() {
                assert(page_backed(init[j]@, page));
            }
        }
    }
}

/// The answers of some pages have a physical range where one of them has.
proof fn lemma_flat_backed(answers: Seq<Vec<SegmentMapping>>)
    ensures
        backed(flat(answers)) <==> exists|j: int|
            0 <= j < answers.len() && backed((#[trigger] answers[j])@),
    decreases answers.len(),
{
    if answers.len() > 0 {
        let init = answers.drop_last();
        let last = answers.last()@;
        let before = flat(init);
        let all = flat(answers);
        lemma_flat_backed(init);
        if backed(before) {
            let j = choose|j: int| 0 <= j < init.len() && backed((#[trigger] init[j])@);
            assert(backed(answers[j]@));
            let i = choose|i: int| 0 <= i < before.len() && (#[trigger] before[i]).physical;
            assert(all[i].physical);
        }
        if backed(last) {
            let i = choose|i: int| 0 <= i < last.len() && (#[trigger] last[i]).physical;
            assert(all[before.len() + i].physical);
            assert(backed(answers[answers.len() - 1]@));
        }
        if backed(all) {
            let i = choose|i: int| 0 <= i < all.len() && (#[trigger] all[i]).physical;
            if i < before.len() {
                assert(before[i].physical);
            } else {
                assert(last[i - before.len()].physical);
            }
        }
        if exists|j: int| 0 <= j < answers.len() && backed((#[trigger] answers[j])@) {
            let j = choose|j: int| 0 <= j < answers.len() && backed((#[trigger] answers[j])@);
            if j < init.len() {
                assert(backed(init[j]@));
            }
        }
    }
}

impl Stack {
    /// Taking a unit spends the size of the artifact.
    proof fn lemma_unit_spends(
        self,
        p: Progress,
        mappings: Seq<SegmentMapping>,
        weight: Weight,
        budget: int,
    )
        requires
            p.spent == self.artifact_bytes(p.objects, p.blocks.len() as int),
        ensures
            ({
                let q = self.take_unit(p, mappings, weight, budget);
                q.spent == self.artifact_bytes(q.objects, q.blocks.len() as int)
            }),
    {
    }

    /// What is spent is the size of the artifact.
    pub proof fn law_pages_spend_the_artifact(
        self,
        pages: Seq<u32>,
        mem_virtual_size: u64,
        answers: Seq<Vec<SegmentMapping>>,
        budget: int,
    )
        ensures
            ({
                let p = self.after_pages(pages, mem_virtual_size, answers, budget);
                p.spent == self.artifact_bytes(p.objects, p.blocks.len() as int)
            }),
        decreases pages.len(),
    {
        if pages.len() == 0 {
            assert(self.object_bytes(Seq::empty()) == 0);
            assert(no_progress().objects =~= Seq::empty());
        } else {
            let init = pages.drop_last();
            self.law_pages_spend_the_artifact(init, mem_virtual_size, answers, budget);
            let p = self.after_pages(init, mem_virtual_size, answers, budget);
            self.lemma_unit_spends(p, answers[pages.len() - 1]@, one_page(), budget);
        }
    }

    /// What is spent is the size of the artifact.
    pub proof fn law_ranges_spend_the_artifact(
        self,
        ranges: Seq<(u64, u64)>,
        mem_virtual_size: u64,
        answers: Seq<Vec<SegmentMapping>>,
        budget: int,
    )
        ensures
            ({
                let p = self.after_ranges(ranges, mem_virtual_size, answers, budget);
                p.spent == self.artifact_bytes(p.objects, p.blocks.len() as int)
            }),
        decreases ranges.len(),
    {
        if ranges.len() == 0 {
            assert(self.object_bytes(Seq::empty()) == 0);
            assert(no_progress().objects =~= Seq::empty());
        } else {
            let init = ranges.drop_last();
            self.law_ranges_spend_the_artifact(init, mem_virtual_size, answers, budget);
            let p = self.after_ranges(init, mem_virtual_size, answers, budget);
            let answer = answers[ranges.len() - 1]@;
            self.lemma_unit_spends(p, answer, span_weight(ranges.last(), answer), budget);
        }
    }

    /// A plan with a page that was taken stays within the budget.
    proof fn lemma_taken_within_budget(
        self,
        pages: Seq<u32>,
        mem_virtual_size: u64,
        answers: Seq<Vec<SegmentMapping>>,
        budget: int,
        j: int,
    )
        requires
            self.after_pages(pages, mem_virtual_size, answers, budget).failed is None,
            !self.after_pages(pages, mem_virtual_size, answers, budget).truncated,
            0 <= j < pages.len(),
            backed(answers[j]@),
        ensures
            self.after_pages(pages, mem_virtual_size, answers, budget).spent <= budget,
        decreases pages.len(),
    {
        let init = pages.drop_last();
        let p = self.after_pages(init, mem_virtual_size, answers, budget);
        assert(p.failed is None && !p.truncated);
        if j < init.len() {
            self.lemma_taken_within_budget(init, mem_virtual_size, answers, budget, j);
        }
    }

    /// The order of the object table does not matter to its size.
    proof fn lemma_same_objects(self, a: Seq<usize>, b: Seq<usize>)
        requires
            a.no_duplicates(),
            b.no_duplicates(),
            forall|l: usize| #[trigger] a.contains(l) <==> b.contains(l),
        ensures
            self.object_bytes(a) == self.object_bytes(b),
        decreases a.len(),
    {
        if a.len() == 0 {
            if b.len() > 0 {
                assert(b.contains(b[0]));
                assert(a.contains(b[0]));
            }
        } else {
            let last = a.last();
            let init = a.drop_last();
            assert(a[a.len() - 1] == last);
            assert(a.contains(last));
            assert(b.contains(last));
            let i = choose|i: int| 0 <= i < b.len() && b[i] == last;
            let rest = b.remove(i);
            self.lemma_entry_removed(b, i);
            assert(rest.no_duplicates()) by {
                assert forall|x: int, y: int|
                    0 <= x < rest.len() && 0 <= y < rest.len() && x != y implies rest[x]
                    != rest[y] by {
                    let (u, v) = (
                        if x < i {
                            x
                        } else {
                            x + 1
                        },
                        if y < i {
                            y
                        } else {
                            y + 1
                        },
                    );
                    assert(rest[x] == b[u] && rest[y] == b[v]);
                }
            }
            assert forall|l: usize| #[trigger] init.contains(l) <==> rest.contains(l) by {
                if init.contains(l) {
                    let k = choose|k: int| 0 <= k < init.len() && init[k] == l;
                    assert(a[k] == l && l != last);
                    assert(a.contains(l));
                    let m = choose|m: int| 0 <= m < b.len() && b[m] == l;
                    if m < i {
                        assert(rest[m] == l);
                    } else {
                        assert(rest[m - 1] == l);
                    }
                }
                if rest.contains(l) {
                    let k = choose|k: int| 0 <= k < rest.len() && rest[k] == l;
                    let m = if k < i {
                        k
                    } else {
                        k + 1
                    };
                    assert(b[m] == l && b[m] != b[i]);
                    assert(b.contains(l));
                    assert(a.contains(l));
                    let x = choose|x: int| 0 <= x < a.len() && a[x] == l;
                    assert(init[x] == l);
                }
            }
            self.lemma_same_objects(init, rest);
        }
    }

    /// Selections of the same blocks make artifacts of the same size.
    proof fn lemma_same_size(self, p: Progress, q: Progress)
        requires
            p.objects.no_duplicates(),
            q.objects.no_duplicates(),
            distinct_blocks(p.blocks),
            distinct_blocks(q.blocks),
            forall|l: usize| #[trigger] p.objects.contains(l) <==> q.objects.contains(l),
            forall|n: Need| #[trigger] p.blocks.contains(n) <==> q.blocks.contains(n),
        ensures
            p.blocks.len() == q.blocks.len(),
            self.artifact_bytes(p.objects, p.blocks.len() as int) == self.artifact_bytes(
                q.objects,
                q.blocks.len() as int,
            ),
    {
        self.lemma_same_objects(p.objects, q.objects);
        lemma_distinct_is_unique(p.blocks);
        lemma_distinct_is_unique(q.blocks);
        p.blocks.unique_seq_to_set();
        q.blocks.unique_seq_to_set();
        assert(p.blocks.to_set() =~= q.blocks.to_set());
    }
}

proof fn lemma_distinct_is_unique(blocks: Seq<Need>)
    requires
        distinct_blocks(blocks),
    ensures
        blocks.no_duplicates(),
{
    assert forall|i: int, j: int|
        0 <= i < blocks.len() && 0 <= j < blocks.len() && i != j implies blocks[i] != blocks[j] by {
        if i < j {
            assert(blocks[i].layer != blocks[j].layer || blocks[i].block != blocks[j].block);
        } else {
            assert(blocks[j].layer != blocks[i].layer || blocks[j].block != blocks[i].block);
        }
    }
}

impl Stack {
    /// What a page plan that is neither cut nor failed says of its pages.
    pub proof fn lemma_pages_taken(
        self,
        pages: Seq<u32>,
        mem_virtual_size: u64,
        answers: Seq<Vec<SegmentMapping>>,
        budget: int,
        j: int,
    )
        requires
            self.after_pages(pages, mem_virtual_size, answers, budget).failed is None,
            !self.after_pages(pages, mem_virtual_size, answers, budget).truncated,
            0 <= j < pages.len(),
        ensures
            page_in_image(pages[j], mem_virtual_size),
            self.resolve(answers[j]@) is Ok,
        decreases pages.len(),
    {
        let init = pages.drop_last();
        let p = self.after_pages(init, mem_virtual_size, answers, budget);
        assert(p.failed is None && !p.truncated);
        if j < init.len() {
            assert(init[j] == pages[j]);
            self.lemma_pages_taken(init, mem_virtual_size, answers, budget, j);
        }
    }

    /// A page plan that is neither cut nor failed was neither before.
    pub proof fn lemma_pages_fine_before(
        self,
        pages: Seq<u32>,
        mem_virtual_size: u64,
        answers: Seq<Vec<SegmentMapping>>,
        budget: int,
        k: int,
    )
        requires
            0 <= k <= pages.len(),
            self.after_pages(pages, mem_virtual_size, answers, budget).failed is None,
            !self.after_pages(pages, mem_virtual_size, answers, budget).truncated,
        ensures
            self.after_pages(pages.take(k), mem_virtual_size, answers, budget).failed is None,
            !self.after_pages(pages.take(k), mem_virtual_size, answers, budget).truncated,
    {
        self.lemma_cut_stays(pages, mem_virtual_size, answers, budget, k);
        if self.after_pages(pages.take(k), mem_virtual_size, answers, budget).failed is Some {
            self.lemma_pages_failed(pages, mem_virtual_size, answers, budget, k);
        }
    }

    proof fn lemma_resolve_both(self, a: Seq<SegmentMapping>, b: Seq<SegmentMapping>)
        requires
            self.resolve(a) is Ok,
            self.resolve(b) is Ok,
        ensures
            self.resolve(a + b) is Ok,
        decreases b.len(),
    {
        if b.len() == 0 {
            assert(a + b =~= a);
        } else {
            assert((a + b).drop_last() =~= a + b.drop_last());
            self.lemma_resolve_both(a, b.drop_last());
        }
    }

    proof fn lemma_flat_ok(self, answers: Seq<Vec<SegmentMapping>>)
        requires
            forall|j: int|
                0 <= j < answers.len() ==> self.resolve((#[trigger] answers[j])@) is Ok,
        ensures
            self.resolve(flat(answers)) is Ok,
        decreases answers.len(),
    {
        if answers.len() > 0 {
            let init = answers.drop_last();
            assert forall|j: int| 0 <= j < init.len() implies self.resolve(
                (#[trigger] init[j])@,
            ) is Ok by {
                assert(init[j] == answers[j]);
            }
            self.lemma_flat_ok(init);
            assert(self.resolve(answers[answers.len() - 1]@) is Ok);
            self.lemma_resolve_both(flat(init), answers.last()@);
        }
    }

    /// The last span can be resolved where its pages can be.
    proof fn lemma_last_span_ok(
        self,
        ranges: Seq<(u64, u64)>,
        mem_virtual_size: u64,
        span_answers: Seq<Vec<SegmentMapping>>,
        page_answers: Seq<Vec<SegmentMapping>>,
        budget: int,
    )
        requires
            ranges.len() > 0,
            answers_agree(ranges, span_answers, page_answers),
            ({
                let q = self.after_pages(
                    pages_of_all(ranges),
                    mem_virtual_size,
                    page_answers,
                    budget,
                );
                q.failed is None && !q.truncated
            }),
        ensures
            self.resolve(span_answers[ranges.len() - 1]@) is Ok,
            backed(span_answers[ranges.len() - 1]@) ==> exists|j: int|
                total_pages(ranges.drop_last()) <= j < total_pages(ranges) && backed(
                    (#[trigger] page_answers[j])@,
                ),
    {
        let pages = pages_of_all(ranges);
        let (a, b) = (total_pages(ranges.drop_last()), total_pages(ranges));
        let part = page_answers.subrange(a, b);
        lemma_agree_init(ranges, span_answers, page_answers);
        lemma_pages_counted(ranges);
        assert forall|j: int| 0 <= j < part.len() implies self.resolve(
            (#[trigger] part[j])@,
        ) is Ok by {
            assert(part[j] == page_answers[a + j]);
            self.lemma_pages_taken(pages, mem_virtual_size, page_answers, budget, a + j);
        }
        self.lemma_flat_ok(part);
        self.law_same_sectors_have_the_same_uses(span_answers[ranges.len() - 1]@, flat(part));
        lemma_flat_backed(part);
        if backed(span_answers[ranges.len() - 1]@) {
            let j = choose|j: int| 0 <= j < part.len() && backed((#[trigger] part[j])@);
            assert(backed(page_answers[a + j]@));
        }
    }

    /// Spans are planned without a cut or an error where their pages are one by
    /// one, and make an artifact of the same size, whatever their layers: where
    /// they lie in the image and the index answers for the pages what it answers
    /// for the spans.
    pub proof fn law_spans_fit_where_their_pages_fit(
        self,
        ranges: Seq<(u64, u64)>,
        mem_virtual_size: u64,
        span_answers: Seq<Vec<SegmentMapping>>,
        page_answers: Seq<Vec<SegmentMapping>>,
        budget: int,
    )
        requires
            page_numbers_fit(ranges),
            spans_in_image(ranges, mem_virtual_size),
            answers_agree(ranges, span_answers, page_answers),
            ({
                let q = self.after_pages(
                    pages_of_all(ranges),
                    mem_virtual_size,
                    page_answers,
                    budget,
                );
                q.failed is None && !q.truncated
            }),
        ensures
            ({
                let p = self.after_ranges(ranges, mem_virtual_size, span_answers, budget);
                let q = self.after_pages(
                    pages_of_all(ranges),
                    mem_virtual_size,
                    page_answers,
                    budget,
                );
                &&& p.failed is None
                &&& !p.truncated
                &&& p.spent == q.spent
            }),
        decreases ranges.len(),
    {
        let pages = pages_of_all(ranges);
        if ranges.len() > 0 {
            let init = ranges.drop_last();
            let n = ranges.len() - 1;
            let a = total_pages(init);
            let q = self.after_pages(pages, mem_virtual_size, page_answers, budget);
            lemma_agree_init(ranges, span_answers, page_answers);
            lemma_pages_counted(init);
            lemma_pages_counted(ranges);
            assert(pages.take(a) =~= pages_of_all(init));
            self.lemma_pages_fine_before(pages, mem_virtual_size, page_answers, budget, a);
            lemma_numbers_init(ranges);
            lemma_in_image_init(ranges, mem_virtual_size);
            self.law_spans_fit_where_their_pages_fit(
                init,
                mem_virtual_size,
                span_answers,
                page_answers,
                budget,
            );
            self.lemma_last_span_ok(ranges, mem_virtual_size, span_answers, page_answers, budget);
            self.lemma_last_span_fits(ranges, mem_virtual_size, span_answers, page_answers, budget);
        }
        self.law_spans_select_what_their_pages_select(
            ranges,
            mem_virtual_size,
            span_answers,
            page_answers,
            budget,
            budget,
        );
        let p = self.after_ranges(ranges, mem_virtual_size, span_answers, budget);
        let q = self.after_pages(pages, mem_virtual_size, page_answers, budget);
        self.law_ranges_select_exactly(ranges, mem_virtual_size, span_answers, budget);
        self.law_pages_select_exactly(pages, mem_virtual_size, page_answers, budget);
        self.law_ranges_spend_the_artifact(ranges, mem_virtual_size, span_answers, budget);
        self.law_pages_spend_the_artifact(pages, mem_virtual_size, page_answers, budget);
        self.lemma_same_size(p, q);
    }

    /// The last span fits where the spans before it and all pages do.
    proof fn lemma_last_span_fits(
        self,
        ranges: Seq<(u64, u64)>,
        mem_virtual_size: u64,
        span_answers: Seq<Vec<SegmentMapping>>,
        page_answers: Seq<Vec<SegmentMapping>>,
        budget: int,
    )
        requires
            ranges.len() > 0,
            page_numbers_fit(ranges),
            spans_in_image(ranges, mem_virtual_size),
            answers_agree(ranges, span_answers, page_answers),
            ({
                let q = self.after_pages(
                    pages_of_all(ranges),
                    mem_virtual_size,
                    page_answers,
                    budget,
                );
                q.failed is None && !q.truncated
            }),
            ({
                let p = self.after_ranges(
                    ranges.drop_last(),
                    mem_virtual_size,
                    span_answers,
                    budget,
                );
                p.failed is None && !p.truncated
            }),
            self.resolve(span_answers[ranges.len() - 1]@) is Ok,
            backed(span_answers[ranges.len() - 1]@) ==> exists|j: int|
                total_pages(ranges.drop_last()) <= j < total_pages(ranges) && backed(
                    (#[trigger] page_answers[j])@,
                ),
        ensures
            self.after_ranges(ranges, mem_virtual_size, span_answers, budget).failed is None,
            !self.after_ranges(ranges, mem_virtual_size, span_answers, budget).truncated,
    {
        let init = ranges.drop_last();
        let n = ranges.len() - 1;
        let pages = pages_of_all(ranges);
        let span = span_answers[n]@;
        let p = self.after_ranges(init, mem_virtual_size, span_answers, budget);
        let q = self.after_pages(pages, mem_virtual_size, page_answers, budget);
        assert(ranges[n] == ranges.last());
        assert(range_in_image(ranges.last(), mem_virtual_size));
        if backed(span) {
            let deps = self.resolve(span)->Ok_0;
            let before = self.used_upto(span_answers, n);
            let used = self.used_upto(span_answers, n + 1);
            lemma_pages_counted(ranges);
            lemma_agree_init(ranges, span_answers, page_answers);
            assert forall|k: int| 0 <= k < ranges.len() implies self.resolve(
                (#[trigger] span_answers[k])@,
            ) is Ok by {
                if k < n {
                    self.lemma_ranges_taken(init, mem_virtual_size, span_answers, budget, k);
                }
            }
            self.lemma_used_agree(ranges, span_answers, page_answers);
            self.law_pages_select_exactly(pages, mem_virtual_size, page_answers, budget);
            self.law_ranges_select_exactly(init, mem_virtual_size, span_answers, budget);
            assert(used == before.union(deps.to_set()));
            assert(self.selects_exactly(q, used));
            assert forall|l: usize| #[trigger] layer_order(deps).contains(
                l,
            ) implies self.metadata_blocks(l) is Ok by {
                lemma_touched(deps, l);
                let b = choose|b: u32| #[trigger] deps.to_set().contains((l, b));
                assert(used.contains((l, b)));
                assert(touches(used, l));
            }
            self.lemma_metadata_ok(layer_order(deps), p.objects);
            let needs = self.unit_needs(p.objects, deps)->Ok_0;
            let objects = extend_objects(p.objects, needs);
            let blocks = extend_blocks(p.blocks, needs);
            let size = self.artifact_bytes(objects, blocks.len() as int);
            let weight = span_weight(ranges.last(), span);
            let c = self.stage(p, deps, weight, size);
            self.lemma_stage_exact(p, before, deps, weight, size);
            assert(self.selects_exactly(c, used));
            assert forall|l: usize| #[trigger] c.objects.contains(l) <==> q.objects.contains(l) by {
                assert(c.objects.contains(l) <==> touches(used, l));
            }
            assert forall|b: Need| #[trigger] c.blocks.contains(b) <==> q.blocks.contains(b) by {
                assert(c.blocks.contains(b) <==> self.needs_block(used, b));
            }
            self.lemma_same_size(c, q);
            self.law_pages_spend_the_artifact(pages, mem_virtual_size, page_answers, budget);
            let j = choose|j: int|
                total_pages(init) <= j < total_pages(ranges) && backed(
                    (#[trigger] page_answers[j])@,
                );
            self.lemma_taken_within_budget(pages, mem_virtual_size, page_answers, budget, j);
        }
    }
}

proof fn lemma_in_image_init(ranges: Seq<(u64, u64)>, mem_virtual_size: u64)
    requires
        ranges.len() > 0,
        spans_in_image(ranges, mem_virtual_size),
    ensures
        spans_in_image(ranges.drop_last(), mem_virtual_size),
{
    let init = ranges.drop_last();
    assert forall|k: int| 0 <= k < init.len() implies range_in_image(
        #[trigger] init[k],
        mem_virtual_size,
    ) by {
        assert(init[k] == ranges[k]);
    }
}

/// How many of the first `n` answers have a physical range.
pub open spec fn backed_upto(answers: Seq<Vec<SegmentMapping>>, n: int) -> int
    decreases n,
{
    if n <= 0 {
        0
    } else {
        backed_upto(answers, n - 1) + if backed(answers[n - 1]@) {
            1int
        } else {
            0int
        }
    }
}

/// The backed pages of a span are those whose answers have a physical range.
proof fn lemma_backed_like_pages(
    span: Seq<SegmentMapping>,
    first: int,
    answers: Seq<Vec<SegmentMapping>>,
    a: int,
    n: int,
)
    requires
        a >= 0,
        n >= 0,
        forall|j: int|
            0 <= j < n ==> #[trigger] page_backed(span, first + j) == backed(answers[a + j]@),
    ensures
        backed_pages(span, first, n) == backed_upto(answers, a + n) - backed_upto(answers, a),
    decreases n,
{
    if n > 0 {
        lemma_backed_like_pages(span, first, answers, a, n - 1);
        assert(page_backed(span, first + (n - 1)) == backed(answers[a + (n - 1)]@));
    }
}

/// Answers without a physical range back no page.
proof fn lemma_hole_backs_nothing(mappings: Seq<SegmentMapping>, first: int, n: int)
    requires
        !backed(mappings),
    ensures
        backed_pages(mappings, first, n) == 0,
    decreases n,
{
    if n > 0 {
        lemma_hole_backs_nothing(mappings, first, n - 1);
        if page_backed(mappings, first + n - 1) {
            let i = choose|i: int|
                0 <= i < mappings.len() && #[trigger] backs(mappings[i], first + n - 1);
            assert(mappings[i].physical);
        }
    }
}

/// The pages of the last span are backed by the answers of the span where they
/// are by their own.
proof fn lemma_last_span_backed(
    ranges: Seq<(u64, u64)>,
    span_answers: Seq<Vec<SegmentMapping>>,
    page_answers: Seq<Vec<SegmentMapping>>,
    j: int,
)
    requires
        ranges.len() > 0,
        page_numbers_fit(ranges),
        ranges.last().0 % PLAN_PAGE_BYTES == 0,
        ranges.last().1 % PLAN_PAGE_BYTES == 0,
        answers_agree(ranges, span_answers, page_answers),
        answers_in_pages(pages_of_all(ranges), page_answers),
        0 <= j < range_pages(ranges.last()),
    ensures
        page_backed(
            span_answers[ranges.len() - 1]@,
            ranges.last().0 as int / PLAN_PAGE_BYTES as int + j,
        ) == backed(page_answers[total_pages(ranges.drop_last()) + j]@),
{
    let init = ranges.drop_last();
    let range = ranges.last();
    let n = ranges.len() - 1;
    let (a, b) = (total_pages(init), total_pages(ranges));
    let part = page_answers.subrange(a, b);
    let first = range.0 as int / PLAN_PAGE_BYTES as int;
    let pages = pages_of_all(ranges);
    lemma_agree_init(ranges, span_answers, page_answers);
    lemma_pages_counted(init);
    lemma_pages_counted(ranges);
    assert(ranges[n] == range);
    law_same_sectors_back_the_same_pages(span_answers[n]@, flat(part), first + j);
    lemma_flat_page(part, first + j);
    assert forall|i: int| 0 <= i < part.len() implies page_backed(
        #[trigger] part[i]@,
        first + j,
    ) == (backed(part[i]@) && i == j) by {
        assert(part[i] == page_answers[a + i]);
        assert(pages[a + i] == pages_of(range)[i]);
        assert(first + i < 0x1_0000_0000);
        assert(pages_of(range)[i] == first + i);
        lemma_in_page(part[i]@, pages[a + i], first + j);
    }
    assert(part[j] == page_answers[a + j]);
    if page_backed(flat(part), first + j) {
        let i = choose|i: int| 0 <= i < part.len() && #[trigger] page_backed(part[i]@, first + j);
        assert(i == j);
    }
    if backed(page_answers[a + j]@) {
        assert(page_backed(part[j]@, first + j));
    }
}

impl Stack {
    /// A page plan that is neither cut nor failed counts the pages whose
    /// answers have a physical range as backed, and the others as holes.
    pub proof fn law_pages_count(
        self,
        pages: Seq<u32>,
        mem_virtual_size: u64,
        answers: Seq<Vec<SegmentMapping>>,
        budget: int,
    )
        requires
            self.after_pages(pages, mem_virtual_size, answers, budget).failed is None,
            !self.after_pages(pages, mem_virtual_size, answers, budget).truncated,
        ensures
            ({
                let q = self.after_pages(pages, mem_virtual_size, answers, budget);
                &&& q.backed == backed_upto(answers, pages.len() as int)
                &&& q.holes == pages.len() - q.backed
                &&& q.cut == 0
            }),
        decreases pages.len(),
    {
        if pages.len() > 0 {
            let init = pages.drop_last();
            let p = self.after_pages(init, mem_virtual_size, answers, budget);
            assert(p.failed is None && !p.truncated);
            self.law_pages_count(init, mem_virtual_size, answers, budget);
        }
    }

    /// Spans that are planned without a cut or an error count the pages whose
    /// answers have a physical range as backed, and the others as holes, where
    /// the index answers for the pages what it answers for the spans.
    pub proof fn law_spans_count(
        self,
        ranges: Seq<(u64, u64)>,
        mem_virtual_size: u64,
        span_answers: Seq<Vec<SegmentMapping>>,
        page_answers: Seq<Vec<SegmentMapping>>,
        budget: int,
    )
        requires
            page_numbers_fit(ranges),
            answers_agree(ranges, span_answers, page_answers),
            answers_in_pages(pages_of_all(ranges), page_answers),
            self.after_ranges(ranges, mem_virtual_size, span_answers, budget).failed is None,
            !self.after_ranges(ranges, mem_virtual_size, span_answers, budget).truncated,
        ensures
            ({
                let p = self.after_ranges(ranges, mem_virtual_size, span_answers, budget);
                &&& p.backed == backed_upto(page_answers, total_pages(ranges))
                &&& p.holes == total_pages(ranges) - p.backed
                &&& p.cut == 0
            }),
        decreases ranges.len(),
    {
        if ranges.len() > 0 {
            let init = ranges.drop_last();
            let range = ranges.last();
            let n = ranges.len() - 1;
            let a = total_pages(init);
            let span = span_answers[n]@;
            let first = range.0 as int / PLAN_PAGE_BYTES as int;
            let p = self.after_ranges(init, mem_virtual_size, span_answers, budget);
            assert(p.failed is None && !p.truncated);
            lemma_agree_init(ranges, span_answers, page_answers);
            lemma_numbers_init(ranges);
            lemma_pages_counted(init);
            lemma_pages_counted(ranges);
            let pages = pages_of_all(ranges);
            let front = pages_of_all(init);
            assert forall|j: int| 0 <= j < front.len() implies in_page(
                (#[trigger] page_answers[j])@,
                front[j],
            ) by {
                assert(pages[j] == front[j]);
            }
            self.law_spans_count(init, mem_virtual_size, span_answers, page_answers, budget);
            assert forall|j: int| 0 <= j < range_pages(range) implies #[trigger] page_backed(
                span,
                first + j,
            ) == backed(page_answers[a + j]@) by {
                lemma_last_span_backed(ranges, span_answers, page_answers, j);
            }
            lemma_backed_like_pages(span, first, page_answers, a, range_pages(range));
            if !backed(span) {
                lemma_hole_backs_nothing(span, first, range_pages(range));
            }
        }
    }

    /// Spans are planned like their pages one by one, in everything that a
    /// plan says, where the budget cuts none of the pages, the spans lie in the
    /// image, the index answers for the pages what it answers for the spans,
    /// and each span brings in a new layer with its first block only.
    pub proof fn law_spans_are_planned_like_their_pages(
        self,
        ranges: Seq<(u64, u64)>,
        mem_virtual_size: u64,
        span_answers: Seq<Vec<SegmentMapping>>,
        page_answers: Seq<Vec<SegmentMapping>>,
        budget: int,
    )
        requires
            page_numbers_fit(ranges),
            spans_in_image(ranges, mem_virtual_size),
            answers_agree(ranges, span_answers, page_answers),
            answers_in_pages(pages_of_all(ranges), page_answers),
            self.layers_lead(ranges, mem_virtual_size, span_answers, budget),
            ({
                let q = self.after_pages(
                    pages_of_all(ranges),
                    mem_virtual_size,
                    page_answers,
                    budget,
                );
                q.failed is None && !q.truncated
            }),
        ensures
            self.after_ranges(ranges, mem_virtual_size, span_answers, budget) == self.after_pages(
                pages_of_all(ranges),
                mem_virtual_size,
                page_answers,
                budget,
            ),
    {
        let pages = pages_of_all(ranges);
        self.law_spans_fit_where_their_pages_fit(
            ranges,
            mem_virtual_size,
            span_answers,
            page_answers,
            budget,
        );
        self.law_spans_plan_like_their_pages(
            ranges,
            mem_virtual_size,
            span_answers,
            page_answers,
            budget,
            budget,
        );
        lemma_pages_counted(ranges);
        self.law_spans_count(ranges, mem_virtual_size, span_answers, page_answers, budget);
        self.law_pages_count(pages, mem_virtual_size, page_answers, budget);
    }

    /// A span of one page is taken like the page.
    pub proof fn lemma_one_page_taken(
        self,
        p: Progress,
        page: u32,
        mem_virtual_size: u64,
        answer: Seq<SegmentMapping>,
        budget: int,
    )
        requires
            page_in_image(page, mem_virtual_size),
            in_page(answer, page) || p.failed is Some || p.truncated,
        ensures
            self.take_range(p, one_page_span(page), mem_virtual_size, answer, budget)
                == self.take_page(p, page, mem_virtual_size, answer, budget),
    {
        lemma_one_page_span(page);
        if p.failed is None && !p.truncated {
            lemma_in_page(answer, page, page as int);
            assert(backed_pages(answer, page as int, 0) == 0);
            if !backed(answer) {
                lemma_hole_backs_nothing(answer, page as int, 1);
            }
        }
    }

    /// Spans of one page each are planned like these pages, whatever the budget
    /// and the layers, where the index answers with sectors of the page.
    pub proof fn law_one_page_spans_are_planned_like_pages(
        self,
        pages: Seq<u32>,
        mem_virtual_size: u64,
        answers: Seq<Vec<SegmentMapping>>,
        budget: int,
    )
        requires
            answers_in_pages(pages, answers),
            forall|i: int|
                0 <= i < pages.len() ==> page_in_image(#[trigger] pages[i], mem_virtual_size),
        ensures
            self.after_ranges(one_page_spans(pages), mem_virtual_size, answers, budget)
                == self.after_pages(pages, mem_virtual_size, answers, budget),
        decreases pages.len(),
    {
        let ranges = one_page_spans(pages);
        if pages.len() > 0 {
            let init = pages.drop_last();
            let page = pages.last();
            let n = pages.len() - 1;
            assert(pages[n] == page);
            assert(ranges.drop_last() =~= one_page_spans(init));
            assert forall|i: int| 0 <= i < init.len() implies page_in_image(
                #[trigger] init[i],
                mem_virtual_size,
            ) by {
                assert(init[i] == pages[i]);
            }
            assert forall|j: int| 0 <= j < init.len() implies in_page(
                (#[trigger] answers[j])@,
                init[j],
            ) by {
                assert(init[j] == pages[j]);
            }
            self.law_one_page_spans_are_planned_like_pages(init, mem_virtual_size, answers, budget);
            let p = self.after_pages(init, mem_virtual_size, answers, budget);
            assert(in_page(answers[n]@, page));
            self.lemma_one_page_taken(p, page, mem_virtual_size, answers[n]@, budget);
        }
    }
}

/// Each page as a span of its own.
pub open spec fn one_page_spans(pages: Seq<u32>) -> Seq<(u64, u64)> {
    pages.map_values(|page: u32| one_page_span(page))
}

/// A page as a span.
pub open spec fn one_page_span(page: u32) -> (u64, u64) {
    ((page * PLAN_PAGE_BYTES) as u64, PLAN_PAGE_BYTES)
}

/// A page as a span has the sectors of the page.
pub proof fn lemma_one_page_span(page: u32)
    ensures
        one_page_span(page).0 == page * PLAN_PAGE_BYTES,
        one_page_span(page).0 % PLAN_PAGE_BYTES == 0,
        one_page_span(page).0 as int / PLAN_PAGE_BYTES as int == page,
        range_pages(one_page_span(page)) == 1,
        lookups(one_page_span(page)) == seq![page_segment(page)],
        forall|mem_virtual_size: u64| #[trigger]
            range_in_image(one_page_span(page), mem_virtual_size) == page_in_image(
                page,
                mem_virtual_size,
            ),
{
    assert(page * PLAN_PAGE_BYTES == 4096 * page);
    assert((page + 1) * PLAN_PAGE_BYTES == 4096 * page + 4096);
    let range = one_page_span(page);
    assert(range_in_image(range, u64::MAX));
    assert(range_sectors(range) == 8);
    lemma_one_lookup(range, u64::MAX);
    assert(lookups(range) =~= seq![page_segment(page)]);
}

} // verus!
