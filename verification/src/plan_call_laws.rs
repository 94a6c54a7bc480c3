//! What two plans say of each other: of a list and its part before the cut, and
//! of spans and their pages.
use vstd::prelude::*;
use crate::extents::PlanError;
use crate::pack_plan::{PackPlan, PlanStats, blocks_planned, ranges_planned};
use crate::plan_alike_laws::{
    answers_by, lemma_same_selection, pages_result, ranges_result, same_objects, same_result,
};
use crate::plan_count_laws::{
    in_page, lemma_one_page_span, one_page_span, one_page_spans, spans_in_image,
};
use crate::plan_model::{
    LOOKUP_SECTORS, PAGE_SECTORS, PLAN_PAGE_BYTES, SECTOR_BYTES, Segment, SegmentMapping, Stack,
    flat, layers_error, lookups, one_page, page_in_image, page_segment, parts_answered,
    range_in_image, range_sectors, segment_in_image, span_answered, total_pages,
};
use crate::plan_sector_laws::{
    ImageMap, describes, lemma_described, lemma_described_proper, lemma_flat_described, mapped,
    proper, same_sectors, sectors, told,
};
use crate::plan_span_laws::{
    answers_agree, answers_of_span, first_layer_leads, lemma_pages_counted, page_numbers_fit,
    pages_of, pages_of_all,
};
use crate::span_lookup::lemma_lookup;

verus! {

/// A plan that the budget cuts is the plan of the pages before the cut, which
/// need no larger budget: it has the same object table, the same blocks and the
/// same counts, but for the pages behind the cut. Every page is counted as
/// backed, as a hole or as cut.
pub proof fn law_cut_plan_is_the_plan_of_its_pages<
    F: Fn(Segment) -> Vec<SegmentMapping>,
    G: Fn(Segment) -> Vec<SegmentMapping>,
>(
    stack: Stack,
    f: F,
    g: G,
    index: spec_fn(Segment) -> Seq<SegmentMapping>,
    pages: Seq<u32>,
    mem_virtual_size: u64,
    budget: int,
    larger: int,
    a: Result<PackPlan, PlanError>,
    b: Result<PackPlan, PlanError>,
)
    requires
        stack.plannable(f, mem_virtual_size),
        answers_by(f, index),
        answers_by(g, index),
        budget <= larger,
        pages_result(a, stack, f, pages, mem_virtual_size, budget),
        a is Ok,
        pages_result(
            b,
            stack,
            g,
            pages.take(pages.len() - a->Ok_0.stats.pages_truncated_by_budget),
            mem_virtual_size,
            larger,
        ),
    ensures
        b is Ok,
        same_objects(a->Ok_0.objects@, b->Ok_0.objects@),
        a->Ok_0.blocks@ == b->Ok_0.blocks@,
        b->Ok_0.stats == (PlanStats {
            pages_total: (a->Ok_0.stats.pages_total
                - a->Ok_0.stats.pages_truncated_by_budget) as usize,
            pages_truncated_by_budget: 0,
            ..a->Ok_0.stats
        }),
        a->Ok_0.stats.pages_total == a->Ok_0.stats.pages_backed as int
            + a->Ok_0.stats.pages_zero_hole + a->Ok_0.stats.pages_truncated_by_budget,
        a->Ok_0.stats.pages_total == pages.len(),
{
    stack.lemma_layers_fine(f, mem_virtual_size);
    let x = choose|x: Seq<Vec<SegmentMapping>>| #[trigger]
        blocks_planned(a, stack, f, pages, mem_virtual_size, x, budget);
    let q = stack.after_pages(pages, mem_virtual_size, x, budget);
    let k = pages.len() - q.cut;
    let front = pages.take(k);
    assert(k == pages.len() - a->Ok_0.stats.pages_truncated_by_budget);
    stack.law_pages_all_counted(pages, mem_virtual_size, x, budget);
    stack.law_cut_plan_is_that_of_the_pages_before(pages, mem_virtual_size, x, budget, larger);
    let y = choose|y: Seq<Vec<SegmentMapping>>| #[trigger]
        blocks_planned(b, stack, g, front, mem_virtual_size, y, larger);
    stack.lemma_looked_up_before(f, pages, mem_virtual_size, x, budget, larger, k);
    stack.lemma_alike_pages(stack, f, g, index, front, mem_virtual_size, x, y, larger, k);
    assert(front.take(k) =~= front);
    let p = stack.after_pages(front, mem_virtual_size, y, larger);
    lemma_same_selection(
        a->Ok_0,
        b->Ok_0,
        stack,
        stack,
        q,
        p,
        pages.len() as int,
        front.len() as int,
    );
}

impl Stack {
    /// The pages before the cut are looked up with a larger budget where they
    /// are with the smaller one.
    proof fn lemma_looked_up_before<F: Fn(Segment) -> Vec<SegmentMapping>>(
        self,
        lookup: F,
        pages: Seq<u32>,
        mem: u64,
        answers: Seq<Vec<SegmentMapping>>,
        budget: int,
        larger: int,
        k: int,
    )
        requires
            budget <= larger,
            0 <= k <= pages.len(),
            self.page_answers(lookup, pages, mem, answers, budget, pages.len() as int),
            self.after_pages(pages, mem, answers, budget).failed is None,
            k == pages.len() - self.after_pages(pages, mem, answers, budget).cut,
        ensures
            self.page_answers(lookup, pages.take(k), mem, answers, larger, k),
    {
        let front = pages.take(k);
        let q = self.after_pages(pages, mem, answers, budget);
        if q.truncated {
            self.law_first_cut_page_exceeds_budget(pages, mem, answers, budget);
        } else {
            self.law_pages_count(pages, mem, answers, budget);
            assert(front =~= pages);
        }
        assert forall|i: int|
            0 <= i < k && #[trigger] self.looks_up_page(
                front,
                mem,
                answers,
                larger,
                i,
            ) implies call_ensures(lookup, (page_segment(front[i]),), answers[i]) by {
            assert(front.take(i) =~= pages.take(i));
            self.lemma_cut_stays(front, mem, answers, budget, i);
            self.law_uncut_plan_needs_no_more(front.take(i), mem, answers, budget, larger);
            assert(self.looks_up_page(pages, mem, answers, budget, i));
        }
    }
}

/// Whether a lookup tells where the sectors of an image lie.
pub open spec fn tells<F: Fn(Segment) -> Vec<SegmentMapping>>(
    lookup: F,
    image: ImageMap,
    mem_virtual_size: u64,
) -> bool {
    forall|segment: Segment, answer: Vec<SegmentMapping>|
        segment_in_image(segment, mem_virtual_size) && #[trigger] call_ensures(
            lookup,
            (segment,),
            answer,
        ) ==> describes(
            image,
            segment.offset as int,
            segment.offset + segment.length,
            answer@,
        )
}

/// Whether the answers tell where the sectors of a page lie.
spec fn page_told(image: ImageMap, page: u32, answer: Seq<SegmentMapping>) -> bool {
    describes(image, 8 * page as int, 8 * page as int + 8, answer)
}

/// Whether the answers have the sectors of a span that lie somewhere.
spec fn span_told(image: ImageMap, range: (u64, u64), answer: Seq<SegmentMapping>) -> bool {
    proper(answer) && sectors(answer) == mapped(
        image,
        range.0 as int / 512,
        (range.0 + range.1) as int / 512,
    )
}

proof fn lemma_page_told<F: Fn(Segment) -> Vec<SegmentMapping>>(
    lookup: F,
    image: ImageMap,
    mem_virtual_size: u64,
    page: u32,
    answer: Vec<SegmentMapping>,
)
    requires
        tells(lookup, image, mem_virtual_size),
        page_in_image(page, mem_virtual_size),
        call_ensures(lookup, (page_segment(page),), answer),
    ensures
        page_told(image, page, answer@),
        in_page(answer@, page),
{
    let segment = page_segment(page);
    assert((page + 1) * PLAN_PAGE_BYTES == 4096 * page + 4096);
    assert((segment.offset + segment.length) * SECTOR_BYTES == 512 * (8 * page + 8));
    assert(segment_in_image(segment, mem_virtual_size));
    assert((page + 1) * PAGE_SECTORS == 8 * page + 8 && page * PAGE_SECTORS == 8 * page);
}

proof fn lemma_flat_proper(answers: Seq<Vec<SegmentMapping>>)
    requires
        forall|j: int| 0 <= j < answers.len() ==> proper((#[trigger] answers[j])@),
    ensures
        proper(flat(answers)),
    decreases answers.len(),
{
    if answers.len() > 0 {
        let init = answers.drop_last();
        let last = answers.last()@;
        let all = flat(answers);
        assert forall|j: int| 0 <= j < init.len() implies proper((#[trigger] init[j])@) by {
            assert(init[j] == answers[j]);
        }
        lemma_flat_proper(init);
        assert(proper(answers[answers.len() - 1]@));
        let n = flat(init).len() as int;
        assert forall|i: int| #![trigger all[i]] 0 <= i < all.len() && all[i].physical implies {
            &&& all[i].length > 0
            &&& all[i].offset + all[i].length - 1 <= u64::MAX
            &&& all[i].moffset + all[i].length - 1 <= u64::MAX
        } by {
            if i < n {
                assert(all[i] == flat(init)[i]);
            } else {
                assert(all[i] == last[i - n]);
            }
        }
    }
}

/// What a lookup answers for a span are the sectors of the span.
proof fn lemma_span_told<F: Fn(Segment) -> Vec<SegmentMapping>>(
    lookup: F,
    image: ImageMap,
    mem_virtual_size: u64,
    range: (u64, u64),
    answer: Seq<SegmentMapping>,
)
    requires
        tells(lookup, image, mem_virtual_size),
        range_in_image(range, mem_virtual_size),
        span_answered(lookup, range, answer),
    ensures
        span_told(image, range, answer),
{
    let parts = choose|parts: Seq<Vec<SegmentMapping>>| #[trigger]
        parts_answered(lookup, range, parts) && answer == flat(parts);
    let n = parts.len() as int;
    let first = range.0 as int / 512;
    let total = range_sectors(range);
    let bounds = Seq::new(
        parts.len() + 1,
        |j: int|
            if j * LOOKUP_SECTORS < total {
                first + j * LOOKUP_SECTORS
            } else {
                first + total
            },
    );
    assert forall|j: int| 0 <= j < n implies proper((#[trigger] parts[j])@) && told(
        image,
        bounds,
        parts,
        j,
    ) by {
        lemma_lookup(range, mem_virtual_size, j);
        let segment = lookups(range)[j];
        assert(call_ensures(lookup, (segment,), parts[j]));
        assert(j * LOOKUP_SECTORS == 0xFFFF_FFF8 * j);
        assert((j + 1) * LOOKUP_SECTORS == 0xFFFF_FFF8 * j + 0xFFFF_FFF8);
        assert(bounds[j] == segment.offset);
        assert(bounds[j + 1] == segment.offset + segment.length);
        assert(segment.offset + segment.length <= u64::MAX) by {
            assert((segment.offset + segment.length) * SECTOR_BYTES == 512 * segment.offset + 512
                * segment.length);
        }
        lemma_described_proper(image, bounds[j], bounds[j + 1], parts[j]@);
    }
    assert forall|j: int| 0 <= j < n implies #[trigger] told(image, bounds, parts, j) by {
        assert(proper(parts[j]@));
    }
    lemma_flat_proper(parts);
    lemma_flat_described(image, bounds, parts);
    assert(n * LOOKUP_SECTORS == 0xFFFF_FFF8 * n);
    assert(bounds[n] == first + total);
    assert(first + total == (range.0 + range.1) as int / 512);
}

/// What lookups answer for the pages of a span are the sectors of the span.
proof fn lemma_pages_told(image: ImageMap, range: (u64, u64), answers: Seq<Vec<SegmentMapping>>)
    requires
        range.0 % PLAN_PAGE_BYTES == 0,
        range.1 % PLAN_PAGE_BYTES == 0,
        range.0 + range.1 <= 0x1_0000_0000 * PLAN_PAGE_BYTES,
        answers.len() == pages_of(range).len(),
        forall|j: int|
            #![trigger answers[j]]
            0 <= j < answers.len() ==> page_told(image, pages_of(range)[j], answers[j]@),
    ensures
        span_told(image, range, flat(answers)),
{
    let n = answers.len() as int;
    let first = range.0 as int / 512;
    let bounds = Seq::new(answers.len() + 1, |j: int| first + 8 * j);
    assert forall|j: int| 0 <= j < n implies proper((#[trigger] answers[j])@) && told(
        image,
        bounds,
        answers,
        j,
    ) by {
        let page = pages_of(range)[j];
        assert(range.0 as int / 4096 + j < 0x1_0000_0000);
        assert(page == range.0 as int / 4096 + j);
        assert(page_told(image, page, answers[j]@));
        assert(bounds[j] == 8 * page && bounds[j + 1] == 8 * page + 8);
        lemma_described_proper(image, bounds[j], bounds[j + 1], answers[j]@);
    }
    assert forall|j: int| 0 <= j < n implies #[trigger] told(image, bounds, answers, j) by {
        assert(proper(answers[j]@));
    }
    lemma_flat_proper(answers);
    lemma_flat_described(image, bounds, answers);
    assert(bounds[n] == (range.0 + range.1) as int / 512);
}

/// The pages of the first spans are the first pages.
proof fn lemma_pages_of_first(ranges: Seq<(u64, u64)>, m: int)
    requires
        0 <= m <= ranges.len(),
    ensures
        total_pages(ranges.take(m)) <= total_pages(ranges),
        pages_of_all(ranges.take(m)) == pages_of_all(ranges).take(total_pages(ranges.take(m))),
    decreases ranges.len(),
{
    lemma_pages_counted(ranges.take(m));
    lemma_pages_counted(ranges);
    if m == ranges.len() {
        assert(ranges.take(m) =~= ranges);
        assert(pages_of_all(ranges).take(total_pages(ranges)) =~= pages_of_all(ranges));
    } else {
        let init = ranges.drop_last();
        let n = total_pages(ranges.take(m));
        lemma_pages_of_first(init, m);
        lemma_pages_counted(init);
        assert(init.take(m) =~= ranges.take(m));
        assert(pages_of_all(init).take(n) =~= pages_of_all(ranges).take(n));
    }
}

/// The answers for the pages of the first spans agree with those for the
/// spans.
proof fn lemma_first_answers_agree(
    image: ImageMap,
    mem_virtual_size: u64,
    ranges: Seq<(u64, u64)>,
    span_answers: Seq<Vec<SegmentMapping>>,
    page_answers: Seq<Vec<SegmentMapping>>,
    m: int,
)
    requires
        0 <= m <= ranges.len(),
        page_numbers_fit(ranges),
        spans_in_image(ranges, mem_virtual_size),
        page_answers.len() == pages_of_all(ranges).len(),
        forall|j: int|
            #![trigger page_answers[j]]
            0 <= j < page_answers.len() ==> page_told(
                image,
                pages_of_all(ranges)[j],
                page_answers[j]@,
            ),
        forall|k: int|
            #![trigger span_answers[k]]
            0 <= k < m ==> span_told(image, ranges[k], span_answers[k]@),
    ensures
        answers_agree(ranges.take(m), span_answers, page_answers),
{
    let first = ranges.take(m);
    let pages = pages_of_all(ranges);
    lemma_pages_of_first(ranges, m);
    lemma_pages_counted(ranges);
    assert forall|k: int| 0 <= k < first.len() implies same_sectors(
        (#[trigger] span_answers[k])@,
        flat(answers_of_span(first, page_answers, k)),
    ) by {
        let part = answers_of_span(first, page_answers, k);
        let own = pages_of(ranges[k]);
        assert(first.take(k) =~= ranges.take(k));
        assert(first.take(k + 1) =~= ranges.take(k + 1));
        assert(ranges.take(k + 1).drop_last() =~= ranges.take(k));
        assert(ranges.take(k + 1).last() == ranges[k]);
        lemma_pages_of_first(ranges, k);
        lemma_pages_of_first(ranges, k + 1);
        lemma_pages_counted(ranges.take(k));
        lemma_pages_counted(ranges.take(k + 1));
        let a = total_pages(ranges.take(k));
        let upto = pages_of_all(ranges.take(k + 1));
        assert(upto =~= pages_of_all(ranges.take(k)) + own);
        assert(part.len() == own.len());
        assert forall|j: int| #![trigger part[j]] 0 <= j < part.len() implies page_told(
            image,
            own[j],
            part[j]@,
        ) by {
            assert(part[j] == page_answers[a + j]);
            assert(upto[a + j] == own[j]);
            assert(pages[a + j] == upto[a + j]);
        }
        assert(range_in_image(ranges[k], mem_virtual_size));
        lemma_pages_told(image, ranges[k], part);
        assert(span_told(image, ranges[k], span_answers[k]@));
    }
}

/// The first spans are spans of the image as well.
proof fn lemma_first_spans(ranges: Seq<(u64, u64)>, mem_virtual_size: u64, m: int)
    requires
        0 <= m <= ranges.len(),
        page_numbers_fit(ranges),
        spans_in_image(ranges, mem_virtual_size),
    ensures
        page_numbers_fit(ranges.take(m)),
        spans_in_image(ranges.take(m), mem_virtual_size),
{
    let first = ranges.take(m);
    assert forall|k: int|
        #![trigger first[k]]
        0 <= k < first.len() implies first[k].0 + first[k].1 <= 0x1_0000_0000 * PLAN_PAGE_BYTES by {
        assert(first[k] == ranges[k]);
    }
    assert forall|k: int| 0 <= k < first.len() implies range_in_image(
        #[trigger] first[k],
        mem_virtual_size,
    ) by {
        assert(first[k] == ranges[k]);
    }
}

impl Stack {
    /// The first spans fit where the budget cuts none of the pages.
    proof fn lemma_first_spans_fit(
        self,
        image: ImageMap,
        ranges: Seq<(u64, u64)>,
        mem: u64,
        span_answers: Seq<Vec<SegmentMapping>>,
        page_answers: Seq<Vec<SegmentMapping>>,
        budget: int,
        m: int,
    )
        requires
            0 <= m <= ranges.len(),
            page_numbers_fit(ranges),
            spans_in_image(ranges, mem),
            page_answers.len() == pages_of_all(ranges).len(),
            forall|j: int|
                #![trigger page_answers[j]]
                0 <= j < page_answers.len() ==> page_told(
                    image,
                    pages_of_all(ranges)[j],
                    page_answers[j]@,
                ),
            forall|k: int|
                #![trigger span_answers[k]]
                0 <= k < m ==> span_told(image, ranges[k], span_answers[k]@),
            self.after_pages(pages_of_all(ranges), mem, page_answers, budget).failed is None,
            !self.after_pages(pages_of_all(ranges), mem, page_answers, budget).truncated,
        ensures
            self.after_ranges(ranges.take(m), mem, span_answers, budget).failed is None,
            !self.after_ranges(ranges.take(m), mem, span_answers, budget).truncated,
    {
        let first = ranges.take(m);
        let pages = pages_of_all(ranges);
        lemma_first_answers_agree(image, mem, ranges, span_answers, page_answers, m);
        lemma_pages_of_first(ranges, m);
        lemma_pages_counted(ranges);
        lemma_pages_counted(first);
        self.lemma_pages_fine_before(pages, mem, page_answers, budget, total_pages(first));
        lemma_first_spans(ranges, mem, m);
        self.law_spans_fit_where_their_pages_fit(first, mem, span_answers, page_answers, budget);
    }

    /// All spans are looked up where the budget cuts none of their pages.
    proof fn lemma_all_spans_looked_up<F: Fn(Segment) -> Vec<SegmentMapping>>(
        self,
        lookup: F,
        image: ImageMap,
        ranges: Seq<(u64, u64)>,
        mem: u64,
        span_answers: Seq<Vec<SegmentMapping>>,
        page_answers: Seq<Vec<SegmentMapping>>,
        budget: int,
        m: int,
    )
        requires
            0 <= m <= ranges.len(),
            page_numbers_fit(ranges),
            spans_in_image(ranges, mem),
            tells(lookup, image, mem),
            self.range_answers(lookup, ranges, mem, span_answers, budget, ranges.len() as int),
            page_answers.len() == pages_of_all(ranges).len(),
            forall|j: int|
                #![trigger page_answers[j]]
                0 <= j < page_answers.len() ==> page_told(
                    image,
                    pages_of_all(ranges)[j],
                    page_answers[j]@,
                ),
            self.after_pages(pages_of_all(ranges), mem, page_answers, budget).failed is None,
            !self.after_pages(pages_of_all(ranges), mem, page_answers, budget).truncated,
        ensures
            forall|k: int|
                #![trigger span_answers[k]]
                0 <= k < m ==> span_told(image, ranges[k], span_answers[k]@) && span_answered(
                    lookup,
                    ranges[k],
                    span_answers[k]@,
                ),
        decreases m,
    {
        if m > 0 {
            let n = m - 1;
            self.lemma_all_spans_looked_up(
                lookup,
                image,
                ranges,
                mem,
                span_answers,
                page_answers,
                budget,
                n,
            );
            self.lemma_first_spans_fit(
                image,
                ranges,
                mem,
                span_answers,
                page_answers,
                budget,
                n,
            );
            assert(range_in_image(ranges[n], mem));
            assert(self.looks_up_range(ranges, mem, span_answers, budget, n));
            assert(span_answered(lookup, ranges[n], span_answers[n]@));
            lemma_span_told(lookup, image, mem, ranges[n], span_answers[n]@);
        }
    }

    /// What a page plan that is neither cut nor failed was answered.
    proof fn lemma_all_pages_looked_up<F: Fn(Segment) -> Vec<SegmentMapping>>(
        self,
        lookup: F,
        image: ImageMap,
        pages: Seq<u32>,
        mem: u64,
        answers: Seq<Vec<SegmentMapping>>,
        budget: int,
        j: int,
    )
        requires
            tells(lookup, image, mem),
            self.page_answers(lookup, pages, mem, answers, budget, pages.len() as int),
            self.after_pages(pages, mem, answers, budget).failed is None,
            !self.after_pages(pages, mem, answers, budget).truncated,
            0 <= j < pages.len(),
        ensures
            page_told(image, pages[j], answers[j]@),
            in_page(answers[j]@, pages[j]),
    {
        self.lemma_pages_fine_before(pages, mem, answers, budget, j);
        self.lemma_pages_taken(pages, mem, answers, budget, j);
        assert(self.looks_up_page(pages, mem, answers, budget, j));
        lemma_page_told(lookup, image, mem, pages[j], answers[j]);
    }
}

/// Spans of the image of a single layer are planned like their pages, and to
/// the same counts, where the budget cuts none of the pages. The lookups of
/// both plans tell where the sectors of the same image lie.
pub proof fn law_spans_of_one_layer_are_planned_like_pages<
    F: Fn(Segment) -> Vec<SegmentMapping>,
    G: Fn(Segment) -> Vec<SegmentMapping>,
>(
    stack: Stack,
    f: F,
    g: G,
    image: ImageMap,
    ranges: Seq<(u64, u64)>,
    mem_virtual_size: u64,
    budget: int,
    a: Result<PackPlan, PlanError>,
    b: Result<PackPlan, PlanError>,
)
    requires
        stack.layers.len() == 1,
        stack.plannable(f, mem_virtual_size),
        stack.plannable(g, mem_virtual_size),
        tells(f, image, mem_virtual_size),
        tells(g, image, mem_virtual_size),
        page_numbers_fit(ranges),
        spans_in_image(ranges, mem_virtual_size),
        pages_result(a, stack, f, pages_of_all(ranges), mem_virtual_size, budget),
        a is Ok,
        a->Ok_0.stats.pages_truncated_by_budget == 0,
        ranges_result(b, stack, g, ranges, mem_virtual_size, budget),
    ensures
        same_result(a, b),
{
    let mem = mem_virtual_size;
    let pages = pages_of_all(ranges);
    let n = pages.len() as int;
    stack.lemma_layers_fine(f, mem);
    let x = choose|x: Seq<Vec<SegmentMapping>>| #[trigger]
        blocks_planned(a, stack, f, pages, mem, x, budget);
    let y = choose|y: Seq<Vec<SegmentMapping>>| #[trigger]
        ranges_planned(b, stack, g, ranges, mem, y, budget);
    let q = stack.after_pages(pages, mem, x, budget);
    if q.truncated {
        stack.law_first_cut_page_exceeds_budget(pages, mem, x, budget);
    }
    stack.lemma_one_layer_alike(f, g, image, ranges, mem, x, y, budget);
    stack.lemma_pages_well_planned(f, pages, mem, x, budget, n);
    assert(pages.take(n) =~= pages);
    lemma_pages_counted(ranges);
    stack.lemma_same_result(stack, q, n, a, b);
}

impl Stack {
    /// Spans of a single layer bring in no layer but the first.
    proof fn lemma_one_layer_leads<G: Fn(Segment) -> Vec<SegmentMapping>>(
        self,
        lookup: G,
        ranges: Seq<(u64, u64)>,
        mem: u64,
        answers: Seq<Vec<SegmentMapping>>,
        budget: int,
    )
        requires
            self.layers.len() == 1,
            self.wf(),
            self.lookup_ok(lookup, mem),
            spans_in_image(ranges, mem),
            self.after_ranges(ranges, mem, answers, budget).failed is None,
            !self.after_ranges(ranges, mem, answers, budget).truncated,
            forall|k: int|
                #![trigger answers[k]]
                0 <= k < ranges.len() ==> span_answered(lookup, ranges[k], answers[k]@),
        ensures
            self.layers_lead(ranges, mem, answers, budget),
    {
        assert forall|k: int| 0 <= k < ranges.len() implies first_layer_leads(
            self.resolve((#[trigger] answers[k])@)->Ok_0,
            self.after_ranges(ranges.take(k), mem, answers, budget).objects,
        ) by {
            let deps = self.resolve(answers[k]@)->Ok_0;
            assert(range_in_image(ranges[k], mem));
            self.lemma_span_answer_ok(lookup, ranges[k], mem, answers[k]@);
            self.lemma_resolved_in_objects(answers[k]@);
            self.lemma_ranges_taken(ranges, mem, answers, budget, k);
            assert forall|i: int| 0 <= i < deps.len() implies (#[trigger] deps[i]).0 == 0 by {}
        }
    }

    /// Spans of a single layer lead to what their pages lead to.
    proof fn lemma_one_layer_alike<
        F: Fn(Segment) -> Vec<SegmentMapping>,
        G: Fn(Segment) -> Vec<SegmentMapping>,
    >(
        self,
        f: F,
        g: G,
        image: ImageMap,
        ranges: Seq<(u64, u64)>,
        mem: u64,
        x: Seq<Vec<SegmentMapping>>,
        y: Seq<Vec<SegmentMapping>>,
        budget: int,
    )
        requires
            self.layers.len() == 1,
            self.wf(),
            self.lookup_ok(g, mem),
            tells(f, image, mem),
            tells(g, image, mem),
            page_numbers_fit(ranges),
            spans_in_image(ranges, mem),
            self.page_answers(
                f,
                pages_of_all(ranges),
                mem,
                x,
                budget,
                pages_of_all(ranges).len() as int,
            ),
            self.range_answers(g, ranges, mem, y, budget, ranges.len() as int),
            self.after_pages(pages_of_all(ranges), mem, x, budget).failed is None,
            !self.after_pages(pages_of_all(ranges), mem, x, budget).truncated,
        ensures
            self.after_ranges(ranges, mem, y, budget) == self.after_pages(
                pages_of_all(ranges),
                mem,
                x,
                budget,
            ),
    {
        let pages = pages_of_all(ranges);
        let z = Seq::new(pages.len(), |i: int| x[i]);
        self.lemma_page_answers_upto(pages, mem, x, z, budget);
        assert forall|j: int| #![trigger z[j]] 0 <= j < z.len() implies page_told(
            image,
            pages[j],
            z[j]@,
        ) && in_page(z[j]@, pages[j]) by {
            self.lemma_all_pages_looked_up(f, image, pages, mem, x, budget, j);
        }
        let m = ranges.len() as int;
        self.lemma_all_spans_looked_up(g, image, ranges, mem, y, z, budget, m);
        self.lemma_first_spans_fit(image, ranges, mem, y, z, budget, m);
        lemma_first_answers_agree(image, mem, ranges, y, z, m);
        assert(ranges.take(m) =~= ranges);
        self.lemma_one_layer_leads(g, ranges, mem, y, budget);
        assert forall|j: int| 0 <= j < pages.len() implies in_page(
            (#[trigger] z[j])@,
            pages[j],
        ) by {}
        self.law_spans_are_planned_like_their_pages(ranges, mem, y, z, budget);
    }
}

/// Spans of one page each are planned like these pages: to the same plan, or to
/// the same error, whatever the budget and the layers, where the pages lie in
/// the image. The lookups of both plans tell where the sectors of the same image
/// lie.
pub proof fn law_spans_of_one_page_are_planned_like_pages<
    F: Fn(Segment) -> Vec<SegmentMapping>,
    G: Fn(Segment) -> Vec<SegmentMapping>,
>(
    stack: Stack,
    f: F,
    g: G,
    image: ImageMap,
    pages: Seq<u32>,
    mem_virtual_size: u64,
    budget: int,
    a: Result<PackPlan, PlanError>,
    b: Result<PackPlan, PlanError>,
)
    requires
        stack.plannable(f, mem_virtual_size),
        tells(f, image, mem_virtual_size),
        tells(g, image, mem_virtual_size),
        forall|i: int|
            0 <= i < pages.len() ==> page_in_image(#[trigger] pages[i], mem_virtual_size),
        pages_result(a, stack, f, pages, mem_virtual_size, budget),
        ranges_result(b, stack, g, one_page_spans(pages), mem_virtual_size, budget),
    ensures
        same_result(a, b),
{
    let mem = mem_virtual_size;
    let ranges = one_page_spans(pages);
    let n = pages.len() as int;
    if layers_error(stack.layers) is None {
        stack.lemma_layers_fine(f, mem);
        let x = choose|x: Seq<Vec<SegmentMapping>>| #[trigger]
            blocks_planned(a, stack, f, pages, mem, x, budget);
        let y = choose|y: Seq<Vec<SegmentMapping>>| #[trigger]
            ranges_planned(b, stack, g, ranges, mem, y, budget);
        stack.lemma_one_page_spans_alike(f, g, image, pages, mem, x, y, budget, n);
        stack.lemma_pages_well_planned(f, pages, mem, x, budget, n);
        assert(pages.take(n) =~= pages);
        assert(ranges.take(n) =~= ranges);
        lemma_one_page_total(pages);
        let q = stack.after_pages(pages, mem, x, budget);
        stack.lemma_same_result(stack, q, n, a, b);
    }
}

/// Spans of one page each have as many pages.
proof fn lemma_one_page_total(pages: Seq<u32>)
    ensures
        total_pages(one_page_spans(pages)) == pages.len(),
    decreases pages.len(),
{
    if pages.len() > 0 {
        let ranges = one_page_spans(pages);
        assert(ranges.drop_last() =~= one_page_spans(pages.drop_last()));
        lemma_one_page_total(pages.drop_last());
        lemma_one_page_span(pages.last());
    }
}

/// A lookup of a page as a span has the sectors that a lookup of the page has.
proof fn lemma_one_page_answer<G: Fn(Segment) -> Vec<SegmentMapping>>(
    lookup: G,
    image: ImageMap,
    mem: u64,
    page: u32,
    a: Seq<SegmentMapping>,
    b: Seq<SegmentMapping>,
)
    requires
        tells(lookup, image, mem),
        page_in_image(page, mem),
        page_told(image, page, a),
        span_answered(lookup, one_page_span(page), b),
    ensures
        same_sectors(b, a),
        in_page(b, page),
{
    let range = one_page_span(page);
    lemma_one_page_span(page);
    let parts = choose|parts: Seq<Vec<SegmentMapping>>| #[trigger]
        parts_answered(lookup, range, parts) && b == flat(parts);
    assert(parts.len() == 1);
    assert(flat(parts.drop_last()) =~= Seq::empty());
    assert(flat(parts) =~= parts[0]@);
    assert(call_ensures(lookup, (lookups(range)[0],), parts[0]));
    lemma_page_told(lookup, image, mem, page, parts[0]);
    let (from, to) = (8 * page as int, 8 * page as int + 8);
    lemma_described_proper(image, from, to, a);
    lemma_described_proper(image, from, to, b);
    lemma_described(image, from, to, a);
    lemma_described(image, from, to, b);
}

impl Stack {
    proof fn lemma_one_page_spans_alike<
        F: Fn(Segment) -> Vec<SegmentMapping>,
        G: Fn(Segment) -> Vec<SegmentMapping>,
    >(
        self,
        f: F,
        g: G,
        image: ImageMap,
        pages: Seq<u32>,
        mem: u64,
        x: Seq<Vec<SegmentMapping>>,
        y: Seq<Vec<SegmentMapping>>,
        budget: int,
        n: int,
    )
        requires
            tells(f, image, mem),
            tells(g, image, mem),
            forall|i: int| 0 <= i < pages.len() ==> page_in_image(#[trigger] pages[i], mem),
            0 <= n <= pages.len(),
            self.page_answers(f, pages, mem, x, budget, pages.len() as int),
            self.range_answers(g, one_page_spans(pages), mem, y, budget, pages.len() as int),
        ensures
            self.after_ranges(one_page_spans(pages).take(n), mem, y, budget) == self.after_pages(
                pages.take(n),
                mem,
                x,
                budget,
            ),
        decreases n,
    {
        if n > 0 {
            let k = n - 1;
            let ranges = one_page_spans(pages);
            let page = pages[k];
            self.lemma_one_page_spans_alike(f, g, image, pages, mem, x, y, budget, k);
            assert(ranges.take(n).drop_last() =~= ranges.take(k));
            assert(pages.take(n).drop_last() =~= pages.take(k));
            assert(page_in_image(page, mem));
            lemma_one_page_span(page);
            let p = self.after_pages(pages.take(k), mem, x, budget);
            if p.failed is None && !p.truncated {
                assert(self.looks_up_page(pages, mem, x, budget, k));
                assert(self.looks_up_range(ranges, mem, y, budget, k));
                assert(call_ensures(f, (page_segment(page),), x[k]));
                assert(span_answered(g, ranges[k], y[k]@));
                lemma_page_told(f, image, mem, page, x[k]);
                lemma_one_page_answer(g, image, mem, page, x[k]@, y[k]@);
                self.law_same_sectors_are_taken_alike(p, y[k]@, x[k]@, one_page(), budget);
            }
            self.lemma_one_page_taken(p, page, mem, y[k]@, budget);
        }
    }
}

} // verus!
