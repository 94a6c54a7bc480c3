//! Physical block planner for the startup manifest prefetch: maps an ordered
//! first-touch logical page list onto aligned blocks of the final
//! (post-publish) memory layer objects.
//!
//! The planner is read-only metadata work. It is handed what is known of each
//! opened layer and a way to look sectors up in the merged index; it never
//! reads page payloads.
use vstd::prelude::*;
use crate::backed_pages::count_backed_pages;
use crate::block_planner::BlockPlanner;
pub use crate::extents::{OBJECT_BLOCK_BYTES, PlanError};
pub use crate::pack_plan::{PackPlan, PageObservation, PlanStats, PlannedBlock, PlannedObject};
use crate::pack_plan::{blocks_planned, observed, pages_planned, plan_of, ranges_planned};
use crate::plan_lemmas::{lemma_backed_pages, lemma_resolution_grows, lemma_total_pages};
pub use crate::plan_model::{
    FinalLayerSource, OpenedLayer, PLAN_PAGE_BYTES, Segment, SegmentMapping,
};
use crate::plan_model::{
    Progress, SECTOR_BYTES, Stack, Weight, layers_error, no_progress, one_page, page_in_image,
    page_segment, range_in_image, range_pages, ranges_fit, resolution_of, span_answered,
    span_weight, total_pages,
};
use crate::span_lookup::look_up_span;

verus! {

/// Where planning page by page stands before page `i`: the progress `p`, the
/// observations `log` and the answers that led there.
#[verifier::opaque]
spec fn at_page<F: Fn(Segment) -> Vec<SegmentMapping>>(
    stack: Stack,
    lookup: F,
    pages: Seq<u32>,
    mem: u64,
    budget: int,
    answers: Seq<Vec<SegmentMapping>>,
    log: Seq<PageObservation>,
    i: int,
    p: Progress,
) -> bool {
    &&& 0 <= i <= pages.len()
    &&& p == stack.after_pages(pages.take(i), mem, answers, budget)
    &&& p.failed is None
    &&& p.backed >= 0 && p.holes >= 0 && p.cut >= 0
    &&& p.backed + p.holes + p.cut == i
    &&& !p.truncated ==> p.cut == 0 && answers.len() == i
    &&& stack.page_answers(lookup, pages, mem, answers, budget, i)
    &&& observed(log, stack, pages, answers, p)
}

proof fn lemma_first_page<F: Fn(Segment) -> Vec<SegmentMapping>>(
    stack: Stack,
    lookup: F,
    pages: Seq<u32>,
    mem: u64,
    budget: int,
)
    ensures
        at_page(
            stack,
            lookup,
            pages,
            mem,
            budget,
            Seq::empty(),
            Seq::empty(),
            0,
            no_progress(),
        ),
{
    reveal(at_page);
    assert(pages.take(0) =~= Seq::empty());
}

proof fn lemma_counts<F: Fn(Segment) -> Vec<SegmentMapping>>(
    stack: Stack,
    lookup: F,
    pages: Seq<u32>,
    mem: u64,
    budget: int,
    answers: Seq<Vec<SegmentMapping>>,
    log: Seq<PageObservation>,
    i: int,
    p: Progress,
)
    requires
        at_page(stack, lookup, pages, mem, budget, answers, log, i, p),
    ensures
        p.failed is None,
        0 <= p.backed <= i,
        0 <= p.holes <= i,
        0 <= p.cut <= i,
{
    reveal(at_page);
}

/// A page behind the cut.
proof fn lemma_page_cut<F: Fn(Segment) -> Vec<SegmentMapping>>(
    stack: Stack,
    lookup: F,
    pages: Seq<u32>,
    mem: u64,
    budget: int,
    answers: Seq<Vec<SegmentMapping>>,
    log: Seq<PageObservation>,
    i: int,
    p: Progress,
)
    requires
        at_page(stack, lookup, pages, mem, budget, answers, log, i, p),
        i < pages.len(),
        p.truncated,
    ensures
        at_page(
            stack,
            lookup,
            pages,
            mem,
            budget,
            answers,
            log,
            i + 1,
            Progress { cut: p.cut + 1, ..p },
        ),
{
    reveal(at_page);
    assert(pages.take(i + 1).drop_last() =~= pages.take(i));
    assert(pages.take(i + 1).last() == pages[i]);
    assert(!stack.looks_up_page(pages, mem, answers, budget, i));
    let q = Progress { cut: p.cut + 1, ..p };
    assert(stack.after_pages(pages.take(i + 1), mem, answers, budget) == q);
    assert(stack.page_answers(lookup, pages, mem, answers, budget, i + 1));
    assert(observed(log, stack, pages, answers, q));
}

/// A page that lies outside the image ends planning.
proof fn lemma_page_out<F: Fn(Segment) -> Vec<SegmentMapping>>(
    stack: Stack,
    lookup: F,
    pages: Seq<u32>,
    mem: u64,
    budget: int,
    answers: Seq<Vec<SegmentMapping>>,
    log: Seq<PageObservation>,
    i: int,
    p: Progress,
    before: Seq<PageObservation>,
)
    requires
        at_page(stack, lookup, pages, mem, budget, answers, log, i, p),
        i < pages.len(),
        !p.truncated,
        !page_in_image(pages[i], mem),
    ensures
        pages_planned(
            Err::<PackPlan, PlanError>(PlanError::PageOutOfRange { page: pages[i] }),
            before,
            before + log,
            stack,
            lookup,
            pages,
            mem,
            answers,
            budget,
        ),
{
    reveal(at_page);
    assert(pages.take(i + 1).drop_last() =~= pages.take(i));
    assert(pages.take(i + 1).last() == pages[i]);
    assert(!stack.looks_up_page(pages, mem, answers, budget, i));
    stack.lemma_pages_end(lookup, pages, mem, answers, budget, i);
    assert((before + log).skip(before.len() as int) =~= log);
}

/// A page that is looked up.
proof fn lemma_page_answered<F: Fn(Segment) -> Vec<SegmentMapping>>(
    stack: Stack,
    lookup: F,
    pages: Seq<u32>,
    mem: u64,
    budget: int,
    answers: Seq<Vec<SegmentMapping>>,
    log: Seq<PageObservation>,
    i: int,
    p: Progress,
    answer: Vec<SegmentMapping>,
)
    requires
        at_page(stack, lookup, pages, mem, budget, answers, log, i, p),
        i < pages.len(),
        !p.truncated,
        page_in_image(pages[i], mem),
        call_ensures(lookup, (page_segment(pages[i]),), answer),
    ensures
        ({
            let q = stack.take_unit(p, answer@, one_page(), budget);
            let more = answers.push(answer);
            &&& q.failed matches Some(e) ==> forall|before: Seq<PageObservation>|
                pages_planned(
                    Err::<PackPlan, PlanError>(e),
                    before,
                    #[trigger] (before + log),
                    stack,
                    lookup,
                    pages,
                    mem,
                    more,
                    budget,
                )
            &&& q.failed is None && q.truncated ==> at_page(
                stack,
                lookup,
                pages,
                mem,
                budget,
                more,
                log,
                i + 1,
                q,
            )
            &&& q.failed is None && !q.truncated ==> forall|blocks: Vec<(u16, u32, usize)>|
                #[trigger] resolution_of(
                    blocks@,
                    stack.resolve(answer@)->Ok_0,
                    q.objects,
                    q.blocks,
                ) ==> at_page(
                    stack,
                    lookup,
                    pages,
                    mem,
                    budget,
                    more,
                    log.push(PageObservation { page: pages[i], blocks }),
                    i + 1,
                    q,
                )
        }),
{
    reveal(at_page);
    let q = stack.take_unit(p, answer@, one_page(), budget);
    let more = answers.push(answer);
    let upto = pages.take(i + 1);
    assert(upto.drop_last() =~= pages.take(i));
    assert(upto.last() == pages[i]);
    stack.lemma_page_answers_push(lookup, pages, mem, answers, answer, budget);
    assert(q == stack.after_pages(upto, mem, more, budget));
    lemma_unit_outcome(stack, p, answer@, one_page(), budget);
    if q.failed is Some {
        stack.lemma_pages_end(lookup, pages, mem, more, budget, i);
        lemma_observed_push(log, stack, pages, answers, answer, p, q);
        assert forall|before: Seq<PageObservation>|
            pages_planned(
                Err::<PackPlan, PlanError>(q.failed->0),
                before,
                #[trigger] (before + log),
                stack,
                lookup,
                pages,
                mem,
                more,
                budget,
            ) by {
            assert((before + log).skip(before.len() as int) =~= log);
        }
    } else if q.truncated {
        lemma_observed_push(log, stack, pages, answers, answer, p, q);
    } else {
        assert forall|blocks: Vec<(u16, u32, usize)>| #[trigger] resolution_of(
            blocks@,
            stack.resolve(answer@)->Ok_0,
            q.objects,
            q.blocks,
        ) implies at_page(
            stack,
            lookup,
            pages,
            mem,
            budget,
            more,
            log.push(PageObservation { page: pages[i], blocks }),
            i + 1,
            q,
        ) by {
            lemma_observed_more(
                log,
                stack,
                pages,
                answers,
                answer,
                p,
                q,
                PageObservation { page: pages[i], blocks },
            );
        }
    }
}

/// All pages are taken.
proof fn lemma_last_page<F: Fn(Segment) -> Vec<SegmentMapping>>(
    stack: Stack,
    lookup: F,
    pages: Seq<u32>,
    mem: u64,
    budget: int,
    answers: Seq<Vec<SegmentMapping>>,
    log: Seq<PageObservation>,
    p: Progress,
    plan: PackPlan,
    before: Seq<PageObservation>,
)
    requires
        at_page(stack, lookup, pages, mem, budget, answers, log, pages.len() as int, p),
        plan_of(plan, stack, p, pages.len() as int),
    ensures
        pages_planned(
            Ok::<PackPlan, PlanError>(plan),
            before,
            before + log,
            stack,
            lookup,
            pages,
            mem,
            answers,
            budget,
        ),
{
    reveal(at_page);
    assert(pages.take(pages.len() as int) =~= pages);
    assert((before + log).skip(before.len() as int) =~= log);
}

/// Plans page by page, and logs how each page was resolved.
fn plan<F: Fn(Segment) -> Vec<SegmentMapping>>(
    start: BlockPlanner,
    pages: &[u32],
    mem_virtual_size: u64,
    lookup: F,
    observations: &mut Vec<PageObservation>,
) -> (res: Result<PackPlan, PlanError>)
    requires
        start.wf(),
        start.emitted_ok(),
        start.progress(false) == no_progress(),
        start.pages_total() == 0,
        start.stack().lookup_ok(lookup, mem_virtual_size),
        start.stack().total_blocks() <= usize::MAX,
    ensures
        exists|answers: Seq<Vec<SegmentMapping>>| #[trigger]
            pages_planned(
                res,
                old(observations)@,
                final(observations)@,
                start.stack(),
                lookup,
                pages@,
                mem_virtual_size,
                answers,
                start.budget(),
            ),
{
    let ghost stack = start.stack();
    let ghost budget = start.budget();
    let ghost logged = observations@;
    let mut planner = start;
    planner.add_pages(pages.len());
    let mut truncated: bool = false;
    let mut i: usize = 0;
    let ghost mut answers: Seq<Vec<SegmentMapping>> = Seq::empty();
    let ghost mut log: Seq<PageObservation> = Seq::empty();
    proof {
        assert(observations@ =~= logged + log);
        lemma_first_page(stack, lookup, pages@, mem_virtual_size, budget);
    }
    while i < pages.len()
        invariant
            i <= pages@.len(),
            planner.wf(),
            !truncated ==> planner.emitted_ok(),
            planner.stack() == stack,
            planner.budget() == budget,
            stack == start.stack(),
            budget == start.budget(),
            stack.lookup_ok(lookup, mem_virtual_size),
            stack.total_blocks() <= usize::MAX,
            planner.pages_total() == pages@.len(),
            planner.progress(truncated).truncated == truncated,
            stack.in_objects(planner.progress(truncated).blocks),
            at_page(
                stack,
                lookup,
                pages@,
                mem_virtual_size,
                budget,
                answers,
                log,
                i as int,
                planner.progress(truncated),
            ),
            logged == old(observations)@,
            observations@ == logged + log,
        decreases pages@.len() - i,
    {
        let page: u32 = pages[i];
        let ghost p = planner.progress(truncated);
        proof {
            lemma_counts(
                stack,
                lookup,
                pages@,
                mem_virtual_size,
                budget,
                answers,
                log,
                i as int,
                p,
            );
        }
        if truncated {
            planner.skip_pages(1);
            proof {
                lemma_page_cut(
                    stack,
                    lookup,
                    pages@,
                    mem_virtual_size,
                    budget,
                    answers,
                    log,
                    i as int,
                    p,
                );
            }
            i = i + 1;
            continue;
        }
        let voffset: u64 = page as u64 * PLAN_PAGE_BYTES;
        if voffset + PLAN_PAGE_BYTES > mem_virtual_size {
            proof {
                lemma_page_out(
                    stack,
                    lookup,
                    pages@,
                    mem_virtual_size,
                    budget,
                    answers,
                    log,
                    i as int,
                    p,
                    logged,
                );
            }
            return Err(PlanError::PageOutOfRange { page });
        }
        let segment: Segment = Segment { offset: voffset / SECTOR_BYTES, length: 8 };
        assert(segment == page_segment(page));
        assert(call_requires(lookup, (segment,)));
        let mappings: Vec<SegmentMapping> = lookup(segment);
        proof {
            lemma_page_answered(
                stack,
                lookup,
                pages@,
                mem_virtual_size,
                budget,
                answers,
                log,
                i as int,
                p,
                mappings,
            );
            answers = answers.push(mappings);
        }
        match planner.take_span(&mappings, 1, 1) {
            Err(e) => {
                assert(observations@ == logged + log);
                return Err(e);
            },
            Ok(None) => {
                truncated = true;
            },
            Ok(Some(blocks)) => {
                let observation: PageObservation = PageObservation { page, blocks };
                observations.push(observation);
                proof {
                    log = log.push(observation);
                    assert(observations@ =~= logged + log);
                }
            },
        }
        i = i + 1;
    }
    let ghost p = planner.progress(truncated);
    proof {
        planner.lemma_wf();
    }
    let plan: PackPlan = planner.finish();
    proof {
        lemma_last_page(
            stack,
            lookup,
            pages@,
            mem_virtual_size,
            budget,
            answers,
            log,
            p,
            plan,
            logged,
        );
    }
    Ok(plan)
}

/// Where planning span by span stands before span `i`.
#[verifier::opaque]
spec fn at_range<F: Fn(Segment) -> Vec<SegmentMapping>>(
    stack: Stack,
    lookup: F,
    ranges: Seq<(u64, u64)>,
    mem: u64,
    budget: int,
    answers: Seq<Vec<SegmentMapping>>,
    i: int,
    p: Progress,
) -> bool {
    &&& 0 <= i <= ranges.len()
    &&& p == stack.after_ranges(ranges.take(i), mem, answers, budget)
    &&& p.failed is None
    &&& p.backed >= 0 && p.holes >= 0 && p.cut >= 0
    &&& p.backed + p.holes + p.cut == total_pages(ranges.take(i))
    &&& !p.truncated ==> answers.len() == i
    &&& stack.range_answers(lookup, ranges, mem, answers, budget, i)
}

proof fn lemma_first_range<F: Fn(Segment) -> Vec<SegmentMapping>>(
    stack: Stack,
    lookup: F,
    ranges: Seq<(u64, u64)>,
    mem: u64,
    budget: int,
)
    ensures
        at_range(stack, lookup, ranges, mem, budget, Seq::empty(), 0, no_progress()),
{
    reveal(at_range);
    assert(ranges.take(0) =~= Seq::empty());
}

proof fn lemma_range_counts<F: Fn(Segment) -> Vec<SegmentMapping>>(
    stack: Stack,
    lookup: F,
    ranges: Seq<(u64, u64)>,
    mem: u64,
    budget: int,
    answers: Seq<Vec<SegmentMapping>>,
    i: int,
    p: Progress,
)
    requires
        at_range(stack, lookup, ranges, mem, budget, answers, i, p),
    ensures
        p.failed is None,
        0 <= p.backed <= total_pages(ranges.take(i)),
        0 <= p.holes <= total_pages(ranges.take(i)),
        0 <= p.cut <= total_pages(ranges.take(i)),
        i < ranges.len() ==> 0 <= total_pages(ranges.take(i)) && total_pages(ranges.take(i + 1))
            == total_pages(ranges.take(i)) + range_pages(ranges[i]) && total_pages(
            ranges.take(i + 1),
        ) <= total_pages(ranges),
{
    reveal(at_range);
    if i < ranges.len() {
        lemma_total_pages(ranges, i + 1);
        assert(ranges.take(i + 1).drop_last() =~= ranges.take(i));
        assert(ranges.take(i + 1).last() == ranges[i]);
    }
}

/// A span behind the cut.
proof fn lemma_range_cut<F: Fn(Segment) -> Vec<SegmentMapping>>(
    stack: Stack,
    lookup: F,
    ranges: Seq<(u64, u64)>,
    mem: u64,
    budget: int,
    answers: Seq<Vec<SegmentMapping>>,
    i: int,
    p: Progress,
)
    requires
        at_range(stack, lookup, ranges, mem, budget, answers, i, p),
        i < ranges.len(),
        p.truncated,
        range_in_image(ranges[i], mem),
    ensures
        at_range(
            stack,
            lookup,
            ranges,
            mem,
            budget,
            answers,
            i + 1,
            Progress { cut: p.cut + range_pages(ranges[i]), ..p },
        ),
{
    reveal(at_range);
    assert(ranges.take(i + 1).drop_last() =~= ranges.take(i));
    assert(ranges.take(i + 1).last() == ranges[i]);
    assert(!stack.looks_up_range(ranges, mem, answers, budget, i));
    let q = Progress { cut: p.cut + range_pages(ranges[i]), ..p };
    assert(stack.after_ranges(ranges.take(i + 1), mem, answers, budget) == q);
    assert(stack.range_answers(lookup, ranges, mem, answers, budget, i + 1));
}

/// A span that is no run of whole pages of the image ends planning.
proof fn lemma_range_out<F: Fn(Segment) -> Vec<SegmentMapping>>(
    stack: Stack,
    lookup: F,
    ranges: Seq<(u64, u64)>,
    mem: u64,
    budget: int,
    answers: Seq<Vec<SegmentMapping>>,
    i: int,
    p: Progress,
)
    requires
        at_range(stack, lookup, ranges, mem, budget, answers, i, p),
        i < ranges.len(),
        !range_in_image(ranges[i], mem),
    ensures
        ranges_planned(
            Err::<PackPlan, PlanError>(
                PlanError::RangeOutOfRange { voffset: ranges[i].0, vlen: ranges[i].1 },
            ),
            stack,
            lookup,
            ranges,
            mem,
            answers,
            budget,
        ),
{
    reveal(at_range);
    assert(ranges.take(i + 1).drop_last() =~= ranges.take(i));
    assert(ranges.take(i + 1).last() == ranges[i]);
    assert(!stack.looks_up_range(ranges, mem, answers, budget, i));
    stack.lemma_ranges_end(lookup, ranges, mem, answers, budget, i);
}

/// A span that is looked up.
proof fn lemma_range_answered<F: Fn(Segment) -> Vec<SegmentMapping>>(
    stack: Stack,
    lookup: F,
    ranges: Seq<(u64, u64)>,
    mem: u64,
    budget: int,
    answers: Seq<Vec<SegmentMapping>>,
    i: int,
    p: Progress,
    answer: Vec<SegmentMapping>,
)
    requires
        at_range(stack, lookup, ranges, mem, budget, answers, i, p),
        i < ranges.len(),
        !p.truncated,
        range_in_image(ranges[i], mem),
        span_answered(lookup, ranges[i], answer@),
    ensures
        ({
            let weight = span_weight(ranges[i], answer@);
            let q = stack.take_unit(p, answer@, weight, budget);
            let more = answers.push(answer);
            &&& q.failed matches Some(e) ==> ranges_planned(
                Err::<PackPlan, PlanError>(e),
                stack,
                lookup,
                ranges,
                mem,
                more,
                budget,
            )
            &&& q.failed is None ==> at_range(
                stack,
                lookup,
                ranges,
                mem,
                budget,
                more,
                i + 1,
                q,
            )
        }),
{
    reveal(at_range);
    let weight = span_weight(ranges[i], answer@);
    let q = stack.take_unit(p, answer@, weight, budget);
    let more = answers.push(answer);
    let upto = ranges.take(i + 1);
    assert(upto.drop_last() =~= ranges.take(i));
    assert(upto.last() == ranges[i]);
    stack.lemma_range_answers_push(lookup, ranges, mem, answers, answer, budget);
    assert(q == stack.after_ranges(upto, mem, more, budget));
    lemma_unit_outcome(stack, p, answer@, weight, budget);
    lemma_backed_pages(
        answer@,
        ranges[i].0 as int / PLAN_PAGE_BYTES as int,
        range_pages(ranges[i]),
    );
    if q.failed is Some {
        stack.lemma_ranges_end(lookup, ranges, mem, more, budget, i);
    }
}

/// Plans span by span.
fn plan_spans<F: Fn(Segment) -> Vec<SegmentMapping>>(
    start: BlockPlanner,
    ranges: &[(u64, u64)],
    mem_virtual_size: u64,
    lookup: F,
) -> (res: Result<PackPlan, PlanError>)
    requires
        start.wf(),
        start.emitted_ok(),
        start.progress(false) == no_progress(),
        start.pages_total() == 0,
        start.stack().lookup_ok(lookup, mem_virtual_size),
        start.stack().total_blocks() <= usize::MAX,
        ranges_fit(ranges@),
        total_pages(ranges@) <= usize::MAX,
    ensures
        exists|answers: Seq<Vec<SegmentMapping>>| #[trigger]
            ranges_planned(
                res,
                start.stack(),
                lookup,
                ranges@,
                mem_virtual_size,
                answers,
                start.budget(),
            ),
{
    let ghost stack = start.stack();
    let ghost budget = start.budget();
    let mut planner = start;
    let mut truncated: bool = false;
    let mut i: usize = 0;
    let ghost mut answers: Seq<Vec<SegmentMapping>> = Seq::empty();
    proof {
        lemma_first_range(stack, lookup, ranges@, mem_virtual_size, budget);
        assert(ranges@.take(0) =~= Seq::empty());
    }
    while i < ranges.len()
        invariant
            i <= ranges@.len(),
            planner.wf(),
            !truncated ==> planner.emitted_ok(),
            planner.stack() == stack,
            planner.budget() == budget,
            stack == start.stack(),
            budget == start.budget(),
            stack.lookup_ok(lookup, mem_virtual_size),
            stack.total_blocks() <= usize::MAX,
            ranges_fit(ranges@),
            total_pages(ranges@) <= usize::MAX,
            planner.pages_total() == total_pages(ranges@.take(i as int)),
            planner.progress(truncated).truncated == truncated,
            stack.in_objects(planner.progress(truncated).blocks),
            at_range(
                stack,
                lookup,
                ranges@,
                mem_virtual_size,
                budget,
                answers,
                i as int,
                planner.progress(truncated),
            ),
        decreases ranges@.len() - i,
    {
        let (voffset, vlen): (u64, u64) = ranges[i];
        let ghost p = planner.progress(truncated);
        proof {
            lemma_range_counts(
                stack,
                lookup,
                ranges@,
                mem_virtual_size,
                budget,
                answers,
                i as int,
                p,
            );
        }
        if !(vlen > 0 && voffset % PLAN_PAGE_BYTES == 0 && vlen % PLAN_PAGE_BYTES == 0 && voffset
            + vlen <= mem_virtual_size) {
            proof {
                lemma_range_out(
                    stack,
                    lookup,
                    ranges@,
                    mem_virtual_size,
                    budget,
                    answers,
                    i as int,
                    p,
                );
            }
            return Err(PlanError::RangeOutOfRange { voffset, vlen });
        }
        let span_pages: usize = (vlen / PLAN_PAGE_BYTES) as usize;
        assert(span_pages == range_pages(ranges@[i as int]));
        planner.add_pages(span_pages);
        if truncated {
            planner.skip_pages(span_pages);
            proof {
                lemma_range_cut(
                    stack,
                    lookup,
                    ranges@,
                    mem_virtual_size,
                    budget,
                    answers,
                    i as int,
                    p,
                );
            }
            i = i + 1;
            continue;
        }
        proof {
            stack.lemma_lookups_allowed(lookup, ranges@[i as int], mem_virtual_size);
        }
        let mappings: Vec<SegmentMapping> = look_up_span(&lookup, ranges[i]);
        proof {
            stack.lemma_span_answer_ok(lookup, ranges@[i as int], mem_virtual_size, mappings@);
            lemma_range_answered(
                stack,
                lookup,
                ranges@,
                mem_virtual_size,
                budget,
                answers,
                i as int,
                p,
                mappings,
            );
            answers = answers.push(mappings);
        }
        let backed_count: usize = count_backed_pages(
            &mappings,
            voffset / PLAN_PAGE_BYTES,
            span_pages,
        );
        match planner.take_span(&mappings, span_pages, backed_count) {
            Err(e) => {
                return Err(e);
            },
            Ok(None) => {
                truncated = true;
            },
            Ok(Some(_)) => {},
        }
        i = i + 1;
    }
    let ghost p = planner.progress(truncated);
    proof {
        planner.lemma_wf();
    }
    let plan: PackPlan = planner.finish();
    proof {
        reveal(at_range);
        assert(ranges@.take(i as int) =~= ranges@);
        assert(ranges_planned(
            Ok::<PackPlan, PlanError>(plan),
            stack,
            lookup,
            ranges@,
            mem_virtual_size,
            answers,
            budget,
        ));
    }
    Ok(plan)
}

/// How the counts change with a unit.
proof fn lemma_unit_outcome(
    stack: Stack,
    p: Progress,
    mappings: Seq<SegmentMapping>,
    weight: Weight,
    budget: int,
)
    requires
        p.failed is None,
        !p.truncated,
    ensures
        ({
            let q = stack.take_unit(p, mappings, weight, budget);
            &&& p.objects.is_prefix_of(q.objects)
            &&& p.blocks.is_prefix_of(q.blocks)
            &&& q.failed is Some ==> q == Progress { failed: q.failed, ..p }
            &&& q.truncated ==> q == Progress { truncated: true, cut: p.cut + weight.pages, ..p }
            &&& q.failed is None && !q.truncated ==> q.cut == p.cut && q.backed + q.holes
                == p.backed + p.holes + weight.pages && (q.backed == p.backed || q.backed == p.backed
                + weight.backed)
        }),
{
    stack.lemma_take_unit_prefix(p, mappings, weight, budget);
}

/// One more answer does not change what was observed.
proof fn lemma_observed_push(
    log: Seq<PageObservation>,
    stack: Stack,
    pages: Seq<u32>,
    answers: Seq<Vec<SegmentMapping>>,
    answer: Vec<SegmentMapping>,
    p: Progress,
    q: Progress,
)
    requires
        observed(log, stack, pages, answers, p),
        log.len() <= answers.len(),
        p.backed + p.holes == q.backed + q.holes,
        p.objects.is_prefix_of(q.objects),
        p.blocks.is_prefix_of(q.blocks),
    ensures
        observed(log, stack, pages, answers.push(answer), q),
{
    let more = answers.push(answer);
    assert forall|k: int| #![trigger log[k]] 0 <= k < log.len() implies {
        &&& log[k].page == pages[k]
        &&& stack.resolve(more[k]@) is Ok
        &&& resolution_of(log[k].blocks@, stack.resolve(more[k]@)->Ok_0, q.objects, q.blocks)
    } by {
        assert(more[k] == answers[k]);
        lemma_resolution_grows(
            log[k].blocks@,
            stack.resolve(more[k]@)->Ok_0,
            p.objects,
            p.blocks,
            q.objects,
            q.blocks,
        );
    }
}

/// One more observation.
proof fn lemma_observed_more(
    log: Seq<PageObservation>,
    stack: Stack,
    pages: Seq<u32>,
    answers: Seq<Vec<SegmentMapping>>,
    answer: Vec<SegmentMapping>,
    p: Progress,
    q: Progress,
    observation: PageObservation,
)
    requires
        observed(log, stack, pages, answers, p),
        log.len() == answers.len(),
        answers.len() < pages.len(),
        p.backed + p.holes + 1 == q.backed + q.holes,
        p.objects.is_prefix_of(q.objects),
        p.blocks.is_prefix_of(q.blocks),
        observation.page == pages[log.len() as int],
        stack.resolve(answer@) is Ok,
        resolution_of(observation.blocks@, stack.resolve(answer@)->Ok_0, q.objects, q.blocks),
    ensures
        observed(log.push(observation), stack, pages, answers.push(answer), q),
{
    let more = answers.push(answer);
    let grown = log.push(observation);
    assert forall|k: int| #![trigger grown[k]] 0 <= k < grown.len() implies {
        &&& grown[k].page == pages[k]
        &&& stack.resolve(more[k]@) is Ok
        &&& resolution_of(grown[k].blocks@, stack.resolve(more[k]@)->Ok_0, q.objects, q.blocks)
    } by {
        if k < log.len() {
            assert(grown[k] == log[k]);
            assert(more[k] == answers[k]);
            lemma_resolution_grows(
                log[k].blocks@,
                stack.resolve(more[k]@)->Ok_0,
                p.objects,
                p.blocks,
                q.objects,
                q.blocks,
            );
        }
    }
}

/// Plans the aligned, deduplicated, first-need-ordered physical block list for
/// `pages` (logical page numbers into the memory image's virtual size) against
/// the final layer objects in `layers` (bottom-to-top order, matching the
/// memory image's lowers), which are opened as `opened`. `lookup` answers for
/// a run of sectors from the merged index.
///
/// `budget_bytes` bounds the total file size (header, object table, entry
/// table, frame checksums and slot payload). The plan stops at the first page
/// whose newly required blocks would exceed it.
pub fn plan_blocks<F: Fn(Segment) -> Vec<SegmentMapping>>(
    pages: &[u32],
    mem_virtual_size: u64,
    layers: &[FinalLayerSource],
    opened: &[OpenedLayer],
    budget_bytes: u64,
    lookup: F,
) -> (res: Result<PackPlan, PlanError>)
    requires
        opened@.len() == layers@.len(),
        (Stack { layers: layers@, opened: opened@ }).addressable(),
        (Stack { layers: layers@, opened: opened@ }).lookup_ok(lookup, mem_virtual_size),
        (Stack { layers: layers@, opened: opened@ }).total_blocks() <= usize::MAX,
    ensures
        match layers_error(layers@) {
            Some(e) => res == Err::<PackPlan, PlanError>(e),
            None => exists|answers: Seq<Vec<SegmentMapping>>| #[trigger]
                blocks_planned(
                    res,
                    (Stack { layers: layers@, opened: opened@ }),
                    lookup,
                    pages@,
                    mem_virtual_size,
                    answers,
                    budget_bytes as int,
                ),
        },
{
    let mut observations: Vec<PageObservation> = Vec::new();
    plan_blocks_with_observer(
        pages,
        mem_virtual_size,
        layers,
        opened,
        budget_bytes,
        lookup,
        &mut observations,
    )
}

/// Like [`plan_blocks`], additionally appending to `observations` how every
/// processed page was resolved.
pub fn plan_blocks_with_observer<F: Fn(Segment) -> Vec<SegmentMapping>>(
    pages: &[u32],
    mem_virtual_size: u64,
    layers: &[FinalLayerSource],
    opened: &[OpenedLayer],
    budget_bytes: u64,
    lookup: F,
    observations: &mut Vec<PageObservation>,
) -> (res: Result<PackPlan, PlanError>)
    requires
        opened@.len() == layers@.len(),
        (Stack { layers: layers@, opened: opened@ }).addressable(),
        (Stack { layers: layers@, opened: opened@ }).lookup_ok(lookup, mem_virtual_size),
        (Stack { layers: layers@, opened: opened@ }).total_blocks() <= usize::MAX,
    ensures
        match layers_error(layers@) {
            Some(e) => res == Err::<PackPlan, PlanError>(e) && final(observations)@ == old(
                observations,
            )@,
            None => exists|answers: Seq<Vec<SegmentMapping>>| #[trigger]
                pages_planned(
                    res,
                    old(observations)@,
                    final(observations)@,
                    (Stack { layers: layers@, opened: opened@ }),
                    lookup,
                    pages@,
                    mem_virtual_size,
                    answers,
                    budget_bytes as int,
                ),
        },
{
    match BlockPlanner::new(layers, opened, budget_bytes) {
        Err(e) => Err(e),
        Ok(planner) => plan(planner, pages, mem_virtual_size, lookup, observations),
    }
}

/// Like [`plan_blocks`], but translates `(voffset, vlen)` spans with one
/// merged-index lookup per span instead of one lookup per page (a span whose
/// sectors 32 bits cannot count takes more). Spans must be page-aligned and in
/// memory-image bounds; blocks come out in first-need
/// order following the input span order, deduplicated and budget-checked per
/// span like the pages of the per-page path.
pub fn plan_ranges<F: Fn(Segment) -> Vec<SegmentMapping>>(
    ranges: &[(u64, u64)],
    mem_virtual_size: u64,
    layers: &[FinalLayerSource],
    opened: &[OpenedLayer],
    budget_bytes: u64,
    lookup: F,
) -> (res: Result<PackPlan, PlanError>)
    requires
        opened@.len() == layers@.len(),
        (Stack { layers: layers@, opened: opened@ }).addressable(),
        (Stack { layers: layers@, opened: opened@ }).lookup_ok(lookup, mem_virtual_size),
        (Stack { layers: layers@, opened: opened@ }).total_blocks() <= usize::MAX,
        ranges_fit(ranges@),
        total_pages(ranges@) <= usize::MAX,
    ensures
        match layers_error(layers@) {
            Some(e) => res == Err::<PackPlan, PlanError>(e),
            None => exists|answers: Seq<Vec<SegmentMapping>>| #[trigger]
                ranges_planned(
                    res,
                    (Stack { layers: layers@, opened: opened@ }),
                    lookup,
                    ranges@,
                    mem_virtual_size,
                    answers,
                    budget_bytes as int,
                ),
        },
{
    match BlockPlanner::new(layers, opened, budget_bytes) {
        Err(e) => Err(e),
        Ok(planner) => plan_spans(planner, ranges, mem_virtual_size, lookup),
    }
}

} // verus!
