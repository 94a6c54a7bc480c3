//! What the budget cuts off a plan, and what it leaves.
use vstd::prelude::*;
use crate::plan_model::{
    Progress, SegmentMapping, Stack, backed, extend_blocks, extend_objects, no_progress,
    page_in_image, total_pages,
};

verus! {

impl Stack {
    /// Whether a unit with these answers does not fit behind `p`: the artifact
    /// with the blocks that the unit needs would exceed the budget.
    pub open spec fn exceeds(
        self,
        p: Progress,
        mappings: Seq<SegmentMapping>,
        budget: int,
    ) -> bool {
        &&& backed(mappings)
        &&& self.resolve(mappings) is Ok
        &&& self.unit_needs(p.objects, self.resolve(mappings)->Ok_0) is Ok
        &&& ({
            let needs = self.unit_needs(p.objects, self.resolve(mappings)->Ok_0)->Ok_0;
            self.artifact_bytes(
                extend_objects(p.objects, needs),
                extend_blocks(p.blocks, needs).len() as int,
            ) > budget
        })
    }

    /// A page plan that is cut was cut at the first page that does not fit: the
    /// artifact with that page would exceed the budget, the plan is that of the
    /// pages before it, and it and all pages behind it are counted as cut.
    pub proof fn law_first_cut_page_exceeds_budget(
        self,
        pages: Seq<u32>,
        mem_virtual_size: u64,
        answers: Seq<Vec<SegmentMapping>>,
        budget: int,
    )
        requires
            self.after_pages(pages, mem_virtual_size, answers, budget).failed is None,
            self.after_pages(pages, mem_virtual_size, answers, budget).truncated,
        ensures
            ({
                let q = self.after_pages(pages, mem_virtual_size, answers, budget);
                let k = pages.len() - q.cut;
                let p = self.after_pages(pages.take(k), mem_virtual_size, answers, budget);
                &&& 0 <= k < pages.len()
                &&& p.failed is None
                &&& !p.truncated
                &&& p.cut == 0
                &&& page_in_image(pages[k], mem_virtual_size)
                &&& self.exceeds(p, answers[k]@, budget)
                &&& q == Progress { truncated: true, cut: q.cut, ..p }
            }),
        decreases pages.len(),
    {
        let init = pages.drop_last();
        let n = pages.len() - 1;
        let p = self.after_pages(init, mem_virtual_size, answers, budget);
        if p.truncated {
            self.law_first_cut_page_exceeds_budget(init, mem_virtual_size, answers, budget);
            let k = init.len() - p.cut;
            assert(init.take(k) =~= pages.take(k));
        } else {
            self.lemma_nothing_cut(init, mem_virtual_size, answers, budget);
            assert(pages.take(n) =~= init);
        }
    }

    /// Pages are counted as cut only where the plan is cut.
    proof fn lemma_nothing_cut(
        self,
        pages: Seq<u32>,
        mem_virtual_size: u64,
        answers: Seq<Vec<SegmentMapping>>,
        budget: int,
    )
        requires
            self.after_pages(pages, mem_virtual_size, answers, budget).failed is None,
            !self.after_pages(pages, mem_virtual_size, answers, budget).truncated,
        ensures
            self.after_pages(pages, mem_virtual_size, answers, budget).cut == 0,
        decreases pages.len(),
    {
        if pages.len() > 0 {
            let init = pages.drop_last();
            let p = self.after_pages(init, mem_virtual_size, answers, budget);
            assert(p.failed is None && !p.truncated);
            self.lemma_nothing_cut(init, mem_virtual_size, answers, budget);
        }
    }

    /// A span plan that is cut was cut at the first span that does not fit: the
    /// artifact with that span would exceed the budget, the plan is that of the
    /// spans before it, and the pages of it and of all spans behind it are
    /// counted as cut.
    pub proof fn law_first_cut_span_exceeds_budget(
        self,
        ranges: Seq<(u64, u64)>,
        mem_virtual_size: u64,
        answers: Seq<Vec<SegmentMapping>>,
        budget: int,
    ) -> (k: int)
        requires
            self.after_ranges(ranges, mem_virtual_size, answers, budget).failed is None,
            self.after_ranges(ranges, mem_virtual_size, answers, budget).truncated,
        ensures
            ({
                let q = self.after_ranges(ranges, mem_virtual_size, answers, budget);
                let p = self.after_ranges(ranges.take(k), mem_virtual_size, answers, budget);
                &&& 0 <= k < ranges.len()
                &&& p.failed is None
                &&& !p.truncated
                &&& self.exceeds(p, answers[k]@, budget)
                &&& q == Progress { truncated: true, cut: q.cut, ..p }
                &&& q.cut == total_pages(ranges) - total_pages(ranges.take(k))
            }),
        decreases ranges.len(),
    {
        let init = ranges.drop_last();
        let n = ranges.len() - 1;
        let p = self.after_ranges(init, mem_virtual_size, answers, budget);
        if p.truncated {
            let k = self.law_first_cut_span_exceeds_budget(
                init,
                mem_virtual_size,
                answers,
                budget,
            );
            assert(init.take(k) =~= ranges.take(k));
            k
        } else {
            self.lemma_no_span_cut(init, mem_virtual_size, answers, budget);
            assert(ranges.take(n) =~= init);
            n
        }
    }

    /// Pages of spans are counted as cut only where the plan is cut.
    pub proof fn lemma_no_span_cut(
        self,
        ranges: Seq<(u64, u64)>,
        mem_virtual_size: u64,
        answers: Seq<Vec<SegmentMapping>>,
        budget: int,
    )
        requires
            self.after_ranges(ranges, mem_virtual_size, answers, budget).failed is None,
            !self.after_ranges(ranges, mem_virtual_size, answers, budget).truncated,
        ensures
            self.after_ranges(ranges, mem_virtual_size, answers, budget).cut == 0,
        decreases ranges.len(),
    {
        if ranges.len() > 0 {
            let init = ranges.drop_last();
            let p = self.after_ranges(init, mem_virtual_size, answers, budget);
            assert(p.failed is None && !p.truncated);
            self.lemma_no_span_cut(init, mem_virtual_size, answers, budget);
        }
    }

    /// A plan that is not cut is the same with a larger budget.
    pub proof fn law_uncut_plan_needs_no_more(
        self,
        pages: Seq<u32>,
        mem_virtual_size: u64,
        answers: Seq<Vec<SegmentMapping>>,
        budget: int,
        larger: int,
    )
        requires
            budget <= larger,
            !self.after_pages(pages, mem_virtual_size, answers, budget).truncated,
        ensures
            self.after_pages(pages, mem_virtual_size, answers, larger) == self.after_pages(
                pages,
                mem_virtual_size,
                answers,
                budget,
            ),
        decreases pages.len(),
    {
        if pages.len() > 0 {
            let init = pages.drop_last();
            self.law_uncut_plan_needs_no_more(init, mem_virtual_size, answers, budget, larger);
        } else {
            assert(self.after_pages(pages, mem_virtual_size, answers, larger) == no_progress());
        }
    }

    /// A plan that is cut is that of the pages before the cut, which need no
    /// larger budget: it differs from it in the cut and the pages behind it
    /// only.
    pub proof fn law_cut_plan_is_that_of_the_pages_before(
        self,
        pages: Seq<u32>,
        mem_virtual_size: u64,
        answers: Seq<Vec<SegmentMapping>>,
        budget: int,
        larger: int,
    )
        requires
            budget <= larger,
            self.after_pages(pages, mem_virtual_size, answers, budget).failed is None,
        ensures
            ({
                let q = self.after_pages(pages, mem_virtual_size, answers, budget);
                let k = pages.len() - q.cut;
                let p = self.after_pages(pages.take(k), mem_virtual_size, answers, larger);
                &&& 0 <= k <= pages.len()
                &&& p.failed is None
                &&& !p.truncated
                &&& p.cut == 0
                &&& q == Progress { truncated: q.cut > 0, cut: q.cut, ..p }
            }),
    {
        let q = self.after_pages(pages, mem_virtual_size, answers, budget);
        let k = pages.len() - q.cut;
        if q.truncated {
            self.law_first_cut_page_exceeds_budget(pages, mem_virtual_size, answers, budget);
        } else {
            self.lemma_nothing_cut(pages, mem_virtual_size, answers, budget);
            assert(pages.take(k) =~= pages);
        }
        self.law_uncut_plan_needs_no_more(pages.take(k), mem_virtual_size, answers, budget, larger);
    }
}

} // verus!
