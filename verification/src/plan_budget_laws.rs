//! Budgets that cut nothing.
use vstd::prelude::*;
use crate::extents::OBJECT_BLOCK_BYTES;
use crate::plan_model::{
    ENTRY_BYTES, HEADER_BYTES, OBJECT_ENTRY_FIXED_BYTES, Progress, SegmentMapping, Stack, Weight,
    backed, digest_len, extend_blocks, extend_objects, frame_bytes, one_page, span_weight,
};

verus! {

impl Stack {
    /// Bytes of the object table entry of a layer.
    pub open spec fn entry_bytes(self, layer: int) -> int {
        OBJECT_ENTRY_FIXED_BYTES + digest_len(self.layers[layer].digest)
    }

    /// Bytes of the object table entries of the first `n` layers.
    pub open spec fn entry_bytes_upto(self, n: int) -> int
        decreases n,
    {
        if n <= 0 {
            0
        } else {
            self.entry_bytes_upto(n - 1) + self.entry_bytes(n - 1)
        }
    }

    /// The size of an artifact with all blocks of all layers.
    pub open spec fn ample_bytes(self) -> int {
        let n = self.total_blocks();
        HEADER_BYTES + self.entry_bytes_upto(self.layers.len() as int) + n * (OBJECT_BLOCK_BYTES
            + ENTRY_BYTES) + frame_bytes(n)
    }

    pub proof fn lemma_entry_removed(self, objects: Seq<usize>, i: int)
        requires
            0 <= i < objects.len(),
        ensures
            self.object_bytes(objects) == self.object_bytes(objects.remove(i)) + self.entry_bytes(
                objects[i] as int,
            ),
        decreases objects.len(),
    {
        let rest = objects.remove(i);
        if i == objects.len() - 1 {
            assert(rest =~= objects.drop_last());
        } else {
            let init = objects.drop_last();
            self.lemma_entry_removed(init, i);
            assert(rest.drop_last() =~= init.remove(i));
            assert(rest.last() == objects.last());
        }
    }

    /// No object table is larger than that of all layers.
    proof fn lemma_entries_bounded(self, objects: Seq<usize>, n: int)
        requires
            0 <= n <= usize::MAX,
            objects.no_duplicates(),
            forall|i: int| 0 <= i < objects.len() ==> #[trigger] objects[i] < n,
        ensures
            self.object_bytes(objects) <= self.entry_bytes_upto(n),
        decreases n,
    {
        if n == 0 {
            if objects.len() > 0 {
                assert(objects[0] < 0);
            }
        } else {
            let last = (n - 1) as usize;
            if objects.contains(last) {
                let i = choose|i: int| 0 <= i < objects.len() && objects[i] == last;
                let rest = objects.remove(i);
                assert forall|k: int| 0 <= k < rest.len() implies #[trigger] rest[k] < n - 1 by {
                    let j = if k < i {
                        k
                    } else {
                        k + 1
                    };
                    assert(rest[k] == objects[j]);
                    assert(objects[j] != objects[i]);
                }
                assert(rest.no_duplicates()) by {
                    assert forall|a: int, b: int|
                        0 <= a < rest.len() && 0 <= b < rest.len() && a != b implies rest[a]
                        != rest[b] by {
                        let x = if a < i {
                            a
                        } else {
                            a + 1
                        };
                        let y = if b < i {
                            b
                        } else {
                            b + 1
                        };
                        assert(rest[a] == objects[x] && rest[b] == objects[y]);
                    }
                }
                self.lemma_entry_removed(objects, i);
                self.lemma_entries_bounded(rest, n - 1);
            } else {
                assert forall|k: int| 0 <= k < objects.len() implies #[trigger] objects[k] < n
                    - 1 by {
                    assert(objects[k] != last);
                }
                self.lemma_entries_bounded(objects, n - 1);
            }
        }
    }

    /// No plan takes more than the ample budget.
    pub proof fn law_no_artifact_is_larger(self, p: Progress, budget: int)
        requires
            self.wf(),
            self.well_planned(p, budget),
        ensures
            self.file_bytes(p) <= self.ample_bytes(),
    {
        self.lemma_entries_bounded(p.objects, self.layers.len() as int);
        self.lemma_blocks_bounded(p.blocks);
        let entry = OBJECT_BLOCK_BYTES + ENTRY_BYTES;
        let (few, many) = (p.blocks.len() as int, self.total_blocks());
        assert(few * entry <= many * entry) by (nonlinear_arith)
            requires
                few <= many,
                0 <= entry,
        ;
    }

    /// A unit fits the ample budget.
    proof fn lemma_unit_fits(
        self,
        p: Progress,
        mappings: Seq<SegmentMapping>,
        weight: Weight,
        budget: int,
    )
        requires
            self.wf(),
            self.answer_ok(mappings),
            self.well_planned(p, budget),
            !p.truncated,
            self.ample_bytes() <= budget,
        ensures
            !self.take_unit(p, mappings, weight, budget).truncated,
    {
        if self.resolve(mappings) is Ok && backed(mappings) {
            let deps = self.resolve(mappings)->Ok_0;
            if self.unit_needs(p.objects, deps) is Ok {
                let needs = self.unit_needs(p.objects, deps)->Ok_0;
                let objects = extend_objects(p.objects, needs);
                let blocks = extend_blocks(p.blocks, needs);
                let size = self.artifact_bytes(objects, blocks.len() as int);
                let large = if size > budget {
                    size
                } else {
                    budget
                };
                self.lemma_resolved_in_objects(mappings);
                self.lemma_stage_well_planned(p, deps, weight, large);
                self.law_no_artifact_is_larger(self.stage(p, deps, weight, large), large);
            }
        }
    }

    /// A budget for all blocks of all layers cuts no page.
    pub proof fn law_ample_budget_cuts_no_page(
        self,
        pages: Seq<u32>,
        mem_virtual_size: u64,
        answers: Seq<Vec<SegmentMapping>>,
        budget: int,
    )
        requires
            self.wf(),
            self.answers_ok(answers, pages.len() as int),
            self.ample_bytes() <= budget,
        ensures
            !self.after_pages(pages, mem_virtual_size, answers, budget).truncated,
        decreases pages.len(),
    {
        if pages.len() > 0 {
            let init = pages.drop_last();
            let p = self.after_pages(init, mem_virtual_size, answers, budget);
            self.law_ample_budget_cuts_no_page(init, mem_virtual_size, answers, budget);
            self.law_page_plan(init, mem_virtual_size, answers, budget);
            assert(self.answer_ok(answers[pages.len() - 1]@));
            self.lemma_unit_fits(p, answers[pages.len() - 1]@, one_page(), budget);
        }
    }

    /// A budget for all blocks of all layers cuts no span.
    pub proof fn law_ample_budget_cuts_no_span(
        self,
        ranges: Seq<(u64, u64)>,
        mem_virtual_size: u64,
        answers: Seq<Vec<SegmentMapping>>,
        budget: int,
    )
        requires
            self.wf(),
            self.answers_ok(answers, ranges.len() as int),
            self.ample_bytes() <= budget,
        ensures
            !self.after_ranges(ranges, mem_virtual_size, answers, budget).truncated,
        decreases ranges.len(),
    {
        if ranges.len() > 0 {
            let init = ranges.drop_last();
            let answer = answers[ranges.len() - 1]@;
            let p = self.after_ranges(init, mem_virtual_size, answers, budget);
            self.law_ample_budget_cuts_no_span(init, mem_virtual_size, answers, budget);
            self.law_range_plan(init, mem_virtual_size, answers, budget);
            assert(self.answer_ok(answers[ranges.len() - 1]@));
            self.lemma_unit_fits(p, answer, span_weight(ranges.last(), answer), budget);
        }
    }
}

} // verus!
