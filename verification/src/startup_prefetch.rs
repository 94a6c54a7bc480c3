//! From the bytes of a startup manifest to the runs of blocks to refill.
use vstd::prelude::*;
use crate::digest::{hex_of, hex_sha256, sha256};
use crate::extents::PlanError;
use crate::pack_plan::{PackPlan, ranges_planned};
use crate::pack_planner::plan_ranges;
use crate::page_offset::{PACK_PAGE_BYTES, is_page_of};
use crate::plan_model::{
    FinalLayerSource, OpenedLayer, PLAN_PAGE_BYTES, Segment, SegmentMapping, Stack, layers_error,
    range_pages, ranges_fit, total_pages,
};
use crate::startup_manifest::{
    MAX_PREFIX_PAGES, ManifestData, StartupManifest, decode_manifest, parse_manifest, range_valid,
    ranges_apart, ranges_valid,
};
use crate::startup_manifest_laws::law_decoded_manifest_is_valid;
use crate::startup_pack_task::{
    PrefetchError, StartupPackLayer, StartupPackTask, merge_runs_by_first_need, work_of,
};

verus! {

/// Pages as spans of one page each.
pub open spec fn page_spans(pages: Seq<u64>) -> Seq<(u64, u64)> {
    pages.map_values(|offset: u64| (offset, PACK_PAGE_BYTES))
}

/// The spans of a manifest in first-need order: prefix pages first, then the
/// ranges in the order of the table.
pub open spec fn spans_of(m: ManifestData) -> Seq<(u64, u64)> {
    page_spans(m.prefix_pages) + m.ranges
}

/// Layers by their content identity.
pub open spec fn sources_of(layers: Seq<StartupPackLayer>) -> Seq<FinalLayerSource> {
    layers.map_values(|l: StartupPackLayer| FinalLayerSource { digest: l.digest, size: l.size })
}

impl StartupPackTask {
    /// What a task makes of a manifest body whose digest is `body_sha256`: the
    /// spans to plan, or why it refuses the body.
    pub open spec fn spans_or_error(self, bytes: Seq<u8>, body_sha256: Seq<char>) -> Result<
        Seq<(u64, u64)>,
        PrefetchError,
    > {
        if self.layers@.len() == 0 {
            Err(PrefetchError::NoLayers)
        } else if body_sha256 != self.index_sha256@ {
            Err(PrefetchError::DigestMismatch)
        } else {
            match parse_manifest(bytes) {
                Err(e) => Err(PrefetchError::Manifest(e)),
                Ok(m) => if m.mem_virtual_size != self.mem_virtual_size {
                    Err(
                        PrefetchError::MemSizeMismatch {
                            descriptor: self.mem_virtual_size,
                            header: m.mem_virtual_size,
                        },
                    )
                } else {
                    Ok(spans_of(m))
                },
            }
        }
    }

    /// The layers that a task plans against, opened.
    pub open spec fn stack(self, opened: Seq<OpenedLayer>) -> Stack {
        Stack { layers: sources_of(self.layers@), opened }
    }

    /// Checks a manifest body against the task, given the hexadecimal digest
    /// of the body. Nothing in the body is acted on before its digest matches
    /// the committed one.
    pub fn accept_manifest_with_digest(&self, manifest_bytes: &[u8], body_sha256: &String) -> (res:
        Result<Vec<(u64, u64)>, PrefetchError>)
        ensures
            match self.spans_or_error(manifest_bytes@, body_sha256@) {
                Err(e) => res == Err::<Vec<(u64, u64)>, PrefetchError>(e),
                Ok(spans) => res is Ok && res->Ok_0@ == spans,
            },
    {
        if self.layers.len() == 0 {
            return Err(PrefetchError::NoLayers);
        }
        if *body_sha256 != self.index_sha256 {
            return Err(PrefetchError::DigestMismatch);
        }
        let manifest: StartupManifest = match decode_manifest(manifest_bytes) {
            Ok(manifest) => manifest,
            Err(e) => {
                return Err(PrefetchError::Manifest(e));
            },
        };
        if manifest.mem_virtual_size != self.mem_virtual_size {
            return Err(
                PrefetchError::MemSizeMismatch {
                    descriptor: self.mem_virtual_size,
                    header: manifest.mem_virtual_size,
                },
            );
        }
        let ghost pages = page_spans(manifest.prefix_pages@);
        let mut spans: Vec<(u64, u64)> = Vec::new();
        let mut i: usize = 0;
        while i < manifest.prefix_pages.len()
            invariant
                i <= manifest.prefix_pages@.len(),
                pages == page_spans(manifest.prefix_pages@),
                spans@ == pages.take(i as int),
            decreases manifest.prefix_pages@.len() - i,
        {
            spans.push((manifest.prefix_pages[i], PACK_PAGE_BYTES));
            assert(pages.take(i + 1) =~= pages.take(i as int).push(pages[i as int]));
            i = i + 1;
        }
        assert(pages.take(i as int) =~= pages);
        let mut ranges: Vec<(u64, u64)> = manifest.ranges;
        spans.append(&mut ranges);
        Ok(spans)
    }

    /// Checks a manifest body against the task. Answers with its spans in
    /// first-need order.
    pub fn accept_manifest(&self, manifest_bytes: &[u8]) -> (res: Result<
        Vec<(u64, u64)>,
        PrefetchError,
    >)
        ensures
            match self.spans_or_error(manifest_bytes@, hex_of(sha256(manifest_bytes@))) {
                Err(e) => res == Err::<Vec<(u64, u64)>, PrefetchError>(e),
                Ok(spans) => res is Ok && res->Ok_0@ == spans,
            },
    {
        let body_sha256: String = hex_sha256(manifest_bytes);
        self.accept_manifest_with_digest(manifest_bytes, &body_sha256)
    }

    /// The layers of the task by their content identity.
    pub fn final_layers(&self) -> (layers: Vec<FinalLayerSource>)
        ensures
            layers@ == sources_of(self.layers@),
            layers@.len() == self.layers@.len(),
            forall|i: int|
                #![trigger layers@[i]]
                0 <= i < layers@.len() ==> layers@[i].digest == self.layers@[i].digest
                    && layers@[i].size == self.layers@[i].size,
    {
        let ghost all = sources_of(self.layers@);
        let mut layers: Vec<FinalLayerSource> = Vec::new();
        let mut i: usize = 0;
        while i < self.layers.len()
            invariant
                i <= self.layers@.len(),
                all == sources_of(self.layers@),
                layers@ == all.take(i as int),
            decreases self.layers@.len() - i,
        {
            layers.push(
                FinalLayerSource {
                    digest: self.layers[i].digest.clone(),
                    size: self.layers[i].size,
                },
            );
            assert(all.take(i + 1) =~= all.take(i as int).push(all[i as int]));
            i = i + 1;
        }
        assert(all.take(i as int) =~= all);
        layers
    }

    /// Plans spans into final-object blocks, without a budget, and merges the
    /// blocks into the runs to refill.
    pub fn plan_work<F: Fn(Segment) -> Vec<SegmentMapping>>(
        &self,
        spans: &[(u64, u64)],
        opened: &[OpenedLayer],
        lookup: F,
    ) -> (res: Result<Vec<(usize, u64, u32)>, PlanError>)
        requires
            opened@.len() == self.layers@.len(),
            self.stack(opened@).addressable(),
            self.stack(opened@).lookup_ok(lookup, self.mem_virtual_size),
            self.stack(opened@).total_blocks() <= usize::MAX,
            ranges_fit(spans@),
            total_pages(spans@) <= usize::MAX,
        ensures
            match layers_error(sources_of(self.layers@)) {
                Some(e) => res == Err::<Vec<(usize, u64, u32)>, PlanError>(e),
                None => exists|plan: Result<PackPlan, PlanError>, answers: Seq<Vec<SegmentMapping>>|
                    #[trigger]
                    ranges_planned(
                        plan,
                        self.stack(opened@),
                        lookup,
                        spans@,
                        self.mem_virtual_size,
                        answers,
                        u64::MAX as int,
                    ) && work_planned(plan, res),
            },
    {
        let layers: Vec<FinalLayerSource> = self.final_layers();
        let planned: Result<PackPlan, PlanError> = plan_ranges(
            spans,
            self.mem_virtual_size,
            layers.as_slice(),
            opened,
            u64::MAX,
            lookup,
        );
        let ghost plan = planned;
        match planned {
            Err(e) => {
                proof {
                    if layers_error(layers@) is None {
                        let answers = choose|answers: Seq<Vec<SegmentMapping>>| #[trigger]
                            ranges_planned(
                                plan,
                                self.stack(opened@),
                                lookup,
                                spans@,
                                self.mem_virtual_size,
                                answers,
                                u64::MAX as int,
                            );
                        assert(work_planned(plan, Err::<Vec<(usize, u64, u32)>, PlanError>(e)));
                    }
                }
                Err(e)
            },
            Ok(found) => {
                let work: Vec<(usize, u64, u32)> = merge_runs_by_first_need(&found);
                proof {
                    let answers = choose|answers: Seq<Vec<SegmentMapping>>| #[trigger]
                        ranges_planned(
                            plan,
                            self.stack(opened@),
                            lookup,
                            spans@,
                            self.mem_virtual_size,
                            answers,
                            u64::MAX as int,
                        );
                    assert(work_planned(plan, Ok::<Vec<(usize, u64, u32)>, PlanError>(work)));
                }
                Ok(work)
            },
        }
    }

    /// Checks a manifest body against the task, plans its pages into
    /// final-object blocks and merges the blocks into the runs to refill, in
    /// the order of earliest need.
    pub fn plan_manifest_prefetch<F: Fn(Segment) -> Vec<SegmentMapping>>(
        &self,
        manifest_bytes: &[u8],
        opened: &[OpenedLayer],
        lookup: F,
    ) -> (res: Result<Vec<(usize, u64, u32)>, PrefetchError>)
        requires
            opened@.len() == self.layers@.len(),
            self.stack(opened@).addressable(),
            self.stack(opened@).lookup_ok(lookup, self.mem_virtual_size),
            self.stack(opened@).total_blocks() <= usize::MAX,
            MAX_PREFIX_PAGES + self.mem_virtual_size / PACK_PAGE_BYTES <= usize::MAX,
        ensures
            match self.spans_or_error(manifest_bytes@, hex_of(sha256(manifest_bytes@))) {
                Err(e) => res == Err::<Vec<(usize, u64, u32)>, PrefetchError>(e),
                Ok(spans) => match layers_error(sources_of(self.layers@)) {
                    Some(e) => res == Err::<Vec<(usize, u64, u32)>, PrefetchError>(
                        PrefetchError::Plan(e),
                    ),
                    None => exists|
                        plan: Result<PackPlan, PlanError>,
                        answers: Seq<Vec<SegmentMapping>>,
                    | #[trigger]
                        ranges_planned(
                            plan,
                            self.stack(opened@),
                            lookup,
                            spans,
                            self.mem_virtual_size,
                            answers,
                            u64::MAX as int,
                        ) && prefetch_planned(plan, res),
                },
            },
    {
        let spans: Vec<(u64, u64)> = match self.accept_manifest(manifest_bytes) {
            Ok(spans) => spans,
            Err(e) => {
                return Err(e);
            },
        };
        proof {
            self.lemma_spans_fit(manifest_bytes@);
        }
        let work: Result<Vec<(usize, u64, u32)>, PlanError> = self.plan_work(
            spans.as_slice(),
            opened,
            lookup,
        );
        let ghost planned = work;
        proof {
            if layers_error(sources_of(self.layers@)) is None {
                let (plan, answers) = choose|
                    plan: Result<PackPlan, PlanError>,
                    answers: Seq<Vec<SegmentMapping>>,
                | #[trigger]
                    ranges_planned(
                        plan,
                        self.stack(opened@),
                        lookup,
                        spans@,
                        self.mem_virtual_size,
                        answers,
                        u64::MAX as int,
                    ) && work_planned(plan, planned);
                assert(prefetch_planned(
                    plan,
                    match planned {
                        Ok(w) => Ok(w),
                        Err(e) => Err(PrefetchError::Plan(e)),
                    },
                ));
            }
        }
        match work {
            Ok(work) => Ok(work),
            Err(e) => Err(PrefetchError::Plan(e)),
        }
    }

    /// The spans of a manifest that a task accepts can be planned: their ends
    /// and their pages can be counted.
    pub proof fn lemma_spans_fit(self, bytes: Seq<u8>)
        ensures
            self.spans_or_error(bytes, hex_of(sha256(bytes))) matches Ok(spans) ==> ranges_fit(
                spans,
            ) && total_pages(spans) <= MAX_PREFIX_PAGES + self.mem_virtual_size / PACK_PAGE_BYTES,
    {
        if self.spans_or_error(bytes, hex_of(sha256(bytes))) is Ok {
            let m = parse_manifest(bytes)->Ok_0;
            law_decoded_manifest_is_valid(bytes);
            lemma_manifest_spans(m);
        }
    }
}

/// Whether a work list, or the error in its place, is what a plan comes to.
pub open spec fn work_planned(
    plan: Result<PackPlan, PlanError>,
    res: Result<Vec<(usize, u64, u32)>, PlanError>,
) -> bool {
    match plan {
        Ok(plan) => res is Ok && work_of(plan, res->Ok_0@),
        Err(e) => res == Err::<Vec<(usize, u64, u32)>, PlanError>(e),
    }
}

/// Whether a work list, or the error in its place, is what a plan comes to.
pub open spec fn prefetch_planned(
    plan: Result<PackPlan, PlanError>,
    res: Result<Vec<(usize, u64, u32)>, PrefetchError>,
) -> bool {
    match plan {
        Ok(plan) => res is Ok && work_of(plan, res->Ok_0@),
        Err(e) => res == Err::<Vec<(usize, u64, u32)>, PrefetchError>(PrefetchError::Plan(e)),
    }
}

/// The page numbers of ranges.
spec fn pages_in(ranges: Seq<(u64, u64)>) -> Set<int>
    decreases ranges.len(),
{
    if ranges.len() == 0 {
        Set::empty()
    } else {
        let r = ranges.last();
        let first = r.0 as int / PACK_PAGE_BYTES as int;
        pages_in(ranges.drop_last()).union(
            vstd::set_lib::set_int_range(first, first + range_pages(r)),
        )
    }
}

/// Disjoint ranges of an image have no more pages than the image.
proof fn lemma_pages_in(mem: u64, ranges: Seq<(u64, u64)>)
    requires
        ranges_valid(mem, ranges),
    ensures
        pages_in(ranges).finite(),
        pages_in(ranges).len() == total_pages(ranges),
        forall|p: int| #[trigger]
            pages_in(ranges).contains(p) ==> exists|i: int|
                0 <= i < ranges.len() && holds_page(#[trigger] ranges[i], p),
    decreases ranges.len(),
{
    if ranges.len() > 0 {
        let init = ranges.drop_last();
        let r = ranges.last();
        let first = r.0 as int / PACK_PAGE_BYTES as int;
        let own = vstd::set_lib::set_int_range(first, first + range_pages(r));
        assert(ranges_valid(mem, init)) by {
            assert forall|i: int| 0 <= i < init.len() implies range_valid(
                mem,
                #[trigger] init[i],
            ) by {
                assert(init[i] == ranges[i]);
            }
            assert forall|i: int, j: int|
                #![trigger init[i], init[j]]
                0 <= i < j < init.len() implies ranges_apart(init[i], init[j]) by {
                assert(init[i] == ranges[i] && init[j] == ranges[j]);
            }
        }
        lemma_pages_in(mem, init);
        vstd::set_lib::lemma_int_range(first, first + range_pages(r));
        assert(range_valid(mem, ranges[ranges.len() - 1]));
        assert(pages_in(init).disjoint(own)) by {
            assert forall|p: int| !(pages_in(init).contains(p) && own.contains(p)) by {
                if pages_in(init).contains(p) && own.contains(p) {
                    let i = choose|i: int|
                        0 <= i < init.len() && holds_page(#[trigger] init[i], p);
                    assert(init[i] == ranges[i]);
                    assert(range_valid(mem, ranges[i]));
                    assert(ranges_apart(ranges[i], ranges[ranges.len() - 1]));
                }
            }
        }
        vstd::set_lib::lemma_set_disjoint_lens(pages_in(init), own);
        assert(pages_in(init) + own == pages_in(ranges));
        assert forall|p: int| #[trigger] pages_in(ranges).contains(p) implies exists|i: int|
            0 <= i < ranges.len() && holds_page(#[trigger] ranges[i], p) by {
            if pages_in(init).contains(p) {
                let i = choose|i: int| 0 <= i < init.len() && holds_page(#[trigger] init[i], p);
                assert(holds_page(ranges[i], p));
            } else {
                assert(holds_page(ranges[ranges.len() - 1], p));
            }
        }
    }
}

/// Whether a range holds a page.
spec fn holds_page(range: (u64, u64), p: int) -> bool {
    range.0 <= p * PACK_PAGE_BYTES < range.0 + range.1
}

proof fn lemma_pages_of_image(mem: u64, ranges: Seq<(u64, u64)>)
    requires
        ranges_valid(mem, ranges),
    ensures
        total_pages(ranges) <= mem as int / PACK_PAGE_BYTES as int,
{
    let n = mem as int / PACK_PAGE_BYTES as int;
    lemma_pages_in(mem, ranges);
    vstd::set_lib::lemma_int_range(0, n);
    assert(pages_in(ranges).subset_of(vstd::set_lib::set_int_range(0, n))) by {
        assert forall|p: int| #[trigger] pages_in(ranges).contains(p) implies 0 <= p < n by {
            let i = choose|i: int| 0 <= i < ranges.len() && holds_page(#[trigger] ranges[i], p);
            assert(range_valid(mem, ranges[i]));
        }
    }
    vstd::set_lib::lemma_len_subset(pages_in(ranges), vstd::set_lib::set_int_range(0, n));
}

proof fn lemma_total_of_concat(a: Seq<(u64, u64)>, b: Seq<(u64, u64)>)
    ensures
        total_pages(a + b) == total_pages(a) + total_pages(b),
    decreases b.len(),
{
    if b.len() == 0 {
        assert(a + b =~= a);
    } else {
        lemma_total_of_concat(a, b.drop_last());
        assert((a + b).drop_last() =~= a + b.drop_last());
        assert((a + b).last() == b.last());
    }
}

proof fn lemma_total_of_pages(pages: Seq<u64>)
    ensures
        total_pages(page_spans(pages)) == pages.len(),
    decreases pages.len(),
{
    if pages.len() > 0 {
        lemma_total_of_pages(pages.drop_last());
        assert(page_spans(pages).drop_last() =~= page_spans(pages.drop_last()));
    }
}

proof fn lemma_manifest_spans(m: ManifestData)
    requires
        m.prefix_pages.len() <= MAX_PREFIX_PAGES,
        forall|i: int|
            0 <= i < m.prefix_pages.len() ==> is_page_of(
                m.mem_virtual_size,
                #[trigger] m.prefix_pages[i],
            ),
        ranges_valid(m.mem_virtual_size, m.ranges),
    ensures
        ranges_fit(spans_of(m)),
        total_pages(spans_of(m)) <= MAX_PREFIX_PAGES + m.mem_virtual_size as int
            / PACK_PAGE_BYTES as int,
{
    let spans = spans_of(m);
    lemma_total_of_concat(page_spans(m.prefix_pages), m.ranges);
    lemma_total_of_pages(m.prefix_pages);
    lemma_pages_of_image(m.mem_virtual_size, m.ranges);
    assert forall|i: int|
        #![trigger spans[i]]
        0 <= i < spans.len() && spans[i].1 > 0 && spans[i].0 % PLAN_PAGE_BYTES == 0 && spans[i].1
            % PLAN_PAGE_BYTES == 0 implies spans[i].0 + spans[i].1 <= u64::MAX by {
        let n = m.prefix_pages.len() as int;
        if i < n {
            assert(is_page_of(m.mem_virtual_size, m.prefix_pages[i]));
        } else {
            assert(range_valid(m.mem_virtual_size, m.ranges[i - n]));
        }
    }
}

} // verus!
