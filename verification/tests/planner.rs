use memory_startup::extents::{
    div_ceil, map_extent_blocks, push_aligned_blocks, LayerLayout, PlanError, OBJECT_BLOCK_BYTES,
};
use memory_startup::opened_layer::{answer_fits, layer_fits, open_layer, total_blocks, ZFileTable};
use memory_startup::pack_plan::{PackPlan, PageObservation};
use memory_startup::pack_planner::{plan_blocks, plan_blocks_with_observer, plan_ranges};
use memory_startup::plan_model::{
    FinalLayerSource, OpenedLayer, ReadOnlyLayerMetadata, Segment, SegmentMapping,
    ENTRY_BYTES, FRAME_BYTES, HEADER_BYTES, OBJECT_ENTRY_FIXED_BYTES, PLAN_PAGE_BYTES,
};
use memory_startup::plan_stats::{
    blocks_per_object, parse_layer_spec, parse_page_list, LayerSpec, StatsInputError,
};
use memory_startup::span_lookup::look_up_span;

const VSIZE: u64 = 4 * 1024 * 1024;
const BIG_BUDGET: u64 = 1 << 30;

/// Sealed layers, bottom to top. A layer file is a header page, its live pages
/// in ascending order, and the index.
struct Layers {
    sources: Vec<FinalLayerSource>,
    opened: Vec<OpenedLayer>,
    live: Vec<Vec<u32>>,
}

impl Layers {
    fn new() -> Self {
        Layers {
            sources: vec![],
            opened: vec![],
            live: vec![],
        }
    }

    fn raw(mut self, name: &str, pages: &[u32], filler: u32) -> Self {
        let mut live: Vec<u32> = (0..filler).chain(pages.iter().copied()).collect();
        live.sort_unstable();
        live.dedup();
        let index_offset = (live.len() as u64 + 1) * PLAN_PAGE_BYTES;
        let file_size = index_offset + 2 * PLAN_PAGE_BYTES;
        self.sources.push(FinalLayerSource {
            digest: format!("sha256:{name}"),
            size: file_size,
        });
        self.opened.push(
            open_layer(
                None,
                None,
                Some(ReadOnlyLayerMetadata {
                    index_offset,
                    file_size,
                }),
            )
            .unwrap(),
        );
        self.live.push(live);
        self
    }

    /// The same bytes, compressed page by page to `compressed` bytes each, in
    /// a tar archive.
    fn zfile(self, name: &str, pages: &[u32], filler: u32, compressed: u64) -> Self {
        let mut all = self.raw(name, pages, filler);
        let opened = all.opened.pop().unwrap();
        let metadata = opened.metadata;
        let blocks = metadata.file_size / PLAN_PAGE_BYTES;
        let extents: Vec<(u64, u64)> = (0..blocks).map(|i| (96 + i * compressed, compressed)).collect();
        let layer = all.sources.last_mut().unwrap();
        layer.size = 512 + 96 + blocks * compressed + 1000;
        all.opened.push(
            open_layer(
                Some(512),
                Some(ZFileTable {
                    block_size: 4096,
                    extents,
                }),
                Some(metadata),
            )
            .unwrap(),
        );
        all
    }

    /// The merged index: adjacent pages of a layer come as one mapping.
    fn lookup(&self) -> impl Fn(Segment) -> Vec<SegmentMapping> + '_ {
        move |segment: Segment| {
            let mut out: Vec<SegmentMapping> = vec![];
            let first = (segment.offset / 8) as u32;
            for page in first..first + segment.length / 8 {
                let mut mapping = SegmentMapping {
                    offset: u64::from(page) * 8,
                    moffset: 0,
                    length: 8,
                    tag: 0,
                    physical: false,
                };
                for (tag, live) in self.live.iter().rev().enumerate() {
                    if let Ok(at) = live.binary_search(&page) {
                        mapping.moffset = (at as u64 + 1) * 8;
                        mapping.tag = tag as u32;
                        mapping.physical = true;
                        break;
                    }
                }
                match out.last_mut() {
                    Some(last)
                        if last.physical == mapping.physical
                            && last.tag == mapping.tag
                            && (!last.physical
                                || last.moffset + u64::from(last.length) == mapping.moffset) =>
                    {
                        last.length += 8;
                    }
                    _ => out.push(mapping),
                }
            }
            out
        }
    }

    fn plan(&self, pages: &[u32], budget: u64) -> Result<PackPlan, PlanError> {
        plan_blocks(
            pages,
            VSIZE,
            &self.sources,
            &self.opened,
            budget,
            self.lookup(),
        )
    }

    fn plan_spans(&self, ranges: &[(u64, u64)], budget: u64) -> Result<PackPlan, PlanError> {
        plan_ranges(
            ranges,
            VSIZE,
            &self.sources,
            &self.opened,
            budget,
            self.lookup(),
        )
    }
}

fn file_bytes(plan: &PackPlan) -> u64 {
    HEADER_BYTES
        + plan
            .objects
            .iter()
            .map(|o| OBJECT_ENTRY_FIXED_BYTES + o.digest.len() as u64)
            .sum::<u64>()
        + plan.blocks.len() as u64 * (OBJECT_BLOCK_BYTES + ENTRY_BYTES)
        + 4 * (plan.blocks.len() as u64 * OBJECT_BLOCK_BYTES).div_ceil(FRAME_BYTES)
}

#[test]
fn raw_layer_maps_pages_to_aligned_blocks_in_first_need_order() {
    // filler pages push later pages into distinct physical blocks
    let layers = Layers::new().raw("l0", &[1, 300, 900], 1024);
    let size = layers.sources[0].size;

    // request order [300, 900]: 300's physical block must precede 900's
    let plan = layers.plan(&[300, 900, 1, 300], BIG_BUDGET).unwrap();
    assert_eq!(plan.stats.pages_backed, 4);
    assert_eq!(plan.stats.pages_zero_hole, 0);
    assert!(plan.stats.metadata_blocks >= 1);
    // no duplicate block ids
    let ids: Vec<u32> = plan.blocks.iter().map(|block| block.block_id).collect();
    let unique: std::collections::HashSet<u32> = ids.iter().copied().collect();
    assert_eq!(unique.len(), ids.len(), "no duplicate blocks");
    // metadata block 0 is selected and first
    assert_eq!(ids.first().copied(), Some(0));
    // first-need order: the two distinct data blocks (300's, 900's) keep
    // request order; metadata is block 0 + the object tail block.
    let tail_block = ((size - 1) / OBJECT_BLOCK_BYTES) as u32;
    let data_ids: Vec<u32> = ids
        .iter()
        .copied()
        .filter(|id| *id != 0 && *id != tail_block)
        .collect();
    assert!(data_ids.len() >= 2, "300 and 900 in distinct blocks");
    assert!(
        data_ids[0] < data_ids[1],
        "first-need order: 300's block before 900's"
    );
    // exactly: header, index, the block of page 300, the block of page 900
    assert_eq!(ids, vec![0, 16, 4, 14]);
    assert_eq!(plan.stats.metadata_blocks, 2);
    assert_eq!(plan.stats.data_blocks, 2);
    assert_eq!(plan.stats.unique_blocks, 4);
    assert_eq!(plan.stats.payload_bytes, 4 * OBJECT_BLOCK_BYTES);
    // the gaps are blocks 1-3, 5-13 and 15
    assert_eq!(plan.stats.gap_runs, 3);
    assert_eq!(plan.stats.gap_blocks, 13);
}

#[test]
fn shadowed_parent_pages_resolve_to_top_layer() {
    let layers = Layers::new().raw("lower", &[5, 6], 0).raw("upper", &[5], 0);
    let plan = layers.plan(&[5, 6], BIG_BUDGET).unwrap();

    // page 5 must come from the upper object (located by digest)
    let upper_object = plan
        .objects
        .iter()
        .position(|object| object.digest == "sha256:upper")
        .expect("upper object in plan") as u16;
    assert!(plan.blocks.iter().any(|block| block.object == upper_object));
    assert_eq!(plan.objects.len(), 2);
    assert_eq!(plan.objects[0].layer, 1);
    assert_eq!(plan.objects[1].layer, 0);
}

#[test]
fn holes_and_unbacked_pages_produce_no_blocks() {
    let layers = Layers::new().raw("l0", &[7], 0);
    let plan = layers.plan(&[7, 8, 9, 500], BIG_BUDGET).unwrap();
    assert_eq!(plan.stats.pages_backed, 1);
    assert_eq!(plan.stats.pages_zero_hole, 3);
    assert!(plan.stats.unique_blocks >= 1);
    assert_eq!(plan.stats.pages_total, 4);
    let empty = layers.plan(&[8, 9], BIG_BUDGET).unwrap();
    assert_eq!(empty.stats.pages_zero_hole, 2);
    assert!(empty.blocks.is_empty());
    assert!(empty.objects.is_empty());
    assert_eq!(empty.stats.gap_blocks, 0);
}

#[test]
fn zfile_layer_maps_through_compressed_extents_and_reads_back() {
    let layers = Layers::new().zfile("zl0", &[3, 300], 1024, 1024);
    let plan = layers.plan(&[3, 300], BIG_BUDGET).unwrap();

    assert_eq!(plan.stats.pages_backed, 2);
    assert!(plan.stats.unique_blocks >= 2);
    // every selected block must be within the final compressed object
    let object_blocks = layers.sources[0].size.div_ceil(OBJECT_BLOCK_BYTES);
    assert!(plan
        .blocks
        .iter()
        .all(|block| (block.block_id as u64) < object_blocks));
    // compressed block 301 lies at 512 + 96 + 301 * 1024, in block 1
    let ids: Vec<u32> = plan.blocks.iter().map(|block| block.block_id).collect();
    assert_eq!(ids, vec![0, 4, 1]);
    assert!(plan.blocks[1].metadata && !plan.blocks[2].metadata);
}

#[test]
fn budget_truncates_at_first_unfittable_page_without_half_sets() {
    let layers = Layers::new().raw("l0", &[100, 200, 900], 1024);
    // 5 unique blocks (2 metadata + 3 data); the budget admits exactly 4
    let budget = 1_100_000u64;
    let plan = layers.plan(&[100, 200, 900], budget).unwrap();
    assert_eq!(
        plan.stats.pages_truncated_by_budget, 1,
        "the third page's dependency set must not fit"
    );
    assert_eq!(plan.stats.pages_backed, 2);
    assert!(plan.stats.payload_bytes <= budget);
    // no half dependency set: everything committed must be within budget
    assert!(file_bytes(&plan) <= budget);
    assert_eq!(plan.blocks.len(), 4);
    // pages behind the cut are not even checked
    let plan = layers.plan(&[100, 200, 900, 5_000_000, 100], budget).unwrap();
    assert_eq!(plan.stats.pages_truncated_by_budget, 3);
    assert_eq!(plan.stats.pages_total, 5);
}

#[test]
fn budget_is_spent_to_the_byte() {
    let layers = Layers::new().raw("l0", &[100], 1024);
    let exact = 64 + 10 + 9 + 3 * (262_144 + 8) + 4;
    let plan = layers.plan(&[100], exact).unwrap();
    assert_eq!(plan.stats.pages_backed, 1);
    assert_eq!(file_bytes(&plan), exact);
    let plan = layers.plan(&[100], exact - 1).unwrap();
    assert_eq!(plan.stats.pages_truncated_by_budget, 1);
    assert!(plan.blocks.is_empty() && plan.objects.is_empty());
}

#[test]
fn a_second_page_is_taken_at_the_exact_budget() {
    // pages 100 and 200 add a block each to the two metadata blocks
    let layers = Layers::new().raw("l0", &[100, 200], 1024);
    let bytes = |blocks: u64| 64 + 10 + 9 + blocks * (262_144 + 8) + 4;
    let plan = layers.plan(&[100, 200], bytes(4)).unwrap();
    assert_eq!(plan.stats.pages_backed, 2);
    assert_eq!(plan.blocks.len(), 4);
    assert_eq!(file_bytes(&plan), bytes(4));
    let plan = layers.plan(&[100, 200], bytes(4) - 1).unwrap();
    assert_eq!(plan.stats.pages_backed, 1);
    assert_eq!(plan.stats.pages_truncated_by_budget, 1);
    assert_eq!(file_bytes(&plan), bytes(3));
    // four blocks fill a frame: the fifth needs a second checksum
    let five = bytes(5) + 4;
    let plan = layers.plan(&[100, 200, 900], five).unwrap();
    assert_eq!(plan.stats.pages_backed, 3);
    assert_eq!(file_bytes(&plan), five);
    let plan = layers.plan(&[100, 200, 900], five - 1).unwrap();
    assert_eq!(plan.stats.pages_truncated_by_budget, 1);
    // spans as well
    let span = |n: u64| (n * PLAN_PAGE_BYTES, PLAN_PAGE_BYTES);
    let plan = layers.plan_spans(&[span(100), span(200)], bytes(4)).unwrap();
    assert_eq!(plan.stats.pages_backed, 2);
    let plan = layers
        .plan_spans(&[span(100), span(200)], bytes(4) - 1)
        .unwrap();
    assert_eq!(plan.stats.pages_truncated_by_budget, 1);
}

#[test]
fn a_cut_plan_is_the_plan_of_the_pages_before_the_cut() {
    let layers = Layers::new()
        .raw("lower", &[], 1024)
        .raw("upper", &[7, 500], 0);
    let pages = [7u32, 300, 2, 900, 500, 8, 640];
    for budget in [0, 64, 300_000, 800_000, 1_100_000, 1_400_000, BIG_BUDGET] {
        let cut = layers.plan(&pages, budget).unwrap();
        let stats = cut.stats.clone();
        let taken = pages.len() - stats.pages_truncated_by_budget;
        assert_eq!(stats.pages_total, pages.len());
        assert_eq!(stats.pages_backed + stats.pages_zero_hole, taken);
        let whole = layers.plan(&pages[..taken], u64::MAX).unwrap();
        assert_eq!(whole.objects, cut.objects);
        assert_eq!(whole.blocks, cut.blocks);
        let mut expected = stats;
        expected.pages_total = taken;
        expected.pages_truncated_by_budget = 0;
        assert_eq!(whole.stats, expected);
        // the first page that was cut does not fit
        if taken < pages.len() {
            let more = layers.plan(&pages[..taken + 1], u64::MAX).unwrap();
            assert!(file_bytes(&more) > budget);
        }
    }
}

#[test]
fn vfile_input_plans_like_local_path() {
    // opened twice, from the same reads
    let via_path = Layers::new().raw("l0", &[1, 300], 1024);
    let via_vfile = Layers::new().raw("l0", &[1, 300], 1024);
    let a = via_path.plan(&[300, 1], BIG_BUDGET).unwrap();
    let b = via_vfile.plan(&[300, 1], BIG_BUDGET).unwrap();
    assert_eq!(a.blocks, b.blocks);
    assert_eq!(a.stats.unique_blocks, b.stats.unique_blocks);
    assert_eq!(a.objects, b.objects);
    assert_eq!(a.stats, b.stats);
}

#[test]
fn layers_are_opened_by_what_is_read() {
    let metadata = ReadOnlyLayerMetadata {
        index_offset: 8192,
        file_size: 12288,
    };
    let raw = open_layer(None, None, Some(metadata)).unwrap();
    assert!(matches!(raw.layout, LayerLayout::Raw { tar_base: 0 }));
    assert_eq!(raw.metadata, metadata);
    let archived = open_layer(Some(512), None, Some(metadata)).unwrap();
    assert!(matches!(archived.layout, LayerLayout::Raw { tar_base: 512 }));
    let table = ZFileTable {
        block_size: 4096,
        extents: vec![(96, 100), (196, 50)],
    };
    let packed = open_layer(Some(512), Some(table), Some(metadata)).unwrap();
    match packed.layout {
        LayerLayout::ZFile {
            block_size,
            extents,
            tar_base,
        } => {
            assert_eq!((block_size, tar_base), (4096, 512));
            assert_eq!(extents, vec![(96, 100), (196, 50)]);
        }
        LayerLayout::Raw { .. } => panic!("compressed layers keep their jump table"),
    }
}

#[test]
fn metadata_blocks_precede_first_data_block_of_layer() {
    let layers = Layers::new().raw("l0", &[700], 0);
    let plan = layers.plan(&[700], BIG_BUDGET).unwrap();
    assert!(plan.stats.metadata_blocks >= 1);
    // block 0 (header) must be in the selection and before any data block
    assert_eq!(plan.blocks.first().map(|b| b.block_id), Some(0));
    // index region tail blocks also selected
    let tail_block = (layers.sources[0].size - 1) / OBJECT_BLOCK_BYTES;
    assert!(plan.blocks.iter().any(|b| b.block_id == tail_block as u32));
    // in a larger layer all metadata comes before the data
    let layers = Layers::new().raw("l0", &[], 1024).raw("l1", &[1000], 0);
    let plan = layers.plan(&[1000, 500], BIG_BUDGET).unwrap();
    let kinds: Vec<(u16, bool)> = plan.blocks.iter().map(|b| (b.object, b.metadata)).collect();
    assert_eq!(kinds, vec![(0, true), (1, true), (1, true), (1, false)]);
}

#[test]
fn observer_reports_positions_in_first_need_order() {
    // pages 300 and 900 land in distinct blocks; page 301 shares 300's block
    let layers = Layers::new().raw("l0", &[300, 301, 900], 1024);
    let mut seen: Vec<PageObservation> = Vec::new();
    let plan = plan_blocks_with_observer(
        &[300, 900, 301],
        VSIZE,
        &layers.sources,
        &layers.opened,
        BIG_BUDGET,
        layers.lookup(),
        &mut seen,
    )
    .unwrap();

    assert_eq!(seen.len(), 3);
    // page 300 resolves to (object 0, its block) at some position p
    let first = &seen[0].blocks;
    assert_eq!(first.len(), 1);
    let (obj_300, block_300, pos_300) = first[0];
    assert_eq!(obj_300, 0);
    // metadata block precedes it, so the data position is > 0
    assert!(pos_300 > 0);
    // page 900: a different block at a later position
    let second = &seen[1].blocks;
    assert_eq!(second.len(), 1);
    assert_ne!(second[0].1, block_300);
    assert!(second[0].2 > pos_300);
    // page 301 shares 300's block: same position as the first need
    let third = &seen[2].blocks;
    assert_eq!(third.len(), 1);
    assert_eq!(third[0].1, block_300);
    assert_eq!(third[0].2, pos_300, "dedup keeps the first-need position");
    // and the plan holds each block once
    assert_eq!(
        plan.blocks
            .iter()
            .filter(|b| b.object == 0 && b.block_id == block_300)
            .count(),
        1
    );
}

#[test]
fn observer_is_told_of_holes_and_of_pages_before_an_error() {
    let layers = Layers::new().raw("l0", &[7], 0);
    let mut seen: Vec<PageObservation> = vec![];
    let res = plan_blocks_with_observer(
        &[8, 7, 1024],
        VSIZE,
        &layers.sources,
        &layers.opened,
        BIG_BUDGET,
        layers.lookup(),
        &mut seen,
    );
    assert_eq!(res.err(), Some(PlanError::PageOutOfRange { page: 1024 }));
    assert_eq!(
        seen,
        vec![
            PageObservation {
                page: 8,
                blocks: vec![]
            },
            PageObservation {
                page: 7,
                blocks: vec![(0, 0, 0)]
            }
        ]
    );
}

#[test]
fn ranges_plan_matches_per_page_plan() {
    let layers = Layers::new().raw("l0", &[1, 300, 900], 1024);
    let pages = [1u32, 300, 301, 900];
    let per_page = layers.plan(&pages, BIG_BUDGET).unwrap();
    let spans: Vec<(u64, u64)> = vec![
        (PLAN_PAGE_BYTES, PLAN_PAGE_BYTES),
        (300 * PLAN_PAGE_BYTES, 2 * PLAN_PAGE_BYTES),
        (900 * PLAN_PAGE_BYTES, PLAN_PAGE_BYTES),
    ];
    let per_span = layers.plan_spans(&spans, BIG_BUDGET).unwrap();
    assert_eq!(per_page.objects, per_span.objects);
    assert_eq!(per_page.blocks, per_span.blocks);
    assert_eq!(per_page.stats.pages_total, per_span.stats.pages_total);
    assert_eq!(per_page.stats.pages_backed, per_span.stats.pages_backed);
    assert_eq!(
        per_page.stats.pages_zero_hole,
        per_span.stats.pages_zero_hole
    );
    assert_eq!(per_page.stats.unique_blocks, per_span.stats.unique_blocks);
}

#[test]
fn holes_inside_a_span_are_counted_page_by_page() {
    let layers = Layers::new().raw("l0", &[7, 10], 0);
    let span = |first: u64, pages: u64| (first * PLAN_PAGE_BYTES, pages * PLAN_PAGE_BYTES);
    let plan = layers.plan_spans(&[span(7, 2)], BIG_BUDGET).unwrap();
    assert_eq!(plan.stats.pages_total, 2);
    assert_eq!(plan.stats.pages_backed, 1);
    assert_eq!(plan.stats.pages_zero_hole, 1);
    // holes before, between and behind, and a span of holes only
    let spans = [span(5, 8), span(20, 3)];
    let plan = layers.plan_spans(&spans, BIG_BUDGET).unwrap();
    assert_eq!(plan.stats.pages_total, 11);
    assert_eq!(plan.stats.pages_backed, 2);
    assert_eq!(plan.stats.pages_zero_hole, 9);
    let pages: Vec<u32> = (5..13).chain(20..23).collect();
    let per_page = layers.plan(&pages, BIG_BUDGET).unwrap();
    assert_eq!(per_page.stats, plan.stats);
    assert_eq!(per_page.blocks, plan.blocks);
    // an index that leaves holes out, and one that cuts inside a page
    let sparse = |segment: Segment| -> Vec<SegmentMapping> {
        let piece = |offset: u64, length: u32| SegmentMapping {
            offset,
            moffset: 8,
            length,
            tag: 0,
            physical: true,
        };
        if segment.length == 16 {
            vec![piece(segment.offset + 6, 2), piece(segment.offset + 6, 2)]
        } else {
            vec![piece(segment.offset + 7, 2)]
        }
    };
    let plan = plan_ranges(
        &[span(0, 2), span(0, 3)],
        VSIZE,
        &layers.sources,
        &layers.opened,
        BIG_BUDGET,
        sparse,
    )
    .unwrap();
    assert_eq!(plan.stats.pages_backed, 3);
    assert_eq!(plan.stats.pages_zero_hole, 2);
}

#[test]
fn spans_too_long_for_one_lookup_take_more() {
    let two_tib = 1u64 << 41;
    let asked = std::cell::RefCell::new(Vec::<(u64, u32)>::new());
    let lookup = |segment: Segment| -> Vec<SegmentMapping> {
        asked.borrow_mut().push((segment.offset, segment.length));
        let mut out = vec![];
        for (offset, moffset) in [(0u64, 8u64), (1 << 32, 16)] {
            if segment.offset <= offset && offset < segment.offset + u64::from(segment.length) {
                out.push(SegmentMapping {
                    offset,
                    moffset,
                    length: 8,
                    tag: 0,
                    physical: true,
                });
            }
        }
        out
    };
    let answer = look_up_span(&lookup, (0, two_tib - PLAN_PAGE_BYTES));
    assert_eq!(answer.len(), 1);
    assert_eq!(asked.take(), vec![(0, u32::MAX - 7)]);
    let answer = look_up_span(&lookup, (0, two_tib + PLAN_PAGE_BYTES));
    assert_eq!(answer.len(), 2);
    assert_eq!(asked.take(), vec![(0, u32::MAX - 7), (0xFFFF_FFF8, 16)]);

    // the plan of the span is that of its pages
    let layers = Layers::new().raw("l0", &[7, 10], 0);
    let mem = 1u64 << 42;
    let plan = plan_ranges(
        &[(0, two_tib + PLAN_PAGE_BYTES)],
        mem,
        &layers.sources,
        &layers.opened,
        BIG_BUDGET,
        &lookup,
    )
    .unwrap();
    assert_eq!(plan.stats.pages_total, (1 << 29) + 1);
    assert_eq!(plan.stats.pages_backed, 2);
    assert_eq!(plan.stats.pages_zero_hole, (1 << 29) - 1);
    let pages = plan_blocks(
        &[0, 1, 1 << 29],
        mem,
        &layers.sources,
        &layers.opened,
        BIG_BUDGET,
        &lookup,
    )
    .unwrap();
    assert_eq!(pages.blocks, plan.blocks);
    assert_eq!(pages.objects, plan.objects);
}

#[test]
fn plans_do_not_depend_on_how_answers_are_cut() {
    // one lookup merges adjacent pages, the other answers sector by sector
    let layers = Layers::new().raw("l0", &[1, 300, 900], 1024);
    let fine = |segment: Segment| -> Vec<SegmentMapping> {
        let mut out = vec![];
        for m in layers.lookup()(segment) {
            for i in 0..m.length {
                out.push(SegmentMapping {
                    offset: m.offset + u64::from(i),
                    moffset: m.moffset + u64::from(i),
                    length: 1,
                    ..m
                });
            }
        }
        out
    };
    let spans = [
        (300 * PLAN_PAGE_BYTES, 70 * PLAN_PAGE_BYTES),
        (0, 3 * PLAN_PAGE_BYTES),
    ];
    let pages: Vec<u32> = (300..370).chain(0..3).collect();
    let coarse = layers.plan(&pages, BIG_BUDGET).unwrap();
    let per_span = plan_ranges(
        &spans,
        VSIZE,
        &layers.sources,
        &layers.opened,
        BIG_BUDGET,
        fine,
    )
    .unwrap();
    assert_eq!(coarse.objects, per_span.objects);
    assert_eq!(coarse.blocks, per_span.blocks);
    assert_eq!(coarse.stats, per_span.stats);
}

#[test]
fn spans_of_one_page_are_planned_like_pages() {
    let layers = Layers::new()
        .raw("lower", &[], 1024)
        .raw("upper", &[7, 500], 0);
    let pages = [7u32, 300, 8, 900, 500, 2];
    let spans: Vec<(u64, u64)> = pages
        .iter()
        .map(|page| (u64::from(*page) * PLAN_PAGE_BYTES, PLAN_PAGE_BYTES))
        .collect();
    for budget in [0, 800_000, 1_100_000, BIG_BUDGET] {
        let per_page = layers.plan(&pages, budget).unwrap();
        let per_span = layers.plan_spans(&spans, budget).unwrap();
        assert_eq!(per_page.objects, per_span.objects);
        assert_eq!(per_page.blocks, per_span.blocks);
        assert_eq!(per_page.stats, per_span.stats);
    }
}

#[test]
fn spans_over_two_new_layers_select_what_their_pages_select() {
    let upper: Vec<u32> = (301..501).collect();
    let layers = Layers::new()
        .raw("lower", &[], 1024)
        .raw("upper", &upper, 0);
    let flags = |plan: &PackPlan| -> Vec<(u16, u32, bool)> {
        plan.blocks
            .iter()
            .map(|b| (b.object, b.block_id, b.metadata))
            .collect()
    };
    let per_page = layers.plan(&[300, 301], BIG_BUDGET).unwrap();
    let span = (300 * PLAN_PAGE_BYTES, 2 * PLAN_PAGE_BYTES);
    let per_span = layers.plan_spans(&[span], BIG_BUDGET).unwrap();
    assert_eq!(per_page.objects, per_span.objects);
    // the span needs the metadata of both layers first
    assert_eq!(
        flags(&per_page),
        vec![
            (0, 0, true),
            (0, 16, true),
            (0, 4, false),
            (1, 0, true),
            (1, 3, true)
        ]
    );
    assert_eq!(
        flags(&per_span),
        vec![
            (0, 0, true),
            (0, 16, true),
            (1, 0, true),
            (1, 3, true),
            (0, 4, false)
        ]
    );
    assert_eq!(per_page.stats, per_span.stats);
}

#[test]
fn ample_budgets_cut_nothing() {
    let layers = Layers::new()
        .raw("l0", &[], 1024)
        .zfile("l1", &[7, 500], 0, 900);
    let blocks = total_blocks(&layers.sources).unwrap() as u64;
    let entries: u64 = layers
        .sources
        .iter()
        .map(|layer| OBJECT_ENTRY_FIXED_BYTES + layer.digest.len() as u64)
        .sum();
    let ample = HEADER_BYTES
        + entries
        + blocks * (OBJECT_BLOCK_BYTES + ENTRY_BYTES)
        + 4 * (blocks * OBJECT_BLOCK_BYTES).div_ceil(FRAME_BYTES);
    let pages: Vec<u32> = (0..1024).rev().collect();
    let plan = layers.plan(&pages, ample).unwrap();
    assert_eq!(plan.stats.pages_truncated_by_budget, 0);
    assert_eq!(plan.stats.unique_blocks as u64, blocks);
    assert_eq!(plan.stats.gap_blocks, 0);
    // no plan needs more, and this one needs all of it
    assert_eq!(file_bytes(&plan), ample);
    let plan = layers.plan(&pages, ample - 1).unwrap();
    assert!(plan.stats.pages_truncated_by_budget > 0);
}

#[test]
fn spans_behind_the_cut_are_still_checked() {
    let layers = Layers::new().raw("l0", &[100, 900], 1024);
    let page = |n: u64| (n * PLAN_PAGE_BYTES, PLAN_PAGE_BYTES);
    let plan = layers.plan_spans(&[page(100), page(900)], 800_000).unwrap();
    assert_eq!(plan.stats.pages_backed, 1);
    assert_eq!(plan.stats.pages_truncated_by_budget, 1);
    let beyond = (VSIZE, PLAN_PAGE_BYTES);
    assert_eq!(
        layers
            .plan_spans(&[page(100), page(900), beyond], 800_000)
            .err(),
        Some(PlanError::RangeOutOfRange {
            voffset: VSIZE,
            vlen: PLAN_PAGE_BYTES
        })
    );
    for bad in [(0, 0), (1, 4096), (4096, 100)] {
        assert_eq!(
            layers.plan_spans(&[bad], BIG_BUDGET).err(),
            Some(PlanError::RangeOutOfRange {
                voffset: bad.0,
                vlen: bad.1
            })
        );
    }
}

#[test]
fn unusable_layers_are_refused() {
    let none = Layers::new();
    assert_eq!(none.plan(&[0], BIG_BUDGET).err(), Some(PlanError::NoLayers));
    let mut layers = Layers::new().raw("l0", &[1], 0).raw("l1", &[2], 0);
    layers.sources[1].size = 0;
    assert_eq!(
        layers.plan(&[0], BIG_BUDGET).err(),
        Some(PlanError::EmptyLayer { layer: 1 })
    );
    let mut many = Layers::new();
    for _ in 0..65537 {
        many = many.raw("l", &[], 0);
    }
    assert_eq!(
        many.plan(&[0], BIG_BUDGET).err(),
        Some(PlanError::TooManyLayers)
    );
    assert_eq!(
        open_layer(Some(512), None, None).err(),
        Some(PlanError::LayerMetadataMissing)
    );
}

#[test]
fn jump_table_faults_are_reported() {
    let mut layers = Layers::new().zfile("zl0", &[3], 16, 1000);
    if let LayerLayout::ZFile { extents, .. } = &mut layers.opened[0].layout {
        extents[4].1 = 0;
    }
    assert_eq!(layers.plan(&[3], BIG_BUDGET).err(), Some(PlanError::EmptyExtent));
    if let LayerLayout::ZFile { extents, .. } = &mut layers.opened[0].layout {
        extents.truncate(2);
    }
    assert_eq!(
        layers.plan(&[3], BIG_BUDGET).err(),
        Some(PlanError::MissingExtent { block: 4 })
    );
    if let LayerLayout::ZFile { block_size, .. } = &mut layers.opened[0].layout {
        *block_size = 0;
    }
    assert_eq!(
        layers.plan(&[3], BIG_BUDGET).err(),
        Some(PlanError::ZeroZFileBlock)
    );
}

#[test]
fn extents_are_aligned_and_cut_at_the_object() {
    let mut out: Vec<u32> = vec![9];
    assert_eq!(push_aligned_blocks(262_143, 2, 1 << 20, &mut out), Ok(()));
    assert_eq!(out, vec![9, 0, 1]);
    // cut at the last block of the object
    let mut out: Vec<u32> = vec![];
    assert_eq!(push_aligned_blocks(700_000, 1 << 20, 800_000, &mut out), Ok(()));
    assert_eq!(out, vec![2, 3]);
    let mut out: Vec<u32> = vec![];
    assert_eq!(push_aligned_blocks(1 << 20, 4096, 1 << 20, &mut out), Ok(()));
    assert!(out.is_empty());
    assert_eq!(
        push_aligned_blocks(0, 0, 1 << 20, &mut out),
        Err(PlanError::EmptyExtent)
    );
    assert_eq!(
        push_aligned_blocks(1 << 60, 1, u64::MAX, &mut out),
        Err(PlanError::BlockIdOverflow)
    );
    // an empty logical extent has no blocks
    let raw = LayerLayout::Raw { tar_base: 1 << 19 };
    assert_eq!(map_extent_blocks(&raw, 77, 0, 1, &mut out), Ok(()));
    assert!(out.is_empty());
    assert_eq!(map_extent_blocks(&raw, 0, 4096, 1 << 20, &mut out), Ok(()));
    assert_eq!(out, vec![2]);
    // what was collected before an id overflows is kept
    let mut out: Vec<u32> = vec![];
    assert_eq!(
        push_aligned_blocks(((1 << 32) - 1) << 18, 1 << 19, u64::MAX, &mut out),
        Err(PlanError::BlockIdOverflow)
    );
    assert_eq!(out, vec![u32::MAX]);
    assert_eq!(div_ceil(8, 4), 2);
    assert_eq!(div_ceil(9, 4), 3);
    assert_eq!(div_ceil(u64::MAX, 1), u64::MAX);
}

#[test]
fn what_does_not_fit_is_told_beforehand() {
    let layers = Layers::new().raw("l0", &[1], 0);
    assert!(layer_fits(&layers.opened[0]));
    assert_eq!(total_blocks(&layers.sources), Some(1));
    let far = OpenedLayer {
        layout: LayerLayout::Raw { tar_base: u64::MAX },
        metadata: ReadOnlyLayerMetadata {
            index_offset: 0,
            file_size: 0,
        },
    };
    assert!(!layer_fits(&far));
    let wide = OpenedLayer {
        layout: LayerLayout::ZFile {
            block_size: 4096,
            extents: vec![(u64::MAX, 1)],
            tar_base: 0,
        },
        metadata: ReadOnlyLayerMetadata {
            index_offset: 0,
            file_size: 0,
        },
    };
    assert!(!layer_fits(&wide));
    let mapping = |moffset: u64, tag: u32, physical: bool| SegmentMapping {
        offset: 0,
        moffset,
        length: 8,
        tag,
        physical,
    };
    assert!(answer_fits(&layers.opened, &vec![mapping(8, 0, true)]));
    assert!(!answer_fits(&layers.opened, &vec![mapping(8, 1, true)]));
    assert!(answer_fits(&layers.opened, &vec![mapping(8, 1, false)]));
    assert!(!answer_fits(&layers.opened, &vec![mapping(u64::MAX / 512, 0, true)]));
}

#[test]
fn statistics_inputs_are_parsed() {
    let mut raw: Vec<u8> = vec![];
    for offset in [0u64, 4096, 12287, u64::from(u32::MAX) * 4096 + 4095] {
        raw.extend_from_slice(&offset.to_le_bytes());
    }
    assert_eq!(parse_page_list(&raw), Ok(vec![0, 1, 2, u32::MAX]));
    assert_eq!(
        parse_page_list(&raw[1..]),
        Err(StatsInputError::PagesNotAligned { len: 31 })
    );
    raw.extend_from_slice(&(1u64 << 44).to_le_bytes());
    assert_eq!(
        parse_page_list(&raw),
        Err(StatsInputError::PageIndexOverflow { offset: 1 << 44 })
    );
    assert_eq!(
        parse_layer_spec(b"a/b=1024=sha256:x=y"),
        Ok(LayerSpec {
            path_end: 3,
            size: 1024,
            digest_start: 9
        })
    );
    assert_eq!(
        parse_layer_spec(b"a=+00018446744073709551615=").map(|spec| spec.size),
        Ok(u64::MAX)
    );
    for bad in ["a=18446744073709551616=d", "a=1x=d", "a==d", "a=+=d", "a=-1=d"] {
        assert_eq!(
            parse_layer_spec(bad.as_bytes()),
            Err(StatsInputError::InvalidSize)
        );
    }
    for bad in ["", "a", "a=1"] {
        assert_eq!(
            parse_layer_spec(bad.as_bytes()),
            Err(StatsInputError::InvalidLayerSpec)
        );
    }
}

#[test]
fn blocks_are_counted_per_object() {
    let layers = Layers::new().raw("l0", &[], 1024).raw("l1", &[1000], 0);
    let plan = layers.plan(&[1000, 500, 700], BIG_BUDGET).unwrap();
    assert_eq!(blocks_per_object(&plan), vec![1, 4]);
}
