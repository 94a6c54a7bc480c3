//! What a block plan is: the mathematical account of planning that the
//! planner's contracts speak of.
//!
//! Planning consumes units (a page or a span of pages) in order. Each unit
//! depends on some `(layer, block)` pairs; the first unit that touches a layer
//! also depends on that layer's metadata blocks, which come first. A unit is
//! taken whole or not at all: the first one whose new blocks exceed the budget
//! ends the plan.
use vstd::prelude::*;
use crate::extents::{LayerLayout, PlanError, OBJECT_BLOCK_BYTES, object_blocks};

verus! {

/// Guest page granularity of the recorded first-touch list.
pub const PLAN_PAGE_BYTES: u64 = 4096;

/// Sector granularity of the merged index.
pub const SECTOR_BYTES: u64 = 512;

/// Sectors of a page.
pub const PAGE_SECTORS: u64 = 8;

/// The most sectors of one lookup: what 32 bits can count of whole pages.
pub const LOOKUP_SECTORS: u32 = 0xFFFF_FFF8;

/// Budget model: fixed header size of the planned artifact.
pub const HEADER_BYTES: u64 = 64;

/// Per-block entry size in the block table (object index, block id, reserved).
pub const ENTRY_BYTES: u64 = 8;

/// Object table entry: digest length, digest bytes and size, without the
/// digest bytes.
pub const OBJECT_ENTRY_FIXED_BYTES: u64 = 10;

/// Budget model: verify-frame granularity.
pub const FRAME_BYTES: u64 = 1048576;

/// Budget model: checksum bytes per verify frame.
pub const FRAME_CHECKSUM_BYTES: u64 = 4;

/// The most layers that the object table can index.
pub const MAX_LAYERS: usize = 65536;

/// A final memory layer object the planner maps into, by its content identity.
#[derive(Clone, Debug, PartialEq, Eq)]
pub struct FinalLayerSource {
    pub digest: String,
    pub size: u64,
}

/// Where the index of a sealed layer starts, and how long the layer file is.
#[derive(Clone, Copy, Debug, PartialEq, Eq)]
pub struct ReadOnlyLayerMetadata {
    pub index_offset: u64,
    pub file_size: u64,
}

/// What planning needs to know of an opened layer.
pub struct OpenedLayer {
    pub layout: LayerLayout,
    pub metadata: ReadOnlyLayerMetadata,
}

/// A run of virtual sectors to look up.
#[derive(Clone, Copy, Debug, PartialEq, Eq)]
pub struct Segment {
    pub offset: u64,
    pub length: u32,
}

/// One answer of the merged index: the `length` virtual sectors from sector
/// `offset` on lie at sector `moffset` of the layer that is `tag` layers below
/// the top, or are a hole when `physical` is false. Holes may also be left out
/// of the answers.
#[derive(Clone, Copy, Debug, PartialEq, Eq)]
pub struct SegmentMapping {
    pub offset: u64,
    pub moffset: u64,
    pub length: u32,
    pub tag: u32,
    pub physical: bool,
}

/// A block of a layer that a unit depends on.
pub struct Need {
    pub layer: usize,
    pub block: u32,
    pub metadata: bool,
}

/// The layers that are planned against, bottom to top.
pub struct Stack {
    pub layers: Seq<FinalLayerSource>,
    pub opened: Seq<OpenedLayer>,
}

/// How many pages a unit has, and how many of them are mapped to at least one
/// physical range.
pub struct Weight {
    pub pages: int,
    pub backed: int,
}

/// The weight of a page that is looked up on its own.
pub open spec fn one_page() -> Weight {
    Weight { pages: 1, backed: 1 }
}

/// The weight of a span for which the index gave these answers.
pub open spec fn span_weight(range: (u64, u64), mappings: Seq<SegmentMapping>) -> Weight {
    Weight {
        pages: range_pages(range),
        backed: backed_pages(
            mappings,
            range.0 as int / PLAN_PAGE_BYTES as int,
            range_pages(range),
        ),
    }
}

/// Whether one of the answers maps a sector of the page to a physical range.
pub open spec fn page_backed(mappings: Seq<SegmentMapping>, page: int) -> bool {
    exists|i: int| 0 <= i < mappings.len() && #[trigger] backs(mappings[i], page)
}

/// Whether an answer maps a sector of the page to a physical range.
pub open spec fn backs(m: SegmentMapping, page: int) -> bool {
    m.physical && m.length > 0 && m.offset < (page + 1) * PAGE_SECTORS && page * PAGE_SECTORS
        < m.offset + m.length
}

/// How many of the `n` pages from `first` on are mapped to at least one
/// physical range.
pub open spec fn backed_pages(mappings: Seq<SegmentMapping>, first: int, n: int) -> int
    decreases n,
{
    if n <= 0 {
        0
    } else {
        backed_pages(mappings, first, n - 1) + if page_backed(mappings, first + n - 1) {
            1int
        } else {
            0int
        }
    }
}

/// Planning after some units.
pub struct Progress {
    /// The layers that contribute blocks, in the order of the object table.
    pub objects: Seq<usize>,
    /// The selected blocks, in first-need order.
    pub blocks: Seq<Need>,
    /// The size of the planned artifact.
    pub spent: int,
    /// Whether a unit did not fit.
    pub truncated: bool,
    /// The error that ended planning.
    pub failed: Option<PlanError>,
    /// Pages before the cut that are mapped to at least one physical range.
    pub backed: int,
    /// Pages before the cut that are mapped to none.
    pub holes: int,
    /// Pages of the unit that did not fit, and of those after it.
    pub cut: int,
}

/// Planning before the first unit.
pub open spec fn no_progress() -> Progress {
    Progress {
        objects: Seq::empty(),
        blocks: Seq::empty(),
        spent: HEADER_BYTES as int,
        truncated: false,
        failed: None,
        backed: 0,
        holes: 0,
        cut: 0,
    }
}

/// Whether `blocks` holds this block of this layer.
pub open spec fn selects(blocks: Seq<Need>, layer: usize, block: int) -> bool {
    exists|i: int|
        0 <= i < blocks.len() && (#[trigger] blocks[i]).layer == layer && blocks[i].block == block
}

/// `have`, and behind it each of `more` that is not selected yet.
pub open spec fn extend_blocks(have: Seq<Need>, more: Seq<Need>) -> Seq<Need>
    decreases more.len(),
{
    if more.len() == 0 {
        have
    } else {
        let rest = extend_blocks(have, more.drop_last());
        if selects(rest, more.last().layer, more.last().block as int) {
            rest
        } else {
            rest.push(more.last())
        }
    }
}

/// `have`, and behind it each layer of `more` that is not there yet.
pub open spec fn extend_objects(have: Seq<usize>, more: Seq<Need>) -> Seq<usize>
    decreases more.len(),
{
    if more.len() == 0 {
        have
    } else {
        let rest = extend_objects(have, more.drop_last());
        if rest.contains(more.last().layer) {
            rest
        } else {
            rest.push(more.last().layer)
        }
    }
}

/// The layers of `deps`, each at its first occurrence.
pub open spec fn layer_order(deps: Seq<(usize, u32)>) -> Seq<usize>
    decreases deps.len(),
{
    if deps.len() == 0 {
        Seq::empty()
    } else {
        let rest = layer_order(deps.drop_last());
        if rest.contains(deps.last().0) {
            rest
        } else {
            rest.push(deps.last().0)
        }
    }
}

/// `deps` as data blocks.
pub open spec fn data_needs(deps: Seq<(usize, u32)>) -> Seq<Need> {
    deps.map_values(|d: (usize, u32)| Need { layer: d.0, block: d.1, metadata: false })
}

/// `blocks` as metadata blocks of `layer`.
pub open spec fn layer_needs(layer: usize, blocks: Seq<u32>) -> Seq<Need> {
    blocks.map_values(|b: u32| Need { layer, block: b, metadata: true })
}

/// Bytes of a digest.
pub open spec fn digest_len(digest: String) -> int {
    vstd::utf8::encode_utf8(digest@).len() as usize as int
}

/// Bytes of the checksums of `n` blocks.
pub open spec fn frame_bytes(n: int) -> int {
    FRAME_CHECKSUM_BYTES * ((n * OBJECT_BLOCK_BYTES + FRAME_BYTES - 1) / FRAME_BYTES as int)
}

/// Whether any of the answers has a physical range.
pub open spec fn backed(mappings: Seq<SegmentMapping>) -> bool {
    exists|i: int| 0 <= i < mappings.len() && (#[trigger] mappings[i]).physical
}

impl Stack {
    /// Every layer is opened, none is empty, and the object table can index
    /// them all.
    pub open spec fn wf(self) -> bool {
        &&& self.opened.len() == self.layers.len()
        &&& 0 < self.layers.len() <= MAX_LAYERS
        &&& forall|i: int|
            0 <= i < self.layers.len() ==> (#[trigger] self.layers[i]).size > 0
        &&& self.addressable()
    }

    /// The extents that planning computes of the layers' own metadata and
    /// jump tables stay within 64 bits.
    pub open spec fn addressable(self) -> bool {
        forall|i: int|
            #![trigger self.opened[i]]
            0 <= i < self.opened.len() ==> {
                &&& self.opened[i].layout.wf()
                &&& self.opened[i].layout.addressable(0, PLAN_PAGE_BYTES as int)
                &&& self.opened[i].layout.addressable(
                    self.opened[i].metadata.index_offset as int,
                    tail_len(self.opened[i].metadata),
                )
            }
    }

    /// An answer that names a layer of the stack, and an extent of it that
    /// stays within 64 bits.
    pub open spec fn mapping_ok(self, m: SegmentMapping) -> bool {
        m.physical ==> {
            &&& m.tag < self.layers.len()
            &&& m.moffset * SECTOR_BYTES <= u64::MAX
            &&& self.opened[self.layer_of(m)].layout.addressable(
                m.moffset * SECTOR_BYTES,
                m.length * SECTOR_BYTES,
            )
        }
    }

    /// Answers that can be resolved within 64 bits.
    pub open spec fn answer_ok(self, mappings: Seq<SegmentMapping>) -> bool {
        forall|i: int| 0 <= i < mappings.len() ==> self.mapping_ok(#[trigger] mappings[i])
    }

    /// The layer behind an answer: tags count from the top.
    pub open spec fn layer_of(self, m: SegmentMapping) -> int {
        self.layers.len() - 1 - m.tag
    }

    /// The blocks behind one answer.
    pub open spec fn mapping_blocks(self, m: SegmentMapping) -> Result<Seq<u32>, PlanError> {
        self.opened[self.layer_of(m)].layout.blocks_of(
            m.moffset * SECTOR_BYTES,
            m.length * SECTOR_BYTES,
            self.layers[self.layer_of(m)].size as int,
        )
    }

    /// The blocks behind all answers that have a physical range, in order.
    pub open spec fn resolve(self, mappings: Seq<SegmentMapping>) -> Result<
        Seq<(usize, u32)>,
        PlanError,
    >
        decreases mappings.len(),
    {
        if mappings.len() == 0 {
            Ok(Seq::empty())
        } else {
            match self.resolve(mappings.drop_last()) {
                Err(e) => Err(e),
                Ok(deps) => {
                    let m = mappings.last();
                    if !m.physical {
                        Ok(deps)
                    } else {
                        match self.mapping_blocks(m) {
                            Err(e) => Err(e),
                            Ok(blocks) => Ok(
                                deps + blocks.map_values(|b: u32| (self.layer_of(m) as usize, b)),
                            ),
                        }
                    }
                },
            }
        }
    }

    /// The blocks that hold a layer's header and its index.
    pub open spec fn metadata_blocks(self, layer: usize) -> Result<Seq<u32>, PlanError> {
        let opened = self.opened[layer as int];
        let size = self.layers[layer as int].size as int;
        match opened.layout.blocks_of(0, PLAN_PAGE_BYTES as int, size) {
            Err(e) => Err(e),
            Ok(header) => match opened.layout.blocks_of(
                opened.metadata.index_offset as int,
                tail_len(opened.metadata),
                size,
            ) {
                Err(e) => Err(e),
                Ok(tail) => Ok(header + tail),
            },
        }
    }

    /// The metadata blocks of those layers of `order` that are not among
    /// `objects`.
    pub open spec fn metadata_needs(self, order: Seq<usize>, objects: Seq<usize>) -> Result<
        Seq<Need>,
        PlanError,
    >
        decreases order.len(),
    {
        if order.len() == 0 {
            Ok(Seq::empty())
        } else {
            match self.metadata_needs(order.drop_last(), objects) {
                Err(e) => Err(e),
                Ok(needs) => if objects.contains(order.last()) {
                    Ok(needs)
                } else {
                    match self.metadata_blocks(order.last()) {
                        Err(e) => Err(e),
                        Ok(blocks) => Ok(needs + layer_needs(order.last(), blocks)),
                    }
                },
            }
        }
    }

    /// All that a unit with these dependencies needs: the metadata of the
    /// layers that it touches first, then its data blocks.
    pub open spec fn unit_needs(self, objects: Seq<usize>, deps: Seq<(usize, u32)>) -> Result<
        Seq<Need>,
        PlanError,
    > {
        match self.metadata_needs(layer_order(deps), objects) {
            Err(e) => Err(e),
            Ok(needs) => Ok(needs + data_needs(deps)),
        }
    }

    /// Bytes of the object table entries of these layers.
    pub open spec fn object_bytes(self, objects: Seq<usize>) -> int
        decreases objects.len(),
    {
        if objects.len() == 0 {
            0
        } else {
            self.object_bytes(objects.drop_last()) + OBJECT_ENTRY_FIXED_BYTES + digest_len(
                self.layers[objects.last() as int].digest,
            )
        }
    }

    /// The size of the artifact with this object table and `n` blocks: header,
    /// object table, entry table, frame checksums and slot payload.
    pub open spec fn artifact_bytes(self, objects: Seq<usize>, n: int) -> int {
        HEADER_BYTES + self.object_bytes(objects) + n * (OBJECT_BLOCK_BYTES + ENTRY_BYTES)
            + frame_bytes(n)
    }

    /// Takes a unit with these dependencies, whole or not at all: the artifact
    /// with its blocks must stay within the budget.
    pub open spec fn stage(
        self,
        p: Progress,
        deps: Seq<(usize, u32)>,
        weight: Weight,
        budget: int,
    ) -> Progress {
        match self.unit_needs(p.objects, deps) {
            Err(e) => Progress { failed: Some(e), ..p },
            Ok(needs) => {
                let objects = extend_objects(p.objects, needs);
                let blocks = extend_blocks(p.blocks, needs);
                let spent = self.artifact_bytes(objects, blocks.len() as int);
                if spent > budget {
                    Progress { truncated: true, cut: p.cut + weight.pages, ..p }
                } else {
                    Progress {
                        objects,
                        blocks,
                        spent,
                        backed: p.backed + weight.backed,
                        holes: p.holes + weight.pages - weight.backed,
                        ..p
                    }
                }
            },
        }
    }

    /// Takes a unit for which the index gave these answers.
    pub open spec fn take_unit(
        self,
        p: Progress,
        mappings: Seq<SegmentMapping>,
        weight: Weight,
        budget: int,
    ) -> Progress {
        match self.resolve(mappings) {
            Err(e) => Progress { failed: Some(e), ..p },
            Ok(deps) => if !backed(mappings) {
                Progress { holes: p.holes + weight.pages, ..p }
            } else {
                self.stage(p, deps, weight, budget)
            },
        }
    }

    /// Takes one page.
    pub open spec fn take_page(
        self,
        p: Progress,
        page: u32,
        mem_virtual_size: u64,
        mappings: Seq<SegmentMapping>,
        budget: int,
    ) -> Progress {
        if p.failed is Some {
            p
        } else if p.truncated {
            Progress { cut: p.cut + 1, ..p }
        } else if !page_in_image(page, mem_virtual_size) {
            Progress { failed: Some(PlanError::PageOutOfRange { page }), ..p }
        } else {
            self.take_unit(p, mappings, one_page(), budget)
        }
    }

    /// Takes one span of pages.
    pub open spec fn take_range(
        self,
        p: Progress,
        range: (u64, u64),
        mem_virtual_size: u64,
        mappings: Seq<SegmentMapping>,
        budget: int,
    ) -> Progress {
        if p.failed is Some {
            p
        } else if !range_in_image(range, mem_virtual_size) {
            Progress {
                failed: Some(PlanError::RangeOutOfRange { voffset: range.0, vlen: range.1 }),
                ..p
            }
        } else if p.truncated {
            Progress { cut: p.cut + range_pages(range), ..p }
        } else {
            self.take_unit(p, mappings, span_weight(range, mappings), budget)
        }
    }

    /// Planning after `pages`, where the index answered `answers[i]` for
    /// `pages[i]`.
    pub open spec fn after_pages(
        self,
        pages: Seq<u32>,
        mem_virtual_size: u64,
        answers: Seq<Vec<SegmentMapping>>,
        budget: int,
    ) -> Progress
        decreases pages.len(),
    {
        if pages.len() == 0 {
            no_progress()
        } else {
            self.take_page(
                self.after_pages(pages.drop_last(), mem_virtual_size, answers, budget),
                pages.last(),
                mem_virtual_size,
                answers[pages.len() - 1]@,
                budget,
            )
        }
    }

    /// Planning after `ranges`, where the index answered `answers[i]` for
    /// `ranges[i]`.
    pub open spec fn after_ranges(
        self,
        ranges: Seq<(u64, u64)>,
        mem_virtual_size: u64,
        answers: Seq<Vec<SegmentMapping>>,
        budget: int,
    ) -> Progress
        decreases ranges.len(),
    {
        if ranges.len() == 0 {
            no_progress()
        } else {
            self.take_range(
                self.after_ranges(ranges.drop_last(), mem_virtual_size, answers, budget),
                ranges.last(),
                mem_virtual_size,
                answers[ranges.len() - 1]@,
                budget,
            )
        }
    }

    /// Every block lies in its layer's object.
    pub open spec fn in_objects(self, blocks: Seq<Need>) -> bool {
        forall|i: int|
            #![trigger blocks[i]]
            0 <= i < blocks.len() ==> blocks[i].layer < self.layers.len() && blocks[i].block
                < object_blocks(self.layers[blocks[i].layer as int].size as int)
    }

    /// Blocks of all layers together.
    pub open spec fn total_blocks(self) -> int {
        total_blocks_upto(self.layers, self.layers.len() as int)
    }
}

/// Blocks of the first `n` layers together.
pub open spec fn total_blocks_upto(layers: Seq<FinalLayerSource>, n: int) -> int
    decreases n,
{
    if n <= 0 {
        0
    } else {
        total_blocks_upto(layers, n - 1) + object_blocks(layers[n - 1].size as int)
    }
}

impl Stack {
    /// Whether page `i` is looked up: no error and no cut came before it, and
    /// it lies in the image.
    pub open spec fn looks_up_page(
        self,
        pages: Seq<u32>,
        mem_virtual_size: u64,
        answers: Seq<Vec<SegmentMapping>>,
        budget: int,
        i: int,
    ) -> bool {
        let p = self.after_pages(pages.take(i), mem_virtual_size, answers, budget);
        p.failed is None && !p.truncated && page_in_image(pages[i], mem_virtual_size)
    }

    /// Whether span `i` is looked up.
    pub open spec fn looks_up_range(
        self,
        ranges: Seq<(u64, u64)>,
        mem_virtual_size: u64,
        answers: Seq<Vec<SegmentMapping>>,
        budget: int,
        i: int,
    ) -> bool {
        let p = self.after_ranges(ranges.take(i), mem_virtual_size, answers, budget);
        p.failed is None && !p.truncated && range_in_image(ranges[i], mem_virtual_size)
    }

    /// Whether `answers` holds what `lookup` answered for each of the first
    /// `n` pages that are looked up.
    pub open spec fn page_answers<F: Fn(Segment) -> Vec<SegmentMapping>>(
        self,
        lookup: F,
        pages: Seq<u32>,
        mem_virtual_size: u64,
        answers: Seq<Vec<SegmentMapping>>,
        budget: int,
        n: int,
    ) -> bool {
        forall|i: int|
            0 <= i < n && #[trigger] self.looks_up_page(pages, mem_virtual_size, answers, budget, i)
                ==> call_ensures(lookup, (page_segment(pages[i]),), answers[i])
    }

    /// Whether `answers` holds what `lookup` answered for each of the first
    /// `n` spans that are looked up.
    pub open spec fn range_answers<F: Fn(Segment) -> Vec<SegmentMapping>>(
        self,
        lookup: F,
        ranges: Seq<(u64, u64)>,
        mem_virtual_size: u64,
        answers: Seq<Vec<SegmentMapping>>,
        budget: int,
        n: int,
    ) -> bool {
        forall|i: int|
            0 <= i < n && #[trigger] self.looks_up_range(ranges, mem_virtual_size, answers, budget, i)
                ==> span_answered(lookup, ranges[i], answers[i]@)
    }

    /// Any segment of the image can be looked up, and the answers can be
    /// resolved within 64 bits.
    pub open spec fn lookup_ok<F: Fn(Segment) -> Vec<SegmentMapping>>(
        self,
        lookup: F,
        mem_virtual_size: u64,
    ) -> bool {
        forall|segment: Segment|
            #![trigger call_requires(lookup, (segment,))]
            segment_in_image(segment, mem_virtual_size) ==> {
                &&& call_requires(lookup, (segment,))
                &&& forall|answer: Vec<SegmentMapping>| #[trigger]
                    call_ensures(lookup, (segment,), answer) ==> self.answer_ok(answer@)
            }
    }
}

/// Whether the sectors of a segment lie in a memory image.
pub open spec fn segment_in_image(segment: Segment, mem_virtual_size: u64) -> bool {
    (segment.offset + segment.length) * SECTOR_BYTES <= mem_virtual_size
}

/// The error that names the first layer from `i` on whose object is empty.
pub open spec fn empty_layer(layers: Seq<FinalLayerSource>, i: int) -> Option<PlanError>
    decreases layers.len() - i,
{
    if i < 0 || i >= layers.len() {
        None
    } else if layers[i].size == 0 {
        Some(PlanError::EmptyLayer { layer: i as usize })
    } else {
        empty_layer(layers, i + 1)
    }
}

/// Why these layers cannot be planned against.
pub open spec fn layers_error(layers: Seq<FinalLayerSource>) -> Option<PlanError> {
    if layers.len() == 0 {
        Some(PlanError::NoLayers)
    } else if layers.len() > MAX_LAYERS {
        Some(PlanError::TooManyLayers)
    } else {
        empty_layer(layers, 0)
    }
}

/// Length of a layer's index and trailer.
pub open spec fn tail_len(metadata: ReadOnlyLayerMetadata) -> int {
    if metadata.file_size > metadata.index_offset {
        metadata.file_size - metadata.index_offset
    } else {
        0
    }
}

/// Whether a page lies in a memory image.
pub open spec fn page_in_image(page: u32, mem_virtual_size: u64) -> bool {
    (page + 1) * PLAN_PAGE_BYTES <= mem_virtual_size
}

/// Whether a span is a non-empty run of whole pages of a memory image.
pub open spec fn range_in_image(range: (u64, u64), mem_virtual_size: u64) -> bool {
    &&& range.1 > 0
    &&& range.0 % PLAN_PAGE_BYTES == 0
    &&& range.1 % PLAN_PAGE_BYTES == 0
    &&& range.0 + range.1 <= mem_virtual_size
}

/// Whether the ends of the spans that are runs of whole pages can be computed
/// in 64 bits.
pub open spec fn ranges_fit(ranges: Seq<(u64, u64)>) -> bool {
    forall|i: int|
        #![trigger ranges[i]]
        0 <= i < ranges.len() && ranges[i].1 > 0 && ranges[i].0 % PLAN_PAGE_BYTES == 0
            && ranges[i].1 % PLAN_PAGE_BYTES == 0 ==> ranges[i].0 + ranges[i].1 <= u64::MAX
}

/// Pages of a span.
pub open spec fn range_pages(range: (u64, u64)) -> int {
    range.1 as int / PLAN_PAGE_BYTES as int
}

/// Pages of all spans together.
pub open spec fn total_pages(ranges: Seq<(u64, u64)>) -> int
    decreases ranges.len(),
{
    if ranges.len() == 0 {
        0
    } else {
        total_pages(ranges.drop_last()) + range_pages(ranges.last())
    }
}

/// The sectors of a page.
pub open spec fn page_segment(page: u32) -> Segment {
    Segment { offset: (page * 8) as u64, length: 8 }
}

/// Sectors of a span.
pub open spec fn range_sectors(range: (u64, u64)) -> int {
    range.1 as int / SECTOR_BYTES as int
}

/// How many sectors of a span are looked up with its `j`-th lookup.
pub open spec fn lookup_len(range: (u64, u64), j: int) -> int {
    let left = range_sectors(range) - j * LOOKUP_SECTORS;
    if left < LOOKUP_SECTORS {
        left
    } else {
        LOOKUP_SECTORS as int
    }
}

/// The sectors of a span in one lookup, or in as many as it takes where the
/// index could not take their number in 32 bits.
pub open spec fn lookups(range: (u64, u64)) -> Seq<Segment> {
    Seq::new(
        ((range_sectors(range) + LOOKUP_SECTORS - 1) / LOOKUP_SECTORS as int) as nat,
        |j: int|
            Segment {
                offset: (range.0 / SECTOR_BYTES + j * LOOKUP_SECTORS) as u64,
                length: lookup_len(range, j) as u32,
            },
    )
}

/// Answers, one after the other.
pub open spec fn flat(answers: Seq<Vec<SegmentMapping>>) -> Seq<SegmentMapping>
    decreases answers.len(),
{
    if answers.len() == 0 {
        Seq::empty()
    } else {
        flat(answers.drop_last()) + answers.last()@
    }
}

/// Whether `parts` are what `lookup` answered for the lookups of a span.
pub open spec fn parts_answered<F: Fn(Segment) -> Vec<SegmentMapping>>(
    lookup: F,
    range: (u64, u64),
    parts: Seq<Vec<SegmentMapping>>,
) -> bool {
    &&& parts.len() == lookups(range).len()
    &&& forall|j: int|
        0 <= j < parts.len() ==> call_ensures(
            lookup,
            (lookups(range)[j],),
            #[trigger] parts[j],
        )
}

/// Whether `answer` is what `lookup` answered for a span.
pub open spec fn span_answered<F: Fn(Segment) -> Vec<SegmentMapping>>(
    lookup: F,
    range: (u64, u64),
    answer: Seq<SegmentMapping>,
) -> bool {
    exists|parts: Seq<Vec<SegmentMapping>>| #[trigger]
        parts_answered(lookup, range, parts) && answer == flat(parts)
}

/// Whether `found` tells, for each dependency, its object, its block and its
/// position in the selection.
pub open spec fn resolution_of(
    found: Seq<(u16, u32, usize)>,
    deps: Seq<(usize, u32)>,
    objects: Seq<usize>,
    blocks: Seq<Need>,
) -> bool {
    &&& found.len() == deps.len()
    &&& forall|i: int|
        #![trigger found[i]]
        #![trigger deps[i]]
        0 <= i < deps.len() ==> {
            &&& found[i].0 < objects.len()
            &&& objects[found[i].0 as int] == deps[i].0
            &&& found[i].1 == deps[i].1
            &&& found[i].2 < blocks.len()
            &&& blocks[found[i].2 as int].layer == deps[i].0
            &&& blocks[found[i].2 as int].block == deps[i].1
        }
}

/// How many of the blocks are metadata blocks.
pub open spec fn metadata_count(blocks: Seq<Need>) -> int
    decreases blocks.len(),
{
    if blocks.len() == 0 {
        0
    } else {
        metadata_count(blocks.drop_last()) + if blocks.last().metadata {
            1int
        } else {
            0int
        }
    }
}

/// How many of the blocks `0..n` of a layer are not selected.
pub open spec fn missing_blocks(blocks: Seq<Need>, layer: usize, n: int) -> int
    decreases n,
{
    if n <= 0 {
        0
    } else {
        missing_blocks(blocks, layer, n - 1) + if selects(blocks, layer, n - 1) {
            0int
        } else {
            1int
        }
    }
}

/// How many runs of blocks that are not selected start among the blocks `0..n`
/// of a layer.
pub open spec fn missing_runs(blocks: Seq<Need>, layer: usize, n: int) -> int
    decreases n,
{
    if n <= 0 {
        0
    } else {
        missing_runs(blocks, layer, n - 1) + if !selects(blocks, layer, n - 1) && (n == 1
            || selects(blocks, layer, n - 2)) {
            1int
        } else {
            0int
        }
    }
}

impl Stack {
    /// Missing blocks of the first `n` layers, of those that contribute.
    pub open spec fn gap_blocks(self, p: Progress, n: int) -> int
        decreases n,
    {
        if n <= 0 {
            0
        } else {
            self.gap_blocks(p, n - 1) + if p.objects.contains((n - 1) as usize) {
                missing_blocks(
                    p.blocks,
                    (n - 1) as usize,
                    object_blocks(self.layers[n - 1].size as int),
                )
            } else {
                0
            }
        }
    }

    /// Runs of missing blocks of the first `n` layers, of those that
    /// contribute.
    pub open spec fn gap_runs(self, p: Progress, n: int) -> int
        decreases n,
    {
        if n <= 0 {
            0
        } else {
            self.gap_runs(p, n - 1) + if p.objects.contains((n - 1) as usize) {
                missing_runs(
                    p.blocks,
                    (n - 1) as usize,
                    object_blocks(self.layers[n - 1].size as int),
                )
            } else {
                0
            }
        }
    }
}

} // verus!
