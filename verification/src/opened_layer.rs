//! Opened layers: what is known of a layer once its container is unwrapped,
//! and whether planning can compute with it.
use vstd::prelude::*;
use crate::extents::{LayerLayout, OBJECT_BLOCK_BYTES, PlanError, div_ceil, object_blocks};
use crate::plan_model::{
    FinalLayerSource, OpenedLayer, PLAN_PAGE_BYTES, ReadOnlyLayerMetadata, SECTOR_BYTES,
    SegmentMapping, Stack, tail_len, total_blocks_upto,
};

verus! {

/// The jump table of a compressed layer: its logical block size and, for each
/// block, the `(offset, length)` of its compressed form.
pub struct ZFileTable {
    pub block_size: u32,
    pub extents: Vec<(u64, u64)>,
}

/// What is known of a layer file that may lie in a tar archive (from `tar_base`
/// on) and may be compressed, once its metadata is read.
pub open spec fn opened_from(
    tar_base: Option<u64>,
    zfile: Option<ZFileTable>,
    metadata: Option<ReadOnlyLayerMetadata>,
) -> Result<OpenedLayer, PlanError> {
    let base = match tar_base {
        Some(base) => base,
        None => 0,
    };
    match metadata {
        None => Err(PlanError::LayerMetadataMissing),
        Some(metadata) => Ok(
            OpenedLayer {
                layout: match zfile {
                    Some(z) => LayerLayout::ZFile {
                        block_size: z.block_size,
                        extents: z.extents,
                        tar_base: base,
                    },
                    None => LayerLayout::Raw { tar_base: base },
                },
                metadata,
            },
        ),
    }
}

/// Whether two layouts are the same, extent by extent.
pub open spec fn layouts_alike(a: LayerLayout, b: LayerLayout) -> bool {
    match (a, b) {
        (LayerLayout::Raw { tar_base: s }, LayerLayout::Raw { tar_base: t }) => s == t,
        (
            LayerLayout::ZFile { block_size: m, extents: x, tar_base: s },
            LayerLayout::ZFile { block_size: n, extents: y, tar_base: t },
        ) => m == n && x@ == y@ && s == t,
        _ => false,
    }
}

/// Whether the same is known of two layers.
pub open spec fn opened_alike(a: OpenedLayer, b: OpenedLayer) -> bool {
    layouts_alike(a.layout, b.layout) && a.metadata == b.metadata
}

/// Whether two jump tables are the same, extent by extent.
pub open spec fn tables_alike(a: Option<ZFileTable>, b: Option<ZFileTable>) -> bool {
    match (a, b) {
        (Some(x), Some(y)) => x.block_size == y.block_size && x.extents@ == y.extents@,
        (None, None) => true,
        _ => false,
    }
}

/// Layers are opened by what was read of them, wherever it was read from: the
/// same base, jump table and metadata give the same layout and metadata, or the
/// same error.
pub proof fn law_same_reads_open_alike(
    tar_base: Option<u64>,
    a: Option<ZFileTable>,
    b: Option<ZFileTable>,
    metadata: Option<ReadOnlyLayerMetadata>,
)
    requires
        tables_alike(a, b),
    ensures
        match (opened_from(tar_base, a, metadata), opened_from(tar_base, b, metadata)) {
            (Ok(x), Ok(y)) => opened_alike(x, y),
            (Err(x), Err(y)) => x == y,
            _ => false,
        },
{
}

/// The layout of a layer file that may lie in a tar archive (from `tar_base`
/// on) and may be compressed, together with its metadata.
pub fn open_layer(
    tar_base: Option<u64>,
    zfile: Option<ZFileTable>,
    metadata: Option<ReadOnlyLayerMetadata>,
) -> (res: Result<OpenedLayer, PlanError>)
    ensures
        res == opened_from(tar_base, zfile, metadata),
{
    let base: u64 = match tar_base {
        Some(base) => base,
        None => 0,
    };
    let layout: LayerLayout = match zfile {
        Some(z) => LayerLayout::ZFile {
            block_size: z.block_size,
            extents: z.extents,
            tar_base: base,
        },
        None => LayerLayout::Raw { tar_base: base },
    };
    match metadata {
        Some(metadata) => Ok(OpenedLayer { layout, metadata }),
        None => Err(PlanError::LayerMetadataMissing),
    }
}

/// Whether a sum of three numbers fits in 64 bits.
fn sum_fits(a: u64, b: u64, c: u64) -> (fits: bool)
    ensures
        fits == (a + b + c <= u64::MAX),
{
    a as u128 + b as u128 + c as u128 <= u64::MAX as u128
}

/// Whether a logical extent can be planned within 64 bits.
fn extent_fits(layout: &LayerLayout, offset: u64, len: u64) -> (fits: bool)
    ensures
        fits == layout.addressable(offset as int, len as int),
{
    if len == 0 {
        return true;
    }
    match layout {
        LayerLayout::Raw { tar_base } => sum_fits(offset, len, *tar_base),
        LayerLayout::ZFile { .. } => sum_fits(offset, len, 0),
    }
}

/// Whether the extents that planning computes of a layer's own metadata and
/// jump table stay within 64 bits.
pub fn layer_fits(layer: &OpenedLayer) -> (fits: bool)
    ensures
        fits == {
            &&& layer.layout.wf()
            &&& layer.layout.addressable(0, PLAN_PAGE_BYTES as int)
            &&& layer.layout.addressable(
                layer.metadata.index_offset as int,
                tail_len(layer.metadata),
            )
        },
{
    match &layer.layout {
        LayerLayout::Raw { .. } => {},
        LayerLayout::ZFile { extents, tar_base, .. } => {
            let mut i: usize = 0;
            while i < extents.len()
                invariant
                    i <= extents@.len(),
                    layer.layout matches LayerLayout::ZFile { extents: e, tar_base: t, .. } && e
                        == *extents && t == *tar_base,
                    forall|k: int|
                        #![trigger extents@[k]]
                        0 <= k < i ==> extents@[k].0 + extents@[k].1 + *tar_base <= u64::MAX,
                decreases extents@.len() - i,
            {
                if !sum_fits(extents[i].0, extents[i].1, *tar_base) {
                    return false;
                }
                i = i + 1;
            }
        },
    }
    let tail: u64 = layer.metadata.file_size.saturating_sub(layer.metadata.index_offset);
    extent_fits(&layer.layout, 0, PLAN_PAGE_BYTES) && extent_fits(
        &layer.layout,
        layer.metadata.index_offset,
        tail,
    )
}

/// Whether an answer names a layer of the stack, and an extent of it whose end,
/// in the final object where it lies there as it is, is a number of 64 bits.
pub open spec fn mapping_fits(opened: Seq<OpenedLayer>, m: SegmentMapping) -> bool {
    m.physical ==> {
        &&& m.tag < opened.len()
        &&& m.moffset * 512 <= u64::MAX
        &&& m.length > 0 ==> match opened[opened.len() - 1 - m.tag].layout {
            LayerLayout::Raw { tar_base } => (m.moffset + m.length) * 512 + tar_base <= u64::MAX,
            LayerLayout::ZFile { .. } => (m.moffset + m.length) * 512 <= u64::MAX,
        }
    }
}

/// Whether each of some answers does.
pub open spec fn mappings_fit(opened: Seq<OpenedLayer>, mappings: Seq<SegmentMapping>) -> bool {
    forall|i: int| 0 <= i < mappings.len() ==> mapping_fits(opened, #[trigger] mappings[i])
}

/// Whether answers of the merged index name layers of the stack, and extents
/// that stay within 64 bits.
pub fn answer_fits(opened: &[OpenedLayer], mappings: &Vec<SegmentMapping>) -> (fits: bool)
    ensures
        fits == mappings_fit(opened@, mappings@),
        forall|layers: Seq<FinalLayerSource>|
            layers.len() == opened@.len() ==> fits == #[trigger] (Stack {
                layers,
                opened: opened@,
            }).answer_ok(mappings@),
{
    let mut i: usize = 0;
    while i < mappings.len()
        invariant
            i <= mappings@.len(),
            forall|k: int| 0 <= k < i ==> mapping_fits(opened@, #[trigger] mappings@[k]),
            forall|layers: Seq<FinalLayerSource>, k: int|
                #![trigger (Stack { layers, opened: opened@ }).mapping_ok(mappings@[k])]
                layers.len() == opened@.len() && 0 <= k < i ==> (Stack {
                    layers,
                    opened: opened@,
                }).mapping_ok(mappings@[k]),
        decreases mappings@.len() - i,
    {
        let m: SegmentMapping = mappings[i];
        let mut fits: bool = true;
        if m.physical {
            let offset: u128 = m.moffset as u128 * SECTOR_BYTES as u128;
            fits = (m.tag as u64) < opened.len() as u64 && offset <= u64::MAX as u128
                && extent_fits(
                &opened[opened.len() - 1 - m.tag as usize].layout,
                offset as u64,
                m.length as u64 * SECTOR_BYTES,
            );
        }
        assert(fits == mapping_fits(opened@, mappings@[i as int]));
        proof {
            assert forall|layers: Seq<FinalLayerSource>| layers.len() == opened@.len() implies fits
                == #[trigger] (Stack { layers, opened: opened@ }).mapping_ok(mappings@[i as int]) by {
            }
        }
        if !fits {
            proof {
                assert forall|layers: Seq<FinalLayerSource>| layers.len() == opened@.len() implies
                    !#[trigger] (Stack { layers, opened: opened@ }).answer_ok(mappings@) by {
                    assert(!(Stack { layers, opened: opened@ }).mapping_ok(mappings@[i as int]));
                }
            }
            return false;
        }
        i = i + 1;
    }
    true
}

/// The blocks of all layers together, where a machine word can count them.
pub fn total_blocks(layers: &[FinalLayerSource]) -> (total: Option<usize>)
    ensures
        match total {
            Some(n) => n == total_blocks_upto(layers@, layers@.len() as int),
            None => total_blocks_upto(layers@, layers@.len() as int) > usize::MAX,
        },
{
    let mut total: usize = 0;
    let mut i: usize = 0;
    while i < layers.len()
        invariant
            i <= layers@.len(),
            total == total_blocks_upto(layers@, i as int),
        decreases layers@.len() - i,
    {
        let blocks: u64 = div_ceil(layers[i].size, OBJECT_BLOCK_BYTES);
        let sum: u128 = total as u128 + blocks as u128;
        if sum > usize::MAX as u128 {
            proof {
                lemma_upto(layers@, i + 1, layers@.len() as int);
            }
            return None;
        }
        total = sum as usize;
        i = i + 1;
    }
    Some(total)
}

proof fn lemma_upto(layers: Seq<FinalLayerSource>, a: int, b: int)
    requires
        0 <= a <= b,
    ensures
        total_blocks_upto(layers, a) <= total_blocks_upto(layers, b),
    decreases b - a,
{
    if a < b {
        lemma_upto(layers, a, b - 1);
        assert(object_blocks(layers[b - 1].size as int) >= 0);
    }
}

} // verus!
