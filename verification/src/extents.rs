//! Byte extents of a layer file and the final-object blocks that back them.
//!
//! A layer is addressed logically (the bytes of its LSMT file). Its final
//! object may wrap those bytes in a tar archive, which shifts them by a base
//! offset, or compress them block by block, in which case a jump table gives
//! the extent of every compressed block.
use vstd::prelude::*;

verus! {

/// Cache-block granularity of the final object (and of prefetch refills).
pub const OBJECT_BLOCK_BYTES: u64 = 262144;

/// Why a plan could not be made.
#[derive(Clone, Copy, Debug, PartialEq, Eq)]
pub enum PlanError {
    /// There is no layer to plan against.
    NoLayers,
    /// There are more layers than an object table can index.
    TooManyLayers,
    /// The layer at this index has a final object of zero bytes.
    EmptyLayer { layer: usize },
    /// The metadata of a layer could not be found.
    LayerMetadataMissing,
    /// A compressed layer declares a block size of zero.
    ZeroZFileBlock,
    /// The jump table of a compressed layer has no entry for this block.
    MissingExtent { block: u64 },
    /// An extent to align holds no byte.
    EmptyExtent,
    /// A block id does not fit in 32 bits.
    BlockIdOverflow,
    /// A page lies past the end of the memory image.
    PageOutOfRange { page: u32 },
    /// A span is empty, unaligned or past the end of the memory image.
    RangeOutOfRange { voffset: u64, vlen: u64 },
}

/// How the logical bytes of a layer lie in its final object.
pub enum LayerLayout {
    /// Plain bytes, shifted by the tar base offset (zero without a tar).
    Raw { tar_base: u64 },
    /// Compressed in blocks of `block_size` logical bytes. `extents[i]` is the
    /// `(offset, length)` of the compressed form of block `i`, relative to
    /// the tar base offset.
    ZFile { block_size: u32, extents: Vec<(u64, u64)>, tar_base: u64 },
}

/// Number of blocks of an object of `size` bytes.
pub open spec fn object_blocks(size: int) -> int {
    (size + OBJECT_BLOCK_BYTES - 1) / OBJECT_BLOCK_BYTES as int
}

/// The first block that the extent at `offset` touches.
pub open spec fn first_block(offset: int) -> int {
    offset / OBJECT_BLOCK_BYTES as int
}

/// The last block that a non-empty extent touches, cut at the object's end.
pub open spec fn last_block(offset: int, len: int, size: int) -> int {
    let last = (offset + len - 1) / OBJECT_BLOCK_BYTES as int;
    let limit = if object_blocks(size) > 0 {
        object_blocks(size) - 1
    } else {
        0
    };
    if last < limit {
        last
    } else {
        limit
    }
}

/// The blocks of an object of `size` bytes that the extent of `len` bytes at
/// `offset` touches, in ascending order.
pub open spec fn aligned_blocks(offset: int, len: int, size: int) -> Result<Seq<u32>, PlanError> {
    let first = first_block(offset);
    let last = last_block(offset, len, size);
    if len <= 0 {
        Err(PlanError::EmptyExtent)
    } else if last < first {
        Ok(Seq::empty())
    } else if last > u32::MAX {
        Err(PlanError::BlockIdOverflow)
    } else {
        Ok(Seq::new((last - first + 1) as nat, |i: int| (first + i) as u32))
    }
}

/// The blocks that are collected before [`aligned_blocks`] ends, in an error
/// or not: those with a block id of 32 bits.
pub open spec fn aligned_prefix(offset: int, len: int, size: int) -> Seq<u32> {
    let first = first_block(offset);
    let last = last_block(offset, len, size);
    let end = if last > u32::MAX {
        u32::MAX as int
    } else {
        last
    };
    if len <= 0 || end < first {
        Seq::empty()
    } else {
        Seq::new((end - first + 1) as nat, |i: int| (first + i) as u32)
    }
}

/// The blocks that hold the compressed blocks `idx..=last` of a jump table.
pub open spec fn zfile_blocks(
    extents: Seq<(u64, u64)>,
    tar_base: int,
    size: int,
    idx: int,
    last: int,
) -> Result<Seq<u32>, PlanError>
    decreases last + 1 - idx,
{
    if idx > last {
        Ok(Seq::empty())
    } else if !(0 <= idx < extents.len()) {
        Err(PlanError::MissingExtent { block: idx as u64 })
    } else {
        match aligned_blocks(extents[idx].0 + tar_base, extents[idx].1 as int, size) {
            Err(e) => Err(e),
            Ok(head) => match zfile_blocks(extents, tar_base, size, idx + 1, last) {
                Err(e) => Err(e),
                Ok(rest) => Ok(head + rest),
            },
        }
    }
}

/// The blocks that are collected before [`zfile_blocks`] ends, in an error or
/// not.
pub open spec fn zfile_prefix(
    extents: Seq<(u64, u64)>,
    tar_base: int,
    size: int,
    idx: int,
    last: int,
) -> Seq<u32>
    decreases last + 1 - idx,
{
    if idx > last || !(0 <= idx < extents.len()) {
        Seq::empty()
    } else {
        let offset = extents[idx].0 + tar_base;
        let len = extents[idx].1 as int;
        match aligned_blocks(offset, len, size) {
            Err(_) => aligned_prefix(offset, len, size),
            Ok(head) => head + zfile_prefix(extents, tar_base, size, idx + 1, last),
        }
    }
}

impl LayerLayout {
    /// The jump table's extents stay within 64 bits once shifted.
    pub open spec fn wf(self) -> bool {
        match self {
            LayerLayout::Raw { .. } => true,
            LayerLayout::ZFile { extents, tar_base, .. } => forall|i: int|
                #![trigger extents@[i]]
                0 <= i < extents@.len() ==> extents@[i].0 + extents@[i].1 + tar_base <= u64::MAX,
        }
    }

    /// A logical extent whose end, shifted where the layout shifts it, stays
    /// within 64 bits.
    pub open spec fn addressable(self, offset: int, len: int) -> bool {
        len > 0 ==> match self {
            LayerLayout::Raw { tar_base } => offset + len + tar_base <= u64::MAX,
            LayerLayout::ZFile { .. } => offset + len <= u64::MAX,
        }
    }

    /// The final-object blocks behind `len` logical bytes at `offset`.
    pub open spec fn blocks_of(self, offset: int, len: int, size: int) -> Result<
        Seq<u32>,
        PlanError,
    > {
        if len == 0 {
            Ok(Seq::empty())
        } else {
            match self {
                LayerLayout::Raw { tar_base } => aligned_blocks(offset + tar_base, len, size),
                LayerLayout::ZFile { block_size, extents, tar_base } => if block_size == 0 {
                    Err(PlanError::ZeroZFileBlock)
                } else {
                    zfile_blocks(
                        extents@,
                        tar_base as int,
                        size,
                        offset / block_size as int,
                        (offset + len - 1) / block_size as int,
                    )
                },
            }
        }
    }

    /// The blocks that are collected before [`Self::blocks_of`] ends, in an
    /// error or not.
    pub open spec fn prefix_of(self, offset: int, len: int, size: int) -> Seq<u32> {
        if len == 0 {
            Seq::empty()
        } else {
            match self {
                LayerLayout::Raw { tar_base } => aligned_prefix(offset + tar_base, len, size),
                LayerLayout::ZFile { block_size, extents, tar_base } => if block_size == 0 {
                    Seq::empty()
                } else {
                    zfile_prefix(
                        extents@,
                        tar_base as int,
                        size,
                        offset / block_size as int,
                        (offset + len - 1) / block_size as int,
                    )
                },
            }
        }
    }
}

/// Rounds the quotient of `a` and `b` up.
pub fn div_ceil(a: u64, b: u64) -> (q: u64)
    requires
        b > 0,
    ensures
        q == (a + b - 1) / b as int,
{
    let q: u64 = a / b;
    let r: u64 = a % b;
    proof {
        let (ai, bi) = (a as int, b as int);
        vstd::arithmetic::div_mod::lemma_fundamental_div_mod(ai, bi);
        if r == 0 {
            vstd::arithmetic::div_mod::lemma_fundamental_div_mod_converse(
                ai + bi - 1,
                bi,
                q as int,
                bi - 1,
            );
        } else {
            assert(bi * (q + 1) == bi * q + bi) by (nonlinear_arith);
            vstd::arithmetic::div_mod::lemma_fundamental_div_mod_converse(
                ai + bi - 1,
                bi,
                q + 1,
                r - 1,
            );
            assert(q < u64::MAX) by {
                if q == u64::MAX {
                    assert(bi * q >= q) by (nonlinear_arith)
                        requires
                            bi >= 1,
                            q >= 0,
                    ;
                }
            }
        }
    }
    if r == 0 {
        q
    } else {
        q + 1
    }
}

/// Appends to `out` the blocks of an object of `object_size` bytes that the
/// extent of `len` bytes at `offset` touches.
pub fn push_aligned_blocks(offset: u64, len: u64, object_size: u64, out: &mut Vec<u32>) -> (res:
    Result<(), PlanError>)
    requires
        offset + len <= u64::MAX,
    ensures
        match aligned_blocks(offset as int, len as int, object_size as int) {
            Ok(blocks) => res is Ok && final(out)@ == old(out)@ + blocks,
            Err(e) => res == Err::<(), PlanError>(e) && final(out)@ == old(out)@ + aligned_prefix(
                offset as int,
                len as int,
                object_size as int,
            ),
        },
{
    if len == 0 {
        assert(out@ =~= out@ + Seq::<u32>::empty());
        return Err(PlanError::EmptyExtent);
    }
    let total: u64 = div_ceil(object_size, OBJECT_BLOCK_BYTES);
    let first: u64 = offset / OBJECT_BLOCK_BYTES;
    let mut last: u64 = (offset + len - 1) / OBJECT_BLOCK_BYTES;
    let limit: u64 = total.saturating_sub(1);
    if last > limit {
        last = limit;
    }
    assert(last == last_block(offset as int, len as int, object_size as int));
    let ghost before = out@;
    let mut block: u64 = first;
    assert(out@ =~= before + Seq::new(0, |i: int| (first + i) as u32));
    while block <= last
        invariant
            len > 0,
            first == first_block(offset as int),
            last == last_block(offset as int, len as int, object_size as int),
            before == old(out)@,
            first <= block,
            last < 0x4000_0000_0000,
            block <= last + 1 || block == first,
            block > first ==> block - 1 <= u32::MAX,
            out@ == before + Seq::new((block - first) as nat, |i: int| (first + i) as u32),
        decreases last + 1 - block,
    {
        if block > 0xffff_ffff {
            return Err(PlanError::BlockIdOverflow);
        }
        out.push(block as u32);
        block = block + 1;
        assert(out@ =~= before + Seq::new((block - first) as nat, |i: int| (first + i) as u32));
    }
    Ok(())
}

/// Appends to `out` the final-object blocks behind one extent of the logical
/// layer file.
pub fn map_extent_blocks(
    layout: &LayerLayout,
    logical_offset: u64,
    logical_len: u64,
    object_size: u64,
    out: &mut Vec<u32>,
) -> (res: Result<(), PlanError>)
    requires
        layout.wf(),
        layout.addressable(logical_offset as int, logical_len as int),
    ensures
        match layout.blocks_of(logical_offset as int, logical_len as int, object_size as int) {
            Ok(blocks) => res is Ok && final(out)@ == old(out)@ + blocks,
            Err(e) => res == Err::<(), PlanError>(e) && final(out)@ == old(out)@
                + layout.prefix_of(logical_offset as int, logical_len as int, object_size as int),
        },
{
    if logical_len == 0 {
        assert(out@ =~= out@ + Seq::<u32>::empty());
        return Ok(());
    }
    match layout {
        LayerLayout::Raw { tar_base } => push_aligned_blocks(
            logical_offset + *tar_base,
            logical_len,
            object_size,
            out,
        ),
        LayerLayout::ZFile { block_size, extents, tar_base } => {
            if *block_size == 0 {
                assert(out@ =~= out@ + Seq::<u32>::empty());
                return Err(PlanError::ZeroZFileBlock);
            }
            let zblock: u64 = *block_size as u64;
            let first: u64 = logical_offset / zblock;
            let last: u64 = (logical_offset + logical_len - 1) / zblock;
            let ghost before = out@;
            let ghost whole = zfile_blocks(
                extents@,
                *tar_base as int,
                object_size as int,
                first as int,
                last as int,
            );
            let mut idx: u64 = first;
            let mut more: bool = first <= last;
            while more
                invariant
                    layout.wf(),
                    *layout == (LayerLayout::ZFile {
                        block_size: *block_size,
                        extents: *extents,
                        tar_base: *tar_base,
                    }),
                    whole == layout.blocks_of(
                        logical_offset as int,
                        logical_len as int,
                        object_size as int,
                    ),
                    more ==> idx <= last,
                    before == old(out)@,
                    whole is Err ==> more && before + layout.prefix_of(
                        logical_offset as int,
                        logical_len as int,
                        object_size as int,
                    ) == out@ + zfile_prefix(
                        extents@,
                        *tar_base as int,
                        object_size as int,
                        idx as int,
                        last as int,
                    ),
                    ({
                        let rest = if more {
                            zfile_blocks(
                                extents@,
                                *tar_base as int,
                                object_size as int,
                                idx as int,
                                last as int,
                            )
                        } else {
                            Ok(Seq::empty())
                        };
                        match rest {
                            Err(e) => whole == Err::<Seq<u32>, PlanError>(e),
                            Ok(tail) => whole is Ok && out@ + tail == before + whole->Ok_0,
                        }
                    }),
                decreases (if more { last + 1 - idx } else { 0 }),
            {
                if idx >= extents.len() as u64 {
                    return Err(PlanError::MissingExtent { block: idx });
                }
                let extent: (u64, u64) = extents[idx as usize];
                let ghost prev = out@;
                match push_aligned_blocks(extent.0 + *tar_base, extent.1, object_size, out) {
                    Ok(()) => {},
                    Err(e) => {
                        return Err(e);
                    },
                }
                proof {
                    let head = aligned_blocks(
                        extents@[idx as int].0 + *tar_base,
                        extents@[idx as int].1 as int,
                        object_size as int,
                    )->Ok_0;
                    let rest = zfile_blocks(
                        extents@,
                        *tar_base as int,
                        object_size as int,
                        idx + 1,
                        last as int,
                    );
                    if rest is Ok {
                        assert(prev + (head + rest->Ok_0) =~= (prev + head) + rest->Ok_0);
                    }
                    if idx == last {
                        assert(rest == Ok::<Seq<u32>, PlanError>(Seq::empty()));
                    }
                }
                if idx == last {
                    more = false;
                } else {
                    idx = idx + 1;
                }
            }
            assert(out@ + Seq::<u32>::empty() =~= out@);
            Ok(())
        },
    }
}

} // verus!
