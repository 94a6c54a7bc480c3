//! Laws on extents, byte by byte: which blocks of a final object hold the
//! stored form of which logical bytes of a layer.
use vstd::prelude::*;
use crate::extents::{LayerLayout, PlanError, aligned_blocks, map_extent_blocks, zfile_blocks};

verus! {

/// Whether byte `at` of the final object belongs to the stored form of logical
/// byte `x` of a layer: a plain byte is stored as itself, a compressed one
/// through every byte of the compressed form of its block.
pub open spec fn stores(layout: LayerLayout, x: int, at: int) -> bool {
    match layout {
        LayerLayout::Raw { tar_base } => at == x + tar_base,
        LayerLayout::ZFile { block_size, extents, tar_base } => {
            let extent = extents@[x / block_size as int];
            extent.0 + tar_base <= at < extent.0 + extent.1 + tar_base
        },
    }
}

/// Whether byte `a` stores logical byte `x`, byte `b` stores logical byte `y`,
/// and the first pair comes before the second one.
pub open spec fn stored_in_order(layout: LayerLayout, x: int, a: int, y: int, b: int) -> bool {
    stores(layout, x, a) && stores(layout, y, b) && (x < y || (x == y && a < b))
}

/// Whether a logical byte has a stored form: the jump table of a compressed
/// layer has a non-empty entry for its block.
pub open spec fn stored(layout: LayerLayout, x: int) -> bool {
    match layout {
        LayerLayout::Raw { .. } => true,
        LayerLayout::ZFile { block_size, extents, .. } => {
            &&& block_size > 0
            &&& 0 <= x / (block_size as int) < extents@.len()
            &&& extents@[x / block_size as int].1 > 0
        },
    }
}

/// Whether a jump table has a non-empty entry of this index.
spec fn filled(extents: Seq<(u64, u64)>, k: int) -> bool {
    0 <= k < extents.len() && extents[k].1 > 0
}

/// Every byte that an extent has in the object lies in one of its blocks.
proof fn lemma_aligned_holds(offset: int, len: int, size: int, at: int)
    requires
        0 <= offset <= at < offset + len,
        at / 262144 * 262144 < size,
        aligned_blocks(offset, len, size) is Ok,
    ensures
        at / 262144 <= u32::MAX,
        aligned_blocks(offset, len, size)->Ok_0.contains((at / 262144) as u32),
{
    let blocks = aligned_blocks(offset, len, size)->Ok_0;
    let i = at / 262144 - offset / 262144;
    assert(0 <= i < blocks.len());
    assert(blocks[i] == (at / 262144) as u32);
}

/// The blocks of an extent each hold a byte of it and a byte of the object.
proof fn lemma_aligned_only(offset: int, len: int, size: int, i: int) -> (at: int)
    requires
        0 <= offset,
        0 < size,
        aligned_blocks(offset, len, size) is Ok,
        0 <= i < aligned_blocks(offset, len, size)->Ok_0.len(),
    ensures
        offset <= at < offset + len,
        at / 262144 == aligned_blocks(offset, len, size)->Ok_0[i],
        aligned_blocks(offset, len, size)->Ok_0[i] * 262144 < size,
        aligned_blocks(offset, len, size)->Ok_0[i] == offset / 262144 + i,
{
    let blocks = aligned_blocks(offset, len, size)->Ok_0;
    let block = offset / 262144 + i;
    assert(blocks[i] == block);
    if i == 0 {
        offset
    } else {
        block * 262144
    }
}

/// What [`lemma_aligned_holds`] says, for one entry of a jump table.
proof fn lemma_zfile_holds(
    extents: Seq<(u64, u64)>,
    tar_base: int,
    size: int,
    idx: int,
    last: int,
    k: int,
    at: int,
)
    requires
        0 <= idx <= k <= last,
        0 <= tar_base,
        zfile_blocks(extents, tar_base, size, idx, last) is Ok,
        k < extents.len() ==> extents[k].0 + tar_base <= at < extents[k].0 + extents[k].1
            + tar_base,
        at / 262144 * 262144 < size,
    ensures
        k < extents.len(),
        at / 262144 <= u32::MAX,
        zfile_blocks(extents, tar_base, size, idx, last)->Ok_0.contains((at / 262144) as u32),
    decreases last - idx,
{
    let head = aligned_blocks(extents[idx].0 + tar_base, extents[idx].1 as int, size)->Ok_0;
    let rest = zfile_blocks(extents, tar_base, size, idx + 1, last)->Ok_0;
    let block = (at / 262144) as u32;
    if k == idx {
        lemma_aligned_holds(extents[idx].0 + tar_base, extents[idx].1 as int, size, at);
        let i = choose|i: int| 0 <= i < head.len() && head[i] == block;
        assert((head + rest)[i] == block);
    } else {
        lemma_zfile_holds(extents, tar_base, size, idx + 1, last, k, at);
        let i = choose|i: int| 0 <= i < rest.len() && rest[i] == block;
        assert((head + rest)[head.len() + i] == block);
    }
}

/// The entry of a jump table that put a block where it is, and a byte of it
/// in that block.
proof fn lemma_zfile_only(
    extents: Seq<(u64, u64)>,
    tar_base: int,
    size: int,
    idx: int,
    last: int,
    i: int,
) -> (w: (int, int))
    requires
        0 <= idx,
        0 <= tar_base,
        0 < size,
        zfile_blocks(extents, tar_base, size, idx, last) is Ok,
        0 <= i < zfile_blocks(extents, tar_base, size, idx, last)->Ok_0.len(),
    ensures
        idx <= w.0 <= last,
        w.0 < extents.len(),
        extents[w.0].0 + tar_base <= w.1 < extents[w.0].0 + extents[w.0].1 + tar_base,
        w.1 / 262144 == zfile_blocks(extents, tar_base, size, idx, last)->Ok_0[i],
        zfile_blocks(extents, tar_base, size, idx, last)->Ok_0[i] * 262144 < size,
    decreases last + 1 - idx,
{
    let head = aligned_blocks(extents[idx].0 + tar_base, extents[idx].1 as int, size)->Ok_0;
    let rest = zfile_blocks(extents, tar_base, size, idx + 1, last)->Ok_0;
    if i < head.len() {
        assert((head + rest)[i] == head[i]);
        (idx, lemma_aligned_only(extents[idx].0 + tar_base, extents[idx].1 as int, size, i))
    } else {
        assert((head + rest)[i] == rest[i - head.len()]);
        lemma_zfile_only(extents, tar_base, size, idx + 1, last, i - head.len())
    }
}

/// Two blocks of a jump table stand in the order of the entries, and under one
/// entry in the order of its bytes.
proof fn lemma_zfile_order(
    extents: Seq<(u64, u64)>,
    tar_base: int,
    size: int,
    idx: int,
    last: int,
    i: int,
    j: int,
) -> (w: (int, int, int, int))
    requires
        0 <= idx,
        0 <= tar_base,
        0 < size,
        zfile_blocks(extents, tar_base, size, idx, last) is Ok,
        0 <= i < j < zfile_blocks(extents, tar_base, size, idx, last)->Ok_0.len(),
    ensures
        idx <= w.0 <= w.2 <= last,
        w.2 < extents.len(),
        extents[w.0].0 + tar_base <= w.1 < extents[w.0].0 + extents[w.0].1 + tar_base,
        extents[w.2].0 + tar_base <= w.3 < extents[w.2].0 + extents[w.2].1 + tar_base,
        w.1 / 262144 == zfile_blocks(extents, tar_base, size, idx, last)->Ok_0[i],
        w.3 / 262144 == zfile_blocks(extents, tar_base, size, idx, last)->Ok_0[j],
        w.0 == w.2 ==> w.1 < w.3,
    decreases last + 1 - idx,
{
    let offset = extents[idx].0 + tar_base;
    let len = extents[idx].1 as int;
    let head = aligned_blocks(offset, len, size)->Ok_0;
    let rest = zfile_blocks(extents, tar_base, size, idx + 1, last)->Ok_0;
    let n = head.len();
    if j < n {
        assert((head + rest)[i] == head[i] && (head + rest)[j] == head[j]);
        let a = lemma_aligned_only(offset, len, size, i);
        let b = lemma_aligned_only(offset, len, size, j);
        (idx, a, idx, b)
    } else if i < n {
        assert((head + rest)[i] == head[i] && (head + rest)[j] == rest[j - n]);
        let a = lemma_aligned_only(offset, len, size, i);
        let w = lemma_zfile_only(extents, tar_base, size, idx + 1, last, j - n);
        (idx, a, w.0, w.1)
    } else {
        assert((head + rest)[i] == rest[i - n] && (head + rest)[j] == rest[j - n]);
        lemma_zfile_order(extents, tar_base, size, idx + 1, last, i - n, j - n)
    }
}

/// Entries of a jump table that are there and not empty give blocks, where the
/// ids of the object's blocks fit.
proof fn lemma_zfile_ok(
    extents: Seq<(u64, u64)>,
    tar_base: int,
    size: int,
    idx: int,
    last: int,
)
    requires
        0 <= idx,
        0 <= tar_base,
        size <= 0x1_0000_0000 * 262144,
        forall|k: int| idx <= k <= last ==> #[trigger] filled(extents, k),
    ensures
        zfile_blocks(extents, tar_base, size, idx, last) is Ok,
    decreases last + 1 - idx,
{
    if idx <= last {
        assert(filled(extents, idx));
        lemma_zfile_ok(extents, tar_base, size, idx + 1, last);
    }
}

/// The first entry that is not there, or empty, is the error.
proof fn lemma_zfile_fault(
    extents: Seq<(u64, u64)>,
    tar_base: int,
    size: int,
    idx: int,
    last: int,
    k: int,
)
    requires
        0 <= idx <= k <= last <= u64::MAX,
        0 <= tar_base,
        size <= 0x1_0000_0000 * 262144,
        forall|j: int| idx <= j < k ==> #[trigger] filled(extents, j),
        k < extents.len() ==> extents[k].1 == 0,
    ensures
        zfile_blocks(extents, tar_base, size, idx, last) == Err::<Seq<u32>, PlanError>(
            if k >= extents.len() {
                PlanError::MissingExtent { block: k as u64 }
            } else {
                PlanError::EmptyExtent
            },
        ),
    decreases k - idx,
{
    if idx < k {
        assert(filled(extents, idx));
        lemma_zfile_fault(extents, tar_base, size, idx + 1, last, k);
    }
}

proof fn lemma_index(x: int, y: int, d: int)
    requires
        0 <= x <= y,
        0 < d,
    ensures
        0 <= x / d <= y / d,
        d * (x / d) <= x < d * (x / d) + d,
{
    vstd::arithmetic::div_mod::lemma_div_is_ordered(x, y, d);
    vstd::arithmetic::div_mod::lemma_fundamental_div_mod(x, d);
    vstd::arithmetic::div_mod::lemma_mod_bound(x, d);
    vstd::arithmetic::div_mod::lemma_div_pos_is_pos(x, d);
}

/// A logical byte between two others in the block of index `k`.
proof fn lemma_byte_of(first: int, last: int, d: int, k: int) -> (x: int)
    requires
        0 <= first <= last,
        0 < d,
        first / d <= k <= last / d,
    ensures
        first <= x <= last,
        x / d == k,
        x == first || x == d * k,
{
    lemma_index(first, last, d);
    lemma_index(last, last, d);
    if k == first / d {
        first
    } else {
        assert(d * k >= d * (first / d) + d) by (nonlinear_arith)
            requires
                k >= first / d + 1,
                d > 0,
        ;
        assert(d * k <= d * (last / d)) by (nonlinear_arith)
            requires
                k <= last / d,
                d > 0,
        ;
        vstd::arithmetic::div_mod::lemma_fundamental_div_mod_converse(d * k, d, k, 0);
        d * k
    }
}

/// The blocks behind a logical extent hold every byte, in a block that starts
/// before the object's end, that belongs to the stored form of any of its
/// bytes.
pub proof fn law_blocks_hold_every_stored_byte(
    layout: LayerLayout,
    offset: int,
    len: int,
    size: int,
    x: int,
    at: int,
)
    requires
        layout.blocks_of(offset, len, size) is Ok,
        0 <= offset <= x < offset + len,
        at / 262144 * 262144 < size,
        stores(layout, x, at),
    ensures
        stored(layout, x),
        layout.blocks_of(offset, len, size)->Ok_0.contains((at / 262144) as u32),
        0 <= at / 262144 <= u32::MAX,
{
    match layout {
        LayerLayout::Raw { tar_base } => {
            lemma_aligned_holds(offset + tar_base, len, size, at);
        },
        LayerLayout::ZFile { block_size, extents, tar_base } => {
            let d = block_size as int;
            lemma_index(offset, x, d);
            lemma_index(x, offset + len - 1, d);
            lemma_zfile_holds(
                extents@,
                tar_base as int,
                size,
                offset / d,
                (offset + len - 1) / d,
                x / d,
                at,
            );
        },
    }
}

/// The blocks behind a logical extent are blocks of the object, and each holds
/// a byte of the stored form of a byte of the extent.
pub proof fn law_blocks_hold_stored_bytes_only(
    layout: LayerLayout,
    offset: int,
    len: int,
    size: int,
    i: int,
)
    requires
        layout.blocks_of(offset, len, size) is Ok,
        0 <= offset,
        0 <= len,
        0 < size,
        0 <= i < layout.blocks_of(offset, len, size)->Ok_0.len(),
    ensures
        layout.blocks_of(offset, len, size)->Ok_0[i] * 262144 < size,
        exists|x: int, at: int|
            offset <= x < offset + len && #[trigger] stores(layout, x, at) && at / 262144
                == layout.blocks_of(offset, len, size)->Ok_0[i],
{
    match layout {
        LayerLayout::Raw { tar_base } => {
            let at = lemma_aligned_only(offset + tar_base, len, size, i);
            assert(stores(layout, at - tar_base, at));
        },
        LayerLayout::ZFile { block_size, extents, tar_base } => {
            let d = block_size as int;
            let last = offset + len - 1;
            let (k, at) = lemma_zfile_only(
                extents@,
                tar_base as int,
                size,
                offset / d,
                last / d,
                i,
            );
            let x = lemma_byte_of(offset, last, d, k);
            assert(stores(layout, x, at));
        },
    }
}

/// The blocks behind a logical extent stand in the order of its bytes, and
/// those of one byte in the order of the bytes that store it.
pub proof fn law_blocks_in_byte_order(
    layout: LayerLayout,
    offset: int,
    len: int,
    size: int,
    i: int,
    j: int,
)
    requires
        layout.blocks_of(offset, len, size) is Ok,
        0 <= offset,
        0 <= len,
        0 < size,
        0 <= i < j < layout.blocks_of(offset, len, size)->Ok_0.len(),
    ensures
        exists|x: int, a: int, y: int, b: int| #[trigger]
            stored_in_order(layout, x, a, y, b) && offset <= x && y < offset + len && a / 262144
                == layout.blocks_of(offset, len, size)->Ok_0[i] && b / 262144 == layout.blocks_of(
                offset,
                len,
                size,
            )->Ok_0[j],
{
    match layout {
        LayerLayout::Raw { tar_base } => {
            let a = lemma_aligned_only(offset + tar_base, len, size, i);
            let b = lemma_aligned_only(offset + tar_base, len, size, j);
            let (x, y) = (a - tar_base, b - tar_base);
            assert(a < b) by {
                if a >= b {
                    lemma_index(b, a, 262144);
                }
            }
            assert(stored_in_order(layout, x, a, y, b));
        },
        LayerLayout::ZFile { block_size, extents, tar_base } => {
            let d = block_size as int;
            let last = offset + len - 1;
            let (k, a, m, b) = lemma_zfile_order(
                extents@,
                tar_base as int,
                size,
                offset / d,
                last / d,
                i,
                j,
            );
            let x = lemma_byte_of(offset, last, d, k);
            let y = if k == m {
                x
            } else {
                lemma_byte_of(offset, last, d, m)
            };
            if k < m && y <= x {
                lemma_index(y, x, d);
            }
            assert(stored_in_order(layout, x, a, y, b));
        },
    }
}

/// A logical extent gives blocks exactly where each of its bytes has a stored
/// form, as long as the ids of the object's blocks fit in 32 bits.
pub proof fn law_stored_bytes_have_blocks(layout: LayerLayout, offset: int, len: int, size: int)
    requires
        0 <= offset,
        0 <= len,
        offset + len <= u64::MAX,
        size <= 0x1_0000_0000 * 262144,
    ensures
        layout.blocks_of(offset, len, size) is Ok <==> forall|x: int|
            offset <= x < offset + len ==> #[trigger] stored(layout, x),
{
    match layout {
        LayerLayout::Raw { tar_base } => {},
        LayerLayout::ZFile { block_size, extents, tar_base } => {
            let d = block_size as int;
            let last = offset + len - 1;
            if len > 0 {
                assert(offset <= offset < offset + len);
                if d == 0 {
                    assert(!stored(layout, offset));
                } else if forall|x: int|
                    offset <= x < offset + len ==> #[trigger] stored(layout, x) {
                    lemma_index(offset, last, d);
                    assert forall|k: int| offset / d <= k <= last / d implies #[trigger] filled(
                        extents@,
                        k,
                    ) by {
                        let x = lemma_byte_of(offset, last, d, k);
                        assert(stored(layout, x));
                    }
                    lemma_zfile_ok(extents@, tar_base as int, size, offset / d, last / d);
                } else {
                    let x = choose|x: int|
                        offset <= x < offset + len && !#[trigger] stored(layout, x);
                    lemma_first_unstored(layout, offset, len, size, offset, x);
                }
            }
        },
    }
}

/// From a byte without a stored form down to the first such byte.
proof fn lemma_first_unstored(
    layout: LayerLayout,
    offset: int,
    len: int,
    size: int,
    from: int,
    x: int,
)
    requires
        0 <= offset <= from <= x < offset + len,
        offset + len <= u64::MAX,
        size <= 0x1_0000_0000 * 262144,
        forall|y: int| offset <= y < from ==> #[trigger] stored(layout, y),
        !stored(layout, x),
    ensures
        layout.blocks_of(offset, len, size) is Err,
    decreases x - from,
{
    if stored(layout, from) {
        lemma_first_unstored(layout, offset, len, size, from + 1, x);
    } else {
        law_first_unstored_byte_is_the_error(layout, offset, len, size, from);
    }
}

/// Where a byte of a logical extent has no stored form, the first such byte
/// gives the error: that the layer declares no block size, that the jump table
/// ends before the byte's block, or that the block's compressed form is empty.
pub proof fn law_first_unstored_byte_is_the_error(
    layout: LayerLayout,
    offset: int,
    len: int,
    size: int,
    x: int,
)
    requires
        0 <= offset <= x < offset + len,
        offset + len <= u64::MAX,
        size <= 0x1_0000_0000 * 262144,
        !stored(layout, x),
        forall|y: int| offset <= y < x ==> #[trigger] stored(layout, y),
    ensures
        layout matches LayerLayout::ZFile { block_size, extents, .. } && layout.blocks_of(
            offset,
            len,
            size,
        ) == Err::<Seq<u32>, PlanError>(
            if block_size == 0 {
                PlanError::ZeroZFileBlock
            } else if x / block_size as int >= extents@.len() {
                PlanError::MissingExtent { block: (x / block_size as int) as u64 }
            } else {
                PlanError::EmptyExtent
            },
        ),
{
    match layout {
        LayerLayout::Raw { .. } => {},
        LayerLayout::ZFile { block_size, extents, tar_base } => {
            let d = block_size as int;
            let last = offset + len - 1;
            if d > 0 {
                lemma_index(offset, x, d);
                lemma_index(x, last, d);
                assert(last / d <= u64::MAX) by {
                    vstd::arithmetic::div_mod::lemma_div_nonincreasing(last, d);
                }
                assert forall|j: int| offset / d <= j < x / d implies #[trigger] filled(
                    extents@,
                    j,
                ) by {
                    let y = lemma_byte_of(offset, x, d, j);
                    if y == x {
                        assert(x / d == j);
                    }
                    assert(stored(layout, y));
                }
                lemma_zfile_fault(
                    extents@,
                    tar_base as int,
                    size,
                    offset / d,
                    last / d,
                    x / d,
                );
            }
        },
    }
}

/// Entries of a jump table that are there and not empty fail for their block
/// ids only.
proof fn lemma_zfile_ids(extents: Seq<(u64, u64)>, tar_base: int, size: int, idx: int, last: int)
    requires
        0 <= idx,
        0 <= tar_base,
        forall|k: int| idx <= k <= last ==> #[trigger] filled(extents, k),
    ensures
        zfile_blocks(extents, tar_base, size, idx, last) matches Err(e) ==> e
            == PlanError::BlockIdOverflow,
    decreases last + 1 - idx,
{
    if idx <= last {
        assert(filled(extents, idx));
        lemma_zfile_ids(extents, tar_base, size, idx + 1, last);
    }
}

/// A byte of the object that an extent has past the last block with an id of 32
/// bits makes the whole extent an error, which says so where all bytes of the
/// extent have a stored form.
pub proof fn law_no_block_past_the_last_id(
    layout: LayerLayout,
    offset: int,
    len: int,
    size: int,
    x: int,
    at: int,
)
    requires
        0 <= offset <= x < offset + len,
        at < size,
        stores(layout, x, at),
        at >= 0x1_0000_0000 * 262144,
    ensures
        layout.blocks_of(offset, len, size) is Err,
        (forall|y: int| offset <= y < offset + len ==> #[trigger] stored(layout, y))
            ==> layout.blocks_of(offset, len, size)->Err_0 == PlanError::BlockIdOverflow,
{
    if layout.blocks_of(offset, len, size) is Ok {
        law_blocks_hold_every_stored_byte(layout, offset, len, size, x, at);
    }
    if forall|y: int| offset <= y < offset + len ==> #[trigger] stored(layout, y) {
        if let LayerLayout::ZFile { block_size, extents, tar_base } = layout {
            assert(stored(layout, x));
            let d = block_size as int;
            let last = offset + len - 1;
            lemma_index(offset, last, d);
            assert forall|k: int| offset / d <= k <= last / d implies #[trigger] filled(
                extents@,
                k,
            ) by {
                let y = lemma_byte_of(offset, last, d, k);
                assert(stored(layout, y));
            }
            lemma_zfile_ids(extents@, tar_base as int, size, offset / d, last / d);
        }
    }
}

/// Why a byte of a layer has no stored form.
pub open spec fn reason(layout: LayerLayout, x: int) -> PlanError {
    match layout {
        LayerLayout::ZFile { block_size, extents, .. } => if block_size == 0 {
            PlanError::ZeroZFileBlock
        } else if x / block_size as int >= extents@.len() {
            PlanError::MissingExtent { block: (x / block_size as int) as u64 }
        } else {
            PlanError::EmptyExtent
        },
        LayerLayout::Raw { .. } => PlanError::LayerMetadataMissing,
    }
}

/// An extent that gives no blocks has a byte without a stored form, and fails
/// for the reason that the byte has none, as long as the ids of the object's
/// blocks fit in 32 bits.
pub proof fn law_failed_extent_is_explained(
    layout: LayerLayout,
    offset: int,
    len: int,
    size: int,
) -> (x: int)
    requires
        0 <= offset,
        0 <= len,
        offset + len <= u64::MAX,
        size <= 0x1_0000_0000 * 262144,
        layout.blocks_of(offset, len, size) is Err,
    ensures
        offset <= x < offset + len,
        !stored(layout, x),
        layout.blocks_of(offset, len, size)->Err_0 == reason(layout, x),
{
    law_stored_bytes_have_blocks(layout, offset, len, size);
    let y = choose|y: int| offset <= y < offset + len && !#[trigger] stored(layout, y);
    let x = lemma_least_unstored(layout, offset, offset, y);
    law_first_unstored_byte_is_the_error(layout, offset, len, size, x);
    x
}

/// The first byte without a stored form.
proof fn lemma_least_unstored(layout: LayerLayout, offset: int, from: int, y: int) -> (x: int)
    requires
        offset <= from <= y,
        !stored(layout, y),
        forall|z: int| offset <= z < from ==> #[trigger] stored(layout, z),
    ensures
        offset <= x <= y,
        !stored(layout, x),
        forall|z: int| offset <= z < x ==> #[trigger] stored(layout, z),
    decreases y - from,
{
    if stored(layout, from) {
        lemma_least_unstored(layout, offset, from + 1, y)
    } else {
        from
    }
}

/// Mapping a logical extent appends the blocks of the object that hold a byte
/// of the stored form of a byte of the extent, and no other block.
pub proof fn law_map_extent_blocks(
    layout: LayerLayout,
    offset: u64,
    len: u64,
    size: u64,
    out: &mut Vec<u32>,
    block: u32,
)
    requires
        0 < size,
        call_ensures(
            map_extent_blocks,
            (&layout, offset, len, size, out),
            Ok::<(), PlanError>(()),
        ),
    ensures
        old(out)@.is_prefix_of(final(out)@),
        final(out)@.skip(old(out)@.len() as int).contains(block) <==> {
            &&& block * 262144 < size
            &&& exists|x: int, at: int|
                offset <= x < offset + len && #[trigger] stores(layout, x, at) && at / 262144
                    == block
        },
{
    let blocks = layout.blocks_of(offset as int, len as int, size as int)->Ok_0;
    assert(final(out)@.skip(old(out)@.len() as int) =~= blocks);
    if blocks.contains(block) {
        let i = choose|i: int| 0 <= i < blocks.len() && blocks[i] == block;
        law_blocks_hold_stored_bytes_only(layout, offset as int, len as int, size as int, i);
    }
    if block * 262144 < size && exists|x: int, at: int|
        offset <= x < offset + len && #[trigger] stores(layout, x, at) && at / 262144 == block {
        let (x, at) = choose|x: int, at: int|
            offset <= x < offset + len && #[trigger] stores(layout, x, at) && at / 262144 == block;
        law_blocks_hold_every_stored_byte(
            layout,
            offset as int,
            len as int,
            size as int,
            x,
            at,
        );
    }
}

} // verus!
