//! Laws on the parts that planning, recording and the formats are made of.
use vstd::prelude::*;
use crate::backed_pages::count_backed_pages;
use crate::block_planner::{check_layer, check_layer_count};
use crate::codec_laws::{le_value, lemma_le32, lemma_le64};
use crate::extent_laws::{
    law_first_unstored_byte_is_the_error, law_stored_bytes_have_blocks, stored,
};
use crate::extents::{
    LayerLayout, OBJECT_BLOCK_BYTES, PlanError, aligned_blocks, aligned_prefix, div_ceil,
    map_extent_blocks, object_blocks, push_aligned_blocks, zfile_blocks, zfile_prefix,
};
use crate::opened_layer::{answer_fits, layer_fits, mapping_fits, mappings_fit, total_blocks};
use crate::pack_planner::{plan_blocks, plan_ranges};
use crate::plan_cost_laws::{lemma_page_has_data, page_has_data};
use crate::plan_model::{
    FinalLayerSource, OpenedLayer, Segment, SegmentMapping, Stack, backed_pages, segment_in_image,
    tail_len, total_blocks_upto, total_pages,
};
use crate::runs::{
    Run, by_position, continues, grouped, is_member, merge_runs, merged, position_le, precedes,
    runs_of, starts_before,
};
use crate::startup_pack::MAX_PACK_PAGES;
use crate::startup_pack_recorder::{BITMAP_MAX_PAGES, StartupPackRecorder};
use crate::startup_pack_task::{
    RUN_BLOCKS, StartupPackPhase, StartupPackStats, StartupPackStatsSnapshot, StartupPackTask,
};
use crate::wire::{
    le32, le64, lemma_read_u32, lemma_read_u64, push_magic, push_u32, push_u64, read_u32, read_u64,
    starts_with,
};

verus! {

/// A quotient that is rounded up is the least number of parts of `b` that hold
/// `a`.
pub proof fn law_div_ceil(a: u64, b: u64, q: u64)
    requires
        b > 0,
        call_ensures(div_ceil, (a, b), q),
    ensures
        a <= q * b,
        a > 0 ==> (q - 1) * b < a,
        a == 0 ==> q == 0,
{
    let (x, d) = (a as int, b as int);
    vstd::arithmetic::div_mod::lemma_fundamental_div_mod(x + d - 1, d);
    vstd::arithmetic::div_mod::lemma_mod_bound(x + d - 1, d);
    let r = (x + d - 1) % d;
    assert(x + d - 1 == d * q + r);
    assert(d * q == q * d && (q - 1) * d == q * d - d) by (nonlinear_arith);
    if a == 0 {
        vstd::arithmetic::div_mod::lemma_basic_div(d - 1, d);
    }
}

/// An extent of an object is appended as its blocks: those that hold one of its
/// bytes and start before the object's end, each once and in ascending order.
/// An empty one is refused.
pub proof fn law_push_aligned_blocks(
    offset: u64,
    len: u64,
    size: u64,
    out: &mut Vec<u32>,
    res: Result<(), PlanError>,
    block: u32,
)
    requires
        0 < size,
        call_ensures(push_aligned_blocks, (offset, len, size, out), res),
    ensures
        old(out)@.is_prefix_of(final(out)@),
        len == 0 ==> res == Err::<(), PlanError>(PlanError::EmptyExtent) && final(out)@ == old(
            out,
        )@,
        len > 0 && size <= 0x1_0000_0000 * 262144 ==> res is Ok,
        res is Ok ==> (final(out)@.skip(old(out)@.len() as int).contains(block) <==> block * 262144
            < size && block * 262144 < offset + len && offset < (block + 1) * 262144),
        forall|i: int|
            #![trigger final(out)@[i]]
            old(out)@.len() < i < final(out)@.len() ==> final(out)@[i] == final(out)@[i - 1] + 1,
        res matches Err(e) ==> e is EmptyExtent || e is BlockIdOverflow,
{
    let (o, l, s) = (offset as int, len as int, size as int);
    let new = final(out)@.skip(old(out)@.len() as int);
    if len == 0 {
        assert(aligned_prefix(o, l, s) =~= Seq::empty());
        assert(final(out)@ =~= old(out)@);
    } else {
        let blocks = match aligned_blocks(o, l, s) {
            Ok(blocks) => blocks,
            Err(_) => aligned_prefix(o, l, s),
        };
        assert(new =~= blocks);
        assert forall|i: int|
            #![trigger final(out)@[i]]
            old(out)@.len() < i < final(out)@.len() implies final(out)@[i] == final(out)@[i - 1]
            + 1 by {
            let k = i - old(out)@.len();
            assert(final(out)@[i] == blocks[k] && final(out)@[i - 1] == blocks[k - 1]);
        }
        if res is Ok {
            if block * 262144 < size && block * 262144 < offset + len && offset < (block + 1)
                * 262144 {
                let i = block - o / 262144;
                assert(0 <= i < blocks.len());
                assert(blocks[i] == block);
            }
            if blocks.contains(block) {
                let i = choose|i: int| 0 <= i < blocks.len() && blocks[i] == block;
                assert(blocks[i] == o / 262144 + i);
            }
        }
    }
}

/// Mapping a logical extent succeeds exactly where each of its bytes has a
/// stored form. Otherwise the first byte that has none is the error, and what
/// was appended by then is what the bytes before it are mapped to.
pub proof fn law_when_an_extent_is_mapped(
    layout: LayerLayout,
    offset: u64,
    len: u64,
    size: u64,
    out: &mut Vec<u32>,
    res: Result<(), PlanError>,
    x: int,
)
    requires
        offset + len <= u64::MAX,
        size <= 0x1_0000_0000 * 262144,
        call_ensures(map_extent_blocks, (&layout, offset, len, size, out), res),
    ensures
        res is Ok <==> forall|y: int|
            offset <= y < offset + len ==> #[trigger] stored(layout, y),
        offset <= x < offset + len && !stored(layout, x) && (forall|y: int|
            offset <= y < x ==> #[trigger] stored(layout, y)) ==> {
            &&& layout matches LayerLayout::ZFile { block_size, extents, .. } && res == Err::<
                (),
                PlanError,
            >(
                if block_size == 0 {
                    PlanError::ZeroZFileBlock
                } else if x / block_size as int >= extents@.len() {
                    PlanError::MissingExtent { block: (x / block_size as int) as u64 }
                } else {
                    PlanError::EmptyExtent
                },
            )
            &&& layout.blocks_of(offset as int, x - offset, size as int) is Ok
            &&& final(out)@ == old(out)@ + layout.blocks_of(
                offset as int,
                x - offset,
                size as int,
            )->Ok_0
        },
{
    let (o, l, s) = (offset as int, len as int, size as int);
    law_stored_bytes_have_blocks(layout, o, l, s);
    if o <= x < o + l && !stored(layout, x) && (forall|y: int|
        o <= y < x ==> #[trigger] stored(layout, y)) {
        law_first_unstored_byte_is_the_error(layout, o, l, s, x);
        law_stored_bytes_have_blocks(layout, o, x - o, s);
        lemma_before_error(layout, o, l, s, x);
    }
}

proof fn lemma_before_error(layout: LayerLayout, o: int, l: int, s: int, x: int)
    requires
        0 <= o <= x < o + l,
        o + l <= u64::MAX,
        s <= 0x1_0000_0000 * 262144,
        !stored(layout, x),
        forall|y: int| o <= y < x ==> #[trigger] stored(layout, y),
        layout.blocks_of(o, x - o, s) is Ok,
    ensures
        layout.prefix_of(o, l, s) == layout.blocks_of(o, x - o, s)->Ok_0,
{
    match layout {
        LayerLayout::Raw { .. } => {},
        LayerLayout::ZFile { block_size, extents, tar_base } => {
            if block_size > 0 {
                let d = block_size as int;
                let (first, last, k) = (o / d, (o + l - 1) / d, x / d);
                vstd::arithmetic::div_mod::lemma_div_is_ordered(o, x, d);
                vstd::arithmetic::div_mod::lemma_div_is_ordered(x, o + l - 1, d);
                vstd::arithmetic::div_mod::lemma_div_pos_is_pos(o, d);
                if x == o {
                    lemma_fault_at(extents@, tar_base as int, s, first, last, k);
                } else {
                    assert(stored(layout, x - 1));
                    vstd::arithmetic::div_mod::lemma_div_is_ordered(x - 1, x, d);
                    vstd::arithmetic::div_mod::lemma_fundamental_div_mod(x - 1, d);
                    vstd::arithmetic::div_mod::lemma_fundamental_div_mod(x, d);
                    vstd::arithmetic::div_mod::lemma_mod_bound(x - 1, d);
                    vstd::arithmetic::div_mod::lemma_mod_bound(x, d);
                    let (p, q) = ((x - 1) / d, k);
                    assert(p < q);
                    assert(q <= p + 1) by {
                        if q >= p + 2 {
                            assert(d * q >= d * p + 2 * d) by (nonlinear_arith)
                                requires
                                    q >= p + 2,
                                    d > 0,
                            ;
                        }
                    }
                    assert(layout.blocks_of(o, x - o, s) == zfile_blocks(
                        extents@,
                        tar_base as int,
                        s,
                        first,
                        p,
                    ));
                    vstd::arithmetic::div_mod::lemma_div_is_ordered(o, x - 1, d);
                    lemma_fault_at(extents@, tar_base as int, s, first, last, k);
                }
            }
        },
    }
}

/// What is collected before the entry that is missing or empty.
proof fn lemma_fault_at(
    extents: Seq<(u64, u64)>,
    tar_base: int,
    s: int,
    idx: int,
    last: int,
    k: int,
)
    requires
        0 <= idx <= k <= last,
        zfile_blocks(extents, tar_base, s, idx, k - 1) is Ok,
        k < extents.len() ==> extents[k].1 == 0,
    ensures
        zfile_prefix(extents, tar_base, s, idx, last) == zfile_blocks(
            extents,
            tar_base,
            s,
            idx,
            k - 1,
        )->Ok_0,
    decreases k - idx,
{
    if idx == k {
        assert(zfile_prefix(extents, tar_base, s, idx, last) =~= Seq::empty());
    } else {
        lemma_fault_at(extents, tar_base, s, idx + 1, last, k);
    }
}

/// A layer can be planned with exactly where the end of its header, of its
/// index and of every entry of its jump table, in the final object, is a number
/// of 64 bits.
pub proof fn law_layer_fits(layer: OpenedLayer, fits: bool)
    requires
        call_ensures(layer_fits, (&layer,), fits),
    ensures
        layer.layout matches LayerLayout::Raw { tar_base } ==> (fits <==> tar_base + 4096
            <= u64::MAX && (layer.metadata.file_size > layer.metadata.index_offset ==> tar_base
            + layer.metadata.file_size <= u64::MAX)),
        layer.layout matches LayerLayout::ZFile { extents, tar_base, .. } ==> (fits <==> forall|
            i: int,
        |
            #![trigger extents@[i]]
            0 <= i < extents@.len() ==> tar_base + extents@[i].0 + extents@[i].1 <= u64::MAX),
{
}

/// Answers can be planned with exactly where each of them can.
pub proof fn law_answer_fits(opened: &[OpenedLayer], mappings: &Vec<SegmentMapping>, fits: bool)
    requires
        call_ensures(answer_fits, (opened, mappings), fits),
    ensures
        fits <==> forall|i: int|
            0 <= i < mappings@.len() ==> mapping_fits(opened@, #[trigger] mappings@[i]),
{
    assert(fits == mappings_fit(opened@, mappings@));
}

/// The blocks of the first `n` layers, each by its layer and its number: those
/// that start before the end of the layer's object.
pub open spec fn blocks_of_layers(layers: Seq<FinalLayerSource>, n: int) -> Set<(int, int)> {
    Set::new(|g: (int, int)| 0 <= g.0 < n && 0 <= g.1 && g.1 * 262144 < layers[g.0].size)
}

proof fn lemma_blocks_of_layers(layers: Seq<FinalLayerSource>, n: int)
    requires
        0 <= n <= layers.len(),
    ensures
        blocks_of_layers(layers, n).finite(),
        blocks_of_layers(layers, n).len() == total_blocks_upto(layers, n),
    decreases n,
{
    let all = blocks_of_layers(layers, n);
    if n == 0 {
        assert(all =~= Set::empty());
    } else {
        lemma_blocks_of_layers(layers, n - 1);
        let before = blocks_of_layers(layers, n - 1);
        let m = object_blocks(layers[n - 1].size as int);
        let own = first_pairs(n - 1, m);
        lemma_first_pairs(n - 1, m);
        assert forall|g: (int, int)| all.contains(g) <==> (before + own).contains(g) by {
            if g.0 == n - 1 && 0 <= g.1 {
                assert(g.1 * 262144 < layers[n - 1].size <==> g.1 < m);
            }
        }
        assert(all =~= before + own);
        vstd::set_lib::lemma_set_disjoint_lens(before, own);
    }
}

spec fn first_pairs(a: int, m: int) -> Set<(int, int)> {
    Set::new(|g: (int, int)| g.0 == a && 0 <= g.1 < m)
}

proof fn lemma_first_pairs(a: int, m: int)
    requires
        0 <= m,
    ensures
        first_pairs(a, m).finite(),
        first_pairs(a, m).len() == m,
    decreases m,
{
    if m == 0 {
        assert(first_pairs(a, m) =~= Set::empty());
    } else {
        lemma_first_pairs(a, m - 1);
        assert(first_pairs(a, m) =~= first_pairs(a, m - 1).insert((a, m - 1)));
    }
}

/// All blocks of all layers are counted, where a machine word can count them.
pub proof fn law_total_blocks(layers: &[FinalLayerSource], total: Option<usize>)
    requires
        call_ensures(total_blocks, (layers,), total),
    ensures
        blocks_of_layers(layers@, layers@.len() as int).finite(),
        total is Some <==> blocks_of_layers(layers@, layers@.len() as int).len() <= usize::MAX,
        total is Some ==> total->0 == blocks_of_layers(layers@, layers@.len() as int).len(),
{
    lemma_blocks_of_layers(layers@, layers@.len() as int);
}

/// One layer at least is planned against, and no more than 65536; none of them
/// has an empty object.
pub proof fn law_checked_layers(
    count: usize,
    counted: Result<(), PlanError>,
    index: usize,
    layer: FinalLayerSource,
    checked: Result<(), PlanError>,
)
    requires
        call_ensures(check_layer_count, (count,), counted),
        call_ensures(check_layer, (index, &layer), checked),
    ensures
        counted is Ok <==> 1 <= count <= 65536,
        counted is Err ==> counted->Err_0 == if count == 0 {
            PlanError::NoLayers
        } else {
            PlanError::TooManyLayers
        },
        checked is Ok <==> layer.size > 0,
        checked is Err ==> checked->Err_0 == (PlanError::EmptyLayer { layer: index }),
{
}

/// The pages from `first` on, `n` of them, of which the answers map a sector to
/// a physical range.
pub open spec fn pages_with_sectors(
    mappings: Seq<SegmentMapping>,
    first: int,
    n: int,
) -> Set<int> {
    Set::new(|page: int| first <= page < first + n && page_has_data(mappings, page))
}

proof fn lemma_pages_with_sectors(mappings: Seq<SegmentMapping>, first: int, n: int)
    requires
        0 <= n,
    ensures
        pages_with_sectors(mappings, first, n).finite(),
        pages_with_sectors(mappings, first, n).len() == backed_pages(mappings, first, n),
    decreases n,
{
    let all = pages_with_sectors(mappings, first, n);
    if n == 0 {
        assert(all =~= Set::empty());
    } else {
        lemma_pages_with_sectors(mappings, first, n - 1);
        let before = pages_with_sectors(mappings, first, n - 1);
        let page = first + n - 1;
        lemma_page_has_data(mappings, page);
        if page_has_data(mappings, page) {
            assert(all =~= before.insert(page));
        } else {
            assert(all =~= before);
        }
    }
}

/// The pages of which the answers map a sector to a physical range are counted.
pub proof fn law_count_backed_pages(
    mappings: Vec<SegmentMapping>,
    first: u64,
    pages: usize,
    count: usize,
)
    requires
        call_ensures(count_backed_pages, (&mappings, first, pages), count),
    ensures
        pages_with_sectors(mappings@, first as int, pages as int).finite(),
        count == pages_with_sectors(mappings@, first as int, pages as int).len(),
{
    lemma_pages_with_sectors(mappings@, first as int, pages as int);
}

/// The lengths of spans, added up.
pub open spec fn bytes_of(ranges: Seq<(u64, u64)>) -> int
    decreases ranges.len(),
{
    if ranges.len() == 0 {
        0
    } else {
        ranges[0].1 + bytes_of(ranges.skip(1))
    }
}

/// Spans of whole pages have as many pages as fit in their lengths.
pub proof fn law_pages_of_spans(ranges: Seq<(u64, u64)>)
    requires
        forall|i: int| 0 <= i < ranges.len() ==> (#[trigger] ranges[i]).1 % 4096 == 0,
    ensures
        4096 * total_pages(ranges) == bytes_of(ranges),
    decreases ranges.len(),
{
    if ranges.len() > 0 {
        let (init, rest) = (ranges.drop_last(), ranges.skip(1));
        assert forall|i: int| 0 <= i < init.len() implies (#[trigger] init[i]).1 % 4096 == 0 by {
            assert(init[i] == ranges[i]);
        }
        assert forall|i: int| 0 <= i < rest.len() implies (#[trigger] rest[i]).1 % 4096 == 0 by {
            assert(rest[i] == ranges[i + 1]);
        }
        law_pages_of_spans(init);
        assert(ranges[ranges.len() - 1].1 % 4096 == 0);
        if ranges.len() == 1 {
            assert(init =~= Seq::empty() && rest =~= Seq::empty());
        } else {
            law_pages_of_spans(rest);
            let mid = init.skip(1);
            assert(rest.drop_last() =~= mid);
            assert forall|i: int| 0 <= i < mid.len() implies (#[trigger] mid[i]).1 % 4096 == 0 by {
                assert(mid[i] == ranges[i + 1]);
            }
            law_pages_of_spans(mid);
            assert(rest.last() == ranges.last());
            assert(init[0] == ranges[0]);
        }
    }
}

/// A number of 32 bits is written as its four bytes, the lowest first, behind
/// what was there.
pub proof fn law_short_number_in_bytes(out: &mut Vec<u8>, x: u32)
    requires
        call_ensures(push_u32, (out, x), ()),
    ensures
        final(out)@.len() == old(out)@.len() + 4,
        old(out)@.is_prefix_of(final(out)@),
        le_value(final(out)@, old(out)@.len() as int, 4) == x,
{
    let s = old(out)@;
    lemma_read_u32(x, s, Seq::empty());
    assert(s + le32(x) + Seq::<u8>::empty() =~= s + le32(x));
    lemma_le32(final(out)@, s.len() as int);
}

/// A number of 64 bits is written as its eight bytes, the lowest first, behind
/// what was there.
pub proof fn law_long_number_in_bytes(out: &mut Vec<u8>, x: u64)
    requires
        call_ensures(push_u64, (out, x), ()),
    ensures
        final(out)@.len() == old(out)@.len() + 8,
        old(out)@.is_prefix_of(final(out)@),
        le_value(final(out)@, old(out)@.len() as int, 8) == x,
{
    let s = old(out)@;
    lemma_read_u64(x, s, Seq::empty());
    assert(s + le64(x) + Seq::<u8>::empty() =~= s + le64(x));
    lemma_le64(final(out)@, s.len() as int);
}

/// Numbers are read from their bytes, the lowest first.
pub proof fn law_numbers_from_bytes(bytes: &[u8], at: usize, short: u32, long: u64)
    requires
        at + 8 <= bytes@.len(),
        call_ensures(read_u32, (bytes, at), short),
        call_ensures(read_u64, (bytes, at), long),
    ensures
        short == le_value(bytes@, at as int, 4),
        long == le_value(bytes@, at as int, 8),
{
    lemma_le32(bytes@, at as int);
    lemma_le64(bytes@, at as int);
}

/// Bytes start with a magic number exactly where they have its eight bytes in
/// front, as they do once it was written to an empty vector.
pub proof fn law_magic(bytes: &[u8], magic: [u8; 8], res: bool, out: &mut Vec<u8>)
    requires
        call_ensures(starts_with, (bytes, &magic), res),
        call_ensures(push_magic, (out, &magic), ()),
    ensures
        res <==> bytes@.len() >= 8 && forall|i: int|
            0 <= i < 8 ==> #[trigger] bytes@[i] == magic@[i],
        final(out)@.len() == old(out)@.len() + 8,
        forall|i: int|
            0 <= i < old(out)@.len() ==> #[trigger] final(out)@[i] == old(out)@[i],
        forall|i: int|
            0 <= i < 8 ==> #[trigger] final(out)@[old(out)@.len() + i] == magic@[i],
{
    if bytes@.len() >= 8 {
        let head = bytes@.take(8);
        if head == magic@ {
            assert forall|i: int| 0 <= i < 8 implies #[trigger] bytes@[i] == magic@[i] by {
                assert(head[i] == bytes@[i]);
            }
        }
        if forall|i: int| 0 <= i < 8 ==> #[trigger] bytes@[i] == magic@[i] {
            assert(head =~= magic@);
        }
    }
}

/// The lengths of runs, added up.
pub open spec fn lengths(runs: Seq<Run>) -> int
    decreases runs.len(),
{
    if runs.len() == 0 {
        0
    } else {
        lengths(runs.drop_last()) + runs.last().len
    }
}

pub proof fn lemma_lengths_removed(runs: Seq<Run>, i: int)
    requires
        0 <= i < runs.len(),
    ensures
        lengths(runs) == lengths(runs.remove(i)) + runs[i].len,
    decreases runs.len(),
{
    let init = runs.drop_last();
    if i == runs.len() - 1 {
        assert(runs.remove(i) =~= init);
    } else {
        lemma_lengths_removed(init, i);
        assert(runs.remove(i).drop_last() =~= init.remove(i));
        assert(runs.remove(i).last() == runs.last());
    }
}

proof fn lemma_same_lengths(a: Seq<Run>, b: Seq<Run>)
    requires
        a.to_multiset() == b.to_multiset(),
    ensures
        lengths(a) == lengths(b),
    decreases a.len(),
{
    broadcast use vstd::seq_lib::group_to_multiset_ensures;

    assert(a.len() == a.to_multiset().len());
    assert(b.len() == b.to_multiset().len());
    if a.len() == 0 {
        assert(a =~= b);
    } else {
        let x = a.last();
        let init = a.drop_last();
        assert(a[a.len() - 1] == x);
        assert(a.contains(x));
        assert(b.to_multiset().count(x) > 0);
        assert(b.contains(x));
        let i = choose|i: int| 0 <= i < b.len() && b[i] == x;
        let rest = b.remove(i);
        assert(rest.to_multiset() == b.to_multiset().remove(x));
        assert(a.remove(a.len() - 1) =~= init);
        assert(init.to_multiset() == a.to_multiset().remove(x));
        lemma_same_lengths(init, rest);
        lemma_lengths_removed(b, i);
    }
}

proof fn lemma_lengths_merged(positions: Seq<(u64, u64)>, cap: int)
    requires
        positions.len() <= u64::MAX,
    ensures
        lengths(merged(positions, cap)) == positions.len(),
        forall|k: int|
            0 <= k < merged(positions, cap).len() ==> 1 <= (#[trigger] merged(
                positions,
                cap,
            )[k]).len <= positions.len(),
    decreases positions.len(),
{
    if positions.len() > 0 {
        let init = positions.drop_last();
        lemma_lengths_merged(init, cap);
        let runs = merged(init, cap);
        let item = positions.last();
        if runs.len() > 0 && continues(runs.last(), item, cap) {
            assert(runs[runs.len() - 1].len <= init.len());
            let grown = Run { len: (runs.last().len + 1) as u64, ..runs.last() };
            assert(runs.drop_last().push(grown).drop_last() =~= runs.drop_last());
        } else {
            let new = Run { group: item.0, start: item.1, len: 1 };
            assert(runs.push(new).drop_last() =~= runs);
        }
    }
}

/// Runs are together as long as what they are made of.
pub proof fn lemma_lengths_of_runs(items: Seq<(u64, u64)>, cap: int, runs: Seq<Run>)
    requires
        runs_of(items, cap, runs),
        items.len() <= u64::MAX,
    ensures
        lengths(runs) == items.len(),
{
    let leq = |a: (u64, u64), b: (u64, u64)| position_le(a, b);
    assert(vstd::relations::total_ordering(leq)) by {
        assert(vstd::relations::reflexive(leq));
        assert(vstd::relations::antisymmetric(leq));
        assert(vstd::relations::transitive(leq));
        assert(vstd::relations::strongly_connected(leq));
    }
    items.lemma_sort_by_ensures(leq);
    let sorted = by_position(items);
    items.to_multiset_ensures();
    sorted.to_multiset_ensures();
    assert(sorted.len() == items.len());
    lemma_same_lengths(runs, merged(sorted, cap));
    lemma_lengths_merged(sorted, cap);
}

/// Whether a run covers an item.
pub open spec fn run_has(run: Run, item: (u64, u64)) -> bool {
    run.group == item.0 && run.start <= item.1 < run.start + run.len
}

/// Whether a run has item `i` of a list.
pub open spec fn run_has_item(run: Run, items: Seq<(u64, u64)>, i: int) -> bool {
    0 <= i < items.len() && run_has(run, items[i])
}

/// Whether some run has item `i` of a list.
pub open spec fn in_a_run(runs: Seq<Run>, items: Seq<(u64, u64)>, i: int) -> bool {
    exists|k: int| 0 <= k < runs.len() && #[trigger] run_has_item(runs[k], items, i)
}

/// Whether run `a` has an item that stands before all those of run `b`.
pub open spec fn run_first(items: Seq<(u64, u64)>, a: Run, b: Run) -> bool {
    exists|i: int| #[trigger]
        run_has_item(a, items, i) && forall|j: int| #[trigger]
            run_has_item(b, items, j) ==> i < j
}

/// Merging shares the items out among runs of adjacent positions, no run longer
/// than the cap and all of them together as long as the list; every item is in
/// a run, and every position of a run is an item. Where no item stands twice,
/// none is in two runs, a run that another one continues has the full length,
/// and the runs stand in the order of their first items.
pub proof fn law_merged_runs(items: Vec<(u64, u64)>, cap: u64, runs: Vec<Run>)
    requires
        call_ensures(merge_runs, (&items, cap), runs),
    ensures
        forall|k: int| 0 <= k < runs@.len() ==> 1 <= (#[trigger] runs@[k]).len <= cap,
        lengths(runs@) == items@.len(),
        forall|i: int| 0 <= i < items@.len() ==> #[trigger] in_a_run(runs@, items@, i),
        forall|k: int, p: u64|
            #![trigger run_has(runs@[k], (runs@[k].group, p))]
            0 <= k < runs@.len() && run_has(runs@[k], (runs@[k].group, p)) ==> items@.contains(
                (runs@[k].group, p),
            ),
        items@.no_duplicates() ==> {
            &&& forall|k: int, l: int, i: int|
                #![trigger run_has_item(runs@[k], items@, i), run_has_item(runs@[l], items@, i)]
                0 <= k < runs@.len() && 0 <= l < runs@.len() && run_has_item(runs@[k], items@, i)
                    && run_has_item(runs@[l], items@, i) ==> k == l
            &&& forall|k: int, l: int|
                #![trigger runs@[k], runs@[l]]
                0 <= k < runs@.len() && 0 <= l < runs@.len() && runs@[k].group == runs@[l].group
                    && runs@[k].start + runs@[k].len == runs@[l].start ==> runs@[k].len == cap
            &&& forall|k: int, l: int|
                #![trigger runs@[k], runs@[l]]
                0 <= k < l < runs@.len() ==> run_first(items@, runs@[k], runs@[l])
        },
{
    let list = items@;
    let all = runs@;
    assert(runs_of(list, cap as int, all));
    assert(list.len() == items.len());
    lemma_lengths_of_runs(list, cap as int, all);
    let members = choose|members: Seq<Seq<int>>| #[trigger]
        grouped(list, cap as int, all, members);
    assert forall|k: int| 0 <= k < all.len() implies 1 <= (#[trigger] all[k]).len <= cap
        && members[k].len() == all[k].len by {}
    assert forall|i: int| 0 <= i < list.len() implies #[trigger] in_a_run(all, list, i) by {
        assert(is_member(members, i));
        let (k, x) = choose|k: int, x: int|
            0 <= k < members.len() && 0 <= x < members[k].len() && #[trigger] members[k][x] == i;
        assert(members[k].len() == all[k].len);
        assert(run_has_item(all[k], list, i));
    }
    assert forall|k: int, p: u64|
        #![trigger run_has(all[k], (all[k].group, p))]
        0 <= k < all.len() && run_has(all[k], (all[k].group, p)) implies list.contains(
        (all[k].group, p),
    ) by {
        assert(members[k].len() == all[k].len);
        let i = members[k][p - all[k].start];
        assert(list[i] == (all[k].group, p));
    }
    if list.no_duplicates() {
        assert forall|k: int, i: int|
            0 <= k < all.len() && #[trigger] run_has_item(all[k], list, i) implies {
            let x = list[i].1 - all[k].start;
            0 <= x < members[k].len() && members[k][x] == i
        } by {
            assert(members[k].len() == all[k].len);
            let x = list[i].1 - all[k].start;
            let j = members[k][x];
            assert(list[j].0 == all[k].group && list[j].1 == all[k].start + x);
            assert(list[j] == list[i]);
        }
        assert forall|k: int, l: int, i: int|
            #![trigger run_has_item(all[k], list, i), run_has_item(all[l], list, i)]
            0 <= k < all.len() && 0 <= l < all.len() && run_has_item(all[k], list, i)
                && run_has_item(all[l], list, i) implies k == l by {
            let (x, y) = (list[i].1 - all[k].start, list[i].1 - all[l].start);
            assert(members[k][x] == members[l][y]);
        }
        assert forall|k: int, l: int|
            #![trigger all[k], all[l]]
            0 <= k < l < all.len() implies run_first(list, all[k], all[l]) by {
            assert(members[k].len() == all[k].len);
            assert(starts_before(members[k], members[l]));
            let x = choose|x: int|
                0 <= x < members[k].len() && precedes(#[trigger] members[k][x], members[l]);
            let i = members[k][x];
            assert(run_has_item(all[k], list, i));
            assert forall|j: int| #[trigger] run_has_item(all[l], list, j) implies i < j by {
                let y = list[j].1 - all[l].start;
                assert(members[l][y] == j);
            }
        }
    }
}

/// A recorder tells what it has seen: how many pages were touched, whether a
/// page that it covers was, what was skipped and what was served remotely.
pub proof fn law_recorder_tells(
    recorder: StartupPackRecorder,
    marked: u64,
    page: u32,
    is_marked: bool,
    skipped: u64,
    remote: u64,
)
    requires
        recorder.wf(),
        page < recorder@.coverage,
        call_ensures(StartupPackRecorder::total_marked, (&recorder,), marked),
        call_ensures(StartupPackRecorder::is_marked, (&recorder, page), is_marked),
        call_ensures(StartupPackRecorder::skipped_high_pages, (&recorder,), skipped),
        call_ensures(StartupPackRecorder::remote_bytes, (&recorder,), remote),
    ensures
        marked == recorder@.touched.len(),
        is_marked <==> exists|i: int|
            0 <= i < recorder@.touched.len() && recorder@.touched[i] == page,
        skipped == recorder@.skipped_high_pages,
        remote == recorder@.remote_bytes,
{
}

/// The caps on pages, in bytes: a log of the default length covers 1 GiB, a
/// recorder 16 GiB, and a refill 16 MiB, all of them at most.
pub proof fn law_caps(n: int)
    ensures
        n <= MAX_PACK_PAGES <==> n * 4096 <= 0x4000_0000,
        n <= BITMAP_MAX_PAGES <==> n * 4096 <= 0x4_0000_0000,
        n <= RUN_BLOCKS <==> n * OBJECT_BLOCK_BYTES <= 0x100_0000,
{
}

/// A task tells the phase that was set last, whether it was canceled, and what
/// it has counted.
pub proof fn law_task_tells(
    task: &mut StartupPackTask,
    set: StartupPackPhase,
    phase: StartupPackPhase,
    canceled: bool,
    stats: StartupPackStatsSnapshot,
)
    requires
        call_ensures(StartupPackTask::set_phase, (task, set), ()),
        call_ensures(StartupPackTask::phase, (&*final(task),), phase),
        call_ensures(StartupPackTask::is_canceled, (&*final(task),), canceled),
        call_ensures(
            StartupPackStats::snapshot,
            (&final(task).stats,),
            stats,
        ),
    ensures
        phase == set,
        canceled == old(task).canceled,
        stats.oss_gets == old(task).stats.oss_gets,
        stats.oss_bytes == old(task).stats.oss_bytes,
{
}

/// Whether the end of a layer's header, of its index and of every entry of its
/// jump table, in the final object, is a number of 64 bits.
pub open spec fn layer_in_64_bits(o: OpenedLayer) -> bool {
    match o.layout {
        LayerLayout::Raw { tar_base } => tar_base + 4096 <= u64::MAX && (o.metadata.file_size
            > o.metadata.index_offset ==> tar_base + o.metadata.file_size <= u64::MAX),
        LayerLayout::ZFile { extents, tar_base, .. } => forall|i: int|
            #![trigger extents@[i]]
            0 <= i < extents@.len() ==> tar_base + extents@[i].0 + extents@[i].1 <= u64::MAX,
    }
}

/// Whether the index can be asked for any sectors of the image, and answers
/// with what can be planned with.
pub open spec fn index_answers<F: Fn(Segment) -> Vec<SegmentMapping>>(
    lookup: F,
    mem_virtual_size: u64,
    opened: Seq<OpenedLayer>,
) -> bool {
    forall|segment: Segment|
        #![trigger call_requires(lookup, (segment,))]
        (segment.offset + segment.length) * 512 <= mem_virtual_size ==> {
            &&& call_requires(lookup, (segment,))
            &&& forall|answer: Vec<SegmentMapping>| #[trigger]
                call_ensures(lookup, (segment,), answer) ==> mappings_fit(opened, answer@)
        }
}

/// What stays within 64 bits can be planned with.
pub proof fn lemma_stack_usable<F: Fn(Segment) -> Vec<SegmentMapping>>(
    stack: Stack,
    lookup: F,
    mem_virtual_size: u64,
)
    requires
        stack.opened.len() == stack.layers.len(),
        forall|i: int| 0 <= i < stack.opened.len() ==> layer_in_64_bits(#[trigger] stack.opened[i]),
        index_answers(lookup, mem_virtual_size, stack.opened),
        blocks_of_layers(stack.layers, stack.layers.len() as int).len() <= usize::MAX,
    ensures
        stack.addressable(),
        stack.lookup_ok(lookup, mem_virtual_size),
        stack.total_blocks() <= usize::MAX,
{
    lemma_blocks_of_layers(stack.layers, stack.layers.len() as int);
    assert forall|i: int| #![trigger stack.opened[i]] 0 <= i < stack.opened.len() implies {
        &&& stack.opened[i].layout.wf()
        &&& stack.opened[i].layout.addressable(0, 4096)
        &&& stack.opened[i].layout.addressable(
            stack.opened[i].metadata.index_offset as int,
            tail_len(stack.opened[i].metadata),
        )
    } by {
        assert(layer_in_64_bits(stack.opened[i]));
    }
    assert forall|segment: Segment|
        #![trigger segment_in_image(segment, mem_virtual_size)]
        segment_in_image(segment, mem_virtual_size) implies {
        &&& call_requires(lookup, (segment,))
        &&& forall|answer: Vec<SegmentMapping>| #[trigger]
            call_ensures(lookup, (segment,), answer) ==> stack.answer_ok(answer@)
    } by {
        assert((segment.offset + segment.length) * 512 <= mem_virtual_size);
        assert(call_requires(lookup, (segment,)));
        assert forall|answer: Vec<SegmentMapping>| #[trigger]
            call_ensures(lookup, (segment,), answer) implies stack.answer_ok(answer@) by {
            assert(mappings_fit(stack.opened, answer@));
            assert forall|i: int| 0 <= i < answer@.len() implies stack.mapping_ok(
                #[trigger] answer@[i],
            ) by {
                assert(mapping_fits(stack.opened, answer@[i]));
            }
        }
    }
}

/// Planning asks for no more than that its numbers can be computed: that the
/// layers and the answers of the index stay within 64 bits, that a machine word
/// can count the blocks of all layers and, for spans, that it can count their
/// pages and that 64 bits hold their ends. Any list of pages can be planned.
pub proof fn law_what_planning_asks_for<F: Fn(Segment) -> Vec<SegmentMapping>>(
    pages: &[u32],
    ranges: &[(u64, u64)],
    mem_virtual_size: u64,
    layers: &[FinalLayerSource],
    opened: &[OpenedLayer],
    budget: u64,
    lookup: F,
)
    requires
        opened@.len() == layers@.len(),
        forall|i: int| 0 <= i < opened@.len() ==> layer_in_64_bits(#[trigger] opened@[i]),
        index_answers(lookup, mem_virtual_size, opened@),
        blocks_of_layers(layers@, layers@.len() as int).len() <= usize::MAX,
    ensures
        call_requires(
            plan_blocks::<F>,
            (pages, mem_virtual_size, layers, opened, budget, lookup),
        ),
        (forall|i: int|
            #![trigger ranges@[i]]
            0 <= i < ranges@.len() ==> ranges@[i].0 + ranges@[i].1 <= u64::MAX) && total_pages(
            ranges@,
        ) <= usize::MAX ==> call_requires(
            plan_ranges::<F>,
            (ranges, mem_virtual_size, layers, opened, budget, lookup),
        ),
{
    let stack = Stack { layers: layers@, opened: opened@ };
    lemma_stack_usable(stack, lookup, mem_virtual_size);
}

/// A read can be submitted to any recorder as long as 64 bits hold its end; a
/// logical extent can be mapped as long as 64 bits hold its end, in the final
/// object too where it lies there as it is, and those of the entries of the
/// layer's jump table.
pub proof fn law_what_reads_and_extents_ask_for(
    recorder: &mut StartupPackRecorder,
    now: u128,
    offset: u64,
    len: usize,
    o: OpenedLayer,
    at: u64,
    n: u64,
    size: u64,
    out: &mut Vec<u32>,
)
    requires
        old(recorder).wf(),
        layer_in_64_bits(o),
    ensures
        offset + len <= u64::MAX ==> call_requires(
            StartupPackRecorder::observe_submit,
            (recorder, now, offset, len),
        ),
        (match o.layout {
            LayerLayout::Raw { tar_base } => at + n + tar_base <= u64::MAX,
            LayerLayout::ZFile { .. } => at + n <= u64::MAX,
        }) ==> call_requires(map_extent_blocks, (&o.layout, at, n, size, out)),
{
}

} // verus!
