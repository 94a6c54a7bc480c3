//! What holds of every manifest.
use vstd::prelude::*;
use crate::page_offset::{PACK_PAGE_BYTES, is_page_of, lemma_no_bad_offset};
use crate::runs::{Run, lemma_same_map, runs_of};
use crate::runs_laws::{
    covers, law_first_item_first, law_no_more_runs_than_items, law_runs_cover, law_runs_disjoint,
    law_runs_unique, law_same_runs,
};
use crate::sorting::{in_order, lemma_same_elements, lemma_sorted_form, sorted_triples, triple_le};
use crate::startup_manifest::{
    MANIFEST_FORMAT_VERSION, MANIFEST_HEADER_BYTES, MANIFEST_MAGIC, MAX_PREFIX_PAGES, MAX_RANGES,
    ManifestData, ManifestError, byte_ranges, build_error, first_range_error, flat,
    lemma_run_in_image, manifest_bytes, manifest_error, manifest_header, page_items, paired,
    parse_manifest, range_error, range_keys, range_valid, ranges_apart, ranges_error, ranges_from,
    ranges_valid,
};
use crate::wire::{
    le32, le64, lemma_read_u32, lemma_read_u64, lemma_read_words, lemma_words_len, lemma_write_u32,
    lemma_write_u64, lemma_write_words, u32_at, u64_at, words, words_at,
};

verus! {

/// Sorted ranges, from `i` on: each valid and behind the one before it.
spec fn chained(mem: u64, sorted: Seq<(u64, u64, u64)>, i: int, last_end: int) -> bool {
    &&& forall|k: int|
        i <= k < sorted.len() ==> range_valid(mem, ((#[trigger] sorted[k]).0, sorted[k].1))
            && sorted[k].0 >= last_end
    &&& forall|k: int, l: int|
        #![trigger sorted[k], sorted[l]]
        i <= k < l < sorted.len() ==> sorted[k].0 + sorted[k].1 <= sorted[l].0
}

proof fn lemma_chained(mem: u64, sorted: Seq<(u64, u64, u64)>, i: int, last_end: int)
    requires
        0 <= i,
        sorted_triples(sorted),
        0 <= last_end,
    ensures
        first_range_error(mem, sorted, i, last_end) is None <==> chained(mem, sorted, i, last_end),
    decreases sorted.len() - i,
{
    if i < sorted.len() {
        let end = sorted[i].0 + sorted[i].1;
        lemma_chained(mem, sorted, i + 1, end);
        let fine = range_error(mem, sorted[i].0, sorted[i].1, last_end) is None;
        assert(fine <==> range_valid(mem, (sorted[i].0, sorted[i].1)) && sorted[i].0 >= last_end);
        if fine && chained(mem, sorted, i + 1, end) {
            assert forall|k: int| i <= k < sorted.len() implies range_valid(
                mem,
                ((#[trigger] sorted[k]).0, sorted[k].1),
            ) && sorted[k].0 >= last_end by {
            }
            assert forall|k: int, l: int|
                #![trigger sorted[k], sorted[l]]
                i <= k < l < sorted.len() implies sorted[k].0 + sorted[k].1 <= sorted[l].0 by {
            }
        }
        if chained(mem, sorted, i, last_end) {
            assert(fine);
            assert forall|k: int| i + 1 <= k < sorted.len() implies range_valid(
                mem,
                ((#[trigger] sorted[k]).0, sorted[k].1),
            ) && sorted[k].0 >= end by {
                assert(sorted[i].0 + sorted[i].1 <= sorted[k].0);
            }
        }
    }
}

/// A range table is accepted exactly where every range is a non-empty run of
/// pages of the image and no two of them overlap, in whatever order they
/// stand.
pub proof fn law_ranges_accepted(mem_virtual_size: u64, ranges: Seq<(u64, u64)>)
    ensures
        ranges_error(mem_virtual_size, ranges) is None <==> ranges_valid(mem_virtual_size, ranges),
{
    let keys = range_keys(ranges);
    let sorted = in_order(keys);
    lemma_sorted_form(keys);
    lemma_same_elements(keys, sorted);
    lemma_chained(mem_virtual_size, sorted, 0, 0);
    if ranges_valid(mem_virtual_size, ranges) {
        assert(keys.no_duplicates()) by {
            assert forall|i: int, j: int|
                0 <= i < keys.len() && 0 <= j < keys.len() && i != j implies keys[i] != keys[j] by {
                assert(range_valid(mem_virtual_size, ranges[i]));
                if i < j {
                    assert(ranges_apart(ranges[i], ranges[j]));
                } else {
                    assert(ranges_apart(ranges[j], ranges[i]));
                }
            }
        }
        assert forall|k: int| 0 <= k < sorted.len() implies range_valid(
            mem_virtual_size,
            ((#[trigger] sorted[k]).0, sorted[k].1),
        ) by {
            let i = lemma_from_key(ranges, sorted, k);
            assert(range_valid(mem_virtual_size, ranges[i]));
        }
        assert forall|k: int, l: int|
            #![trigger sorted[k], sorted[l]]
            0 <= k < l < sorted.len() implies sorted[k].0 + sorted[k].1 <= sorted[l].0 by {
            let i = lemma_from_key(ranges, sorted, k);
            let j = lemma_from_key(ranges, sorted, l);
            assert(sorted[k] != sorted[l]);
            assert(i != j);
            assert(triple_le(sorted[k], sorted[l]));
            assert(range_valid(mem_virtual_size, ranges[i]));
            assert(range_valid(mem_virtual_size, ranges[j]));
            if i < j {
                assert(ranges_apart(ranges[i], ranges[j]));
            } else {
                assert(ranges_apart(ranges[j], ranges[i]));
            }
        }
    }
    if ranges_error(mem_virtual_size, ranges) is None {
        assert(sorted.no_duplicates()) by {
            assert forall|k: int, l: int|
                0 <= k < sorted.len() && 0 <= l < sorted.len() && k != l implies sorted[k]
                != sorted[l] by {
                assert(range_valid(mem_virtual_size, (sorted[k].0, sorted[k].1)));
                assert(range_valid(mem_virtual_size, (sorted[l].0, sorted[l].1)));
            }
        }
        lemma_same_elements(sorted, keys);
        assert forall|i: int| 0 <= i < ranges.len() implies range_valid(
            mem_virtual_size,
            #[trigger] ranges[i],
        ) by {
            let k = lemma_to_key(ranges, sorted, i);
            assert(range_valid(mem_virtual_size, (sorted[k].0, sorted[k].1)));
        }
        assert forall|i: int, j: int|
            #![trigger ranges[i], ranges[j]]
            0 <= i < j < ranges.len() implies ranges_apart(ranges[i], ranges[j]) by {
            let k = lemma_to_key(ranges, sorted, i);
            let l = lemma_to_key(ranges, sorted, j);
            assert(keys[i] != keys[j]);
            if k < l {
                assert(sorted[k].0 + sorted[k].1 <= sorted[l].0);
            } else {
                assert(sorted[l].0 + sorted[l].1 <= sorted[k].0);
            }
        }
    }
}

proof fn lemma_from_key(ranges: Seq<(u64, u64)>, sorted: Seq<(u64, u64, u64)>, k: int) -> (i: int)
    requires
        0 <= k < sorted.len(),
        forall|x: (u64, u64, u64)| #[trigger]
            range_keys(ranges).contains(x) <==> sorted.contains(x),
    ensures
        0 <= i < ranges.len(),
        sorted[k] == (ranges[i].0, ranges[i].1, 0u64),
{
    let keys = range_keys(ranges);
    assert(sorted.contains(sorted[k]));
    assert(keys.contains(sorted[k]));
    choose|i: int| 0 <= i < keys.len() && keys[i] == sorted[k]
}

proof fn lemma_to_key(ranges: Seq<(u64, u64)>, sorted: Seq<(u64, u64, u64)>, i: int) -> (k: int)
    requires
        0 <= i < ranges.len(),
        forall|x: (u64, u64, u64)| #[trigger]
            range_keys(ranges).contains(x) <==> sorted.contains(x),
    ensures
        0 <= k < sorted.len(),
        sorted[k] == (ranges[i].0, ranges[i].1, 0u64),
{
    let keys = range_keys(ranges);
    assert(keys.contains(keys[i]));
    assert(sorted.contains(keys[i]));
    choose|k: int| 0 <= k < sorted.len() && sorted[k] == keys[i]
}

proof fn lemma_header(mem_virtual_size: u64, np: u32, nr: u32, body: Seq<u8>)
    ensures
        ({
            let bytes = manifest_header(mem_virtual_size, np, nr) + body;
            &&& manifest_header(mem_virtual_size, np, nr).len() == MANIFEST_HEADER_BYTES
            &&& bytes.take(8) == MANIFEST_MAGIC@
            &&& u32_at(bytes, 8) == MANIFEST_FORMAT_VERSION
            &&& u32_at(bytes, 12) == MANIFEST_HEADER_BYTES
            &&& u64_at(bytes, 16) == mem_virtual_size
            &&& u32_at(bytes, 24) == np
            &&& u32_at(bytes, 28) == nr
        }),
{
    let m = MANIFEST_MAGIC@;
    let v = le32(MANIFEST_FORMAT_VERSION);
    let h = le32(MANIFEST_HEADER_BYTES as u32);
    let s = le64(mem_virtual_size);
    let p = le32(np);
    let r = le32(nr);
    let bytes = manifest_header(mem_virtual_size, np, nr) + body;
    assert(bytes.take(8) =~= m);
    lemma_read_u32(MANIFEST_FORMAT_VERSION, m, h + s + p + r + body);
    assert(m + v + (h + s + p + r + body) =~= bytes);
    lemma_read_u32(MANIFEST_HEADER_BYTES as u32, m + v, s + p + r + body);
    assert(m + v + h + (s + p + r + body) =~= bytes);
    lemma_read_u64(mem_virtual_size, m + v + h, p + r + body);
    assert(m + v + h + s + (p + r + body) =~= bytes);
    lemma_read_u32(np, m + v + h + s, r + body);
    assert(m + v + h + s + p + (r + body) =~= bytes);
    lemma_read_u32(nr, m + v + h + s + p, body);
    assert(m + v + h + s + p + r + body =~= bytes);
}

/// Decoding gives back what was encoded.
pub proof fn law_decode_encoded_manifest(m: ManifestData)
    requires
        manifest_error(m) is None,
    ensures
        parse_manifest(manifest_bytes(m)) == Ok::<ManifestData, ManifestError>(m),
{
    let np = m.prefix_pages.len() as u32;
    let nr = m.ranges.len() as u32;
    let header = manifest_header(m.mem_virtual_size, np, nr);
    let (pages, table) = (words(m.prefix_pages), words(flat(m.ranges)));
    lemma_header(m.mem_virtual_size, np, nr, pages + table);
    assert(header + (pages + table) =~= manifest_bytes(m));
    lemma_read_body(header, m.prefix_pages, m.ranges);
}

/// Prefix pages and ranges are read back from the body.
proof fn lemma_read_body(header: Seq<u8>, prefix_pages: Seq<u64>, ranges: Seq<(u64, u64)>)
    requires
        header.len() == 32,
    ensures
        ({
            let bytes = header + words(prefix_pages) + words(flat(ranges));
            let (np, nr) = (prefix_pages.len() as int, ranges.len() as int);
            &&& bytes.len() == 32 + 8 * np + 16 * nr
            &&& words_at(bytes, 32, np) == prefix_pages
            &&& paired(words_at(bytes, 32 + 8 * np, 2 * nr)) == ranges
        }),
{
    let (pages, table) = (words(prefix_pages), words(flat(ranges)));
    let bytes = header + pages + table;
    lemma_words_len(prefix_pages);
    lemma_words_len(flat(ranges));
    lemma_paired_flat(ranges);
    lemma_read_words(prefix_pages, header, table);
    lemma_read_words(flat(ranges), header + pages, Seq::empty());
    assert(bytes + Seq::<u8>::empty() =~= bytes);
}

proof fn lemma_paired_flat(ranges: Seq<(u64, u64)>)
    ensures
        flat(ranges).len() == 2 * ranges.len(),
        paired(flat(ranges)) == ranges,
{
    assert forall|i: int| 0 <= i < ranges.len() implies paired(flat(ranges))[i] == ranges[i] by {
        assert((2 * i) / 2 == i && (2 * i + 1) / 2 == i);
    }
    assert(paired(flat(ranges)) =~= ranges);
}

/// The header of a byte string that decodes is that of the decoded manifest.
proof fn lemma_header_of(bytes: Seq<u8>)
    requires
        bytes.len() >= 32,
        bytes.take(8) == MANIFEST_MAGIC@,
        u32_at(bytes, 8) == MANIFEST_FORMAT_VERSION,
        u32_at(bytes, 12) == MANIFEST_HEADER_BYTES,
    ensures
        manifest_header(u64_at(bytes, 16), u32_at(bytes, 24), u32_at(bytes, 28)) == bytes.take(32),
{
    lemma_write_u32(bytes, 8);
    lemma_write_u32(bytes, 12);
    lemma_write_u64(bytes, 16);
    lemma_write_u32(bytes, 24);
    lemma_write_u32(bytes, 28);
    assert(bytes.take(32) =~= bytes.take(8) + bytes.subrange(8, 12) + bytes.subrange(12, 16)
        + bytes.subrange(16, 24) + bytes.subrange(24, 28) + bytes.subrange(28, 32));
}

/// What decodes is what encoding the decoded manifest gives: there is one byte
/// string for each manifest.
pub proof fn law_encode_decoded_manifest(bytes: Seq<u8>)
    ensures
        parse_manifest(bytes) matches Ok(m) ==> manifest_error(m) is None && manifest_bytes(m)
            == bytes,
{
    if parse_manifest(bytes) is Ok {
        let m = parse_manifest(bytes)->Ok_0;
        lemma_header_of(bytes);
        lemma_body_of(bytes, u32_at(bytes, 24) as int, u32_at(bytes, 28) as int);
        assert(m.prefix_pages.len() == u32_at(bytes, 24));
        assert(m.ranges.len() == u32_at(bytes, 28));
        assert(manifest_bytes(m) == bytes);
    }
}

/// The body of a byte string that decodes is that of the decoded manifest.
proof fn lemma_body_of(bytes: Seq<u8>, np: int, nr: int)
    requires
        0 <= np,
        0 <= nr,
        bytes.len() == 32 + 8 * np + 16 * nr,
    ensures
        bytes.take(32) + words(words_at(bytes, 32, np)) + words(
            flat(paired(words_at(bytes, 32 + 8 * np, 2 * nr))),
        ) == bytes,
{
    let mid = 32 + 8 * np;
    let (a, b) = (words_at(bytes, 32, np), words_at(bytes, mid, 2 * nr));
    assert(words(a) == bytes.subrange(32, mid)) by {
        lemma_write_words(bytes, 32, np);
    }
    assert(words(b) == bytes.subrange(mid, bytes.len() as int)) by {
        lemma_write_words(bytes, mid, 2 * nr);
    }
    assert(flat(paired(b)) == b) by {
        lemma_flat_paired(b);
    }
    lemma_split(bytes, 32, mid);
}

proof fn lemma_split(bytes: Seq<u8>, i: int, j: int)
    requires
        0 <= i <= j <= bytes.len(),
    ensures
        bytes.take(i) + bytes.subrange(i, j) + bytes.subrange(j, bytes.len() as int) == bytes,
{
    assert(bytes.take(i) + bytes.subrange(i, j) + bytes.subrange(j, bytes.len() as int) =~= bytes);
}

proof fn lemma_flat_paired(ws: Seq<u64>)
    requires
        ws.len() % 2 == 0,
    ensures
        flat(paired(ws)) == ws,
{
    assert(flat(paired(ws)) =~= ws);
}

/// A decoded manifest names pages of its memory image only, and no page twice
/// in its range table.
pub proof fn law_decoded_manifest_is_valid(bytes: Seq<u8>)
    ensures
        parse_manifest(bytes) matches Ok(m) ==> {
            &&& m.prefix_pages.len() <= MAX_PREFIX_PAGES
            &&& m.ranges.len() <= MAX_RANGES
            &&& forall|i: int|
                0 <= i < m.prefix_pages.len() ==> is_page_of(
                    m.mem_virtual_size,
                    #[trigger] m.prefix_pages[i],
                )
            &&& ranges_valid(m.mem_virtual_size, m.ranges)
        },
{
    if parse_manifest(bytes) is Ok {
        let m = parse_manifest(bytes)->Ok_0;
        lemma_no_bad_offset(m.mem_virtual_size, m.prefix_pages, 0);
        law_ranges_accepted(m.mem_virtual_size, m.ranges);
    }
}

/// Page numbers of distinct pages are distinct.
proof fn lemma_distinct_pages(mem_virtual_size: u64, offsets: Seq<u64>)
    requires
        build_error(mem_virtual_size, offsets) is None,
        offsets.no_duplicates(),
    ensures
        page_items(offsets).no_duplicates(),
{
    let items = page_items(offsets);
    lemma_no_bad_offset(mem_virtual_size, offsets, 0);
    assert forall|i: int, j: int|
        0 <= i < items.len() && 0 <= j < items.len() && i != j implies items[i] != items[j] by {
        assert(is_page_of(mem_virtual_size, offsets[i]));
        assert(is_page_of(mem_virtual_size, offsets[j]));
        assert(offsets[i] != offsets[j]);
    }
}

/// Distinct first-touch pages determine the range table.
pub proof fn law_built_ranges_unique(
    mem_virtual_size: u64,
    offsets: Seq<u64>,
    a: Seq<(u64, u64)>,
    b: Seq<(u64, u64)>,
)
    requires
        build_error(mem_virtual_size, offsets) is None,
        offsets.no_duplicates(),
        ranges_from(offsets, a),
        ranges_from(offsets, b),
    ensures
        a == b,
{
    let items = page_items(offsets);
    lemma_distinct_pages(mem_virtual_size, offsets);
    let ra = choose|runs: Seq<Run>| #[trigger]
        runs_of(items, u64::MAX as int, runs) && a == byte_ranges(runs);
    let rb = choose|runs: Seq<Run>| #[trigger]
        runs_of(items, u64::MAX as int, runs) && b == byte_ranges(runs);
    law_runs_unique(items, u64::MAX as int, ra, rb);
}

/// A list of pages has one collection of ranges, also where it names pages
/// twice: the ranks decide their order only.
pub proof fn law_built_ranges_same(offsets: Seq<u64>, a: Seq<(u64, u64)>, b: Seq<(u64, u64)>)
    requires
        ranges_from(offsets, a),
        ranges_from(offsets, b),
    ensures
        a.to_multiset() == b.to_multiset(),
{
    let items = page_items(offsets);
    let ra = choose|runs: Seq<Run>| #[trigger]
        runs_of(items, u64::MAX as int, runs) && a == byte_ranges(runs);
    let rb = choose|runs: Seq<Run>| #[trigger]
        runs_of(items, u64::MAX as int, runs) && b == byte_ranges(runs);
    law_same_runs(items, u64::MAX as int, ra, rb);
    lemma_same_map(
        ra,
        rb,
        |r: Run| ((r.start * PACK_PAGE_BYTES) as u64, (r.len * PACK_PAGE_BYTES) as u64),
    );
}

/// Whether a byte of the image lies in a range.
pub open spec fn in_range(range: (u64, u64), at: u64) -> bool {
    range.0 <= at < range.0 + range.1
}

proof fn lemma_page_covered(mem_virtual_size: u64, offsets: Seq<u64>, runs: Seq<Run>, page: u64)
    requires
        build_error(mem_virtual_size, offsets) is None,
        runs_of(page_items(offsets), u64::MAX as int, runs),
        page % PACK_PAGE_BYTES == 0,
    ensures
        offsets.contains(page) <==> exists|k: int|
            0 <= k < byte_ranges(runs).len() && in_range(#[trigger] byte_ranges(runs)[k], page),
{
    let items = page_items(offsets);
    let ranges = byte_ranges(runs);
    let p = (page / PACK_PAGE_BYTES) as u64;
    lemma_no_bad_offset(mem_virtual_size, offsets, 0);
    law_runs_cover(items, u64::MAX as int, runs);
    if offsets.contains(page) {
        let i = choose|i: int| 0 <= i < offsets.len() && offsets[i] == page;
        assert(items[i] == (0u64, p));
        let k = choose|k: int| 0 <= k < runs.len() && covers(#[trigger] runs[k], items[i]);
        lemma_run_in_image(mem_virtual_size, offsets, runs, k);
        assert(in_range(ranges[k], page));
    }
    if exists|k: int| 0 <= k < ranges.len() && in_range(#[trigger] ranges[k], page) {
        let k = choose|k: int| 0 <= k < ranges.len() && in_range(#[trigger] ranges[k], page);
        lemma_run_in_image(mem_virtual_size, offsets, runs, k);
        assert(runs[k].start <= p < runs[k].start + runs[k].len);
        assert(items.contains((runs[k].group, p)));
        let i = choose|i: int| 0 <= i < items.len() && items[i] == (runs[k].group, p);
        assert(is_page_of(mem_virtual_size, offsets[i]));
        assert(offsets[i] == page);
    }
}

/// The range table of a page list covers each listed page, whole, and no page
/// that is not listed; its first range holds the first page.
pub proof fn law_built_ranges_cover(
    mem_virtual_size: u64,
    offsets: Seq<u64>,
    ranges: Seq<(u64, u64)>,
)
    requires
        build_error(mem_virtual_size, offsets) is None,
        ranges_from(offsets, ranges),
    ensures
        0 < ranges.len() <= offsets.len(),
        forall|k: int| 0 <= k < ranges.len() ==> range_valid(mem_virtual_size, #[trigger] ranges[k]),
        forall|page: u64|
            #![trigger offsets.contains(page)]
            page % PACK_PAGE_BYTES == 0 ==> (offsets.contains(page) <==> exists|k: int|
                0 <= k < ranges.len() && in_range(#[trigger] ranges[k], page)),
        in_range(ranges[0], offsets[0]),
{
    let runs = choose|runs: Seq<Run>| #[trigger]
        runs_of(page_items(offsets), u64::MAX as int, runs) && ranges == byte_ranges(runs);
    lemma_first_range(mem_virtual_size, offsets, runs);
    assert forall|k: int| 0 <= k < ranges.len() implies range_valid(
        mem_virtual_size,
        #[trigger] ranges[k],
    ) by {
        lemma_run_in_image(mem_virtual_size, offsets, runs, k);
    }
    assert forall|page: u64|
        #![trigger offsets.contains(page)]
        page % PACK_PAGE_BYTES == 0 implies (offsets.contains(page) <==> exists|k: int|
        0 <= k < ranges.len() && in_range(#[trigger] ranges[k], page)) by {
        lemma_page_covered(mem_virtual_size, offsets, runs, page);
    }
}

proof fn lemma_first_range(mem_virtual_size: u64, offsets: Seq<u64>, runs: Seq<Run>)
    requires
        build_error(mem_virtual_size, offsets) is None,
        runs_of(page_items(offsets), u64::MAX as int, runs),
    ensures
        0 < runs.len() <= offsets.len(),
        in_range(byte_ranges(runs)[0], offsets[0]),
{
    let items = page_items(offsets);
    lemma_no_bad_offset(mem_virtual_size, offsets, 0);
    law_first_item_first(items, u64::MAX as int, runs);
    law_no_more_runs_than_items(items, u64::MAX as int, runs);
    lemma_run_in_image(mem_virtual_size, offsets, runs, 0);
    assert(is_page_of(mem_virtual_size, offsets[0]));
    assert(items[0] == (0u64, offsets[0] / PACK_PAGE_BYTES));
}

/// A manifest built from distinct pages, no more than the range cap, can be
/// encoded, and decodes to itself.
pub proof fn law_built_manifest_round_trips(
    mem_virtual_size: u64,
    offsets: Seq<u64>,
    ranges: Seq<(u64, u64)>,
)
    requires
        build_error(mem_virtual_size, offsets) is None,
        offsets.no_duplicates(),
        offsets.len() <= MAX_RANGES,
        ranges_from(offsets, ranges),
    ensures
        ({
            let m = ManifestData { mem_virtual_size, prefix_pages: Seq::empty(), ranges };
            &&& manifest_error(m) is None
            &&& parse_manifest(manifest_bytes(m)) == Ok::<ManifestData, ManifestError>(m)
        }),
{
    let items = page_items(offsets);
    lemma_distinct_pages(mem_virtual_size, offsets);
    law_built_ranges_cover(mem_virtual_size, offsets, ranges);
    let runs = choose|runs: Seq<Run>| #[trigger]
        runs_of(items, u64::MAX as int, runs) && ranges == byte_ranges(runs);
    assert forall|k: int, l: int|
        #![trigger ranges[k], ranges[l]]
        0 <= k < l < ranges.len() implies ranges_apart(ranges[k], ranges[l]) by {
        lemma_run_in_image(mem_virtual_size, offsets, runs, k);
        lemma_run_in_image(mem_virtual_size, offsets, runs, l);
        if !ranges_apart(ranges[k], ranges[l]) {
            let p = if runs[k].start >= runs[l].start {
                runs[k].start
            } else {
                runs[l].start
            };
            law_runs_disjoint(items, u64::MAX as int, runs, k, l, p);
        }
    }
    law_ranges_accepted(mem_virtual_size, ranges);
    let m = ManifestData { mem_virtual_size, prefix_pages: Seq::empty(), ranges };
    law_decode_encoded_manifest(m);
}

} // verus!
