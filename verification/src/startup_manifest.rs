//! Startup manifest: a tiny first-touch page manifest that carries where the
//! hot pages are instead of the hot bytes themselves. Pages are merged into
//! address-contiguous ranges for compactness, and the range table is sorted by
//! each range's earliest first-touch rank: table position is the first-need
//! order. The resume side translates the table into final-object blocks,
//! merges adjacent blocks into large runs, and delivers runs in this order.
//! Manifests with an unknown format version are ignored (resume proceeds
//! on-demand).
//!
//! Layout (little-endian): header (32 bytes), prefix pages, ranges.
//! Header: magic "AENVMF01", version (4 bytes), header size (4 bytes), memory
//! image size (8 bytes), prefix page count (4 bytes), range count (4 bytes).
//! Prefix pages: page offsets (8 bytes each) delivered ahead of the range
//! table (unused by current producers).
//! Ranges: start and length (8 bytes each), sorted by earliest first-touch
//! rank.
use vstd::prelude::*;
use crate::page_offset::{
    PACK_PAGE_BYTES, PageOffsetError, check_page_offset, first_bad_offset, is_page_of,
    lemma_no_bad_offset, page_offset_error,
};
use crate::runs::{Run, merge_runs, runs_of};
use crate::runs_laws::law_runs_cover;
use crate::sorting::{in_order, lemma_in_order, sort_triples};
use crate::wire::{
    le32, le64, push_magic, push_u32, push_u64, read_u32, read_u64, starts_with, u32_at, u64_at,
    words, words_at,
};

verus! {

/// The bytes "AENVMF01".
pub const MANIFEST_MAGIC: [u8; 8] = [0x41, 0x45, 0x4e, 0x56, 0x4d, 0x46, 0x30, 0x31];

pub const MANIFEST_FORMAT_VERSION: u32 = 4;

pub const MANIFEST_HEADER_BYTES: usize = 32;

/// Sanity caps bounding parser allocations.
pub const MAX_PREFIX_PAGES: u32 = 1048576;

pub const MAX_RANGES: u32 = 1048576;

/// Why a manifest was refused.
#[derive(Clone, Copy, Debug, PartialEq, Eq)]
pub enum ManifestError {
    /// There is no page to build a manifest from.
    EmptyPageList,
    /// An offset is not that of a page of the memory image.
    Offset { offset: u64, error: PageOffsetError },
    /// Two ranges overlap.
    RangesOverlap,
    /// The length of a range is zero or no multiple of the page size.
    BadRangeLength { len: u64 },
    /// The end of a range does not fit in 64 bits.
    RangeOverflow { start: u64, len: u64 },
    /// A range ends past the memory image.
    RangePastEnd { start: u64, len: u64 },
    TooManyPrefixPages { count: usize },
    TooManyRanges { count: usize },
    /// There are fewer bytes than the header has.
    TooShort { len: usize },
    /// The bytes do not start with the magic number.
    BadMagic,
    UnsupportedVersion { version: u32 },
    BadHeaderSize { header_bytes: u32 },
    /// A count is above its cap.
    CountsOutOfRange { prefix_pages: u32, ranges: u32 },
    /// The bytes are not as many as the counts ask for.
    LengthMismatch { expected: usize, actual: usize },
}

/// A parsed startup manifest.
#[derive(Clone, Debug, PartialEq, Eq)]
pub struct StartupManifest {
    pub mem_virtual_size: u64,
    /// Page offsets delivered ahead of the range table (empty for current
    /// producers).
    pub prefix_pages: Vec<u64>,
    /// Merged `(offset, len)` ranges sorted by earliest first-touch rank.
    pub ranges: Vec<(u64, u64)>,
}

/// What a manifest says.
pub struct ManifestData {
    pub mem_virtual_size: u64,
    pub prefix_pages: Seq<u64>,
    pub ranges: Seq<(u64, u64)>,
}

impl View for StartupManifest {
    type V = ManifestData;

    open spec fn view(&self) -> ManifestData {
        ManifestData {
            mem_virtual_size: self.mem_virtual_size,
            prefix_pages: self.prefix_pages@,
            ranges: self.ranges@,
        }
    }
}

/// Ranges as triples, to be sorted.
pub open spec fn range_keys(ranges: Seq<(u64, u64)>) -> Seq<(u64, u64, u64)> {
    ranges.map_values(|r: (u64, u64)| (r.0, r.1, 0u64))
}

/// What is wrong with one range, if anything is: it may not start below
/// `last_end`, and it is a non-empty run of pages of the image.
pub open spec fn range_error(
    mem_virtual_size: u64,
    start: u64,
    len: u64,
    last_end: int,
) -> Option<ManifestError> {
    if start < last_end {
        Some(ManifestError::RangesOverlap)
    } else if len == 0 || len % PACK_PAGE_BYTES != 0 {
        Some(ManifestError::BadRangeLength { len })
    } else {
        match page_offset_error(mem_virtual_size, start) {
            Some(error) => Some(ManifestError::Offset { offset: start, error }),
            None => if start + len > u64::MAX {
                Some(ManifestError::RangeOverflow { start, len })
            } else if start + len > mem_virtual_size {
                Some(ManifestError::RangePastEnd { start, len })
            } else {
                None
            },
        }
    }
}

/// The first error among sorted ranges, from `i` on.
pub open spec fn first_range_error(
    mem_virtual_size: u64,
    sorted: Seq<(u64, u64, u64)>,
    i: int,
    last_end: int,
) -> Option<ManifestError>
    decreases sorted.len() - i,
{
    if i < 0 || i >= sorted.len() {
        None
    } else {
        match range_error(mem_virtual_size, sorted[i].0, sorted[i].1, last_end) {
            Some(e) => Some(e),
            None => first_range_error(
                mem_virtual_size,
                sorted,
                i + 1,
                sorted[i].0 + sorted[i].1,
            ),
        }
    }
}

/// What is wrong with a range table, if anything is: the first error in
/// address order.
pub open spec fn ranges_error(mem_virtual_size: u64, ranges: Seq<(u64, u64)>) -> Option<
    ManifestError,
> {
    first_range_error(mem_virtual_size, in_order(range_keys(ranges)), 0, 0)
}

/// Whether a range is a non-empty run of pages of the image.
pub open spec fn range_valid(mem_virtual_size: u64, range: (u64, u64)) -> bool {
    &&& range.1 > 0
    &&& range.0 % PACK_PAGE_BYTES == 0
    &&& range.1 % PACK_PAGE_BYTES == 0
    &&& range.0 + range.1 <= mem_virtual_size
}

/// Whether two ranges have no byte in common.
pub open spec fn ranges_apart(a: (u64, u64), b: (u64, u64)) -> bool {
    a.0 + a.1 <= b.0 || b.0 + b.1 <= a.0
}

/// Whether a range table is valid: every range is, and no two overlap.
pub open spec fn ranges_valid(mem_virtual_size: u64, ranges: Seq<(u64, u64)>) -> bool {
    &&& forall|i: int|
        0 <= i < ranges.len() ==> range_valid(mem_virtual_size, #[trigger] ranges[i])
    &&& forall|i: int, j: int|
        #![trigger ranges[i], ranges[j]]
        0 <= i < j < ranges.len() ==> ranges_apart(ranges[i], ranges[j])
}

/// Why a manifest cannot be encoded, if it cannot.
pub open spec fn manifest_error(m: ManifestData) -> Option<ManifestError> {
    if m.prefix_pages.len() > MAX_PREFIX_PAGES {
        Some(ManifestError::TooManyPrefixPages { count: m.prefix_pages.len() as usize })
    } else if m.ranges.len() > MAX_RANGES {
        Some(ManifestError::TooManyRanges { count: m.ranges.len() as usize })
    } else {
        match first_bad_offset(m.mem_virtual_size, m.prefix_pages, 0) {
            Some((offset, error)) => Some(ManifestError::Offset { offset, error }),
            None => ranges_error(m.mem_virtual_size, m.ranges),
        }
    }
}

/// The starts and lengths of ranges, one after the other.
pub open spec fn flat(ranges: Seq<(u64, u64)>) -> Seq<u64> {
    Seq::new(
        2 * ranges.len(),
        |i: int|
            if i % 2 == 0 {
                ranges[i / 2].0
            } else {
                ranges[i / 2].1
            },
    )
}

/// Starts and lengths as ranges.
pub open spec fn paired(ws: Seq<u64>) -> Seq<(u64, u64)> {
    Seq::new(ws.len() / 2, |i: int| (ws[2 * i], ws[2 * i + 1]))
}

/// The header of a manifest.
pub open spec fn manifest_header(mem_virtual_size: u64, prefix_pages: u32, ranges: u32) -> Seq<
    u8,
> {
    MANIFEST_MAGIC@ + le32(MANIFEST_FORMAT_VERSION) + le32(MANIFEST_HEADER_BYTES as u32) + le64(
        mem_virtual_size,
    ) + le32(prefix_pages) + le32(ranges)
}

/// The bytes of a manifest.
pub open spec fn manifest_bytes(m: ManifestData) -> Seq<u8> {
    manifest_header(m.mem_virtual_size, m.prefix_pages.len() as u32, m.ranges.len() as u32) + words(
        m.prefix_pages,
    ) + words(flat(m.ranges))
}

/// What a byte string holds when read as a manifest.
pub open spec fn parse_manifest(bytes: Seq<u8>) -> Result<ManifestData, ManifestError> {
    if bytes.len() < MANIFEST_HEADER_BYTES {
        Err(ManifestError::TooShort { len: bytes.len() as usize })
    } else if bytes.take(8) != MANIFEST_MAGIC@ {
        Err(ManifestError::BadMagic)
    } else if u32_at(bytes, 8) != MANIFEST_FORMAT_VERSION {
        Err(ManifestError::UnsupportedVersion { version: u32_at(bytes, 8) })
    } else if u32_at(bytes, 12) != MANIFEST_HEADER_BYTES {
        Err(ManifestError::BadHeaderSize { header_bytes: u32_at(bytes, 12) })
    } else {
        let mem_virtual_size = u64_at(bytes, 16);
        let np = u32_at(bytes, 24);
        let nr = u32_at(bytes, 28);
        if np > MAX_PREFIX_PAGES || nr > MAX_RANGES {
            Err(ManifestError::CountsOutOfRange { prefix_pages: np, ranges: nr })
        } else if bytes.len() != MANIFEST_HEADER_BYTES + np * 8 + nr * 16 {
            Err(
                ManifestError::LengthMismatch {
                    expected: (MANIFEST_HEADER_BYTES + np * 8 + nr * 16) as usize,
                    actual: bytes.len() as usize,
                },
            )
        } else {
            let prefix_pages = words_at(bytes, MANIFEST_HEADER_BYTES as int, np as int);
            let ranges = paired(words_at(bytes, MANIFEST_HEADER_BYTES + 8 * np, 2 * nr));
            match first_bad_offset(mem_virtual_size, prefix_pages, 0) {
                Some((offset, error)) => Err(ManifestError::Offset { offset, error }),
                None => match ranges_error(mem_virtual_size, ranges) {
                    Some(e) => Err(e),
                    None => Ok(ManifestData { mem_virtual_size, prefix_pages, ranges }),
                },
            }
        }
    }
}

fn validate_page_offset(mem_virtual_size: u64, offset: u64) -> (res: Result<(), ManifestError>)
    ensures
        match page_offset_error(mem_virtual_size, offset) {
            Some(error) => res == Err::<(), ManifestError>(
                ManifestError::Offset { offset, error },
            ),
            None => res is Ok,
        },
{
    match check_page_offset(mem_virtual_size, offset) {
        Ok(()) => Ok(()),
        Err(error) => Err(ManifestError::Offset { offset, error }),
    }
}

fn validate_range(mem_virtual_size: u64, start: u64, len: u64, last_end: u64) -> (res: Result<
    u64,
    ManifestError,
>)
    ensures
        match range_error(mem_virtual_size, start, len, last_end as int) {
            Some(e) => res == Err::<u64, ManifestError>(e),
            None => res is Ok && res->Ok_0 == start + len,
        },
{
    if start < last_end {
        return Err(ManifestError::RangesOverlap);
    }
    if len == 0 || !len.is_multiple_of(PACK_PAGE_BYTES) {
        return Err(ManifestError::BadRangeLength { len });
    }
    match validate_page_offset(mem_virtual_size, start) {
        Ok(()) => {},
        Err(e) => {
            return Err(e);
        },
    }
    match start.checked_add(len) {
        None => Err(ManifestError::RangeOverflow { start, len }),
        Some(end) => if end > mem_virtual_size {
            Err(ManifestError::RangePastEnd { start, len })
        } else {
            Ok(end)
        },
    }
}

fn validate_ranges(mem_virtual_size: u64, ranges: &[(u64, u64)]) -> (res: Result<(), ManifestError>)
    ensures
        match ranges_error(mem_virtual_size, ranges@) {
            Some(e) => res == Err::<(), ManifestError>(e),
            None => res is Ok,
        },
{
    let ghost keys = range_keys(ranges@);
    let mut sorted: Vec<(u64, u64, u64)> = Vec::new();
    let mut i: usize = 0;
    while i < ranges.len()
        invariant
            i <= ranges@.len(),
            keys == range_keys(ranges@),
            sorted@ == keys.take(i as int),
        decreases ranges@.len() - i,
    {
        sorted.push((ranges[i].0, ranges[i].1, 0));
        assert(keys.take(i + 1) =~= keys.take(i as int).push(keys[i as int]));
        i = i + 1;
    }
    assert(keys.take(i as int) =~= keys);
    sort_triples(&mut sorted);
    proof {
        lemma_in_order(keys, sorted@);
    }
    let mut last_end: u64 = 0;
    let mut k: usize = 0;
    while k < sorted.len()
        invariant
            k <= sorted@.len(),
            sorted@ == in_order(range_keys(ranges@)),
            ranges_error(mem_virtual_size, ranges@) == first_range_error(
                mem_virtual_size,
                sorted@,
                k as int,
                last_end as int,
            ),
        decreases sorted@.len() - k,
    {
        let (start, len, _): (u64, u64, u64) = sorted[k];
        match validate_range(mem_virtual_size, start, len, last_end) {
            Ok(end) => {
                last_end = end;
            },
            Err(e) => {
                return Err(e);
            },
        }
        k = k + 1;
    }
    Ok(())
}

/// Encodes a manifest (header, prefix pages, ranges).
pub fn encode_manifest(manifest: &StartupManifest) -> (res: Result<Vec<u8>, ManifestError>)
    ensures
        match manifest_error(manifest@) {
            Some(e) => res == Err::<Vec<u8>, ManifestError>(e),
            None => res is Ok && res->Ok_0@ == manifest_bytes(manifest@),
        },
{
    let ghost m = manifest@;
    if manifest.prefix_pages.len() > MAX_PREFIX_PAGES as usize {
        return Err(ManifestError::TooManyPrefixPages { count: manifest.prefix_pages.len() });
    }
    if manifest.ranges.len() > MAX_RANGES as usize {
        return Err(ManifestError::TooManyRanges { count: manifest.ranges.len() });
    }
    let mut i: usize = 0;
    while i < manifest.prefix_pages.len()
        invariant
            i <= manifest.prefix_pages@.len(),
            m == manifest@,
            m.prefix_pages.len() <= MAX_PREFIX_PAGES,
            m.ranges.len() <= MAX_RANGES,
            first_bad_offset(m.mem_virtual_size, m.prefix_pages, 0) == first_bad_offset(
                m.mem_virtual_size,
                m.prefix_pages,
                i as int,
            ),
        decreases manifest.prefix_pages@.len() - i,
    {
        match validate_page_offset(manifest.mem_virtual_size, manifest.prefix_pages[i]) {
            Ok(()) => {},
            Err(e) => {
                return Err(e);
            },
        }
        i = i + 1;
    }
    match validate_ranges(manifest.mem_virtual_size, manifest.ranges.as_slice()) {
        Ok(()) => {},
        Err(e) => {
            return Err(e);
        },
    }
    let mut out: Vec<u8> = Vec::new();
    push_magic(&mut out, &MANIFEST_MAGIC);
    push_u32(&mut out, MANIFEST_FORMAT_VERSION);
    push_u32(&mut out, MANIFEST_HEADER_BYTES as u32);
    push_u64(&mut out, manifest.mem_virtual_size);
    push_u32(&mut out, manifest.prefix_pages.len() as u32);
    push_u32(&mut out, manifest.ranges.len() as u32);
    let ghost header = manifest_header(
        m.mem_virtual_size,
        m.prefix_pages.len() as u32,
        m.ranges.len() as u32,
    );
    assert(out@ =~= header);
    push_prefix_pages(manifest, &mut out);
    let ghost before = out@;
    assert(flat(m.ranges).take(0) =~= Seq::empty());
    assert(out@ =~= before + words(flat(m.ranges).take(0)));
    let mut k: usize = 0;
    while k < manifest.ranges.len()
        invariant
            k <= manifest.ranges@.len(),
            m == manifest@,
            out@ == before + words(flat(m.ranges).take(2 * k)),
        decreases manifest.ranges@.len() - k,
    {
        let (start, len): (u64, u64) = manifest.ranges[k];
        push_u64(&mut out, start);
        push_u64(&mut out, len);
        proof {
            let all = flat(m.ranges);
            let (a, b, c) = (all.take(2 * k), all.take(2 * k + 1), all.take(2 * k + 2));
            assert(all[2 * k] == start);
            assert(all[2 * k + 1] == len);
            assert(b.drop_last() =~= a);
            assert(c.drop_last() =~= b);
            assert(b.last() == start);
            assert(c.last() == len);
            assert(words(b) == words(a) + le64(start));
            assert(words(c) == words(b) + le64(len));
            assert(out@ =~= before + words(c));
        }
        k = k + 1;
    }
    assert(flat(m.ranges).take(2 * k) =~= flat(m.ranges));
    Ok(out)
}

fn push_prefix_pages(manifest: &StartupManifest, out: &mut Vec<u8>)
    ensures
        final(out)@ == old(out)@ + words(manifest@.prefix_pages),
{
    let ghost before = out@;
    let ghost pages = manifest@.prefix_pages;
    assert(pages.take(0) =~= Seq::empty());
    assert(out@ =~= before + words(pages.take(0)));
    let mut i: usize = 0;
    while i < manifest.prefix_pages.len()
        invariant
            i <= pages.len(),
            pages == manifest.prefix_pages@,
            out@ == before + words(pages.take(i as int)),
        decreases pages.len() - i,
    {
        push_u64(out, manifest.prefix_pages[i]);
        proof {
            let upto = pages.take(i + 1);
            assert(upto.drop_last() =~= pages.take(i as int));
            assert(upto.last() == pages[i as int]);
            assert(out@ =~= before + words(upto));
        }
        i = i + 1;
    }
    assert(pages.take(i as int) =~= pages);
}

/// Parses and validates a manifest.
pub fn decode_manifest(bytes: &[u8]) -> (res: Result<StartupManifest, ManifestError>)
    ensures
        match parse_manifest(bytes@) {
            Err(e) => res == Err::<StartupManifest, ManifestError>(e),
            Ok(m) => res is Ok && res->Ok_0@ == m,
        },
{
    if bytes.len() < MANIFEST_HEADER_BYTES {
        return Err(ManifestError::TooShort { len: bytes.len() });
    }
    if !starts_with(bytes, &MANIFEST_MAGIC) {
        return Err(ManifestError::BadMagic);
    }
    let version: u32 = read_u32(bytes, 8);
    if version != MANIFEST_FORMAT_VERSION {
        return Err(ManifestError::UnsupportedVersion { version });
    }
    let header_bytes: u32 = read_u32(bytes, 12);
    if header_bytes as usize != MANIFEST_HEADER_BYTES {
        return Err(ManifestError::BadHeaderSize { header_bytes });
    }
    let mem_virtual_size: u64 = read_u64(bytes, 16);
    let prefix_page_count: u32 = read_u32(bytes, 24);
    let range_count: u32 = read_u32(bytes, 28);
    if prefix_page_count > MAX_PREFIX_PAGES || range_count > MAX_RANGES {
        return Err(
            ManifestError::CountsOutOfRange {
                prefix_pages: prefix_page_count,
                ranges: range_count,
            },
        );
    }
    let expected: usize = MANIFEST_HEADER_BYTES + prefix_page_count as usize * 8
        + range_count as usize * 16;
    if bytes.len() != expected {
        return Err(ManifestError::LengthMismatch { expected, actual: bytes.len() });
    }
    let ghost all = words_at(bytes@, MANIFEST_HEADER_BYTES as int, prefix_page_count as int);
    let ghost body = words_at(
        bytes@,
        MANIFEST_HEADER_BYTES + 8 * prefix_page_count,
        2 * range_count,
    );
    let mut prefix_pages: Vec<u64> = Vec::new();
    let mut i: usize = 0;
    while i < prefix_page_count as usize
        invariant
            i <= prefix_page_count <= MAX_PREFIX_PAGES,
            range_count <= MAX_RANGES,
            bytes@.len() == MANIFEST_HEADER_BYTES + prefix_page_count * 8 + range_count * 16,
            all == words_at(bytes@, MANIFEST_HEADER_BYTES as int, prefix_page_count as int),
            prefix_pages@ == all.take(i as int),
            first_bad_offset(mem_virtual_size, all, 0) == first_bad_offset(
                mem_virtual_size,
                all,
                i as int,
            ),
            parse_manifest(bytes@) == parsed_body(mem_virtual_size, all, paired(body)),
        decreases prefix_page_count - i,
    {
        let offset: u64 = read_u64(bytes, MANIFEST_HEADER_BYTES + i * 8);
        assert(offset == all[i as int]);
        match validate_page_offset(mem_virtual_size, offset) {
            Ok(()) => {},
            Err(e) => {
                return Err(e);
            },
        }
        prefix_pages.push(offset);
        assert(all.take(i + 1) =~= all.take(i as int).push(offset));
        i = i + 1;
    }
    assert(all.take(i as int) =~= all);
    let at: usize = MANIFEST_HEADER_BYTES + prefix_page_count as usize * 8;
    let mut ranges: Vec<(u64, u64)> = Vec::new();
    let mut k: usize = 0;
    while k < range_count as usize
        invariant
            k <= range_count <= MAX_RANGES,
            at == MANIFEST_HEADER_BYTES + prefix_page_count * 8,
            at <= 0x1000_0000,
            bytes@.len() == at + range_count * 16,
            body == words_at(bytes@, at as int, 2 * range_count),
            ranges@ == paired(body).take(k as int),
        decreases range_count - k,
    {
        let start: u64 = read_u64(bytes, at + k * 16);
        let len: u64 = read_u64(bytes, at + k * 16 + 8);
        assert(start == body[2 * k]);
        assert(len == body[2 * k + 1]);
        ranges.push((start, len));
        assert(paired(body).take(k + 1) =~= paired(body).take(k as int).push((start, len)));
        k = k + 1;
    }
    assert(paired(body).take(k as int) =~= paired(body));
    match validate_ranges(mem_virtual_size, ranges.as_slice()) {
        Ok(()) => {},
        Err(e) => {
            return Err(e);
        },
    }
    Ok(StartupManifest { mem_virtual_size, prefix_pages, ranges })
}

/// What a manifest body holds.
spec fn parsed_body(
    mem_virtual_size: u64,
    prefix_pages: Seq<u64>,
    ranges: Seq<(u64, u64)>,
) -> Result<ManifestData, ManifestError> {
    match first_bad_offset(mem_virtual_size, prefix_pages, 0) {
        Some((offset, error)) => Err(ManifestError::Offset { offset, error }),
        None => match ranges_error(mem_virtual_size, ranges) {
            Some(e) => Err(e),
            None => Ok(ManifestData { mem_virtual_size, prefix_pages, ranges }),
        },
    }
}

/// Why no manifest can be built from a page list, if none can.
pub open spec fn build_error(mem_virtual_size: u64, page_offsets: Seq<u64>) -> Option<
    ManifestError,
> {
    if page_offsets.len() == 0 {
        Some(ManifestError::EmptyPageList)
    } else {
        match first_bad_offset(mem_virtual_size, page_offsets, 0) {
            Some((offset, error)) => Some(ManifestError::Offset { offset, error }),
            None => None,
        }
    }
}

/// Page offsets as page numbers of one group.
pub open spec fn page_items(page_offsets: Seq<u64>) -> Seq<(u64, u64)> {
    page_offsets.map_values(|offset: u64| (0u64, offset / PACK_PAGE_BYTES))
}

/// Runs of page numbers as byte ranges.
pub open spec fn byte_ranges(runs: Seq<Run>) -> Seq<(u64, u64)> {
    runs.map_values(
        |r: Run| ((r.start * PACK_PAGE_BYTES) as u64, (r.len * PACK_PAGE_BYTES) as u64),
    )
}

/// Whether a range table holds the pages, merged by address and in the order
/// of earliest first touch.
pub open spec fn ranges_from(page_offsets: Seq<u64>, ranges: Seq<(u64, u64)>) -> bool {
    exists|runs: Seq<Run>| #[trigger]
        runs_of(page_items(page_offsets), u64::MAX as int, runs) && ranges == byte_ranges(runs)
}

/// A run of pages of the image stays in it.
pub proof fn lemma_run_in_image(
    mem_virtual_size: u64,
    page_offsets: Seq<u64>,
    runs: Seq<Run>,
    k: int,
)
    requires
        first_bad_offset(mem_virtual_size, page_offsets, 0) is None,
        runs_of(page_items(page_offsets), u64::MAX as int, runs),
        0 <= k < runs.len(),
    ensures
        runs[k].len >= 1,
        runs[k].group == 0,
        (runs[k].start + runs[k].len) * PACK_PAGE_BYTES <= mem_virtual_size,
{
    let items = page_items(page_offsets);
    lemma_no_bad_offset(mem_virtual_size, page_offsets, 0);
    law_runs_cover(items, u64::MAX as int, runs);
    let members = choose|members: Seq<Seq<int>>| #[trigger]
        crate::runs::grouped(items, u64::MAX as int, runs, members);
    assert(1 <= runs[k].len);
    assert(members[k].len() == runs[k].len);
    let last = members[k][runs[k].len - 1];
    assert(items[last].1 == runs[k].start + runs[k].len - 1);
    assert(items[last] == (0u64, page_offsets[last] / PACK_PAGE_BYTES));
    assert(is_page_of(mem_virtual_size, page_offsets[last]));
}

/// Builds a manifest from the first-touch page offsets (deduplicated, in
/// order): pages merge into address-contiguous ranges, and the range table is
/// sorted by each range's earliest first-touch rank, so table position carries
/// the first-need order for every range.
pub fn build_manifest(mem_virtual_size: u64, page_offsets: &[u64]) -> (res: Result<
    StartupManifest,
    ManifestError,
>)
    ensures
        match build_error(mem_virtual_size, page_offsets@) {
            Some(e) => res == Err::<StartupManifest, ManifestError>(e),
            None => {
                &&& res is Ok
                &&& res->Ok_0.mem_virtual_size == mem_virtual_size
                &&& res->Ok_0.prefix_pages@.len() == 0
                &&& ranges_from(page_offsets@, res->Ok_0.ranges@)
            },
        },
{
    if page_offsets.len() == 0 {
        return Err(ManifestError::EmptyPageList);
    }
    let ghost all = page_items(page_offsets@);
    let mut items: Vec<(u64, u64)> = Vec::new();
    let mut i: usize = 0;
    while i < page_offsets.len()
        invariant
            i <= page_offsets@.len(),
            page_offsets@.len() > 0,
            all == page_items(page_offsets@),
            items@ == all.take(i as int),
            first_bad_offset(mem_virtual_size, page_offsets@, 0) == first_bad_offset(
                mem_virtual_size,
                page_offsets@,
                i as int,
            ),
        decreases page_offsets@.len() - i,
    {
        match validate_page_offset(mem_virtual_size, page_offsets[i]) {
            Ok(()) => {},
            Err(e) => {
                return Err(e);
            },
        }
        items.push((0, page_offsets[i] / PACK_PAGE_BYTES));
        assert(all.take(i + 1) =~= all.take(i as int).push(all[i as int]));
        i = i + 1;
    }
    assert(all.take(i as int) =~= all);
    let merged: Vec<Run> = merge_runs(&items, u64::MAX);
    let mut ranges: Vec<(u64, u64)> = Vec::new();
    let mut k: usize = 0;
    while k < merged.len()
        invariant
            k <= merged@.len(),
            first_bad_offset(mem_virtual_size, page_offsets@, 0) is None,
            runs_of(page_items(page_offsets@), u64::MAX as int, merged@),
            ranges@ == byte_ranges(merged@).take(k as int),
        decreases merged@.len() - k,
    {
        proof {
            lemma_run_in_image(mem_virtual_size, page_offsets@, merged@, k as int);
        }
        ranges.push((merged[k].start * PACK_PAGE_BYTES, merged[k].len * PACK_PAGE_BYTES));
        assert(byte_ranges(merged@).take(k + 1) =~= byte_ranges(merged@).take(k as int).push(
            byte_ranges(merged@)[k as int],
        ));
        k = k + 1;
    }
    assert(byte_ranges(merged@).take(k as int) =~= byte_ranges(merged@));
    Ok(StartupManifest { mem_virtual_size, prefix_pages: Vec::new(), ranges })
}

} // verus!
