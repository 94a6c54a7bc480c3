//! Laws on the byte formats: where each number stands in a trace and in a
//! manifest, and which byte strings are accepted.
use vstd::prelude::*;
use crate::page_offset::{
    PageOffsetError, check_page_offset, first_bad_offset, is_page_of, lemma_no_bad_offset,
};
use crate::runs::lemma_same_map;
use crate::sorting::{in_order, lemma_in_order, lemma_sorted_form, sorted_triples, triple_le};
use crate::startup_manifest::{
    MANIFEST_MAGIC, ManifestData, ManifestError, StartupManifest, decode_manifest,
    encode_manifest, first_range_error, manifest_error, paired, parse_manifest, range_keys,
    range_valid, ranges_apart, ranges_valid,
};
use crate::startup_manifest_laws::{law_decode_encoded_manifest, law_ranges_accepted};
use crate::startup_pack::{
    TRACE_MAGIC, TraceError, decode_trace, encode_trace, law_decode_encoded_trace, parse_trace,
};
use crate::wire::{u32_at, u64_at, words_at};

verus! {

/// The number that the `n` bytes at `at` stand for, the lowest byte first.
pub open spec fn le_value(s: Seq<u8>, at: int, n: int) -> int
    decreases n,
{
    if n <= 0 {
        0
    } else {
        s[at] + 256 * le_value(s, at + 1, n - 1)
    }
}

/// Four bytes, read as a number.
pub proof fn lemma_le32(s: Seq<u8>, at: int)
    requires
        0 <= at,
        at + 4 <= s.len(),
    ensures
        u32_at(s, at) == le_value(s, at, 4),
{
    reveal_with_fuel(le_value, 5);
}

/// Eight bytes, read as a number.
pub proof fn lemma_le64(s: Seq<u8>, at: int)
    requires
        0 <= at,
        at + 8 <= s.len(),
    ensures
        u64_at(s, at) == le_value(s, at, 8),
        u64_at(s, at) == u32_at(s, at) + 0x1_0000_0000 * u32_at(s, at + 4),
{
    reveal_with_fuel(le_value, 9);
    lemma_le32(s, at);
    lemma_le32(s, at + 4);
    assert(u32_at(s, at + 4) * 0x1_0000_0000 + u32_at(s, at) <= u64::MAX);
}

/// Whether a byte string starts with the bytes "AENV" and these four.
pub open spec fn starts_as(bytes: Seq<u8>, a: u8, b: u8, c: u8, d: u8) -> bool {
    &&& bytes.len() >= 8
    &&& bytes[0] == 0x41
    &&& bytes[1] == 0x45
    &&& bytes[2] == 0x4e
    &&& bytes[3] == 0x56
    &&& bytes[4] == a
    &&& bytes[5] == b
    &&& bytes[6] == c
    &&& bytes[7] == d
}

proof fn lemma_magic(bytes: Seq<u8>, magic: Seq<u8>)
    requires
        bytes.len() >= 8,
        magic.len() == 8,
        magic[0] == 0x41,
        magic[1] == 0x45,
        magic[2] == 0x4e,
        magic[3] == 0x56,
    ensures
        bytes.take(8) == magic <==> starts_as(bytes, magic[4], magic[5], magic[6], magic[7]),
{
    let head = bytes.take(8);
    if head == magic {
        assert(head[0] == magic[0] && head[1] == magic[1] && head[2] == magic[2] && head[3]
            == magic[3] && head[4] == magic[4] && head[5] == magic[5] && head[6] == magic[6]
            && head[7] == magic[7]);
    }
    if starts_as(bytes, magic[4], magic[5], magic[6], magic[7]) {
        assert(head =~= magic);
    }
}

/// Whether an offset is that of a page of an image, every byte of the page in
/// the image.
pub open spec fn page_fits(mem_virtual_size: u64, offset: u64) -> bool {
    offset % 4096 == 0 && offset + 4096 <= mem_virtual_size
}

/// A page offset is accepted exactly where it is a multiple of 4096 and the
/// page ends in the image; the error says which of these fails, or that the end
/// of the page is no number of 64 bits.
pub proof fn law_page_offset(
    mem_virtual_size: u64,
    offset: u64,
    res: Result<(), PageOffsetError>,
)
    requires
        call_ensures(check_page_offset, (mem_virtual_size, offset), res),
    ensures
        res is Ok <==> page_fits(mem_virtual_size, offset),
        offset % 4096 != 0 ==> res == Err::<(), PageOffsetError>(PageOffsetError::Unaligned),
        offset % 4096 == 0 && offset + 4096 > u64::MAX ==> res == Err::<(), PageOffsetError>(
            PageOffsetError::Overflow,
        ),
        offset % 4096 == 0 && mem_virtual_size < offset + 4096 <= u64::MAX ==> res == Err::<
            (),
            PageOffsetError,
        >(PageOffsetError::PastEnd),
{
}

/// Whether a page list is one that a trace may hold.
pub open spec fn trace_holds(mem_virtual_size: u64, offsets: Seq<u64>) -> bool {
    &&& 0 < offsets.len() <= 1_048_576
    &&& forall|i: int|
        0 <= i < offsets.len() ==> page_fits(mem_virtual_size, #[trigger] offsets[i])
}

/// Whether a byte string is laid out as the trace of a page list.
pub open spec fn laid_out_as_trace(
    bytes: Seq<u8>,
    mem_virtual_size: u64,
    offsets: Seq<u64>,
) -> bool {
    &&& bytes.len() == 32 + 8 * offsets.len()
    &&& starts_as(bytes, 0x54, 0x52, 0x43, 0x31)
    &&& le_value(bytes, 8, 4) == 1
    &&& le_value(bytes, 12, 4) == 32
    &&& le_value(bytes, 16, 8) == mem_virtual_size
    &&& le_value(bytes, 24, 4) == offsets.len()
    &&& le_value(bytes, 28, 4) == 0
    &&& forall|i: int|
        0 <= i < offsets.len() ==> le_value(bytes, 32 + 8 * i, 8) == #[trigger] offsets[i]
}

proof fn lemma_pages_fit(mem_virtual_size: u64, offsets: Seq<u64>)
    ensures
        first_bad_offset(mem_virtual_size, offsets, 0) is None <==> forall|i: int|
            0 <= i < offsets.len() ==> page_fits(mem_virtual_size, #[trigger] offsets[i]),
{
    lemma_no_bad_offset(mem_virtual_size, offsets, 0);
    if forall|i: int| 0 <= i < offsets.len() ==> page_fits(mem_virtual_size, #[trigger] offsets[i]) {
        assert forall|i: int| 0 <= i < offsets.len() implies is_page_of(
            mem_virtual_size,
            #[trigger] offsets[i],
        ) by {
            assert(page_fits(mem_virtual_size, offsets[i]));
        }
    }
    if first_bad_offset(mem_virtual_size, offsets, 0) is None {
        assert forall|i: int| 0 <= i < offsets.len() implies page_fits(
            mem_virtual_size,
            #[trigger] offsets[i],
        ) by {
            assert(is_page_of(mem_virtual_size, offsets[i]));
        }
    }
}

proof fn lemma_zeros(bytes: Seq<u8>)
    requires
        bytes.len() >= 32,
    ensures
        bytes.subrange(28, 32) == seq![0u8, 0u8, 0u8, 0u8] <==> le_value(bytes, 28, 4) == 0,
{
    reveal_with_fuel(le_value, 5);
    let s = bytes.subrange(28, 32);
    assert(s[0] == bytes[28] && s[1] == bytes[29] && s[2] == bytes[30] && s[3] == bytes[31]);
    if le_value(bytes, 28, 4) == 0 {
        assert(s =~= seq![0u8, 0u8, 0u8, 0u8]);
    }
}

proof fn lemma_trace_layout(bytes: Seq<u8>, mem_virtual_size: u64, offsets: Seq<u64>)
    ensures
        parse_trace(bytes) == Ok::<(u64, Seq<u64>), TraceError>((mem_virtual_size, offsets))
            <==> laid_out_as_trace(bytes, mem_virtual_size, offsets) && trace_holds(
            mem_virtual_size,
            offsets,
        ),
{
    let count = u32_at(bytes, 24) as int;
    if bytes.len() >= 32 {
        lemma_magic(bytes, TRACE_MAGIC@);
        lemma_le32(bytes, 8);
        lemma_le32(bytes, 12);
        lemma_le64(bytes, 16);
        lemma_le32(bytes, 24);
        lemma_zeros(bytes);
        lemma_pages_fit(mem_virtual_size, offsets);
        if parse_trace(bytes) == Ok::<(u64, Seq<u64>), TraceError>((mem_virtual_size, offsets)) {
            assert forall|i: int| 0 <= i < offsets.len() implies le_value(bytes, 32 + 8 * i, 8)
                == #[trigger] offsets[i] by {
                lemma_le64(bytes, 32 + 8 * i);
            }
        }
        if laid_out_as_trace(bytes, mem_virtual_size, offsets) && trace_holds(
            mem_virtual_size,
            offsets,
        ) {
            let found = words_at(bytes, 32, count);
            assert forall|i: int| 0 <= i < offsets.len() implies found[i] == offsets[i] by {
                lemma_le64(bytes, 32 + 8 * i);
                assert(le_value(bytes, 32 + 8 * i, 8) == offsets[i]);
            }
            assert(found =~= offsets);
        }
    }
}

/// A page list is encoded exactly where a trace may hold it, and the bytes are
/// laid out as the format says.
pub proof fn law_encoded_trace(
    mem_virtual_size: u64,
    offsets: &[u64],
    res: Result<Vec<u8>, TraceError>,
    k: int,
)
    requires
        call_ensures(encode_trace, (mem_virtual_size, offsets), res),
    ensures
        res is Ok <==> trace_holds(mem_virtual_size, offsets@),
        res is Ok ==> laid_out_as_trace(res->Ok_0@, mem_virtual_size, offsets@),
        offsets@.len() == 0 ==> res == Err::<Vec<u8>, TraceError>(TraceError::Empty),
        offsets@.len() > 1_048_576 ==> res == Err::<Vec<u8>, TraceError>(
            TraceError::TooManyPages { count: offsets@.len() as usize },
        ),
        first_misfit(mem_virtual_size, offsets@, k) && offsets@.len() <= 1_048_576 ==> res == Err::<
            Vec<u8>,
            TraceError,
        >(TraceError::Offset { offset: offsets@[k], error: misfit(offsets@[k]) }),
{
    lemma_pages_fit(mem_virtual_size, offsets@);
    if res is Ok {
        law_decode_encoded_trace(mem_virtual_size, offsets@);
        lemma_trace_layout(res->Ok_0@, mem_virtual_size, offsets@);
    }
    if first_misfit(mem_virtual_size, offsets@, k) {
        lemma_first_misfit(mem_virtual_size, offsets@, 0, k);
    }
}

/// Whether offset `k` of a list is the first one that is not that of a page of
/// the image.
pub open spec fn first_misfit(mem_virtual_size: u64, offsets: Seq<u64>, k: int) -> bool {
    &&& 0 <= k < offsets.len()
    &&& !page_fits(mem_virtual_size, offsets[k])
    &&& forall|i: int| 0 <= i < k ==> page_fits(mem_virtual_size, #[trigger] offsets[i])
}

/// What is wrong with an offset that is not that of a page of the image.
pub open spec fn misfit(offset: u64) -> PageOffsetError {
    if offset % 4096 != 0 {
        PageOffsetError::Unaligned
    } else if offset > u64::MAX - 4096 {
        PageOffsetError::Overflow
    } else {
        PageOffsetError::PastEnd
    }
}

/// The first offset that is not that of a page of the image is the one that is
/// found.
pub proof fn lemma_first_misfit(mem_virtual_size: u64, offsets: Seq<u64>, i: int, k: int)
    requires
        0 <= i <= k,
        first_misfit(mem_virtual_size, offsets, k),
    ensures
        first_bad_offset(mem_virtual_size, offsets, i) == Some((offsets[k], misfit(offsets[k]))),
    decreases k - i,
{
    if i < k {
        assert(page_fits(mem_virtual_size, offsets[i]));
        lemma_first_misfit(mem_virtual_size, offsets, i + 1, k);
    }
}

/// A byte string decodes to a page list exactly where it is laid out as the
/// trace of that list and a trace may hold the list.
pub proof fn law_decoded_trace(
    bytes: &[u8],
    res: Result<(u64, Vec<u64>), TraceError>,
    mem_virtual_size: u64,
    offsets: Seq<u64>,
)
    requires
        call_ensures(decode_trace, (bytes,), res),
    ensures
        res is Ok && res->Ok_0.0 == mem_virtual_size && res->Ok_0.1@ == offsets
            <==> laid_out_as_trace(bytes@, mem_virtual_size, offsets) && trace_holds(
            mem_virtual_size,
            offsets,
        ),
{
    lemma_trace_layout(bytes@, mem_virtual_size, offsets);
}

/// Why a byte string is no trace: the first of these that holds.
pub proof fn law_refused_trace(bytes: &[u8], res: Result<(u64, Vec<u64>), TraceError>)
    requires
        call_ensures(decode_trace, (bytes,), res),
    ensures
        bytes@.len() < 32 ==> res == Err::<(u64, Vec<u64>), TraceError>(
            TraceError::TooShort { len: bytes@.len() as usize },
        ),
        bytes@.len() >= 32 ==> {
            let version = le_value(bytes@, 8, 4);
            let header = le_value(bytes@, 12, 4);
            let count = le_value(bytes@, 24, 4);
            if !starts_as(bytes@, 0x54, 0x52, 0x43, 0x31) {
                res == Err::<(u64, Vec<u64>), TraceError>(TraceError::BadMagic)
            } else if version != 1 {
                res == Err::<(u64, Vec<u64>), TraceError>(
                    TraceError::UnsupportedVersion { version: version as u32 },
                )
            } else if header != 32 {
                res == Err::<(u64, Vec<u64>), TraceError>(
                    TraceError::BadHeaderSize { header_bytes: header as u32 },
                )
            } else if le_value(bytes@, 28, 4) != 0 {
                res == Err::<(u64, Vec<u64>), TraceError>(TraceError::ReservedNotZero)
            } else if count == 0 || count > 1_048_576 {
                res == Err::<(u64, Vec<u64>), TraceError>(
                    TraceError::BadPageCount { count: count as u32 },
                )
            } else if bytes@.len() != 32 + 8 * count {
                res == Err::<(u64, Vec<u64>), TraceError>(
                    TraceError::LengthMismatch {
                        expected: (32 + 8 * count) as usize,
                        actual: bytes@.len() as usize,
                    },
                )
            } else {
                res matches Err(e) ==> e is Offset
            }
        },
{
    if bytes@.len() >= 32 {
        lemma_magic(bytes@, TRACE_MAGIC@);
        lemma_le32(bytes@, 8);
        lemma_le32(bytes@, 12);
        lemma_le32(bytes@, 24);
        lemma_zeros(bytes@);
    }
}

/// Whether a range is a non-empty run of whole pages of an image.
pub open spec fn range_fits(mem_virtual_size: u64, range: (u64, u64)) -> bool {
    &&& range.0 % 4096 == 0
    &&& range.1 % 4096 == 0
    &&& 0 < range.1
    &&& range.0 + range.1 <= mem_virtual_size
}

/// Whether some byte lies in both ranges.
pub open spec fn ranges_share_a_byte(a: (u64, u64), b: (u64, u64)) -> bool {
    exists|at: int| #[trigger] byte_of(a, at) && byte_of(b, at)
}

/// Whether a byte lies in a range.
pub open spec fn byte_of(range: (u64, u64), at: int) -> bool {
    range.0 <= at < range.0 + range.1
}

/// Whether a manifest is one that a byte string may hold.
pub open spec fn manifest_holds(m: ManifestData) -> bool {
    &&& m.prefix_pages.len() <= 1_048_576
    &&& m.ranges.len() <= 1_048_576
    &&& forall|i: int|
        0 <= i < m.prefix_pages.len() ==> page_fits(
            m.mem_virtual_size,
            #[trigger] m.prefix_pages[i],
        )
    &&& forall|i: int|
        0 <= i < m.ranges.len() ==> range_fits(m.mem_virtual_size, #[trigger] m.ranges[i])
    &&& forall|i: int, j: int|
        #![trigger m.ranges[i], m.ranges[j]]
        0 <= i < j < m.ranges.len() ==> !ranges_share_a_byte(m.ranges[i], m.ranges[j])
}

/// Whether a byte string is laid out as a manifest.
pub open spec fn laid_out_as_manifest(bytes: Seq<u8>, m: ManifestData) -> bool {
    let table = 32 + 8 * m.prefix_pages.len() as int;
    &&& bytes.len() == table + 16 * m.ranges.len()
    &&& starts_as(bytes, 0x4d, 0x46, 0x30, 0x31)
    &&& le_value(bytes, 8, 4) == 4
    &&& le_value(bytes, 12, 4) == 32
    &&& le_value(bytes, 16, 8) == m.mem_virtual_size
    &&& le_value(bytes, 24, 4) == m.prefix_pages.len()
    &&& le_value(bytes, 28, 4) == m.ranges.len()
    &&& forall|i: int|
        0 <= i < m.prefix_pages.len() ==> le_value(bytes, 32 + 8 * i, 8)
            == #[trigger] m.prefix_pages[i]
    &&& forall|i: int|
        #![trigger m.ranges[i]]
        0 <= i < m.ranges.len() ==> le_value(bytes, table + 16 * i, 8) == m.ranges[i].0
            && le_value(bytes, table + 16 * i + 8, 8) == m.ranges[i].1
}

proof fn lemma_ranges_fit(m: ManifestData)
    ensures
        ranges_valid(m.mem_virtual_size, m.ranges) <==> {
            &&& forall|i: int|
                0 <= i < m.ranges.len() ==> range_fits(m.mem_virtual_size, #[trigger] m.ranges[i])
            &&& forall|i: int, j: int|
                #![trigger m.ranges[i], m.ranges[j]]
                0 <= i < j < m.ranges.len() ==> !ranges_share_a_byte(m.ranges[i], m.ranges[j])
        },
{
    let fit = forall|i: int|
        0 <= i < m.ranges.len() ==> range_fits(m.mem_virtual_size, #[trigger] m.ranges[i]);
    let apart = forall|i: int, j: int|
        #![trigger m.ranges[i], m.ranges[j]]
        0 <= i < j < m.ranges.len() ==> !ranges_share_a_byte(m.ranges[i], m.ranges[j]);
    if ranges_valid(m.mem_virtual_size, m.ranges) {
        assert forall|i: int| 0 <= i < m.ranges.len() implies range_fits(
            m.mem_virtual_size,
            #[trigger] m.ranges[i],
        ) by {
            assert(range_valid(m.mem_virtual_size, m.ranges[i]));
        }
        assert forall|i: int, j: int|
            #![trigger m.ranges[i], m.ranges[j]]
            0 <= i < j < m.ranges.len() implies !ranges_share_a_byte(m.ranges[i], m.ranges[j]) by {
            assert(ranges_apart(m.ranges[i], m.ranges[j]));
        }
    }
    if fit && apart {
        assert forall|i: int| 0 <= i < m.ranges.len() implies range_valid(
            m.mem_virtual_size,
            #[trigger] m.ranges[i],
        ) by {
            assert(range_fits(m.mem_virtual_size, m.ranges[i]));
        }
        assert forall|i: int, j: int|
            #![trigger m.ranges[i], m.ranges[j]]
            0 <= i < j < m.ranges.len() implies ranges_apart(m.ranges[i], m.ranges[j]) by {
            let (a, b) = (m.ranges[i], m.ranges[j]);
            assert(range_fits(m.mem_virtual_size, a) && range_fits(m.mem_virtual_size, b));
            assert(!ranges_share_a_byte(a, b));
            assert(!(byte_of(a, a.0 as int) && byte_of(b, a.0 as int)));
            assert(!(byte_of(a, b.0 as int) && byte_of(b, b.0 as int)));
        }
    }
}

proof fn lemma_manifest_layout(bytes: Seq<u8>, m: ManifestData)
    ensures
        parse_manifest(bytes) == Ok::<ManifestData, ManifestError>(m) <==> laid_out_as_manifest(
            bytes,
            m,
        ) && manifest_holds(m),
{
    let np = u32_at(bytes, 24) as int;
    let nr = u32_at(bytes, 28) as int;
    let table = 32 + 8 * np;
    if bytes.len() >= 32 {
        lemma_magic(bytes, MANIFEST_MAGIC@);
        lemma_le32(bytes, 8);
        lemma_le32(bytes, 12);
        lemma_le64(bytes, 16);
        lemma_le32(bytes, 24);
        lemma_le32(bytes, 28);
        lemma_pages_fit(m.mem_virtual_size, m.prefix_pages);
        lemma_ranges_fit(m);
        law_ranges_accepted(m.mem_virtual_size, m.ranges);
        let pages = words_at(bytes, 32, np);
        let ws = words_at(bytes, table, 2 * nr);
        let ranges = paired(ws);
        if bytes.len() == table + 16 * nr {
            assert forall|i: int| 0 <= i < np implies le_value(bytes, 32 + 8 * i, 8)
                == #[trigger] pages[i] by {
                lemma_le64(bytes, 32 + 8 * i);
            }
            assert forall|i: int| #![trigger ranges[i]] 0 <= i < nr implies le_value(
                bytes,
                table + 16 * i,
                8,
            ) == ranges[i].0 && le_value(bytes, table + 16 * i + 8, 8) == ranges[i].1 by {
                lemma_le64(bytes, table + 16 * i);
                lemma_le64(bytes, table + 16 * i + 8);
                assert(ws[2 * i] == u64_at(bytes, table + 8 * (2 * i)));
                assert(ws[2 * i + 1] == u64_at(bytes, table + 8 * (2 * i + 1)));
            }
        }
        if laid_out_as_manifest(bytes, m) && manifest_holds(m) {
            assert forall|i: int| 0 <= i < np implies pages[i] == m.prefix_pages[i] by {
                assert(le_value(bytes, 32 + 8 * i, 8) == pages[i]);
                assert(le_value(bytes, 32 + 8 * i, 8) == m.prefix_pages[i]);
            }
            assert(pages =~= m.prefix_pages);
            assert forall|i: int| 0 <= i < nr implies ranges[i] == m.ranges[i] by {
                assert(le_value(bytes, table + 16 * i, 8) == ranges[i].0);
                assert(le_value(bytes, table + 16 * i, 8) == m.ranges[i].0);
            }
            assert(ranges =~= m.ranges);
        }
    }
}

/// A manifest is encoded exactly where a byte string may hold it, and the bytes
/// are laid out as the format says.
pub proof fn law_encoded_manifest(
    manifest: StartupManifest,
    res: Result<Vec<u8>, ManifestError>,
    k: int,
)
    requires
        call_ensures(encode_manifest, (&manifest,), res),
    ensures
        res is Ok <==> manifest_holds(manifest@),
        res is Ok ==> laid_out_as_manifest(res->Ok_0@, manifest@),
        manifest.prefix_pages@.len() > 1_048_576 ==> res == Err::<Vec<u8>, ManifestError>(
            ManifestError::TooManyPrefixPages { count: manifest.prefix_pages@.len() as usize },
        ),
        manifest.prefix_pages@.len() <= 1_048_576 && manifest.ranges@.len() > 1_048_576 ==> res
            == Err::<Vec<u8>, ManifestError>(
            ManifestError::TooManyRanges { count: manifest.ranges@.len() as usize },
        ),
        manifest.prefix_pages@.len() <= 1_048_576 && manifest.ranges@.len() <= 1_048_576
            && first_misfit(manifest.mem_virtual_size, manifest.prefix_pages@, k) ==> res == Err::<
            Vec<u8>,
            ManifestError,
        >(
            ManifestError::Offset {
                offset: manifest.prefix_pages@[k],
                error: misfit(manifest.prefix_pages@[k]),
            },
        ),
{
    let m = manifest@;
    lemma_pages_fit(m.mem_virtual_size, m.prefix_pages);
    lemma_ranges_fit(m);
    law_ranges_accepted(m.mem_virtual_size, m.ranges);
    if res is Ok {
        law_decode_encoded_manifest(m);
        lemma_manifest_layout(res->Ok_0@, m);
    }
    if first_misfit(m.mem_virtual_size, m.prefix_pages, k) {
        lemma_first_misfit(m.mem_virtual_size, m.prefix_pages, 0, k);
    }
}

/// A byte string decodes to a manifest exactly where it is laid out as that
/// manifest and may hold it.
pub proof fn law_decoded_manifest(
    bytes: &[u8],
    res: Result<StartupManifest, ManifestError>,
    m: ManifestData,
)
    requires
        call_ensures(decode_manifest, (bytes,), res),
    ensures
        res is Ok && res->Ok_0@ == m <==> laid_out_as_manifest(bytes@, m) && manifest_holds(m),
{
    lemma_manifest_layout(bytes@, m);
}

/// Why a byte string is no manifest: the first of these that holds.
pub proof fn law_refused_manifest(bytes: &[u8], res: Result<StartupManifest, ManifestError>)
    requires
        call_ensures(decode_manifest, (bytes,), res),
    ensures
        bytes@.len() < 32 ==> res == Err::<StartupManifest, ManifestError>(
            ManifestError::TooShort { len: bytes@.len() as usize },
        ),
        bytes@.len() >= 32 ==> {
            let version = le_value(bytes@, 8, 4);
            let header = le_value(bytes@, 12, 4);
            let np = le_value(bytes@, 24, 4);
            let nr = le_value(bytes@, 28, 4);
            if !starts_as(bytes@, 0x4d, 0x46, 0x30, 0x31) {
                res == Err::<StartupManifest, ManifestError>(ManifestError::BadMagic)
            } else if version != 4 {
                res == Err::<StartupManifest, ManifestError>(
                    ManifestError::UnsupportedVersion { version: version as u32 },
                )
            } else if header != 32 {
                res == Err::<StartupManifest, ManifestError>(
                    ManifestError::BadHeaderSize { header_bytes: header as u32 },
                )
            } else if np > 1_048_576 || nr > 1_048_576 {
                res == Err::<StartupManifest, ManifestError>(
                    ManifestError::CountsOutOfRange { prefix_pages: np as u32, ranges: nr as u32 },
                )
            } else if bytes@.len() != 32 + 8 * np + 16 * nr {
                res == Err::<StartupManifest, ManifestError>(
                    ManifestError::LengthMismatch {
                        expected: (32 + 8 * np + 16 * nr) as usize,
                        actual: bytes@.len() as usize,
                    },
                )
            } else {
                true
            }
        },
{
    if bytes@.len() >= 32 {
        lemma_magic(bytes@, MANIFEST_MAGIC@);
        lemma_le32(bytes@, 8);
        lemma_le32(bytes@, 12);
        lemma_le32(bytes@, 24);
        lemma_le32(bytes@, 28);
    }
}

/// A byte string that is laid out as a manifest is read as that manifest.
proof fn lemma_read_manifest(bytes: Seq<u8>, m: ManifestData)
    requires
        laid_out_as_manifest(bytes, m),
        m.prefix_pages.len() <= 1_048_576,
        m.ranges.len() <= 1_048_576,
    ensures
        parse_manifest(bytes) == match manifest_error(m) {
            None => Ok::<ManifestData, ManifestError>(m),
            Some(e) => Err(e),
        },
{
    let np = u32_at(bytes, 24) as int;
    let nr = u32_at(bytes, 28) as int;
    let table = 32 + 8 * np;
    lemma_magic(bytes, MANIFEST_MAGIC@);
    lemma_le32(bytes, 8);
    lemma_le32(bytes, 12);
    lemma_le64(bytes, 16);
    lemma_le32(bytes, 24);
    lemma_le32(bytes, 28);
    let pages = words_at(bytes, 32, np);
    let ws = words_at(bytes, table, 2 * nr);
    let ranges = paired(ws);
    assert forall|i: int| 0 <= i < np implies pages[i] == m.prefix_pages[i] by {
        lemma_le64(bytes, 32 + 8 * i);
        assert(le_value(bytes, 32 + 8 * i, 8) == m.prefix_pages[i]);
    }
    assert(pages =~= m.prefix_pages);
    assert forall|i: int| 0 <= i < nr implies ranges[i] == m.ranges[i] by {
        lemma_le64(bytes, table + 16 * i);
        lemma_le64(bytes, table + 16 * i + 8);
        assert(ws[2 * i] == u64_at(bytes, table + 8 * (2 * i)));
        assert(ws[2 * i + 1] == u64_at(bytes, table + 8 * (2 * i + 1)));
        assert(le_value(bytes, table + 16 * i, 8) == m.ranges[i].0);
    }
    assert(ranges =~= m.ranges);
}

/// What encoding refuses for its pages or its ranges, decoding refuses for the
/// same reason, and nothing else, where its bytes are laid out as it.
pub proof fn law_manifests_are_refused_alike(
    manifest: StartupManifest,
    encoded: Result<Vec<u8>, ManifestError>,
    bytes: &[u8],
    decoded: Result<StartupManifest, ManifestError>,
    e: ManifestError,
)
    requires
        laid_out_as_manifest(bytes@, manifest@),
        manifest.prefix_pages@.len() <= 1_048_576,
        manifest.ranges@.len() <= 1_048_576,
        call_ensures(encode_manifest, (&manifest,), encoded),
        call_ensures(decode_manifest, (bytes,), decoded),
    ensures
        encoded == Err::<Vec<u8>, ManifestError>(e) <==> decoded == Err::<
            StartupManifest,
            ManifestError,
        >(e),
{
    lemma_read_manifest(bytes@, manifest@);
}

/// What encoding refuses for its pages, decoding refuses for the same reason,
/// and nothing else, where its bytes are laid out as it.
pub proof fn law_traces_are_refused_alike(
    mem_virtual_size: u64,
    offsets: &[u64],
    encoded: Result<Vec<u8>, TraceError>,
    bytes: &[u8],
    decoded: Result<(u64, Vec<u64>), TraceError>,
    e: TraceError,
)
    requires
        laid_out_as_trace(bytes@, mem_virtual_size, offsets@),
        0 < offsets@.len() <= 1_048_576,
        call_ensures(encode_trace, (mem_virtual_size, offsets), encoded),
        call_ensures(decode_trace, (bytes,), decoded),
    ensures
        encoded == Err::<Vec<u8>, TraceError>(e) <==> decoded == Err::<
            (u64, Vec<u64>),
            TraceError,
        >(e),
{
    let s = bytes@;
    let count = u32_at(s, 24) as int;
    lemma_magic(s, TRACE_MAGIC@);
    lemma_le32(s, 8);
    lemma_le32(s, 12);
    lemma_le64(s, 16);
    lemma_le32(s, 24);
    lemma_zeros(s);
    let found = words_at(s, 32, count);
    assert forall|i: int| 0 <= i < offsets@.len() implies found[i] == offsets@[i] by {
        lemma_le64(s, 32 + 8 * i);
        assert(le_value(s, 32 + 8 * i, 8) == offsets@[i]);
    }
    assert(found =~= offsets@);
}

/// A range table is refused for the same reason in whatever order its ranges
/// stand.
pub proof fn law_range_order_does_not_matter(
    a: StartupManifest,
    b: StartupManifest,
    res_a: Result<Vec<u8>, ManifestError>,
    res_b: Result<Vec<u8>, ManifestError>,
)
    requires
        a.mem_virtual_size == b.mem_virtual_size,
        a.prefix_pages@ == b.prefix_pages@,
        a.ranges@.to_multiset() == b.ranges@.to_multiset(),
        call_ensures(encode_manifest, (&a,), res_a),
        call_ensures(encode_manifest, (&b,), res_b),
    ensures
        res_a is Ok <==> res_b is Ok,
        res_a is Err ==> res_a->Err_0 == res_b->Err_0,
{
    a.ranges@.to_multiset_ensures();
    b.ranges@.to_multiset_ensures();
    let f = |r: (u64, u64)| (r.0, r.1, 0u64);
    lemma_same_map(a.ranges@, b.ranges@, f);
    let (x, y) = (range_keys(a.ranges@), range_keys(b.ranges@));
    assert(x == a.ranges@.map_values(f) && y == b.ranges@.map_values(f));
    lemma_sorted_form(y);
    lemma_in_order(x, in_order(y));
}

/// Whether range `k` of a table in ascending order is the first one that is no
/// run of whole pages of the image or overlaps the one before it.
pub open spec fn first_at_fault(mem_virtual_size: u64, ranges: Seq<(u64, u64)>, k: int) -> bool {
    &&& 0 <= k < ranges.len()
    &&& forall|i: int, j: int|
        #![trigger ranges[i], ranges[j]]
        0 <= i < j < ranges.len() ==> ranges[i].0 < ranges[j].0
    &&& forall|i: int|
        #![trigger ranges[i]]
        0 <= i < k ==> range_fits(mem_virtual_size, ranges[i]) && (i > 0 ==> ranges[i - 1].0
            + ranges[i - 1].1 <= ranges[i].0)
    &&& !range_fits(mem_virtual_size, ranges[k]) || (k > 0 && ranges[k].0 < ranges[k - 1].0
        + ranges[k - 1].1)
}

/// What is wrong with such a range.
pub open spec fn fault(mem_virtual_size: u64, ranges: Seq<(u64, u64)>, k: int) -> ManifestError {
    let (start, len) = ranges[k];
    if k > 0 && start < ranges[k - 1].0 + ranges[k - 1].1 {
        ManifestError::RangesOverlap
    } else if len == 0 || len % 4096 != 0 {
        ManifestError::BadRangeLength { len }
    } else if !page_fits(mem_virtual_size, start) {
        ManifestError::Offset { offset: start, error: misfit(start) }
    } else if start + len > u64::MAX {
        ManifestError::RangeOverflow { start, len }
    } else {
        ManifestError::RangePastEnd { start, len }
    }
}

/// The first range at fault of a table in ascending order is the error.
pub proof fn law_first_range_at_fault(
    manifest: StartupManifest,
    res: Result<Vec<u8>, ManifestError>,
    k: int,
)
    requires
        manifest.prefix_pages@.len() <= 1_048_576,
        manifest.ranges@.len() <= 1_048_576,
        forall|i: int|
            0 <= i < manifest.prefix_pages@.len() ==> page_fits(
                manifest.mem_virtual_size,
                #[trigger] manifest.prefix_pages@[i],
            ),
        first_at_fault(manifest.mem_virtual_size, manifest.ranges@, k),
        call_ensures(encode_manifest, (&manifest,), res),
    ensures
        res == Err::<Vec<u8>, ManifestError>(
            fault(manifest.mem_virtual_size, manifest.ranges@, k),
        ),
{
    let mem = manifest.mem_virtual_size;
    let ranges = manifest.ranges@;
    lemma_pages_fit(mem, manifest.prefix_pages@);
    let keys = range_keys(ranges);
    assert(sorted_triples(keys)) by {
        assert forall|i: int, j: int| #![trigger keys[i], keys[j]] 0 <= i < j < keys.len() implies
            triple_le(keys[i], keys[j]) by {
            assert(ranges[i].0 < ranges[j].0);
        }
    }
    lemma_in_order(keys, keys);
    lemma_fault(mem, ranges, 0, k);
}

proof fn lemma_fault(mem: u64, ranges: Seq<(u64, u64)>, i: int, k: int)
    requires
        0 <= i <= k,
        first_at_fault(mem, ranges, k),
    ensures
        first_range_error(
            mem,
            range_keys(ranges),
            i,
            if i == 0 {
                0
            } else {
                ranges[i - 1].0 + ranges[i - 1].1
            },
        ) == Some(fault(mem, ranges, k)),
    decreases k - i,
{
    let keys = range_keys(ranges);
    assert(keys[i] == (ranges[i].0, ranges[i].1, 0u64));
    if i < k {
        assert(range_fits(mem, ranges[i]));
        lemma_fault(mem, ranges, i + 1, k);
    }
}

} // verus!
