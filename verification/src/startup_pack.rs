//! Shared constants and the first-touch trace codec of the startup memory
//! domain. The trace is the ordered, deduplicated page-offset list the
//! recorder observes; the manifest publisher expands it into the uploaded page
//! list, and the manifest prefetch plans it onto the final layer objects. It
//! never leaves the node as-is.
//!
//! Layout (little-endian): magic "AENVTRC1", version (4 bytes), header size
//! (4 bytes), memory image size (8 bytes), page count (4 bytes), reserved
//! (4 zero bytes), then one page offset (8 bytes) per page.
use vstd::prelude::*;
pub use crate::page_offset::PACK_PAGE_BYTES;
use crate::page_offset::{
    PageOffsetError, check_page_offset, first_bad_offset, is_page_of, lemma_no_bad_offset,
    page_offset_error,
};
use crate::wire::{
    le32, le64, lemma_read_u32, lemma_read_u64, lemma_read_words, lemma_words_len, lemma_write_u32,
    lemma_write_u64, lemma_write_words, push_magic, push_u32, push_u64, read_u32, read_u64,
    starts_with, u32_at, u64_at, words, words_at,
};

verus! {

/// Recorder page cap: 1 GiB of covered memory.
pub const MAX_PACK_PAGES: u32 = 262_144;

/// The bytes "AENVTRC1".
pub const TRACE_MAGIC: [u8; 8] = [0x41, 0x45, 0x4e, 0x56, 0x54, 0x52, 0x43, 0x31];

pub const TRACE_FORMAT_VERSION: u32 = 1;

pub const TRACE_HEADER_BYTES: usize = 32;

/// Trace page-list cap (bounds parser allocation): 8 MiB of index bytes.
pub const MAX_TRACE_PAGES: u32 = 1048576;

/// Why a trace was refused.
#[derive(Clone, Copy, Debug, PartialEq, Eq)]
pub enum TraceError {
    /// There is no page to encode.
    Empty,
    /// There are more pages than a trace holds.
    TooManyPages { count: usize },
    /// An offset is not that of a page of the memory image.
    Offset { offset: u64, error: PageOffsetError },
    /// There are fewer bytes than the header has.
    TooShort { len: usize },
    /// The bytes do not start with the magic number.
    BadMagic,
    UnsupportedVersion { version: u32 },
    BadHeaderSize { header_bytes: u32 },
    /// The reserved bytes of the header are not zero.
    ReservedNotZero,
    /// The page count is zero or above the cap.
    BadPageCount { count: u32 },
    /// The bytes are not as many as the page count asks for.
    LengthMismatch { expected: usize, actual: usize },
}

/// Why a page list cannot be encoded, if it cannot.
pub open spec fn trace_error(mem_virtual_size: u64, offsets: Seq<u64>) -> Option<TraceError> {
    if offsets.len() == 0 {
        Some(TraceError::Empty)
    } else if offsets.len() > MAX_TRACE_PAGES {
        Some(TraceError::TooManyPages { count: offsets.len() as usize })
    } else {
        match first_bad_offset(mem_virtual_size, offsets, 0) {
            Some((offset, error)) => Some(TraceError::Offset { offset, error }),
            None => None,
        }
    }
}

/// The header of a trace of `count` pages.
pub open spec fn trace_header(mem_virtual_size: u64, count: u32) -> Seq<u8> {
    TRACE_MAGIC@ + le32(TRACE_FORMAT_VERSION) + le32(TRACE_HEADER_BYTES as u32) + le64(
        mem_virtual_size,
    ) + le32(count) + le32(0)
}

/// The bytes of a trace.
pub open spec fn trace_bytes(mem_virtual_size: u64, offsets: Seq<u64>) -> Seq<u8> {
    trace_header(mem_virtual_size, offsets.len() as u32) + words(offsets)
}

/// What a byte string holds when read as a trace.
pub open spec fn parse_trace(bytes: Seq<u8>) -> Result<(u64, Seq<u64>), TraceError> {
    if bytes.len() < TRACE_HEADER_BYTES {
        Err(TraceError::TooShort { len: bytes.len() as usize })
    } else if bytes.take(8) != TRACE_MAGIC@ {
        Err(TraceError::BadMagic)
    } else if u32_at(bytes, 8) != TRACE_FORMAT_VERSION {
        Err(TraceError::UnsupportedVersion { version: u32_at(bytes, 8) })
    } else if u32_at(bytes, 12) != TRACE_HEADER_BYTES {
        Err(TraceError::BadHeaderSize { header_bytes: u32_at(bytes, 12) })
    } else if bytes.subrange(28, 32) != seq![0u8, 0u8, 0u8, 0u8] {
        Err(TraceError::ReservedNotZero)
    } else {
        let mem_virtual_size = u64_at(bytes, 16);
        let count = u32_at(bytes, 24);
        if count == 0 || count > MAX_TRACE_PAGES {
            Err(TraceError::BadPageCount { count })
        } else if bytes.len() != TRACE_HEADER_BYTES + count * 8 {
            Err(
                TraceError::LengthMismatch {
                    expected: (TRACE_HEADER_BYTES + count * 8) as usize,
                    actual: bytes.len() as usize,
                },
            )
        } else {
            let offsets = words_at(bytes, TRACE_HEADER_BYTES as int, count as int);
            match first_bad_offset(mem_virtual_size, offsets, 0) {
                Some((offset, error)) => Err(TraceError::Offset { offset, error }),
                None => Ok((mem_virtual_size, offsets)),
            }
        }
    }
}

/// Encodes a first-touch trace: the ordered, deduplicated page offsets the
/// recorder observed, plus the memory image size they belong to.
pub fn encode_trace(mem_virtual_size: u64, page_offsets: &[u64]) -> (res: Result<
    Vec<u8>,
    TraceError,
>)
    ensures
        match trace_error(mem_virtual_size, page_offsets@) {
            Some(e) => res == Err::<Vec<u8>, TraceError>(e),
            None => res is Ok && res->Ok_0@ == trace_bytes(mem_virtual_size, page_offsets@),
        },
{
    if page_offsets.len() == 0 {
        return Err(TraceError::Empty);
    }
    if page_offsets.len() > MAX_TRACE_PAGES as usize {
        return Err(TraceError::TooManyPages { count: page_offsets.len() });
    }
    let mut out: Vec<u8> = Vec::new();
    push_magic(&mut out, &TRACE_MAGIC);
    push_u32(&mut out, TRACE_FORMAT_VERSION);
    push_u32(&mut out, TRACE_HEADER_BYTES as u32);
    push_u64(&mut out, mem_virtual_size);
    push_u32(&mut out, page_offsets.len() as u32);
    push_u32(&mut out, 0);
    let ghost header = trace_header(mem_virtual_size, page_offsets@.len() as u32);
    assert(out@ =~= header);
    assert(page_offsets@.take(0) =~= Seq::empty());
    let mut i: usize = 0;
    while i < page_offsets.len()
        invariant
            i <= page_offsets@.len(),
            0 < page_offsets@.len() <= MAX_TRACE_PAGES,
            first_bad_offset(mem_virtual_size, page_offsets@, 0) == first_bad_offset(
                mem_virtual_size,
                page_offsets@,
                i as int,
            ),
            out@ == header + words(page_offsets@.take(i as int)),
        decreases page_offsets@.len() - i,
    {
        let offset: u64 = page_offsets[i];
        match validate_trace_offset(mem_virtual_size, offset) {
            Ok(()) => {},
            Err(e) => {
                return Err(e);
            },
        }
        push_u64(&mut out, offset);
        proof {
            let upto = page_offsets@.take(i + 1);
            assert(upto.drop_last() =~= page_offsets@.take(i as int));
            assert(upto.last() == offset);
            assert(out@ =~= header + words(upto));
        }
        i = i + 1;
    }
    assert(page_offsets@.take(i as int) =~= page_offsets@);
    Ok(out)
}

fn validate_trace_offset(mem_virtual_size: u64, offset: u64) -> (res: Result<(), TraceError>)
    ensures
        match page_offset_error(mem_virtual_size, offset) {
            Some(error) => res == Err::<(), TraceError>(TraceError::Offset { offset, error }),
            None => res is Ok,
        },
{
    match check_page_offset(mem_virtual_size, offset) {
        Ok(()) => Ok(()),
        Err(error) => Err(TraceError::Offset { offset, error }),
    }
}

/// Decodes and validates a trace. Returns the memory image size and the
/// ordered page offsets.
pub fn decode_trace(bytes: &[u8]) -> (res: Result<(u64, Vec<u64>), TraceError>)
    ensures
        match parse_trace(bytes@) {
            Err(e) => res == Err::<(u64, Vec<u64>), TraceError>(e),
            Ok((mem_virtual_size, offsets)) => {
                &&& res is Ok
                &&& res->Ok_0.0 == mem_virtual_size
                &&& res->Ok_0.1@ == offsets
            },
        },
{
    if bytes.len() < TRACE_HEADER_BYTES {
        return Err(TraceError::TooShort { len: bytes.len() });
    }
    if !starts_with(bytes, &TRACE_MAGIC) {
        return Err(TraceError::BadMagic);
    }
    let version: u32 = read_u32(bytes, 8);
    if version != TRACE_FORMAT_VERSION {
        return Err(TraceError::UnsupportedVersion { version });
    }
    let header_bytes: u32 = read_u32(bytes, 12);
    if header_bytes as usize != TRACE_HEADER_BYTES {
        return Err(TraceError::BadHeaderSize { header_bytes });
    }
    let mem_virtual_size: u64 = read_u64(bytes, 16);
    let page_count: u32 = read_u32(bytes, 24);
    let ghost reserved = bytes@.subrange(28, 32);
    if bytes[28] != 0 || bytes[29] != 0 || bytes[30] != 0 || bytes[31] != 0 {
        assert(reserved[0] != 0 || reserved[1] != 0 || reserved[2] != 0 || reserved[3] != 0);
        return Err(TraceError::ReservedNotZero);
    }
    assert(reserved =~= seq![0u8, 0u8, 0u8, 0u8]);
    if page_count == 0 || page_count > MAX_TRACE_PAGES {
        return Err(TraceError::BadPageCount { count: page_count });
    }
    let expected: usize = TRACE_HEADER_BYTES + page_count as usize * 8;
    if bytes.len() != expected {
        return Err(TraceError::LengthMismatch { expected, actual: bytes.len() });
    }
    let ghost all = words_at(bytes@, TRACE_HEADER_BYTES as int, page_count as int);
    let mut offsets: Vec<u64> = Vec::new();
    let mut i: usize = 0;
    while i < page_count as usize
        invariant
            i <= page_count <= MAX_TRACE_PAGES,
            bytes@.len() == TRACE_HEADER_BYTES + page_count * 8,
            all == words_at(bytes@, TRACE_HEADER_BYTES as int, page_count as int),
            offsets@ == all.take(i as int),
            first_bad_offset(mem_virtual_size, all, 0) == first_bad_offset(
                mem_virtual_size,
                all,
                i as int,
            ),
            parse_trace(bytes@) == match first_bad_offset(mem_virtual_size, all, 0) {
                Some((offset, error)) => Err::<(u64, Seq<u64>), TraceError>(
                    TraceError::Offset { offset, error },
                ),
                None => Ok((mem_virtual_size, all)),
            },
        decreases page_count - i,
    {
        let offset: u64 = read_u64(bytes, TRACE_HEADER_BYTES + i * 8);
        assert(offset == all[i as int]);
        match validate_trace_offset(mem_virtual_size, offset) {
            Ok(()) => {},
            Err(e) => {
                return Err(e);
            },
        }
        offsets.push(offset);
        assert(all.take(i + 1) =~= all.take(i as int).push(offset));
        i = i + 1;
    }
    assert(all.take(i as int) =~= all);
    Ok((mem_virtual_size, offsets))
}

proof fn lemma_header(mem_virtual_size: u64, count: u32, body: Seq<u8>)
    ensures
        ({
            let bytes = trace_header(mem_virtual_size, count) + body;
            &&& trace_header(mem_virtual_size, count).len() == TRACE_HEADER_BYTES
            &&& bytes.take(8) == TRACE_MAGIC@
            &&& u32_at(bytes, 8) == TRACE_FORMAT_VERSION
            &&& u32_at(bytes, 12) == TRACE_HEADER_BYTES
            &&& u64_at(bytes, 16) == mem_virtual_size
            &&& u32_at(bytes, 24) == count
            &&& bytes.subrange(28, 32) == seq![0u8, 0u8, 0u8, 0u8]
        }),
{
    let m = TRACE_MAGIC@;
    let v = le32(TRACE_FORMAT_VERSION);
    let h = le32(TRACE_HEADER_BYTES as u32);
    let s = le64(mem_virtual_size);
    let c = le32(count);
    let z = le32(0);
    let bytes = trace_header(mem_virtual_size, count) + body;
    assert(bytes.take(8) =~= m);
    assert(u32_at(bytes, 8) == TRACE_FORMAT_VERSION) by {
        lemma_read_u32(TRACE_FORMAT_VERSION, m, h + s + c + z + body);
        assert(m + v + (h + s + c + z + body) =~= bytes);
    }
    assert(u32_at(bytes, 12) == TRACE_HEADER_BYTES) by {
        lemma_read_u32(TRACE_HEADER_BYTES as u32, m + v, s + c + z + body);
        assert(m + v + h + (s + c + z + body) =~= bytes);
    }
    assert(u64_at(bytes, 16) == mem_virtual_size) by {
        lemma_read_u64(mem_virtual_size, m + v + h, c + z + body);
        assert(m + v + h + s + (c + z + body) =~= bytes);
    }
    assert(u32_at(bytes, 24) == count) by {
        lemma_read_u32(count, m + v + h + s, z + body);
        assert(m + v + h + s + c + (z + body) =~= bytes);
    }
    assert(bytes.subrange(28, 32) =~= z);
    assert(z =~= seq![0u8, 0u8, 0u8, 0u8]);
}

/// Decoding gives back what was encoded.
pub proof fn law_decode_encoded_trace(mem_virtual_size: u64, offsets: Seq<u64>)
    requires
        trace_error(mem_virtual_size, offsets) is None,
    ensures
        parse_trace(trace_bytes(mem_virtual_size, offsets)) == Ok::<(u64, Seq<u64>), TraceError>(
            (mem_virtual_size, offsets),
        ),
{
    let count = offsets.len() as u32;
    let header = trace_header(mem_virtual_size, count);
    lemma_header(mem_virtual_size, count, words(offsets));
    lemma_words_len(offsets);
    lemma_read_words(offsets, header, Seq::empty());
    assert(header + words(offsets) + Seq::<u8>::empty() =~= header + words(offsets));
}

/// What decodes is what encoding the decoded list gives: there is one byte
/// string for each trace.
pub proof fn law_encode_decoded_trace(bytes: Seq<u8>)
    ensures
        parse_trace(bytes) matches Ok((mem_virtual_size, offsets)) ==> trace_error(
            mem_virtual_size,
            offsets,
        ) is None && trace_bytes(mem_virtual_size, offsets) == bytes,
{
    if parse_trace(bytes) is Ok {
        let (mem_virtual_size, offsets) = parse_trace(bytes)->Ok_0;
        let count = u32_at(bytes, 24);
        lemma_write_u32(bytes, 8);
        lemma_write_u32(bytes, 12);
        lemma_write_u64(bytes, 16);
        lemma_write_u32(bytes, 24);
        lemma_write_words(bytes, 32, count as int);
        assert(le32(0) =~= seq![0u8, 0u8, 0u8, 0u8]);
        assert(trace_header(mem_virtual_size, count) =~= bytes.take(32)) by {
            assert(bytes.take(32) =~= bytes.take(8) + bytes.subrange(8, 12) + bytes.subrange(
                12,
                16,
            ) + bytes.subrange(16, 24) + bytes.subrange(24, 28) + bytes.subrange(28, 32));
        }
        assert(bytes.take(32) + bytes.subrange(32, 32 + 8 * count) =~= bytes);
    }
}

/// A decoded trace names pages of its memory image only, at least one and no
/// more than the cap.
pub proof fn law_decoded_trace_is_valid(bytes: Seq<u8>)
    ensures
        parse_trace(bytes) matches Ok((mem_virtual_size, offsets)) ==> {
            &&& 0 < offsets.len() <= MAX_TRACE_PAGES
            &&& forall|i: int|
                0 <= i < offsets.len() ==> is_page_of(mem_virtual_size, #[trigger] offsets[i])
        },
{
    if parse_trace(bytes) is Ok {
        let (mem_virtual_size, offsets) = parse_trace(bytes)->Ok_0;
        lemma_no_bad_offset(mem_virtual_size, offsets, 0);
    }
}

} // verus!
