//! Byte offsets of pages in a memory image.
use vstd::prelude::*;

verus! {

/// Guest page granularity of the recorded first-touch list.
pub const PACK_PAGE_BYTES: u64 = 4096;

/// What is wrong with the offset of a page.
#[derive(Clone, Copy, Debug, PartialEq, Eq)]
pub enum PageOffsetError {
    /// It is no multiple of the page size.
    Unaligned,
    /// The end of the page does not fit in 64 bits.
    Overflow,
    /// The page ends past the memory image.
    PastEnd,
}

/// What is wrong with a page offset, if anything is.
pub open spec fn page_offset_error(mem_virtual_size: u64, offset: u64) -> Option<PageOffsetError> {
    if offset % PACK_PAGE_BYTES != 0 {
        Some(PageOffsetError::Unaligned)
    } else if offset + PACK_PAGE_BYTES > u64::MAX {
        Some(PageOffsetError::Overflow)
    } else if offset + PACK_PAGE_BYTES > mem_virtual_size {
        Some(PageOffsetError::PastEnd)
    } else {
        None
    }
}

/// Whether an offset is that of a page of the memory image.
pub open spec fn is_page_of(mem_virtual_size: u64, offset: u64) -> bool {
    offset % PACK_PAGE_BYTES == 0 && offset + PACK_PAGE_BYTES <= mem_virtual_size
}

/// The first of the offsets, from `i` on, that is not that of a page of the
/// memory image, and what is wrong with it.
pub open spec fn first_bad_offset(mem_virtual_size: u64, offsets: Seq<u64>, i: int) -> Option<
    (u64, PageOffsetError),
>
    decreases offsets.len() - i,
{
    if i < 0 || i >= offsets.len() {
        None
    } else {
        match page_offset_error(mem_virtual_size, offsets[i]) {
            Some(e) => Some((offsets[i], e)),
            None => first_bad_offset(mem_virtual_size, offsets, i + 1),
        }
    }
}

/// Checks a page offset.
pub fn check_page_offset(mem_virtual_size: u64, offset: u64) -> (res: Result<(), PageOffsetError>)
    ensures
        match page_offset_error(mem_virtual_size, offset) {
            Some(e) => res == Err::<(), PageOffsetError>(e),
            None => res is Ok,
        },
{
    if !offset.is_multiple_of(PACK_PAGE_BYTES) {
        return Err(PageOffsetError::Unaligned);
    }
    match offset.checked_add(PACK_PAGE_BYTES) {
        None => Err(PageOffsetError::Overflow),
        Some(end) => if end > mem_virtual_size {
            Err(PageOffsetError::PastEnd)
        } else {
            Ok(())
        },
    }
}

/// No offset is bad exactly where all are those of pages of the image.
pub proof fn lemma_no_bad_offset(mem_virtual_size: u64, offsets: Seq<u64>, i: int)
    requires
        0 <= i,
    ensures
        first_bad_offset(mem_virtual_size, offsets, i) is None <==> forall|k: int|
            i <= k < offsets.len() ==> is_page_of(mem_virtual_size, #[trigger] offsets[k]),
    decreases offsets.len() - i,
{
    if i < offsets.len() {
        lemma_no_bad_offset(mem_virtual_size, offsets, i + 1);
        if page_offset_error(mem_virtual_size, offsets[i]) is Some {
            assert(!is_page_of(mem_virtual_size, offsets[i]));
        }
    }
}

} // verus!
