//! Input and output of the block planning statistics tool: page lists, layer
//! arguments and the blocks per object of a plan.
use vstd::prelude::*;
use crate::pack_plan::{PackPlan, PlannedBlock, placed};
use crate::page_offset::PACK_PAGE_BYTES;
use crate::wire::{read_u64, u64_at};

verus! {

/// Why an input was refused.
#[derive(Clone, Copy, Debug, PartialEq, Eq)]
pub enum StatsInputError {
    /// A page list is no whole number of offsets of eight bytes.
    PagesNotAligned { len: usize },
    /// A page number does not fit in 32 bits.
    PageIndexOverflow { offset: u64 },
    /// A layer argument does not have the form `path=size=digest`.
    InvalidLayerSpec,
    /// The size of a layer argument is no number of 64 bits.
    InvalidSize,
}

/// The page numbers of the first `n` offsets of a page list, or the first
/// error among them.
pub open spec fn pages_upto(raw: Seq<u8>, n: int) -> Result<Seq<u32>, StatsInputError>
    decreases n,
{
    if n <= 0 {
        Ok(Seq::empty())
    } else {
        match pages_upto(raw, n - 1) {
            Err(e) => Err(e),
            Ok(pages) => {
                let offset = u64_at(raw, 8 * (n - 1));
                if offset / PACK_PAGE_BYTES > u32::MAX {
                    Err(StatsInputError::PageIndexOverflow { offset })
                } else {
                    Ok(pages.push((offset / PACK_PAGE_BYTES) as u32))
                }
            },
        }
    }
}

/// The page numbers of a page list: little-endian byte offsets of eight bytes
/// each.
pub open spec fn page_list(raw: Seq<u8>) -> Result<Seq<u32>, StatsInputError> {
    if raw.len() % 8 != 0 {
        Err(StatsInputError::PagesNotAligned { len: raw.len() as usize })
    } else {
        pages_upto(raw, raw.len() as int / 8)
    }
}

proof fn lemma_pages_fail(raw: Seq<u8>, k: int, n: int, e: StatsInputError)
    requires
        0 <= k <= n,
        pages_upto(raw, k) == Err::<Seq<u32>, StatsInputError>(e),
    ensures
        pages_upto(raw, n) == Err::<Seq<u32>, StatsInputError>(e),
    decreases n,
{
    if k < n {
        lemma_pages_fail(raw, k, n - 1, e);
    }
}

/// Reads a page list.
pub fn parse_page_list(raw: &[u8]) -> (res: Result<Vec<u32>, StatsInputError>)
    ensures
        match page_list(raw@) {
            Err(e) => res == Err::<Vec<u32>, StatsInputError>(e),
            Ok(pages) => res is Ok && res->Ok_0@ == pages,
        },
{
    if raw.len() % 8 != 0 {
        return Err(StatsInputError::PagesNotAligned { len: raw.len() });
    }
    let count: usize = raw.len() / 8;
    let mut pages: Vec<u32> = Vec::new();
    let mut i: usize = 0;
    while i < count
        invariant
            i <= count,
            raw@.len() == 8 * count,
            raw@.len() <= usize::MAX,
            pages_upto(raw@, i as int) == Ok::<Seq<u32>, StatsInputError>(pages@),
        decreases count - i,
    {
        let offset: u64 = read_u64(raw, i * 8);
        let page: u64 = offset / PACK_PAGE_BYTES;
        if page > u32::MAX as u64 {
            proof {
                lemma_pages_fail(
                    raw@,
                    i + 1,
                    count as int,
                    StatsInputError::PageIndexOverflow { offset },
                );
            }
            return Err(StatsInputError::PageIndexOverflow { offset });
        }
        pages.push(page as u32);
        i = i + 1;
    }
    Ok(pages)
}

/// Whether a byte is a decimal digit.
pub open spec fn is_digit(b: u8) -> bool {
    0x30 <= b <= 0x39
}

/// The number that decimal digits stand for.
pub open spec fn decimal(digits: Seq<u8>) -> int
    decreases digits.len(),
{
    if digits.len() == 0 {
        0
    } else {
        decimal(digits.drop_last()) * 10 + (digits.last() - 0x30)
    }
}

/// The digits of a number that may start with a plus sign.
pub open spec fn unsigned_digits(text: Seq<u8>) -> Seq<u8> {
    if text.len() > 0 && text[0] == 0x2b {
        text.skip(1)
    } else {
        text
    }
}

/// The number of 64 bits that a text stands for, if it does: decimal digits,
/// at least one, behind an optional plus sign.
pub open spec fn number(text: Seq<u8>) -> Option<u64> {
    let digits = unsigned_digits(text);
    if digits.len() > 0 && (forall|i: int| 0 <= i < digits.len() ==> is_digit(#[trigger] digits[i]))
        && decimal(digits) <= u64::MAX {
        Some(decimal(digits) as u64)
    } else {
        None
    }
}

proof fn lemma_decimal_grows(digits: Seq<u8>, k: int)
    requires
        0 <= k <= digits.len(),
        forall|i: int| 0 <= i < digits.len() ==> is_digit(#[trigger] digits[i]),
    ensures
        0 <= decimal(digits.take(k)) <= decimal(digits),
    decreases digits.len(),
{
    if k == digits.len() {
        assert(digits.take(k) =~= digits);
        if digits.len() > 0 {
            assert forall|i: int| 0 <= i < digits.drop_last().len() implies is_digit(
                #[trigger] digits.drop_last()[i],
            ) by {
                assert(is_digit(digits[i]));
            }
            lemma_decimal_grows(digits.drop_last(), k - 1);
            assert(is_digit(digits[digits.len() - 1]));
        }
    } else {
        assert forall|i: int| 0 <= i < digits.drop_last().len() implies is_digit(
            #[trigger] digits.drop_last()[i],
        ) by {
            assert(is_digit(digits[i]));
        }
        assert(digits.drop_last().take(k) =~= digits.take(k));
        lemma_decimal_grows(digits.drop_last(), k);
        assert(is_digit(digits[digits.len() - 1]));
        let d = decimal(digits.drop_last());
        assert(d * 10 >= d) by (nonlinear_arith)
            requires
                d >= 0,
        ;
    }
}

/// Reads a number of 64 bits between two places of a text.
fn parse_number(text: &[u8], from: usize, to: usize) -> (value: Option<u64>)
    requires
        from <= to <= text@.len(),
    ensures
        value == number(text@.subrange(from as int, to as int)),
{
    let ghost part = text@.subrange(from as int, to as int);
    let ghost digits = unsigned_digits(part);
    let mut start: usize = from;
    if from < to && text[from] == 0x2b {
        start = from + 1;
    }
    assert(digits =~= text@.subrange(start as int, to as int));
    if start == to {
        return None;
    }
    let mut value: u64 = 0;
    let mut i: usize = start;
    assert(digits.take(0) =~= Seq::empty());
    while i < to
        invariant
            from <= start <= i <= to <= text@.len(),
            start < to,
            digits == text@.subrange(start as int, to as int),
            digits == unsigned_digits(part),
            part == text@.subrange(from as int, to as int),
            forall|k: int| 0 <= k < i - start ==> is_digit(#[trigger] digits[k]),
            value == decimal(digits.take(i - start)),
        decreases to - i,
    {
        let b: u8 = text[i];
        assert(b == digits[i - start]);
        if b < 0x30 || b > 0x39 {
            return None;
        }
        let sum: u128 = value as u128 * 10 + (b - 0x30) as u128;
        proof {
            let next = digits.take(i - start + 1);
            assert(next.drop_last() =~= digits.take(i - start));
            assert(next.last() == b);
            assert(sum == decimal(next));
            if forall|k: int| 0 <= k < digits.len() ==> is_digit(#[trigger] digits[k]) {
                lemma_decimal_grows(digits, i - start + 1);
            }
        }
        if sum > u64::MAX as u128 {
            return None;
        }
        value = sum as u64;
        i = i + 1;
    }
    assert(digits.take(i - start) =~= digits);
    Some(value)
}

/// The place of the first equals sign from `i` on.
pub open spec fn next_equals(text: Seq<u8>, i: int) -> Option<int>
    decreases text.len() - i,
{
    if i < 0 || i >= text.len() {
        None
    } else if text[i] == 0x3d {
        Some(i)
    } else {
        next_equals(text, i + 1)
    }
}

fn find_equals(text: &[u8], from: usize) -> (place: Option<usize>)
    requires
        from <= text@.len(),
    ensures
        match place {
            Some(i) => next_equals(text@, from as int) == Some(i as int) && from <= i
                < text@.len(),
            None => next_equals(text@, from as int) is None,
        },
{
    let mut i: usize = from;
    while i < text.len()
        invariant
            from <= i <= text@.len(),
            next_equals(text@, from as int) == next_equals(text@, i as int),
        decreases text@.len() - i,
    {
        if text[i] == 0x3d {
            return Some(i);
        }
        i = i + 1;
    }
    None
}

/// A layer argument: the path stands before `path_end`, the digest from
/// `digest_start` on.
#[derive(Clone, Copy, Debug, PartialEq, Eq)]
pub struct LayerSpec {
    pub path_end: usize,
    pub size: u64,
    pub digest_start: usize,
}

/// What a layer argument says: a path up to the first equals sign, a size up
/// to the next one, and a digest.
pub open spec fn layer_spec(text: Seq<u8>) -> Result<LayerSpec, StatsInputError> {
    match next_equals(text, 0) {
        None => Err(StatsInputError::InvalidLayerSpec),
        Some(a) => match next_equals(text, a + 1) {
            None => Err(StatsInputError::InvalidLayerSpec),
            Some(b) => match number(text.subrange(a + 1, b)) {
                None => Err(StatsInputError::InvalidSize),
                Some(size) => Ok(
                    LayerSpec {
                        path_end: a as usize,
                        size,
                        digest_start: (b + 1) as usize,
                    },
                ),
            },
        },
    }
}

/// Reads a layer argument of the form `path=size=digest`.
pub fn parse_layer_spec(text: &[u8]) -> (res: Result<LayerSpec, StatsInputError>)
    ensures
        res == layer_spec(text@),
        res matches Ok(spec) ==> spec.path_end < spec.digest_start <= text@.len(),
{
    assert(text@.len() == text.len());
    let a: usize = match find_equals(text, 0) {
        Some(a) => a,
        None => {
            return Err(StatsInputError::InvalidLayerSpec);
        },
    };
    let b: usize = match find_equals(text, a + 1) {
        Some(b) => b,
        None => {
            return Err(StatsInputError::InvalidLayerSpec);
        },
    };
    match parse_number(text, a + 1, b) {
        None => Err(StatsInputError::InvalidSize),
        Some(size) => Ok(LayerSpec { path_end: a, size, digest_start: b + 1 }),
    }
}

/// How many of the blocks are blocks of an object.
pub open spec fn blocks_of_object(blocks: Seq<PlannedBlock>, object: int) -> int
    decreases blocks.len(),
{
    if blocks.len() == 0 {
        0
    } else {
        blocks_of_object(blocks.drop_last(), object) + if blocks.last().object == object {
            1int
        } else {
            0int
        }
    }
}

/// The blocks per object of a plan.
pub fn blocks_per_object(plan: &PackPlan) -> (counts: Vec<u64>)
    requires
        placed(plan.objects@, plan.blocks@),
    ensures
        counts@.len() == plan.objects@.len(),
        forall|o: int|
            0 <= o < counts@.len() ==> #[trigger] counts@[o] == blocks_of_object(plan.blocks@, o),
{
    let mut counts: Vec<u64> = Vec::new();
    let mut k: usize = 0;
    while k < plan.objects.len()
        invariant
            k <= plan.objects@.len(),
            counts@.len() == k,
            forall|o: int| 0 <= o < k ==> #[trigger] counts@[o] == 0,
        decreases plan.objects@.len() - k,
    {
        counts.push(0);
        k = k + 1;
    }
    let mut i: usize = 0;
    assert(plan.blocks@.take(0) =~= Seq::empty());
    while i < plan.blocks.len()
        invariant
            i <= plan.blocks@.len(),
            placed(plan.objects@, plan.blocks@),
            counts@.len() == plan.objects@.len(),
            forall|o: int|
                0 <= o < counts@.len() ==> #[trigger] counts@[o] == blocks_of_object(
                    plan.blocks@.take(i as int),
                    o,
                ) && counts@[o] <= i,
        decreases plan.blocks@.len() - i,
    {
        let ghost before = counts@;
        assert(plan.blocks@[i as int].object < plan.objects@.len());
        let object: usize = plan.blocks[i].object as usize;
        assert(counts@[object as int] <= i);
        counts[object] = counts[object] + 1;
        proof {
            let next = plan.blocks@.take(i + 1);
            assert(next.drop_last() =~= plan.blocks@.take(i as int));
            assert(next.last() == plan.blocks@[i as int]);
            assert forall|o: int| 0 <= o < counts@.len() implies #[trigger] counts@[o]
                == blocks_of_object(next, o) && counts@[o] <= i + 1 by {
                assert(before[o] == blocks_of_object(plan.blocks@.take(i as int), o));
            }
        }
        i = i + 1;
    }
    assert(plan.blocks@.take(i as int) =~= plan.blocks@);
    counts
}

} // verus!
