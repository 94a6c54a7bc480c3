//! Counts the pages of a span that are mapped to a physical range.
use vstd::prelude::*;
use crate::plan_model::{PAGE_SECTORS, SegmentMapping, backed_pages, backs, page_backed};
use crate::sorting::{lemma_same_elements, sort_triples, sorted_triples, triple_le};

verus! {

/// Whether one of the page intervals from `k` on holds the page.
spec fn in_some(intervals: Seq<(u64, u64, u64)>, k: int, page: int) -> bool {
    exists|j: int|
        k <= j < intervals.len() && (#[trigger] intervals[j]).0 <= page < intervals[j].1
}

/// The pages that an answer backs.
proof fn lemma_backs(m: SegmentMapping, page: int)
    requires
        m.physical,
        m.length > 0,
    ensures
        backs(m, page) <==> m.offset as int / 8 <= page <= (m.offset + m.length - 1) / 8,
{
    assert((page + 1) * PAGE_SECTORS == 8 * page + 8);
    assert(page * PAGE_SECTORS == 8 * page);
}

/// Pages that are all backed, or all not, behind others.
proof fn lemma_alike(
    mappings: Seq<SegmentMapping>,
    first: int,
    n: int,
    more: int,
    is_backed: bool,
)
    requires
        0 <= n,
        0 <= more,
        forall|x: int|
            first + n <= x < first + n + more ==> #[trigger] page_backed(mappings, x) == is_backed,
    ensures
        backed_pages(mappings, first, n + more) == backed_pages(mappings, first, n) + if is_backed {
            more
        } else {
            0
        },
    decreases more,
{
    if more > 0 {
        lemma_alike(mappings, first, n, more - 1, is_backed);
        assert(page_backed(mappings, first + n + more - 1) == is_backed);
    }
}

/// The page intervals `lo..end` behind the answers that have a physical range,
/// cut to the `pages` pages from `first` on.
fn intervals_of(mappings: &Vec<SegmentMapping>, first: u64, pages: u64) -> (intervals: Vec<
    (u64, u64, u64),
>)
    requires
        first + pages <= u64::MAX,
    ensures
        forall|j: int|
            #![trigger intervals@[j]]
            0 <= j < intervals@.len() ==> first <= intervals@[j].0 <= intervals@[j].1 <= first
                + pages,
        forall|x: int|
            first <= x < first + pages ==> (#[trigger] page_backed(mappings@, x) <==> in_some(
                intervals@,
                0,
                x,
            )),
{
    let mut intervals: Vec<(u64, u64, u64)> = Vec::new();
    let limit: u64 = first + pages;
    let mut i: usize = 0;
    while i < mappings.len()
        invariant
            i <= mappings@.len(),
            limit == first + pages,
            forall|j: int|
                #![trigger intervals@[j]]
                0 <= j < intervals@.len() ==> first <= intervals@[j].0 <= intervals@[j].1 <= limit,
            forall|x: int|
                first <= x < limit ==> (#[trigger] page_backed(mappings@.take(i as int), x)
                    <==> in_some(intervals@, 0, x)),
        decreases mappings@.len() - i,
    {
        let m: SegmentMapping = mappings[i];
        let ghost before = intervals@;
        let ghost upto = mappings@.take(i as int);
        let ghost next = mappings@.take(i + 1);
        if m.physical && m.length > 0 {
            let start: u64 = m.offset / PAGE_SECTORS;
            let last: u128 = (m.offset as u128 + m.length as u128 - 1) / PAGE_SECTORS as u128;
            let lo: u64 = if start < first {
                first
            } else {
                start
            };
            let end: u64 = if last >= limit as u128 {
                limit
            } else {
                last as u64 + 1
            };
            if lo <= end && end <= limit {
                intervals.push((lo, end, 0));
            }
            assert forall|x: int| first <= x < limit implies (#[trigger] backs(m, x) <==> lo <= x
                < end) by {
                lemma_backs(m, x);
            }
        }
        proof {
            assert forall|x: int| first <= x < limit implies (#[trigger] page_backed(next, x)
                <==> in_some(intervals@, 0, x)) by {
                assert(next[i as int] == m);
                if page_backed(upto, x) {
                    let k = choose|k: int| 0 <= k < upto.len() && #[trigger] backs(upto[k], x);
                    assert(backs(next[k], x));
                }
                if page_backed(next, x) && !backs(m, x) {
                    let k = choose|k: int| 0 <= k < next.len() && #[trigger] backs(next[k], x);
                    assert(backs(upto[k], x));
                }
                if backs(m, x) {
                    assert(backs(next[i as int], x));
                    assert(intervals@[before.len() as int].0 <= x
                        < intervals@[before.len() as int].1);
                }
                if in_some(before, 0, x) {
                    let j = choose|j: int|
                        0 <= j < before.len() && (#[trigger] before[j]).0 <= x < before[j].1;
                    assert(intervals@[j] == before[j]);
                }
                if in_some(intervals@, 0, x) && !backs(m, x) {
                    let j = choose|j: int|
                        0 <= j < intervals@.len() && (#[trigger] intervals@[j]).0 <= x
                            < intervals@[j].1;
                    assert(before[j] == intervals@[j]);
                }
            }
        }
        i = i + 1;
    }
    assert(mappings@.take(i as int) =~= mappings@);
    intervals
}

/// How many of the `pages` pages from `first` on are mapped to at least one
/// physical range.
pub fn count_backed_pages(mappings: &Vec<SegmentMapping>, first: u64, pages: usize) -> (count:
    usize)
    requires
        first + pages <= u64::MAX,
    ensures
        count == backed_pages(mappings@, first as int, pages as int),
        count <= pages,
{
    let limit: u64 = first + pages as u64;
    let mut intervals: Vec<(u64, u64, u64)> = intervals_of(mappings, first, pages as u64);
    let ghost unsorted = intervals@;
    sort_triples(&mut intervals);
    proof {
        lemma_same_elements(unsorted, intervals@);
        assert forall|j: int| #![trigger intervals@[j]] 0 <= j < intervals@.len() implies first
            <= intervals@[j].0 <= intervals@[j].1 <= limit by {
            assert(intervals@.contains(intervals@[j]));
            assert(unsorted.contains(intervals@[j]));
            let k = choose|k: int| 0 <= k < unsorted.len() && unsorted[k] == intervals@[j];
            assert(first <= unsorted[k].0);
        }
        assert forall|x: int| first <= x < limit implies (#[trigger] page_backed(mappings@, x)
            <==> in_some(intervals@, 0, x)) by {
            if in_some(unsorted, 0, x) {
                let j = choose|j: int|
                    0 <= j < unsorted.len() && (#[trigger] unsorted[j]).0 <= x < unsorted[j].1;
                assert(unsorted.contains(unsorted[j]));
                assert(intervals@.contains(unsorted[j]));
                let k = choose|k: int| 0 <= k < intervals@.len() && intervals@[k] == unsorted[j];
                assert(intervals@[k].0 <= x < intervals@[k].1);
            }
            if in_some(intervals@, 0, x) {
                let j = choose|j: int|
                    0 <= j < intervals@.len() && (#[trigger] intervals@[j]).0 <= x
                        < intervals@[j].1;
                assert(intervals@.contains(intervals@[j]));
                assert(unsorted.contains(intervals@[j]));
                let k = choose|k: int| 0 <= k < unsorted.len() && unsorted[k] == intervals@[j];
                assert(unsorted[k].0 <= x < unsorted[k].1);
            }
        }
    }
    let mut count: usize = 0;
    let mut cursor: u64 = first;
    let mut i: usize = 0;
    while i < intervals.len()
        invariant
            i <= intervals@.len(),
            limit == first + pages,
            first <= cursor <= limit,
            sorted_triples(intervals@),
            count <= cursor - first,
            count == backed_pages(mappings@, first as int, cursor - first),
            forall|j: int|
                #![trigger intervals@[j]]
                0 <= j < intervals@.len() ==> first <= intervals@[j].0 <= intervals@[j].1 <= limit,
            forall|x: int|
                cursor <= x < limit ==> (#[trigger] page_backed(mappings@, x) <==> in_some(
                    intervals@,
                    i as int,
                    x,
                )),
        decreases intervals@.len() - i,
    {
        let (lo, end, _rest): (u64, u64, u64) = intervals[i];
        let ghost before = cursor;
        if end > cursor {
            let from: u64 = if lo < cursor {
                cursor
            } else {
                lo
            };
            proof {
                assert forall|x: int| cursor <= x < from implies !#[trigger] page_backed(
                    mappings@,
                    x,
                ) by {
                    if in_some(intervals@, i as int, x) {
                        let j = choose|j: int|
                            i <= j < intervals@.len() && (#[trigger] intervals@[j]).0 <= x
                                < intervals@[j].1;
                        if j > i {
                            assert(triple_le(intervals@[i as int], intervals@[j]));
                        }
                    }
                }
                lemma_alike(
                    mappings@,
                    first as int,
                    cursor - first,
                    from - cursor,
                    false,
                );
                assert forall|x: int| from <= x < end implies #[trigger] page_backed(
                    mappings@,
                    x,
                ) by {
                    assert(intervals@[i as int].0 <= x < intervals@[i as int].1);
                    assert(in_some(intervals@, i as int, x));
                }
                lemma_alike(mappings@, first as int, from - first, end - from, true);
            }
            count = count + (end - from) as usize;
            cursor = end;
        }
        proof {
            assert forall|x: int| cursor <= x < limit implies (#[trigger] page_backed(mappings@, x)
                <==> in_some(intervals@, i + 1, x)) by {
                assert(before <= x);
                if in_some(intervals@, i as int, x) {
                    let j = choose|j: int|
                        i <= j < intervals@.len() && (#[trigger] intervals@[j]).0 <= x
                            < intervals@[j].1;
                    assert(j != i);
                }
            }
        }
        i = i + 1;
    }
    proof {
        assert forall|x: int| cursor <= x < limit implies !#[trigger] page_backed(mappings@, x) by {
            assert(!in_some(intervals@, i as int, x));
        }
        lemma_alike(mappings@, first as int, cursor - first, limit - cursor, false);
    }
    count
}

} // verus!
