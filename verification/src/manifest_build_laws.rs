//! What a manifest that is built from a page list says of the list.
use vstd::prelude::*;
use crate::codec_laws::{
    byte_of, first_misfit, lemma_first_misfit, misfit, page_fits, range_fits, ranges_share_a_byte,
};
use crate::page_offset::{first_bad_offset, is_page_of, lemma_no_bad_offset};
use crate::part_laws::{bytes_of, lemma_lengths_of_runs, lemma_lengths_removed, lengths};
use crate::runs::{Run, fully_merged, grouped, is_member, precedes, runs_of, starts_before};
use crate::startup_manifest::{
    ManifestError, StartupManifest, build_error, build_manifest, byte_ranges, lemma_run_in_image,
    page_items,
};

verus! {

/// Whether a byte lies in one of the pages of a list.
pub open spec fn page_listed(offsets: Seq<u64>, at: int) -> bool {
    exists|i: int| 0 <= i < offsets.len() && (#[trigger] offsets[i]) <= at < offsets[i] + 4096
}

/// Whether a byte lies in one of some ranges.
pub open spec fn covered(ranges: Seq<(u64, u64)>, at: int) -> bool {
    exists|k: int| 0 <= k < ranges.len() && byte_of(#[trigger] ranges[k], at)
}

/// Whether range `a` holds a page that stands before all pages of range `b` in
/// a list.
pub open spec fn touched_before(offsets: Seq<u64>, a: (u64, u64), b: (u64, u64)) -> bool {
    exists|x: int| #[trigger]
        holds_listed(offsets, a, x) && forall|y: int| #[trigger]
            holds_listed(offsets, b, y) ==> x < y
}

/// Whether a range holds page `x` of a list.
pub open spec fn holds_listed(offsets: Seq<u64>, range: (u64, u64), x: int) -> bool {
    0 <= x < offsets.len() && byte_of(range, offsets[x] as int)
}

/// A manifest is built exactly from a list of pages of the image that names
/// one at least; otherwise the first offset that is not that of such a page is
/// the error.
pub proof fn law_when_a_manifest_is_built(
    mem_virtual_size: u64,
    offsets: &[u64],
    res: Result<StartupManifest, ManifestError>,
    k: int,
)
    requires
        call_ensures(build_manifest, (mem_virtual_size, offsets), res),
    ensures
        res is Ok <==> offsets@.len() > 0 && forall|i: int|
            0 <= i < offsets@.len() ==> page_fits(mem_virtual_size, #[trigger] offsets@[i]),
        offsets@.len() == 0 ==> res == Err::<StartupManifest, ManifestError>(
            ManifestError::EmptyPageList,
        ),
        first_misfit(mem_virtual_size, offsets@, k) ==> res == Err::<
            StartupManifest,
            ManifestError,
        >(ManifestError::Offset { offset: offsets@[k], error: misfit(offsets@[k]) }),
{
    lemma_no_bad_offset(mem_virtual_size, offsets@, 0);
    if forall|i: int|
        0 <= i < offsets@.len() ==> page_fits(mem_virtual_size, #[trigger] offsets@[i]) {
        assert forall|i: int| 0 <= i < offsets@.len() implies is_page_of(
            mem_virtual_size,
            #[trigger] offsets@[i],
        ) by {
            assert(page_fits(mem_virtual_size, offsets@[i]));
        }
    }
    if first_bad_offset(mem_virtual_size, offsets@, 0) is None {
        assert forall|i: int| 0 <= i < offsets@.len() implies page_fits(
            mem_virtual_size,
            #[trigger] offsets@[i],
        ) by {
            assert(is_page_of(mem_virtual_size, offsets@[i]));
        }
    }
    if first_misfit(mem_virtual_size, offsets@, k) {
        lemma_first_misfit(mem_virtual_size, offsets@, 0, k);
    }
}

proof fn lemma_bytes(ranges: Seq<(u64, u64)>, runs: Seq<Run>)
    requires
        ranges.len() == runs.len(),
        forall|k: int|
            0 <= k < ranges.len() ==> (#[trigger] ranges[k]).1 == runs[k].len * 4096,
    ensures
        bytes_of(ranges) == 4096 * lengths(runs),
    decreases ranges.len(),
{
    if ranges.len() > 0 {
        let (rest, tail) = (ranges.skip(1), runs.remove(0));
        assert forall|k: int| 0 <= k < rest.len() implies (#[trigger] rest[k]).1 == tail[k].len
            * 4096 by {
            assert(ranges[k + 1].1 == runs[k + 1].len * 4096);
        }
        lemma_bytes(rest, tail);
        lemma_lengths_removed(runs, 0);
        assert(ranges[0].1 == runs[0].len * 4096);
    }
}

/// A manifest that is built holds the bytes of the listed pages in its ranges
/// and no other byte, each page as often as it is listed. Its ranges are runs
/// of whole pages of the image, and it has no prefix pages. Where no page is
/// listed twice, no two ranges overlap or touch, and they stand in the order in
/// which the list first names one of their pages.
pub proof fn law_built_manifest(
    mem_virtual_size: u64,
    offsets: &[u64],
    m: StartupManifest,
)
    requires
        call_ensures(
            build_manifest,
            (mem_virtual_size, offsets),
            Ok::<StartupManifest, ManifestError>(m),
        ),
    ensures
        m.mem_virtual_size == mem_virtual_size,
        m.prefix_pages@.len() == 0,
        forall|k: int|
            0 <= k < m.ranges@.len() ==> range_fits(mem_virtual_size, #[trigger] m.ranges@[k]),
        forall|at: int| #[trigger] covered(m.ranges@, at) <==> page_listed(offsets@, at),
        bytes_of(m.ranges@) == 4096 * offsets@.len(),
        offsets@.no_duplicates() ==> {
            &&& forall|k: int, l: int|
                #![trigger m.ranges@[k], m.ranges@[l]]
                0 <= k < m.ranges@.len() && 0 <= l < m.ranges@.len() && k != l
                    ==> !ranges_share_a_byte(m.ranges@[k], m.ranges@[l]) && m.ranges@[k].0
                    + m.ranges@[k].1 != m.ranges@[l].0
            &&& forall|k: int, l: int|
                #![trigger m.ranges@[k], m.ranges@[l]]
                0 <= k < l < m.ranges@.len() ==> touched_before(
                    offsets@,
                    m.ranges@[k],
                    m.ranges@[l],
                )
        },
{
    let list = offsets@;
    let items = page_items(list);
    let cap = u64::MAX as int;
    let ranges = m.ranges@;
    assert(build_error(mem_virtual_size, list) is None);
    let runs = choose|runs: Seq<Run>| #[trigger]
        runs_of(items, cap, runs) && ranges == byte_ranges(runs);
    let members = choose|members: Seq<Seq<int>>| #[trigger] grouped(items, cap, runs, members);
    lemma_no_bad_offset(mem_virtual_size, list, 0);
    assert forall|i: int| 0 <= i < list.len() implies (#[trigger] list[i]) % 4096 == 0 && items[i]
        == (0u64, (list[i] / 4096) as u64) by {
        assert(is_page_of(mem_virtual_size, list[i]));
    }
    assert forall|k: int| 0 <= k < ranges.len() implies {
        &&& (#[trigger] ranges[k]).0 == runs[k].start * 4096
        &&& ranges[k].1 == runs[k].len * 4096
        &&& runs[k].group == 0
        &&& range_fits(mem_virtual_size, ranges[k])
    } by {
        lemma_run_in_image(mem_virtual_size, list, runs, k);
    }
    assert(list.len() == offsets.len());
    lemma_lengths_of_runs(items, cap, runs);
    lemma_bytes(ranges, runs);
    // A page of a run, and the run of a page.
    assert forall|k: int, x: int| 0 <= k < ranges.len() && 0 <= x < members[k].len() implies {
        let i = #[trigger] members[k][x];
        0 <= i < list.len() && list[i] == (runs[k].start + x) * 4096
    } by {
        let i = members[k][x];
        assert(items[i].1 == runs[k].start + x);
        assert(list[i] % 4096 == 0 && items[i] == (0u64, (list[i] / 4096) as u64));
    }
    assert forall|at: int| #[trigger] covered(ranges, at) <==> page_listed(list, at) by {
        if covered(ranges, at) {
            let k = choose|k: int| 0 <= k < ranges.len() && byte_of(#[trigger] ranges[k], at);
            let x = at / 4096 - runs[k].start;
            assert(1 <= runs[k].len <= cap && members[k].len() == runs[k].len);
            assert(0 <= x < members[k].len());
            let i = members[k][x];
            assert(list[i] == (runs[k].start + x) * 4096);
            assert(list[i] <= at < list[i] + 4096);
        }
        if page_listed(list, at) {
            let i = choose|i: int|
                0 <= i < list.len() && (#[trigger] list[i]) <= at < list[i] + 4096;
            assert(is_member(members, i));
            let (k, x) = choose|k: int, x: int|
                0 <= k < members.len() && 0 <= x < members[k].len() && #[trigger] members[k][x]
                    == i;
            assert(1 <= runs[k].len <= cap && members[k].len() == runs[k].len);
            assert(list[i] == (runs[k].start + x) * 4096);
            assert(byte_of(ranges[k], at));
        }
    }
    if list.no_duplicates() {
        assert(items.no_duplicates()) by {
            assert forall|i: int, j: int|
                0 <= i < items.len() && 0 <= j < items.len() && i != j implies items[i]
                != items[j] by {
                assert(list[i] % 4096 == 0 && list[j] % 4096 == 0);
                assert(list[i] != list[j]);
            }
        }
        assert(fully_merged(runs, cap));
        assert forall|k: int, l: int|
            #![trigger ranges[k], ranges[l]]
            0 <= k < ranges.len() && 0 <= l < ranges.len() && k != l implies !ranges_share_a_byte(
            ranges[k],
            ranges[l],
        ) && ranges[k].0 + ranges[k].1 != ranges[l].0 by {
            assert(1 <= runs[k].len <= cap && members[k].len() == runs[k].len);
            assert(1 <= runs[l].len <= cap && members[l].len() == runs[l].len);
            if ranges_share_a_byte(ranges[k], ranges[l]) {
                let at = choose|at: int| #[trigger]
                    byte_of(ranges[k], at) && byte_of(ranges[l], at);
                let (x, y) = (at / 4096 - runs[k].start, at / 4096 - runs[l].start);
                let (i, j) = (members[k][x], members[l][y]);
                assert(list[i] == (runs[k].start + x) * 4096);
                assert(list[j] == (runs[l].start + y) * 4096);
                assert(i == j);
                assert(members[k][x] == members[l][y]);
            }
            if ranges[k].0 + ranges[k].1 == ranges[l].0 {
                assert(runs[k].start + runs[k].len == runs[l].start);
                assert(runs[k].len == cap);
                assert(range_fits(mem_virtual_size, ranges[k]));
            }
        }
        assert forall|k: int, l: int|
            #![trigger ranges[k], ranges[l]]
            0 <= k < l < ranges.len() implies touched_before(list, ranges[k], ranges[l]) by {
            assert(members[k].len() == runs[k].len);
            assert(starts_before(members[k], members[l]));
            let x = choose|x: int|
                0 <= x < members[k].len() && precedes(#[trigger] members[k][x], members[l]);
            let i = members[k][x];
            assert(list[i] == (runs[k].start + x) * 4096);
            assert(holds_listed(list, ranges[k], i));
            assert forall|j: int| #[trigger] holds_listed(list, ranges[l], j) implies i < j by {
                assert(is_member(members, j));
                let (n, y) = choose|n: int, y: int|
                    0 <= n < members.len() && 0 <= y < members[n].len() && #[trigger] members[n][y]
                        == j;
                assert(members[n].len() == runs[n].len) by {
                    assert(1 <= runs[n].len <= cap);
                }
                assert(list[j] == (runs[n].start + y) * 4096);
                assert(byte_of(ranges[n], list[j] as int));
                if n != l {
                    assert(!ranges_share_a_byte(ranges[n], ranges[l]));
                    assert(byte_of(ranges[n], list[j] as int) && byte_of(
                        ranges[l],
                        list[j] as int,
                    ));
                }
                assert(i < members[l][y]);
            }
        }
    }
}

} // verus!
