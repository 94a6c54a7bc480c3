//! Looking spans up in the merged index.
use vstd::prelude::*;
use crate::plan_model::{
    LOOKUP_SECTORS, SECTOR_BYTES, Segment, SegmentMapping, Stack, flat, lookup_len, lookups,
    parts_answered, range_in_image, range_sectors, segment_in_image, span_answered,
};

verus! {

/// A lookup of a span, as one of a run of sectors.
pub proof fn lemma_lookup(range: (u64, u64), mem_virtual_size: u64, j: int)
    requires
        range_in_image(range, mem_virtual_size),
        0 <= j < lookups(range).len(),
    ensures
        ({
            let segment = lookups(range)[j];
            &&& segment.offset == range.0 as int / SECTOR_BYTES as int + j * LOOKUP_SECTORS
            &&& segment.length == lookup_len(range, j)
            &&& 0 < segment.length <= LOOKUP_SECTORS
            &&& segment_in_image(segment, mem_virtual_size)
        }),
{
    let segment = lookups(range)[j];
    let first = range.0 as int / 512;
    let sectors = range.1 as int / 512;
    assert(j * LOOKUP_SECTORS == 0xFFFF_FFF8 * j);
    assert(0xFFFF_FFF8 * j < sectors);
    assert(first + 0xFFFF_FFF8 * j < u64::MAX);
    assert((segment.offset + segment.length) * SECTOR_BYTES == 512 * segment.offset + 512
        * segment.length);
}

/// A span that 32 bits can count takes one lookup.
pub proof fn lemma_one_lookup(range: (u64, u64), mem_virtual_size: u64)
    requires
        range_in_image(range, mem_virtual_size),
        range_sectors(range) <= u32::MAX,
    ensures
        lookups(range) == seq![
            Segment {
                offset: range.0 / SECTOR_BYTES,
                length: (range.1 / SECTOR_BYTES) as u32,
            },
        ],
{
    assert(range_sectors(range) % 8 == 0);
    assert(0 < range_sectors(range) <= LOOKUP_SECTORS);
    assert(lookups(range).len() == 1);
    assert(lookups(range) =~= seq![
        Segment { offset: range.0 / SECTOR_BYTES, length: (range.1 / SECTOR_BYTES) as u32 },
    ]);
}

impl Stack {
    /// The lookups of a span of the image are lookups in the image.
    pub proof fn lemma_lookups_allowed<F: Fn(Segment) -> Vec<SegmentMapping>>(
        self,
        lookup: F,
        range: (u64, u64),
        mem_virtual_size: u64,
    )
        requires
            self.lookup_ok(lookup, mem_virtual_size),
            range_in_image(range, mem_virtual_size),
        ensures
            forall|j: int|
                0 <= j < lookups(range).len() ==> call_requires(
                    lookup,
                    (#[trigger] lookups(range)[j],),
                ),
    {
        assert forall|j: int| 0 <= j < lookups(range).len() implies call_requires(
            lookup,
            (#[trigger] lookups(range)[j],),
        ) by {
            lemma_lookup(range, mem_virtual_size, j);
        }
    }

    /// What the index answers for a span of the image can be resolved within
    /// 64 bits.
    pub proof fn lemma_span_answer_ok<F: Fn(Segment) -> Vec<SegmentMapping>>(
        self,
        lookup: F,
        range: (u64, u64),
        mem_virtual_size: u64,
        answer: Seq<SegmentMapping>,
    )
        requires
            self.lookup_ok(lookup, mem_virtual_size),
            range_in_image(range, mem_virtual_size),
            span_answered(lookup, range, answer),
        ensures
            self.answer_ok(answer),
    {
        let parts = choose|parts: Seq<Vec<SegmentMapping>>| #[trigger]
            parts_answered(lookup, range, parts) && answer == flat(parts);
        self.lemma_lookups_allowed(lookup, range, mem_virtual_size);
        assert forall|j: int| 0 <= j < parts.len() implies self.answer_ok(
            (#[trigger] parts[j])@,
        ) by {
            lemma_lookup(range, mem_virtual_size, j);
            assert(call_requires(lookup, (lookups(range)[j],)));
            assert(call_ensures(lookup, (lookups(range)[j],), parts[j]));
        }
        self.lemma_flat_answer_ok(parts);
    }

    proof fn lemma_flat_answer_ok(self, parts: Seq<Vec<SegmentMapping>>)
        requires
            forall|j: int| 0 <= j < parts.len() ==> self.answer_ok((#[trigger] parts[j])@),
        ensures
            self.answer_ok(flat(parts)),
        decreases parts.len(),
    {
        if parts.len() > 0 {
            let init = parts.drop_last();
            let all = flat(parts);
            assert forall|j: int| 0 <= j < init.len() implies self.answer_ok(
                (#[trigger] init[j])@,
            ) by {
                assert(init[j] == parts[j]);
            }
            self.lemma_flat_answer_ok(init);
            assert(self.answer_ok(parts[parts.len() - 1]@));
            assert forall|i: int| 0 <= i < all.len() implies self.mapping_ok(
                #[trigger] all[i],
            ) by {
                if i < flat(init).len() {
                    assert(all[i] == flat(init)[i]);
                } else {
                    assert(all[i] == parts.last()@[i - flat(init).len()]);
                }
            }
        }
    }
}

/// Looks the sectors of a span up: with one lookup, or with as many as it takes
/// where the index could not take their number in 32 bits.
pub fn look_up_span<F: Fn(Segment) -> Vec<SegmentMapping>>(
    lookup: &F,
    range: (u64, u64),
) -> (answer: Vec<SegmentMapping>)
    requires
        range.0 + range.1 <= u64::MAX,
        forall|j: int|
            0 <= j < lookups(range).len() ==> call_requires(
                *lookup,
                (#[trigger] lookups(range)[j],),
            ),
    ensures
        span_answered(*lookup, range, answer@),
{
    let first: u64 = range.0 / SECTOR_BYTES;
    let sectors: u64 = range.1 / SECTOR_BYTES;
    let mut answer: Vec<SegmentMapping> = Vec::new();
    let mut done: u64 = 0;
    let ghost mut parts: Seq<Vec<SegmentMapping>> = Seq::empty();
    while done < sectors
        invariant
            first == range.0 / SECTOR_BYTES,
            sectors == range.1 / SECTOR_BYTES,
            range.0 + range.1 <= u64::MAX,
            done <= sectors,
            done == if parts.len() * LOOKUP_SECTORS < sectors {
                parts.len() * LOOKUP_SECTORS
            } else {
                sectors as int
            },
            parts.len() <= lookups(range).len(),
            done == sectors ==> parts.len() == lookups(range).len(),
            forall|j: int|
                0 <= j < lookups(range).len() ==> call_requires(
                    *lookup,
                    (#[trigger] lookups(range)[j],),
                ),
            forall|j: int|
                0 <= j < parts.len() ==> call_ensures(
                    *lookup,
                    (lookups(range)[j],),
                    #[trigger] parts[j],
                ),
            answer@ == flat(parts),
        decreases sectors - done,
    {
        let left: u64 = sectors - done;
        let length: u32 = if left < LOOKUP_SECTORS as u64 {
            left as u32
        } else {
            LOOKUP_SECTORS
        };
        let segment: Segment = Segment { offset: first + done, length };
        let ghost j = parts.len() as int;
        proof {
            assert(j * LOOKUP_SECTORS == 0xFFFF_FFF8 * j);
            assert((j + 1) * LOOKUP_SECTORS == 0xFFFF_FFF8 * j + 0xFFFF_FFF8);
            assert(segment == lookups(range)[j]);
        }
        let mut part: Vec<SegmentMapping> = lookup(segment);
        proof {
            let more = parts.push(part);
            assert(more.drop_last() =~= parts);
            assert forall|k: int| 0 <= k < more.len() implies call_ensures(
                *lookup,
                (lookups(range)[k],),
                #[trigger] more[k],
            ) by {
                if k < j {
                    assert(more[k] == parts[k]);
                }
            }
            parts = more;
        }
        answer.append(&mut part);
        done = done + length as u64;
    }
    assert(parts_answered(*lookup, range, parts));
    answer
}

} // verus!
