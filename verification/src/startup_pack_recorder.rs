//! First-touch page recorder for the startup memory pack.
//!
//! Attached to a block device while a throwaway VM re-resumes a freshly
//! captured snapshot. Every read submitted to the device marks its pages in a
//! bitmap; a page that was not marked yet is appended to the ordered
//! first-touch log. Completion latency feeds a heuristic remote-bytes estimate
//! reported in the recording log: local reads and cache hits take about 0.1 ms
//! while a remote refill takes about 20 ms, so a slow read that touched new
//! pages is treated as remote-served.
//!
//! Times are nanoseconds since the recorder was armed.
use vstd::prelude::*;
use crate::extents::div_ceil;
use crate::page_offset::PACK_PAGE_BYTES;
use crate::plan_lemmas::lemma_pigeonhole;
use crate::startup_pack::{
    TraceError, encode_trace, law_decode_encoded_trace, parse_trace, trace_bytes, trace_error,
};

verus! {

/// Bitmap coverage cap: 16 GiB of device space (512 KiB of bitmap words).
/// Pages above it are counted but never recorded.
pub const BITMAP_MAX_PAGES: u64 = 4194304;

/// A read slower than this was almost certainly served by a remote fetch
/// (10 ms).
pub const REMOTE_LATENCY_NANOS: u128 = 10000000;

/// Decision returned by [`StartupPackRecorder::verdict`] on each daemon tick.
#[derive(Clone, Copy, Debug, PartialEq, Eq)]
pub enum RecordingVerdict {
    Continue,
    /// Window finished; finalize the pack.
    Finish,
    /// Abort the pack (low-quality recording).
    Fail(&'static str),
}

/// Outcome of a successful finalize pass.
#[derive(Clone, Copy, Debug, PartialEq, Eq)]
pub struct FinalizeOutcome {
    pub pages: u32,
    /// Memory bytes covered by the trace.
    pub bytes: u64,
    pub remote_bytes: u64,
    /// Pages above the bitmap coverage cap (never recorded).
    pub skipped_high_pages: u64,
}

/// Why a finalize pass failed.
#[derive(Clone, Copy, Debug, PartialEq, Eq)]
pub enum FinalizeError {
    /// No page was recorded.
    NoPages,
    /// The recorded pages cannot be encoded.
    Trace(TraceError),
    /// The recording was cancelled before the trace was moved into place.
    Cancelled,
}

/// A trace that is encoded but not in place yet.
pub struct PendingTrace {
    pub pages: usize,
    pub trace: Vec<u8>,
}

/// What a recorder has seen.
pub struct Recording {
    pub mem_virtual_size: u64,
    /// Pages that the bitmap covers.
    pub coverage: int,
    /// The most pages that the log holds.
    pub max_pages: usize,
    /// All pages that were read, in the order of their first touch.
    pub touched: Seq<u32>,
    pub skipped_high_pages: u64,
    pub in_flight: i64,
    pub remote_bytes: u64,
    pub first_read_at: Option<u128>,
    /// When the last activity was seen, if any was.
    pub last_activity: Option<u64>,
}

/// Which of the pages `from..to` are not among `seen`, in ascending order.
pub open spec fn fresh_pages(seen: Seq<u32>, from: int, to: int) -> Seq<u32>
    decreases to - from,
{
    if from >= to {
        Seq::empty()
    } else {
        let rest = fresh_pages(seen, from, to - 1);
        if seen.contains((to - 1) as u32) {
            rest
        } else {
            rest.push((to - 1) as u32)
        }
    }
}

/// The first page that a read touches.
pub open spec fn first_page(offset: u64) -> int {
    offset as int / PACK_PAGE_BYTES as int
}

/// The page behind the last one that a read touches.
pub open spec fn end_page(offset: u64, len: usize) -> int {
    (offset + len + PACK_PAGE_BYTES - 1) / PACK_PAGE_BYTES as int
}

pub open spec fn min_int(a: int, b: int) -> int {
    if a < b {
        a
    } else {
        b
    }
}

pub open spec fn max_int(a: int, b: int) -> int {
    if a < b {
        b
    } else {
        a
    }
}

/// A time, cut to 64 bits.
pub open spec fn clamp(nanos: u128) -> u64 {
    if nanos > u64::MAX {
        u64::MAX
    } else {
        nanos as u64
    }
}

/// Pages that the bitmap of a device of this size covers: whole words of 64
/// pages, up to the cap.
pub open spec fn coverage_of(mem_virtual_size: u64) -> int {
    let pages = min_int(
        mem_virtual_size as int / PACK_PAGE_BYTES as int,
        BITMAP_MAX_PAGES as int,
    );
    (pages + 63) / 64 * 64
}

impl Recording {
    /// A recorder that has seen nothing.
    pub open spec fn fresh(mem_virtual_size: u64, max_pages: usize) -> Recording {
        Recording {
            mem_virtual_size,
            coverage: coverage_of(mem_virtual_size),
            max_pages,
            touched: Seq::empty(),
            skipped_high_pages: 0,
            in_flight: 0,
            remote_bytes: 0,
            first_read_at: None,
            last_activity: None,
        }
    }

    /// The pages that a read touches first.
    pub open spec fn new_pages(self, offset: u64, len: usize) -> Seq<u32> {
        fresh_pages(
            self.touched,
            first_page(offset),
            min_int(end_page(offset, len), self.coverage),
        )
    }

    /// The clock of the last activity, moved on to `now`.
    pub open spec fn activity_at(self, now: u128) -> Option<u64> {
        match self.last_activity {
            Some(last) if last >= clamp(now) => Some(last),
            _ => Some(clamp(now)),
        }
    }

    /// Nanoseconds since the last activity, 0 where there was none.
    pub open spec fn idle_at(self, now: u128) -> int {
        match self.last_activity {
            Some(last) => max_int(0, clamp(now) - last),
            None => 0,
        }
    }

    /// After a read of `len` bytes at `offset` was submitted.
    pub open spec fn submitted(self, now: u128, offset: u64, len: usize) -> Recording {
        if len == 0 {
            self
        } else {
            let new = self.new_pages(offset, len);
            let high = max_int(
                0,
                end_page(offset, len) - max_int(first_page(offset), self.coverage),
            );
            Recording {
                touched: self.touched + new,
                skipped_high_pages: self.skipped_high_pages.wrapping_add(high as u64),
                first_read_at: if self.first_read_at is Some {
                    self.first_read_at
                } else {
                    Some(now)
                },
                last_activity: if new.len() > 0 {
                    self.activity_at(now)
                } else {
                    self.last_activity
                },
                ..self
            }
        }
    }

    /// After a read completed.
    pub open spec fn completed(
        self,
        now: u128,
        latency: u128,
        bytes: u64,
        touched_new: bool,
    ) -> Recording {
        Recording {
            in_flight: self.in_flight.wrapping_sub(1),
            remote_bytes: if touched_new && latency >= REMOTE_LATENCY_NANOS {
                self.remote_bytes.wrapping_add(bytes)
            } else {
                self.remote_bytes
            },
            last_activity: self.activity_at(now),
            ..self
        }
    }

    /// The pages of the log: the first that were touched, as many as it holds.
    pub open spec fn logged(self) -> Seq<u32> {
        self.touched.take(min_int(self.touched.len() as int, self.max_pages as int))
    }

    /// The byte offsets of the logged pages.
    pub open spec fn logged_offsets(self) -> Seq<u64> {
        self.logged().map_values(|page: u32| (page * PACK_PAGE_BYTES) as u64)
    }

    /// What the recording window has come to.
    pub open spec fn window(self, now: u128, min: u128, quiet: u128, max: u128) -> RecordingVerdict {
        match self.first_read_at {
            Some(first) => {
                let elapsed = max_int(0, now - first);
                if elapsed < min {
                    RecordingVerdict::Continue
                } else if elapsed >= max {
                    RecordingVerdict::Finish
                } else if self.in_flight == 0 && self.idle_at(now) >= clamp(quiet) {
                    RecordingVerdict::Finish
                } else {
                    RecordingVerdict::Continue
                }
            },
            None => if now >= max {
                RecordingVerdict::Finish
            } else {
                RecordingVerdict::Continue
            },
        }
    }

    /// Why the log cannot be made a trace, if it cannot.
    pub open spec fn finalize_error(self) -> Option<FinalizeError> {
        if self.logged().len() == 0 {
            Some(FinalizeError::NoPages)
        } else {
            match trace_error(self.mem_virtual_size, self.logged_offsets()) {
                Some(e) => Some(FinalizeError::Trace(e)),
                None => None,
            }
        }
    }

    /// The outcome of moving a trace of so many pages into place.
    pub open spec fn outcome(self, pages: int) -> FinalizeOutcome {
        FinalizeOutcome {
            pages: pages as u32,
            bytes: (pages * PACK_PAGE_BYTES) as u64,
            remote_bytes: self.remote_bytes,
            skipped_high_pages: self.skipped_high_pages,
        }
    }
}

pub struct StartupPackRecorder {
    mem_virtual_size: u64,
    bitmap: Vec<u64>,
    log: Vec<u32>,
    max_pages: usize,
    /// Pages ever marked in the bitmap (log may be capped below this).
    total_marked: u64,
    /// Pages above the bitmap coverage cap.
    skipped_high_pages: u64,
    in_flight: i64,
    remote_bytes: u64,
    first_read_at: Option<u128>,
    last_activity: Option<u64>,
    touched: Ghost<Seq<u32>>,
}

/// Whether a bit of a word is set.
spec fn bit(word: u64, b: u64) -> bool {
    word & (1u64 << b) != 0
}

/// Whether the bitmap marks a page.
spec fn marks(bitmap: Seq<u64>, page: int) -> bool {
    bit(bitmap[page / 64], (page % 64) as u64)
}

proof fn lemma_set_bit(word: u64, b: u64, c: u64)
    requires
        b < 64,
        c < 64,
    ensures
        bit(word | (1u64 << b), c) == (b == c || bit(word, c)),
{
    assert((word | (1u64 << b)) & (1u64 << c) != 0 <==> (b == c || word & (1u64 << c) != 0))
        by (bit_vector)
        requires
            b < 64,
            c < 64,
    ;
}

proof fn lemma_no_bit(c: u64)
    requires
        c < 64,
    ensures
        !bit(0, c),
{
    assert(0u64 & (1u64 << c) == 0) by (bit_vector);
}

impl View for StartupPackRecorder {
    type V = Recording;

    closed spec fn view(&self) -> Recording {
        Recording {
            mem_virtual_size: self.mem_virtual_size,
            coverage: self.bitmap@.len() as int * 64,
            max_pages: self.max_pages,
            touched: self.touched@,
            skipped_high_pages: self.skipped_high_pages,
            in_flight: self.in_flight,
            remote_bytes: self.remote_bytes,
            first_read_at: self.first_read_at,
            last_activity: self.last_activity,
        }
    }
}

impl StartupPackRecorder {
    /// The bitmap marks exactly the touched pages, each of which was touched
    /// once, and the log holds the first of them.
    pub closed spec fn wf(self) -> bool {
        &&& self.bitmap@.len() <= 65536
        &&& self.bitmap@.len() * 64 == coverage_of(self.mem_virtual_size)
        &&& self.touched@.no_duplicates()
        &&& forall|i: int|
            0 <= i < self.touched@.len() ==> #[trigger] self.touched@[i] < self.bitmap@.len() * 64
        &&& forall|page: int|
            0 <= page < self.bitmap@.len() * 64 ==> (#[trigger] marks(self.bitmap@, page)
                <==> self.touched@.contains(page as u32))
        &&& self.total_marked == self.touched@.len()
        &&& self.log@ == self@.logged()
    }

    /// A recorder covers what its image asks for. Every touched page is one
    /// that it covers, and none is recorded twice.
    pub proof fn law_recorder_coverage(self)
        requires
            self.wf(),
        ensures
            self@.coverage == coverage_of(self@.mem_virtual_size),
            self@.touched.no_duplicates(),
            forall|page: u32| #[trigger]
                self@.touched.contains(page) ==> page < self@.coverage,
    {
        assert forall|page: u32| #[trigger] self@.touched.contains(page) implies page
            < self@.coverage by {
            let i = choose|i: int| 0 <= i < self.touched@.len() && self.touched@[i] == page;
            assert(self.touched@[i] < self.bitmap@.len() * 64);
        }
    }

    pub fn new(mem_virtual_size: u64, max_pages: usize) -> (recorder: Self)
        ensures
            recorder.wf(),
            recorder@ == Recording::fresh(mem_virtual_size, max_pages),
    {
        let mut bitmap_pages: u64 = mem_virtual_size / PACK_PAGE_BYTES;
        if bitmap_pages > BITMAP_MAX_PAGES {
            bitmap_pages = BITMAP_MAX_PAGES;
        }
        let words: usize = ((bitmap_pages + 63) / 64) as usize;
        let mut bitmap: Vec<u64> = Vec::new();
        let mut i: usize = 0;
        while i < words
            invariant
                i <= words,
                bitmap@.len() == i,
                forall|k: int| 0 <= k < i ==> #[trigger] bitmap@[k] == 0,
            decreases words - i,
        {
            bitmap.push(0);
            i = i + 1;
        }
        let recorder: StartupPackRecorder = StartupPackRecorder {
            mem_virtual_size,
            bitmap,
            log: Vec::new(),
            max_pages,
            total_marked: 0,
            skipped_high_pages: 0,
            in_flight: 0,
            remote_bytes: 0,
            first_read_at: None,
            last_activity: None,
            touched: Ghost(Seq::empty()),
        };
        proof {
            assert(recorder.log@ =~= recorder@.logged());
            assert forall|page: int| 0 <= page < recorder.bitmap@.len() * 64 implies (
            #[trigger] marks(recorder.bitmap@, page) <==> recorder.touched@.contains(
                page as u32,
            )) by {
                lemma_no_bit((page % 64) as u64);
                assert(recorder.bitmap@[page / 64] == 0);
            }
        }
        recorder
    }

    /// Moves the clock of the last activity on.
    fn touch_activity(&mut self, now: u128)
        ensures
            *final(self) == (StartupPackRecorder {
                last_activity: old(self)@.activity_at(now),
                ..*old(self)
            }),
    {
        let nanos: u64 = clamp_nanos(now);
        match self.last_activity {
            Some(last) => {
                if nanos > last {
                    self.last_activity = Some(nanos);
                }
            },
            None => {
                self.last_activity = Some(nanos);
            },
        }
    }

    /// Nanoseconds since the last observed activity (0 when never active).
    fn idle_nanos(&self, now: u128) -> (idle: u64)
        ensures
            idle == self@.idle_at(now),
            self@.last_activity is None ==> idle == 0,
    {
        match self.last_activity {
            Some(last) => clamp_nanos(now).saturating_sub(last),
            None => 0,
        }
    }

    /// Marks the pages `from..to`, and answers with those that were not marked
    /// yet.
    fn mark_pages(&mut self, from: u64, to: u64) -> (new_pages: Vec<u32>)
        requires
            old(self).bitmap@.len() <= 65536,
            to <= old(self).bitmap@.len() * 64,
            forall|page: int|
                0 <= page < old(self).bitmap@.len() * 64 ==> (#[trigger] marks(
                    old(self).bitmap@,
                    page,
                ) <==> old(self).touched@.contains(page as u32)),
        ensures
            new_pages@ == fresh_pages(old(self).touched@, from as int, to as int),
            *final(self) == (StartupPackRecorder { bitmap: final(self).bitmap, ..*old(self) }),
            final(self).bitmap@.len() == old(self).bitmap@.len(),
            forall|page: int|
                0 <= page < final(self).bitmap@.len() * 64 ==> (#[trigger] marks(
                    final(self).bitmap@,
                    page,
                ) <==> old(self).touched@.contains(page as u32) || from <= page < to),
    {
        let ghost before = *self;
        let mut new_pages: Vec<u32> = Vec::new();
        let mut page: u64 = from;
        while page < to
            invariant
                from <= page,
                page <= to || page == from,
                to <= self.bitmap@.len() * 64,
                self.bitmap@.len() <= 65536,
                self.bitmap@.len() == before.bitmap@.len(),
                *self == (StartupPackRecorder { bitmap: self.bitmap, ..before }),
                new_pages@ == fresh_pages(before.touched@, from as int, page as int),
                forall|q: int|
                    0 <= q < self.bitmap@.len() * 64 ==> (#[trigger] marks(self.bitmap@, q)
                        <==> before.touched@.contains(q as u32) || from <= q < page),
            decreases to - page,
        {
            let at: usize = (page / 64) as usize;
            let b: u64 = page % 64;
            let word: u64 = self.bitmap[at];
            let ghost old_map = self.bitmap@;
            assert(marks(old_map, page as int) == bit(word, b));
            let mask: u64 = 1u64 << b;
            if word & mask == 0 {
                new_pages.push(page as u32);
            }
            self.bitmap[at] = word | mask;
            proof {
                assert forall|q: int| 0 <= q < self.bitmap@.len() * 64 implies (#[trigger] marks(
                    self.bitmap@,
                    q,
                ) <==> before.touched@.contains(q as u32) || from <= q < page + 1) by {
                    assert(marks(old_map, q) <==> before.touched@.contains(q as u32) || from <= q
                        < page);
                    lemma_set_bit(word, b, (q % 64) as u64);
                    if q / 64 == at {
                        assert(q == page <==> q % 64 == b);
                    }
                }
            }
            page = page + 1;
        }
        new_pages
    }

    /// Appends pages to the log, as many as it has room for.
    fn extend_log(&mut self, new_pages: &Vec<u32>)
        ensures
            *final(self) == (StartupPackRecorder { log: final(self).log, ..*old(self) }),
            final(self).log@ == old(self).log@ + new_pages@.take(
                min_int(
                    max_int(0, old(self).max_pages - old(self).log@.len()),
                    new_pages@.len() as int,
                ),
            ),
    {
        let ghost before = *self;
        let remaining: usize = self.max_pages.saturating_sub(self.log.len());
        let take: usize = if remaining < new_pages.len() {
            remaining
        } else {
            new_pages.len()
        };
        assert(self.log@ + new_pages@.take(0) =~= self.log@);
        let mut i: usize = 0;
        while i < take
            invariant
                i <= take <= new_pages@.len(),
                self.log@ == before.log@ + new_pages@.take(i as int),
                *self == (StartupPackRecorder { log: self.log, ..before }),
            decreases take - i,
        {
            self.log.push(new_pages[i]);
            assert(new_pages@.take(i + 1) =~= new_pages@.take(i as int).push(new_pages@[i as int]));
            assert(self.log@ =~= before.log@ + new_pages@.take(i + 1));
            i = i + 1;
        }
    }

    /// Records the pages covered by a read at submission time (the order the
    /// daemon sees requests is close to the guest's fault order). Returns true
    /// when the read marked at least one previously unseen page, so the
    /// completion path can attribute remote latency to new pages only.
    pub fn observe_submit(&mut self, now: u128, offset: u64, len: usize) -> (touched_new: bool)
        requires
            old(self).wf(),
            offset + len <= u64::MAX,
        ensures
            final(self).wf(),
            final(self)@ == old(self)@.submitted(now, offset, len),
            touched_new == (len > 0 && old(self)@.new_pages(offset, len).len() > 0),
    {
        if len == 0 {
            return false;
        }
        let ghost before = *self;
        if self.first_read_at.is_none() {
            self.first_read_at = Some(now);
        }
        let first: u64 = offset / PACK_PAGE_BYTES;
        let end: u64 = div_ceil(offset + len as u64, PACK_PAGE_BYTES);
        let coverage: u64 = self.bitmap.len() as u64 * 64;
        let low_end: u64 = if end < coverage {
            end
        } else {
            coverage
        };
        let high_start: u64 = if first < coverage {
            coverage
        } else {
            first
        };
        if end > high_start {
            self.skipped_high_pages = self.skipped_high_pages.wrapping_add(end - high_start);
        } else {
            assert(self.skipped_high_pages.wrapping_add(0) == self.skipped_high_pages);
        }
        let new_pages: Vec<u32> = self.mark_pages(first, low_end);
        proof {
            lemma_fresh(before.touched@, first as int, low_end as int);
            lemma_touched(before.touched@, new_pages@, coverage as int);
            let all = before.touched@ + new_pages@;
            assert forall|page: int| 0 <= page < self.bitmap@.len() * 64 implies (#[trigger] marks(
                self.bitmap@,
                page,
            ) <==> all.contains(page as u32)) by {
                lemma_contains_concat(before.touched@, new_pages@, page as u32);
                if first <= page < low_end {
                    assert(before.touched@.contains(page as u32) || new_pages@.contains(
                        page as u32,
                    ));
                }
                if new_pages@.contains(page as u32) {
                    let k = choose|k: int| 0 <= k < new_pages@.len() && new_pages@[k]
                        == page as u32;
                    assert(first <= new_pages@[k] < low_end);
                }
            }
        }
        if new_pages.len() == 0 {
            assert(before.touched@ + new_pages@ =~= before.touched@);
            return false;
        }
        self.touched = Ghost(before.touched@ + new_pages@);
        self.total_marked = self.total_marked + new_pages.len() as u64;
        self.extend_log(&new_pages);
        proof {
            let all = self.touched@;
            assert(self.log@ =~= all.take(min_int(all.len() as int, self.max_pages as int)));
        }
        self.touch_activity(now);
        true
    }

    /// Starts tracking one in-flight read. `touched_new` comes from
    /// [`Self::observe_submit`]: a slow completion only feeds the remote-bytes
    /// estimate when the read marked new pages, so re-reads of already
    /// recorded pages never count.
    pub fn read_guard(&mut self, now: u128, bytes: u64, touched_new: bool) -> (guard:
        StartupPackReadGuard)
        requires
            old(self).wf(),
        ensures
            final(self).wf(),
            final(self)@ == (Recording {
                in_flight: old(self)@.in_flight.wrapping_add(1),
                ..old(self)@
            }),
            guard == (StartupPackReadGuard { started: now, bytes, touched_new }),
    {
        let ghost before = *self;
        self.in_flight = self.in_flight.wrapping_add(1);
        assert(self@.logged() == before@.logged());
        StartupPackReadGuard { started: now, bytes, touched_new }
    }

    fn observe_completion(&mut self, now: u128, latency: u128, bytes: u64, touched_new: bool)
        requires
            old(self).wf(),
        ensures
            final(self).wf(),
            final(self)@ == old(self)@.completed(now, latency, bytes, touched_new),
    {
        let ghost before = *self;
        self.in_flight = self.in_flight.wrapping_sub(1);
        if touched_new && latency >= REMOTE_LATENCY_NANOS {
            self.remote_bytes = self.remote_bytes.wrapping_add(bytes);
        }
        self.touch_activity(now);
        assert(self@.logged() == before@.logged());
    }

    /// Window state machine, polled by the daemon tick.
    pub fn verdict(&self, now: u128, min_window: u128, quiet: u128, max_window: u128) -> (verdict:
        RecordingVerdict)
        ensures
            verdict == self@.window(now, min_window, quiet, max_window),
    {
        match self.first_read_at {
            Some(first) => {
                let elapsed: u128 = now.saturating_sub(first);
                if elapsed < min_window {
                    return RecordingVerdict::Continue;
                }
                if elapsed >= max_window {
                    return RecordingVerdict::Finish;
                }
                if self.in_flight == 0 && self.idle_nanos(now) >= clamp_nanos(quiet) {
                    return RecordingVerdict::Finish;
                }
                RecordingVerdict::Continue
            },
            // No read yet: bound the no-show case by the same hard cap.
            None => if now >= max_window {
                RecordingVerdict::Finish
            } else {
                RecordingVerdict::Continue
            },
        }
    }

    pub fn remote_bytes(&self) -> (bytes: u64)
        ensures
            bytes == self@.remote_bytes,
    {
        self.remote_bytes
    }

    /// Pages in the log.
    pub fn page_count(&self) -> (count: usize)
        requires
            self.wf(),
        ensures
            count == self@.logged().len(),
    {
        self.log.len()
    }

    /// Pages ever marked.
    pub fn total_marked(&self) -> (count: u64)
        requires
            self.wf(),
        ensures
            count == self@.touched.len(),
    {
        self.total_marked
    }

    /// Pages above the bitmap coverage cap that were read.
    pub fn skipped_high_pages(&self) -> (count: u64)
        ensures
            count == self@.skipped_high_pages,
    {
        self.skipped_high_pages
    }

    /// Whether a page that the bitmap covers was read.
    pub fn is_marked(&self, page: u32) -> (marked: bool)
        requires
            self.wf(),
            page < self@.coverage,
        ensures
            marked == self@.touched.contains(page),
    {
        let word: u64 = self.bitmap[(page / 64) as usize];
        let b: u64 = (page % 64) as u64;
        assert(marks(self.bitmap@, page as int) == bit(word, b));
        word & (1u64 << b) != 0
    }

    /// The log.
    pub fn ordered_pages(&self) -> (pages: Vec<u32>)
        requires
            self.wf(),
        ensures
            pages@ == self@.logged(),
    {
        let mut pages: Vec<u32> = Vec::new();
        let mut i: usize = 0;
        while i < self.log.len()
            invariant
                i <= self.log@.len(),
                pages@ == self.log@.take(i as int),
            decreases self.log@.len() - i,
        {
            pages.push(self.log[i]);
            assert(self.log@.take(i + 1) =~= self.log@.take(i as int).push(self.log@[i as int]));
            i = i + 1;
        }
        assert(self.log@.take(i as int) =~= self.log@);
        pages
    }

    /// Encodes the recorded first-touch page list as a trace, to be written to
    /// a staging file next to the snapshot artifacts. No page data is read
    /// back: the publisher plans the pages onto the final layer objects
    /// itself.
    pub fn finalize(&self) -> (res: Result<PendingTrace, FinalizeError>)
        requires
            self.wf(),
        ensures
            match self@.finalize_error() {
                Some(e) => res == Err::<PendingTrace, FinalizeError>(e),
                None => {
                    &&& res is Ok
                    &&& res->Ok_0.pages == self@.logged().len()
                    &&& res->Ok_0.pages <= BITMAP_MAX_PAGES
                    &&& res->Ok_0.trace@ == trace_bytes(
                        self@.mem_virtual_size,
                        self@.logged_offsets(),
                    )
                },
            },
    {
        if self.log.len() == 0 {
            return Err(FinalizeError::NoPages);
        }
        let ghost all = self@.logged_offsets();
        let mut offsets: Vec<u64> = Vec::new();
        let mut i: usize = 0;
        while i < self.log.len()
            invariant
                i <= self.log@.len(),
                self.wf(),
                all == self@.logged_offsets(),
                offsets@ == all.take(i as int),
            decreases self.log@.len() - i,
        {
            offsets.push(self.log[i] as u64 * PACK_PAGE_BYTES);
            assert(all.take(i + 1) =~= all.take(i as int).push(all[i as int]));
            i = i + 1;
        }
        assert(all.take(i as int) =~= all);
        proof {
            assert(self.touched@ + Seq::<u32>::empty() =~= self.touched@);
            lemma_touched(self.touched@, Seq::empty(), self@.coverage);
        }
        match encode_trace(self.mem_virtual_size, offsets.as_slice()) {
            Ok(trace) => Ok(PendingTrace { pages: self.log.len(), trace }),
            Err(e) => Err(FinalizeError::Trace(e)),
        }
    }

    /// Whether a staged trace may be moved into place: not when the recording
    /// was `cancelled` meanwhile, so a cancelled trace never lands.
    pub fn publish(&self, pending: &PendingTrace, cancelled: bool) -> (res: Result<
        FinalizeOutcome,
        FinalizeError,
    >)
        requires
            pending.pages <= BITMAP_MAX_PAGES,
        ensures
            res == if cancelled {
                Err::<FinalizeOutcome, FinalizeError>(FinalizeError::Cancelled)
            } else {
                Ok(self@.outcome(pending.pages as int))
            },
    {
        if cancelled {
            return Err(FinalizeError::Cancelled);
        }
        Ok(
            FinalizeOutcome {
                pages: pending.pages as u32,
                bytes: pending.pages as u64 * PACK_PAGE_BYTES,
                remote_bytes: self.remote_bytes(),
                skipped_high_pages: self.skipped_high_pages,
            },
        )
    }
}

/// One in-flight read.
pub struct StartupPackReadGuard {
    pub started: u128,
    pub bytes: u64,
    pub touched_new: bool,
}

impl StartupPackReadGuard {
    /// Settles the completion of the read (in-flight count, latency-based
    /// remote estimate).
    pub fn settle(self, recorder: &mut StartupPackRecorder, now: u128)
        requires
            old(recorder).wf(),
        ensures
            final(recorder).wf(),
            final(recorder)@ == old(recorder)@.completed(
                now,
                max_int(0, now - self.started) as u128,
                self.bytes,
                self.touched_new,
            ),
    {
        let latency: u128 = now.saturating_sub(self.started);
        recorder.observe_completion(now, latency, self.bytes, self.touched_new);
    }
}

/// The bytes ".tmp".
pub open spec fn tmp_suffix() -> Seq<u8> {
    seq![0x2eu8, 0x74u8, 0x6du8, 0x70u8]
}

/// Staging path for one pack output; the daemon's abort cleanup removes it
/// when packaging fails or is cancelled. Paths are byte strings.
pub fn tmp_pack_path(output: &[u8]) -> (tmp: Vec<u8>)
    ensures
        tmp@ == output@ + tmp_suffix(),
{
    let mut tmp: Vec<u8> = vstd::slice::slice_to_vec(output);
    tmp.push(0x2e);
    tmp.push(0x74);
    tmp.push(0x6d);
    tmp.push(0x70);
    assert(tmp@ =~= output@ + tmp_suffix());
    tmp
}

/// A recorder after some reads, each an offset and a length, submitted at some
/// time.
pub open spec fn after_reads(start: Recording, reads: Seq<(u128, u64, usize)>) -> Recording
    decreases reads.len(),
{
    if reads.len() == 0 {
        start
    } else {
        let read = reads.last();
        after_reads(start, reads.drop_last()).submitted(read.0, read.1, read.2)
    }
}

/// Whether a read of `len` bytes at `offset` and a page have a byte in common.
pub open spec fn shares_byte(offset: u64, len: usize, page: int) -> bool {
    len > 0 && page * 4096 < offset + len && offset < (page + 1) * 4096
}

/// Whether a read touches a page.
pub open spec fn read_touches(read: (u128, u64, usize), page: int) -> bool {
    shares_byte(read.1, read.2, page)
}

/// Every page is recorded exactly once, whatever is read: the touched pages are
/// distinct, and they are those pages that the bitmap covers and that some read
/// touches.
pub proof fn law_recorded_exactly_once(
    mem_virtual_size: u64,
    max_pages: usize,
    reads: Seq<(u128, u64, usize)>,
)
    ensures
        ({
            let end = after_reads(Recording::fresh(mem_virtual_size, max_pages), reads);
            &&& end.coverage == coverage_of(mem_virtual_size)
            &&& end.touched.no_duplicates()
            &&& forall|page: u32| #[trigger]
                end.touched.contains(page) <==> page < end.coverage && exists|i: int|
                    0 <= i < reads.len() && read_touches(#[trigger] reads[i], page as int)
        }),
    decreases reads.len(),
{
    let start = Recording::fresh(mem_virtual_size, max_pages);
    let end = after_reads(start, reads);
    if reads.len() > 0 {
        let init = reads.drop_last();
        law_recorded_exactly_once(mem_virtual_size, max_pages, init);
        let mid = after_reads(start, init);
        let (now, offset, len) = reads.last();
        if len > 0 {
            let (from, to) = (first_page(offset), min_int(end_page(offset, len), mid.coverage));
            let new = mid.new_pages(offset, len);
            lemma_fresh(mid.touched, from, to);
            assert forall|i: int| 0 <= i < mid.touched.len() implies #[trigger] mid.touched[i]
                < mid.coverage by {
                assert(mid.touched.contains(mid.touched[i]));
            }
            lemma_touched(mid.touched, new, mid.coverage);
        }
        assert forall|page: u32| #[trigger]
            end.touched.contains(page) <==> page < end.coverage && exists|i: int|
                0 <= i < reads.len() && read_touches(#[trigger] reads[i], page as int) by {
            if len > 0 {
                lemma_contains_concat(mid.touched, mid.new_pages(offset, len), page);
            }
            if end.touched.contains(page) {
                if mid.touched.contains(page) {
                    let i = choose|i: int|
                        0 <= i < init.len() && read_touches(#[trigger] init[i], page as int);
                    assert(read_touches(reads[i], page as int));
                } else {
                    let new = mid.new_pages(offset, len);
                    let k = choose|k: int| 0 <= k < new.len() && new[k] == page;
                    assert(first_page(offset) <= new[k] < min_int(
                        end_page(offset, len),
                        mid.coverage,
                    ));
                    assert(read_touches(reads[reads.len() - 1], page as int));
                }
            }
            if page < end.coverage && exists|i: int|
                0 <= i < reads.len() && read_touches(#[trigger] reads[i], page as int) {
                let i = choose|i: int|
                    0 <= i < reads.len() && read_touches(#[trigger] reads[i], page as int);
                if i < init.len() {
                    assert(read_touches(init[i], page as int));
                    assert(mid.touched.contains(page));
                } else {
                    assert(mid.touched.contains(page) || mid.new_pages(offset, len).contains(page));
                }
            }
        }
    }
}

/// Later reads do not change the order of first touches: what was touched
/// stays in place, and so does what was logged.
pub proof fn law_first_touch_order(start: Recording, reads: Seq<(u128, u64, usize)>)
    ensures
        start.touched.is_prefix_of(after_reads(start, reads).touched),
        start.logged().is_prefix_of(after_reads(start, reads).logged()),
    decreases reads.len(),
{
    if reads.len() > 0 {
        law_first_touch_order(start, reads.drop_last());
    }
}

/// Reading again what was read touches nothing new, and leaves log and clocks
/// as they are.
pub proof fn law_reread_changes_nothing(
    before: Recording,
    first: u128,
    again: u128,
    offset: u64,
    len: usize,
)
    requires
        0 <= before.coverage <= u32::MAX,
    ensures
        ({
            let once = before.submitted(first, offset, len);
            let twice = once.submitted(again, offset, len);
            &&& len > 0 ==> once.new_pages(offset, len).len() == 0
            &&& twice.touched == once.touched
            &&& twice.first_read_at == once.first_read_at
            &&& twice.last_activity == once.last_activity
        }),
{
    if len > 0 {
        let once = before.submitted(first, offset, len);
        let (from, to) = (first_page(offset), min_int(end_page(offset, len), before.coverage));
        lemma_fresh(before.touched, from, to);
        lemma_fresh(once.touched, from, to);
        let again_new = once.new_pages(offset, len);
        if again_new.len() > 0 {
            let p = again_new[0];
            assert(!once.touched.contains(p));
            lemma_contains_concat(before.touched, before.new_pages(offset, len), p);
            assert(before.touched.contains(p) || before.new_pages(offset, len).contains(p));
        }
        assert(once.touched + again_new =~= once.touched);
    }
}

/// A trace decodes to the logged pages, in the order of their first touch.
pub proof fn law_trace_tells_first_touches(recording: Recording)
    requires
        recording.finalize_error() is None,
    ensures
        parse_trace(trace_bytes(recording.mem_virtual_size, recording.logged_offsets())) == Ok::<
            (u64, Seq<u64>),
            TraceError,
        >((recording.mem_virtual_size, recording.logged_offsets())),
{
    law_decode_encoded_trace(recording.mem_virtual_size, recording.logged_offsets());
}

/// Fresh pages lie in the range, are not among those that were seen, stand in
/// ascending order, and leave no page of the range out.
pub proof fn lemma_fresh(seen: Seq<u32>, from: int, to: int)
    requires
        0 <= from,
        to <= u32::MAX,
    ensures
        ({
            let fresh = fresh_pages(seen, from, to);
            &&& forall|i: int|
                0 <= i < fresh.len() ==> from <= #[trigger] fresh[i] < to && !seen.contains(
                    fresh[i],
                )
            &&& forall|i: int, j: int|
                #![trigger fresh[i], fresh[j]]
                0 <= i < j < fresh.len() ==> fresh[i] < fresh[j]
            &&& forall|p: u32|
                from <= p < to ==> seen.contains(p) || #[trigger] fresh.contains(p)
        }),
    decreases to - from,
{
    if from < to {
        lemma_fresh(seen, from, to - 1);
        let rest = fresh_pages(seen, from, to - 1);
        let fresh = fresh_pages(seen, from, to);
        assert forall|p: u32| from <= p < to implies seen.contains(p) || #[trigger] fresh.contains(
            p,
        ) by {
            if !seen.contains(p) {
                if p == to - 1 {
                    assert(fresh[rest.len() as int] == p);
                } else {
                    assert(rest.contains(p));
                    let k = choose|k: int| 0 <= k < rest.len() && rest[k] == p;
                    assert(fresh[k] == p);
                }
            }
        }
    }
}

proof fn lemma_contains_concat(a: Seq<u32>, b: Seq<u32>, x: u32)
    ensures
        (a + b).contains(x) <==> a.contains(x) || b.contains(x),
{
    if a.contains(x) {
        let k = choose|k: int| 0 <= k < a.len() && a[k] == x;
        assert((a + b)[k] == x);
    }
    if b.contains(x) {
        let k = choose|k: int| 0 <= k < b.len() && b[k] == x;
        assert((a + b)[a.len() + k] == x);
    }
    if (a + b).contains(x) {
        let k = choose|k: int| 0 <= k < (a + b).len() && (a + b)[k] == x;
        if k < a.len() {
            assert(a[k] == x);
        } else {
            assert(b[k - a.len()] == x);
        }
    }
}

/// Touched pages and fresh ones together are still distinct, and no more than
/// the bitmap covers.
proof fn lemma_touched(touched: Seq<u32>, new: Seq<u32>, coverage: int)
    requires
        0 <= coverage,
        touched.no_duplicates(),
        forall|i: int| 0 <= i < touched.len() ==> #[trigger] touched[i] < coverage,
        forall|i: int|
            0 <= i < new.len() ==> #[trigger] new[i] < coverage && !touched.contains(new[i]),
        forall|i: int, j: int|
            #![trigger new[i], new[j]]
            0 <= i < j < new.len() ==> new[i] < new[j],
    ensures
        (touched + new).no_duplicates(),
        forall|i: int| 0 <= i < (touched + new).len() ==> #[trigger] (touched + new)[i] < coverage,
        (touched + new).len() <= coverage,
{
    let all = touched + new;
    assert forall|i: int, j: int|
        0 <= i < all.len() && 0 <= j < all.len() && i != j implies all[i] != all[j] by {
        let n = touched.len() as int;
        if i < n && j >= n {
            assert(touched.contains(touched[i]));
            assert(!touched.contains(new[j - n]));
        } else if i >= n && j < n {
            assert(touched.contains(touched[j]));
            assert(!touched.contains(new[i - n]));
        } else if i >= n {
            if i < j {
                assert(new[i - n] < new[j - n]);
            } else {
                assert(new[j - n] < new[i - n]);
            }
        }
    }
    assert forall|i: int| 0 <= i < all.len() implies #[trigger] all[i] < coverage by {
        if i >= touched.len() {
            assert(new[i - touched.len()] < coverage);
        }
    }
    let ints = all.map_values(|p: u32| p as int);
    assert(ints.no_duplicates());
    assert forall|i: int| 0 <= i < ints.len() implies 0 <= #[trigger] ints[i] < coverage by {
        assert(all[i] < coverage);
    }
    lemma_pigeonhole(ints, coverage);
}

/// A time, cut to 64 bits.
fn clamp_nanos(nanos: u128) -> (cut: u64)
    ensures
        cut == clamp(nanos),
{
    if nanos > u64::MAX as u128 {
        u64::MAX
    } else {
        nanos as u64
    }
}

} // verus!
