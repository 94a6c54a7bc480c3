//! Laws on recordings, in bytes, pages and times.
use vstd::prelude::*;
use crate::page_offset::{PageOffsetError, lemma_no_bad_offset};
use crate::startup_pack::{
    TraceError, law_decode_encoded_trace, parse_trace,
};
use crate::startup_pack_recorder::{
    FinalizeError, FinalizeOutcome, PendingTrace, Recording, RecordingVerdict,
    StartupPackReadGuard, StartupPackRecorder, end_page, first_page, lemma_fresh, min_int,
    shares_byte, tmp_pack_path,
};

verus! {

/// A new recorder has seen nothing. It covers every whole page of the image
/// below the page of number 4194304, and no more than it takes to have a
/// multiple of 64 pages.
pub proof fn law_new_recorder(mem_virtual_size: u64, max_pages: usize, recorder: StartupPackRecorder)
    requires
        call_ensures(StartupPackRecorder::new, (mem_virtual_size, max_pages), recorder),
    ensures
        recorder.wf(),
        recorder@.mem_virtual_size == mem_virtual_size,
        recorder@.max_pages == max_pages,
        recorder@.touched.len() == 0,
        recorder@.skipped_high_pages == 0,
        recorder@.in_flight == 0,
        recorder@.remote_bytes == 0,
        recorder@.first_read_at is None,
        recorder@.last_activity is None,
        forall|page: int|
            #![trigger page * 4096]
            0 <= page < 4194304 && page * 4096 + 4096 <= mem_virtual_size ==> page
                < recorder@.coverage,
        recorder@.coverage % 64 == 0,
        recorder@.coverage <= 4194304,
        recorder@.coverage > 0 ==> (recorder@.coverage - 63) * 4096 <= mem_virtual_size,
{
}

/// A read records the pages that it shares a byte with, those that the
/// recorder covers and that no read before it touched, in ascending order, and
/// tells whether there is one. What was touched before stays in place. The
/// time of the first read is that of the first one that is not empty; the last
/// activity moves on to a read that touches a new page, and never back.
pub proof fn law_read_records_the_pages_it_shares_bytes_with(
    recorder: &mut StartupPackRecorder,
    now: u128,
    offset: u64,
    len: usize,
    touched_new: bool,
)
    requires
        old(recorder).wf(),
        offset + len <= u64::MAX,
        call_ensures(
            StartupPackRecorder::observe_submit,
            (recorder, now, offset, len),
            touched_new,
        ),
    ensures
        final(recorder).wf(),
        old(recorder)@.touched.is_prefix_of(final(recorder)@.touched),
        forall|page: u32| #[trigger]
            final(recorder)@.touched.contains(page) <==> old(recorder)@.touched.contains(page) || (
            page < old(recorder)@.coverage && len > 0 && page * 4096 < offset + len && offset < (
            page + 1) * 4096),
        forall|i: int, j: int|
            old(recorder)@.touched.len() <= i < j < final(recorder)@.touched.len() ==> (
            #[trigger] final(recorder)@.touched[i]) < #[trigger] final(recorder)@.touched[j],
        final(recorder)@.touched.no_duplicates(),
        touched_new <==> final(recorder)@.touched.len() > old(recorder)@.touched.len(),
        final(recorder)@.first_read_at == (if old(recorder)@.first_read_at is None && len > 0 {
            Some(now)
        } else {
            old(recorder)@.first_read_at
        }),
        !touched_new ==> final(recorder)@.last_activity == old(recorder)@.last_activity,
        touched_new ==> moved_on(
            old(recorder)@.last_activity,
            final(recorder)@.last_activity,
            now,
        ),
        final(recorder)@.mem_virtual_size == old(recorder)@.mem_virtual_size,
        final(recorder)@.coverage == old(recorder)@.coverage,
        final(recorder)@.max_pages == old(recorder)@.max_pages,
        final(recorder)@.in_flight == old(recorder)@.in_flight,
        final(recorder)@.remote_bytes == old(recorder)@.remote_bytes,
{
    let before = old(recorder)@;
    let after = final(recorder)@;
    old(recorder).law_recorder_coverage();
    final(recorder).law_recorder_coverage();
    if len > 0 {
        let (from, to) = (first_page(offset), min_int(end_page(offset, len), before.coverage));
        let new = before.new_pages(offset, len);
        lemma_fresh(before.touched, from, to);
        assert forall|page: u32| #[trigger]
            after.touched.contains(page) <==> before.touched.contains(page) || (page
            < before.coverage && len > 0 && page * 4096 < offset + len && offset < (page + 1)
            * 4096) by {
            lemma_contains_both(before.touched, new, page);
            if new.contains(page) {
                let k = choose|k: int| 0 <= k < new.len() && new[k] == page;
                assert(from <= new[k] < to);
            }
            if from <= page < to {
                assert(before.touched.contains(page) || new.contains(page));
            }
        }
        assert forall|i: int, j: int|
            before.touched.len() <= i < j < after.touched.len() implies (
        #[trigger] after.touched[i]) < #[trigger] after.touched[j] by {
            let n = before.touched.len();
            assert(new[i - n] < new[j - n]);
        }
    }
}

proof fn lemma_contains_both(a: Seq<u32>, b: Seq<u32>, x: u32)
    ensures
        (a + b).contains(x) <==> a.contains(x) || b.contains(x),
{
    if a.contains(x) {
        let k = choose|k: int| 0 <= k < a.len() && a[k] == x;
        assert((a + b)[k] == x);
    }
    if b.contains(x) {
        let k = choose|k: int| 0 <= k < b.len() && b[k] == x;
        assert((a + b)[a.len() + k] == x);
    }
    if (a + b).contains(x) {
        let k = choose|k: int| 0 <= k < (a + b).len() && (a + b)[k] == x;
        if k < a.len() {
            assert(a[k] == x);
        } else {
            assert(b[k - a.len()] == x);
        }
    }
}

/// Whether a clock of 64 bits was moved on to `now`, and not back.
pub open spec fn moved_on(before: Option<u64>, after: Option<u64>, now: u128) -> bool {
    &&& after is Some
    &&& now <= u64::MAX ==> after->0 >= now
    &&& now > u64::MAX ==> after->0 == u64::MAX
    &&& before matches Some(last) ==> after->0 >= last
    &&& after->0 == now || after == before || after->0 == u64::MAX
}

/// The pages that a read shares a byte with and that the recorder does not
/// cover.
pub open spec fn high_pages(coverage: int, offset: u64, len: usize) -> Set<int> {
    Set::new(|page: int| page >= coverage && shares_byte(offset, len, page))
}

/// A read counts the pages that it shares a byte with and that the recorder
/// does not cover.
pub proof fn law_read_counts_the_pages_not_covered(
    recorder: &mut StartupPackRecorder,
    now: u128,
    offset: u64,
    len: usize,
    touched_new: bool,
)
    requires
        old(recorder).wf(),
        offset + len <= u64::MAX,
        call_ensures(
            StartupPackRecorder::observe_submit,
            (recorder, now, offset, len),
            touched_new,
        ),
        old(recorder)@.skipped_high_pages + high_pages(
            old(recorder)@.coverage,
            offset,
            len,
        ).len() <= u64::MAX,
    ensures
        high_pages(old(recorder)@.coverage, offset, len).finite(),
        final(recorder)@.skipped_high_pages == old(recorder)@.skipped_high_pages + high_pages(
            old(recorder)@.coverage,
            offset,
            len,
        ).len(),
{
    old(recorder).law_recorder_coverage();
    let coverage = old(recorder)@.coverage;
    let high = high_pages(coverage, offset, len);
    let from = if first_page(offset) < coverage {
        coverage
    } else {
        first_page(offset)
    };
    let to = end_page(offset, len);
    if len == 0 {
        assert(high =~= Set::empty());
    } else if from >= to {
        assert(high =~= Set::empty());
    } else {
        assert(high =~= vstd::set_lib::set_int_range(from, to));
        vstd::set_lib::lemma_int_range(from, to);
    }
}

/// The log holds the first pages that were touched, as many as it may hold,
/// in the order of their first touch, and nothing else.
pub proof fn law_log_holds_the_first_touches(recorder: StartupPackRecorder, pages: Vec<u32>)
    requires
        call_ensures(StartupPackRecorder::ordered_pages, (&recorder,), pages),
    ensures
        pages@.is_prefix_of(recorder@.touched),
        pages@.len() <= recorder@.max_pages,
        pages@.len() < recorder@.max_pages ==> pages@ == recorder@.touched,
        pages@ == recorder@.logged(),
        forall|count: usize| #[trigger]
            call_ensures(StartupPackRecorder::page_count, (&recorder,), count) ==> count
                == pages@.len(),
{
    if pages@.len() < recorder@.max_pages {
        assert(pages@ =~= recorder@.touched);
    }
}

/// A read that was counted in is counted out when it completes. A completion
/// moves the last activity on; it adds its bytes to those served remotely
/// exactly where it took ten milliseconds or more and the read touched a new
/// page, and leaves everything else as it is.
pub proof fn law_completion(
    guard: StartupPackReadGuard,
    recorder: &mut StartupPackRecorder,
    now: u128,
)
    requires
        old(recorder).wf(),
        call_ensures(StartupPackReadGuard::settle, (guard, recorder, now), ()),
    ensures
        final(recorder).wf(),
        i64::MIN < old(recorder)@.in_flight ==> final(recorder)@.in_flight
            == old(recorder)@.in_flight - 1,
        moved_on(old(recorder)@.last_activity, final(recorder)@.last_activity, now),
        guard.touched_new && now >= guard.started + 10_000_000 && old(recorder)@.remote_bytes
            + guard.bytes <= u64::MAX ==> final(recorder)@.remote_bytes
            == old(recorder)@.remote_bytes + guard.bytes,
        !guard.touched_new || now < guard.started + 10_000_000 ==> final(recorder)@.remote_bytes
            == old(recorder)@.remote_bytes,
        final(recorder)@.touched == old(recorder)@.touched,
        final(recorder)@.first_read_at == old(recorder)@.first_read_at,
        final(recorder)@.skipped_high_pages == old(recorder)@.skipped_high_pages,
        final(recorder)@.mem_virtual_size == old(recorder)@.mem_virtual_size,
        final(recorder)@.coverage == old(recorder)@.coverage,
        final(recorder)@.max_pages == old(recorder)@.max_pages,
{
}

/// Starting a read counts it in and changes nothing else; the guard keeps when
/// it started, its bytes and whether it touched a new page.
pub proof fn law_read_is_counted_in(
    recorder: &mut StartupPackRecorder,
    now: u128,
    bytes: u64,
    touched_new: bool,
    guard: StartupPackReadGuard,
)
    requires
        old(recorder).wf(),
        call_ensures(StartupPackRecorder::read_guard, (recorder, now, bytes, touched_new), guard),
    ensures
        final(recorder).wf(),
        old(recorder)@.in_flight < i64::MAX ==> final(recorder)@.in_flight
            == old(recorder)@.in_flight + 1,
        final(recorder)@ == (Recording {
            in_flight: final(recorder)@.in_flight,
            ..old(recorder)@
        }),
        guard.started == now,
        guard.bytes == bytes,
        guard.touched_new == touched_new,
{
}

/// Whether two clocks tell the same, one of them `shift` later.
pub open spec fn shifted(a: Option<u64>, b: Option<u64>, shift: int) -> bool {
    match (a, b) {
        (Some(a), Some(b)) => b == a + shift,
        (None, None) => true,
        _ => false,
    }
}

/// Once a first read was seen, the verdict depends on the time since then
/// alone: with the first read, the last activity and the clock moved by the
/// same amount, it is the same.
pub proof fn law_verdict_depends_on_the_time_since_the_first_read(
    a: StartupPackRecorder,
    b: StartupPackRecorder,
    now: u64,
    shift: u64,
    min: u128,
    quiet: u128,
    max: u128,
    verdict_a: RecordingVerdict,
    verdict_b: RecordingVerdict,
)
    requires
        now + shift <= u64::MAX,
        a@.first_read_at is Some,
        b@.first_read_at is Some,
        b@.first_read_at->0 == a@.first_read_at->0 + shift,
        shifted(a@.last_activity, b@.last_activity, shift as int),
        a@.in_flight == b@.in_flight,
        call_ensures(StartupPackRecorder::verdict, (&a, now as u128, min, quiet, max), verdict_a),
        call_ensures(
            StartupPackRecorder::verdict,
            (&b, (now + shift) as u128, min, quiet, max),
            verdict_b,
        ),
    ensures
        verdict_a == verdict_b,
{
}

/// A time on a clock that stops at the largest number of 64 bits.
pub open spec fn on_clock(nanos: u128) -> int {
    if nanos <= 0xffff_ffff_ffff_ffff {
        nanos as int
    } else {
        0xffff_ffff_ffff_ffff
    }
}

/// Whether nothing has happened for the quiet time, on such a clock. No quiet
/// time needs no wait; before any activity none has passed.
pub open spec fn quiet_for(last_activity: Option<u64>, now: u128, quiet: u128) -> bool {
    quiet == 0 || (last_activity matches Some(last) && on_clock(now) >= last + on_clock(quiet))
}

/// Before any read the window ends exactly when the cap on it has passed.
/// After the first read it goes on until the least time has passed since then;
/// from then on it ends once the cap has passed since then, or where no read
/// is in flight and the quiet time has passed since the last activity. While a
/// read is in flight and the cap has not passed, it goes on. No window fails.
pub proof fn law_when_the_window_ends(
    recorder: StartupPackRecorder,
    now: u128,
    min: u128,
    quiet: u128,
    max: u128,
    verdict: RecordingVerdict,
)
    requires
        call_ensures(StartupPackRecorder::verdict, (&recorder, now, min, quiet, max), verdict),
    ensures
        verdict == RecordingVerdict::Continue || verdict == RecordingVerdict::Finish,
        recorder@.first_read_at is None ==> (verdict == RecordingVerdict::Finish <==> now >= max),
        recorder@.first_read_at matches Some(first) ==> {
            let passed = if now < first {
                0
            } else {
                now - first
            };
            &&& passed < min ==> verdict == RecordingVerdict::Continue
            &&& passed >= min && passed >= max ==> verdict == RecordingVerdict::Finish
            &&& passed < max && recorder@.in_flight != 0 ==> verdict == RecordingVerdict::Continue
            &&& min <= passed < max && recorder@.in_flight == 0 ==> (verdict
                == RecordingVerdict::Finish <==> quiet_for(recorder@.last_activity, now, quiet))
        },
{
}

/// A trace tells the log page by page: it decodes to the size of the image and
/// as many offsets as the log has pages, each the byte offset of its page.
pub proof fn law_trace_tells_the_log(
    recorder: StartupPackRecorder,
    pending: PendingTrace,
    i: int,
)
    requires
        recorder.wf(),
        call_ensures(
            StartupPackRecorder::finalize,
            (&recorder,),
            Ok::<PendingTrace, FinalizeError>(pending),
        ),
    ensures
        parse_trace(pending.trace@) is Ok,
        parse_trace(pending.trace@)->Ok_0.0 == recorder@.mem_virtual_size,
        parse_trace(pending.trace@)->Ok_0.1.len() == recorder@.logged().len(),
        0 <= i < recorder@.logged().len() ==> parse_trace(pending.trace@)->Ok_0.1[i]
            == recorder@.logged()[i] * 4096,
        pending.pages == recorder@.logged().len(),
        pending.trace@.len() == 32 + 8 * recorder@.logged().len(),
{
    law_decode_encoded_trace(recorder@.mem_virtual_size, recorder@.logged_offsets());
}

/// A log can be made a trace exactly where it has a page, no more than a trace
/// holds, and each of its pages lies in the image. Without a page the error
/// says so; otherwise the first page that ends past the image is named.
pub proof fn law_when_a_log_becomes_a_trace(
    recorder: StartupPackRecorder,
    res: Result<PendingTrace, FinalizeError>,
    k: int,
)
    requires
        recorder.wf(),
        call_ensures(StartupPackRecorder::finalize, (&recorder,), res),
    ensures
        res is Ok <==> {
            &&& 0 < recorder@.logged().len() <= 1_048_576
            &&& forall|i: int|
                0 <= i < recorder@.logged().len() ==> ((#[trigger] recorder@.logged()[i]) + 1)
                    * 4096 <= recorder@.mem_virtual_size
        },
        recorder@.logged().len() == 0 ==> res == Err::<PendingTrace, FinalizeError>(
            FinalizeError::NoPages,
        ),
        recorder@.logged().len() > 1_048_576 ==> res == Err::<PendingTrace, FinalizeError>(
            FinalizeError::Trace(
                TraceError::TooManyPages { count: recorder@.logged().len() as usize },
            ),
        ),
        0 <= k < recorder@.logged().len() <= 1_048_576 && (recorder@.logged()[k] + 1) * 4096
            > recorder@.mem_virtual_size && (forall|i: int|
            0 <= i < k ==> ((#[trigger] recorder@.logged()[i]) + 1) * 4096
                <= recorder@.mem_virtual_size) ==> res == Err::<PendingTrace, FinalizeError>(
            FinalizeError::Trace(
                TraceError::Offset {
                    offset: (recorder@.logged()[k] * 4096) as u64,
                    error: PageOffsetError::PastEnd,
                },
            ),
        ),
{
    let mem = recorder@.mem_virtual_size;
    let pages = recorder@.logged();
    let offsets = recorder@.logged_offsets();
    assert forall|i: int| 0 <= i < pages.len() implies #[trigger] offsets[i] == pages[i] * 4096 by {
    }
    lemma_no_bad_offset(mem, offsets, 0);
    if res is Ok {
        assert forall|i: int| 0 <= i < pages.len() implies ((#[trigger] pages[i]) + 1) * 4096
            <= mem by {
            assert(offsets[i] == pages[i] * 4096);
        }
    }
    if 0 <= k < pages.len() {
        assert(offsets[k] == pages[k] * 4096);
        if (pages[k] + 1) * 4096 > mem && forall|i: int|
            0 <= i < k ==> ((#[trigger] pages[i]) + 1) * 4096 <= mem {
            lemma_first_past_end(mem, pages, offsets, 0, k);
        }
    }
}

proof fn lemma_first_past_end(mem: u64, pages: Seq<u32>, offsets: Seq<u64>, i: int, k: int)
    requires
        0 <= i <= k < pages.len(),
        offsets.len() == pages.len(),
        forall|j: int| 0 <= j < pages.len() ==> #[trigger] offsets[j] == pages[j] * 4096,
        forall|j: int| 0 <= j < k ==> ((#[trigger] pages[j]) + 1) * 4096 <= mem,
        (pages[k] + 1) * 4096 > mem,
    ensures
        crate::page_offset::first_bad_offset(mem, offsets, i) == Some(
            (offsets[k], PageOffsetError::PastEnd),
        ),
    decreases k - i,
{
    assert(offsets[i] == pages[i] * 4096);
    if i < k {
        assert((pages[i] + 1) * 4096 <= mem);
        lemma_first_past_end(mem, pages, offsets, i + 1, k);
    }
}

/// A staged trace lands exactly where the recording was not cancelled, and the
/// outcome tells its pages, their bytes and what the recorder counted.
pub proof fn law_publish(
    recorder: StartupPackRecorder,
    pending: PendingTrace,
    cancelled: bool,
    res: Result<FinalizeOutcome, FinalizeError>,
)
    requires
        pending.pages <= 4_194_304,
        call_ensures(StartupPackRecorder::publish, (&recorder, &pending, cancelled), res),
    ensures
        res is Ok <==> !cancelled,
        cancelled ==> res->Err_0 == FinalizeError::Cancelled,
        !cancelled ==> {
            &&& res->Ok_0.pages == pending.pages
            &&& res->Ok_0.bytes == pending.pages * 4096
            &&& res->Ok_0.remote_bytes == recorder@.remote_bytes
            &&& res->Ok_0.skipped_high_pages == recorder@.skipped_high_pages
        },
{
}

/// A staging path is the output's path with ".tmp" behind it: different outputs
/// are staged at different paths, and none at its own.
pub proof fn law_staging_paths(a: &[u8], b: &[u8], tmp_a: Vec<u8>, tmp_b: Vec<u8>)
    requires
        call_ensures(tmp_pack_path, (a,), tmp_a),
        call_ensures(tmp_pack_path, (b,), tmp_b),
    ensures
        tmp_a@.len() == a@.len() + 4,
        tmp_a@.take(a@.len() as int) == a@,
        tmp_a@[a@.len() as int] == 0x2e,
        tmp_a@[a@.len() as int + 1] == 0x74,
        tmp_a@[a@.len() as int + 2] == 0x6d,
        tmp_a@[a@.len() as int + 3] == 0x70,
        a@ != b@ ==> tmp_a@ != tmp_b@,
{
    assert(tmp_a@.take(a@.len() as int) =~= a@);
    assert(tmp_b@.take(b@.len() as int) =~= b@);
}

} // verus!
