use memory_startup::page_offset::{PageOffsetError, PACK_PAGE_BYTES};
use memory_startup::startup_pack::{decode_trace, TraceError};
use memory_startup::startup_pack_recorder::{
    tmp_pack_path, FinalizeError, FinalizeOutcome, RecordingVerdict, StartupPackRecorder,
};

const MILLI: u128 = 1_000_000;
const SECOND: u128 = 1_000_000_000;

#[test]
fn recorder_exactly_once_append_and_first_touch_order() {
    let mut rec = StartupPackRecorder::new(1 << 30, 1024);
    rec.observe_submit(0, 0x4000, 0x2000); // pages 4,5
    rec.observe_submit(1, 0x1000, 0x1000); // page 1
    rec.observe_submit(2, 0x4000, 0x1000); // duplicate: zero appends
    assert_eq!(rec.ordered_pages(), &[4, 5, 1]);
    assert_eq!(rec.page_count(), 3);
}

#[test]
fn recorder_tells_new_pages_from_seen_ones() {
    let mut rec = StartupPackRecorder::new(1 << 30, 1024);
    assert!(rec.observe_submit(0, 0x4000, 0x2000));
    assert!(!rec.observe_submit(1, 0x5000, 0x1000));
    assert!(rec.observe_submit(2, 0x5000, 0x1001));
    assert!(!rec.observe_submit(3, 0x9000, 0));
    assert_eq!(rec.ordered_pages(), &[4, 5, 6]);
    assert_eq!(rec.total_marked(), 3);
}

#[test]
fn finalize_writes_first_touch_trace() {
    let mut rec = StartupPackRecorder::new(1 << 30, 1024);
    rec.observe_submit(0, 0x4000, 0x2000); // pages 4,5
    rec.observe_submit(0, 0x1000, 0x1000); // page 1
    let pending = rec.finalize().expect("finalize");
    let outcome = rec.publish(&pending, false).expect("publish");
    assert_eq!(outcome.pages, 3);
    assert_eq!(outcome.bytes, 3 * PACK_PAGE_BYTES);
    let (mem_vsize, offsets) = decode_trace(&pending.trace).expect("decode trace");
    assert_eq!(mem_vsize, 1 << 30);
    assert_eq!(offsets, vec![0x4000, 0x5000, 0x1000]);
}

#[test]
fn finalize_cancelled_leaves_no_trace() {
    let mut rec = StartupPackRecorder::new(1 << 30, 1024);
    rec.observe_submit(0, 0, 0x1000);
    let pending = rec.finalize().expect("finalize");
    assert_eq!(rec.publish(&pending, true), Err(FinalizeError::Cancelled));
}

#[test]
fn finalize_without_pages_fails() {
    let rec = StartupPackRecorder::new(1 << 30, 1024);
    assert_eq!(rec.finalize().err(), Some(FinalizeError::NoPages));
}

#[test]
fn finalize_refuses_pages_past_the_image() {
    // the last bitmap word covers pages past the end of the image
    let mut rec = StartupPackRecorder::new(3 * PACK_PAGE_BYTES, 1024);
    rec.observe_submit(0, 3 * PACK_PAGE_BYTES, 1);
    assert_eq!(
        rec.finalize().err(),
        Some(FinalizeError::Trace(TraceError::Offset {
            offset: 3 * PACK_PAGE_BYTES,
            error: PageOffsetError::PastEnd
        }))
    );
}

#[test]
fn recorder_covers_unaligned_reads_page_granular() {
    let mut rec = StartupPackRecorder::new(1 << 30, 1024);
    rec.observe_submit(0, 0x1800, 0x1000); // spans pages 1 and 2
    assert!(rec.is_marked(1));
    assert!(rec.is_marked(2));
    assert!(!rec.is_marked(3));
    assert_eq!(rec.ordered_pages(), &[1, 2]);
}

#[test]
fn recorder_caps_log_but_keeps_marking() {
    let mut rec = StartupPackRecorder::new(1 << 30, 2);
    rec.observe_submit(0, 0, 0x3000); // 3 pages, log capacity 2
    assert_eq!(rec.page_count(), 2);
    assert!(rec.is_marked(2));
    assert_eq!(rec.total_marked(), 3);
}

#[test]
fn recorder_counts_pages_above_its_coverage() {
    // 16 GiB and more: the bitmap covers 4194304 pages
    let mut rec = StartupPackRecorder::new(1 << 36, 1024);
    let edge = 4_194_304u64 * PACK_PAGE_BYTES;
    assert!(rec.observe_submit(0, edge - PACK_PAGE_BYTES, 0x3000));
    assert!(!rec.observe_submit(0, edge + 0x10000, 0x1000));
    assert_eq!(rec.skipped_high_pages(), 3);
    assert_eq!(rec.ordered_pages(), &[4_194_303]);
}

#[test]
fn quiet_requires_no_new_pages_and_no_in_flight() {
    let mut rec = StartupPackRecorder::new(1 << 30, 1024);
    rec.observe_submit(0, 0, 0x1000);
    let guard = rec.read_guard(5 * MILLI, 0x1000, true);
    assert_eq!(
        rec.verdict(5 * MILLI, 0, MILLI, 60 * SECOND),
        RecordingVerdict::Continue,
        "in-flight read must suppress quiet"
    );
    guard.settle(&mut rec, 5 * MILLI);
    assert_eq!(
        rec.verdict(5 * MILLI, 0, MILLI, 60 * SECOND),
        RecordingVerdict::Continue
    );
    assert_eq!(
        rec.verdict(10 * MILLI, 0, MILLI, 60 * SECOND),
        RecordingVerdict::Finish,
    );
}

#[test]
fn window_respects_min_max_and_no_read_bounds() {
    let mut rec = StartupPackRecorder::new(1 << 30, 1024);
    // min window not reached
    rec.observe_submit(7, 0, 0x1000);
    assert_eq!(
        rec.verdict(8, 60 * SECOND, 0, 120 * SECOND),
        RecordingVerdict::Continue
    );
    // hard cap
    assert_eq!(rec.verdict(8, 0, 0, 0), RecordingVerdict::Finish);
    // no reads at all + cap elapsed
    let idle = StartupPackRecorder::new(1 << 30, 1024);
    assert_eq!(idle.verdict(1, 0, 0, 0), RecordingVerdict::Finish);
    assert_eq!(idle.verdict(1, 0, 0, 2), RecordingVerdict::Continue);
}

#[test]
fn a_recording_without_activity_is_not_idle() {
    // only pages above the coverage are read: the window is open, but nothing
    // was recorded yet
    let mut rec = StartupPackRecorder::new(1 << 36, 1024);
    let edge = 4_194_304u64 * PACK_PAGE_BYTES;
    assert!(!rec.observe_submit(0, edge, 0x1000));
    assert_eq!(
        rec.verdict(50 * SECOND, 0, MILLI, 60 * SECOND),
        RecordingVerdict::Continue
    );
    assert_eq!(
        rec.verdict(60 * SECOND, 0, MILLI, 60 * SECOND),
        RecordingVerdict::Finish
    );
    // the first recorded page starts the quiet time
    rec.observe_submit(50 * SECOND, 0, 0x1000);
    assert_eq!(
        rec.verdict(50 * SECOND, 0, MILLI, 60 * SECOND),
        RecordingVerdict::Continue
    );
    assert_eq!(
        rec.verdict(50 * SECOND + MILLI, 0, MILLI, 60 * SECOND),
        RecordingVerdict::Finish
    );
}

#[test]
fn slow_first_reads_count_as_remote() {
    let mut rec = StartupPackRecorder::new(1 << 30, 1024);
    let slow = rec.read_guard(0, 100, true);
    let fast = rec.read_guard(0, 1000, true);
    let seen = rec.read_guard(0, 10_000, false);
    fast.settle(&mut rec, 10 * MILLI - 1);
    slow.settle(&mut rec, 10 * MILLI);
    seen.settle(&mut rec, 20 * MILLI);
    assert_eq!(rec.remote_bytes(), 100);
    rec.observe_submit(0, 0, 1);
    let pending = rec.finalize().unwrap();
    assert_eq!(
        rec.publish(&pending, false),
        Ok(FinalizeOutcome {
            pages: 1,
            bytes: 4096,
            remote_bytes: 100,
            skipped_high_pages: 0
        })
    );
}

#[test]
fn staging_paths_end_in_tmp() {
    assert_eq!(
        tmp_pack_path(b"/a/memory-startup.trace"),
        b"/a/memory-startup.trace.tmp".to_vec()
    );
}
