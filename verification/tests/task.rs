use memory_startup::digest::hex_sha256;
use memory_startup::extents::{LayerLayout, PlanError};
use memory_startup::pack_plan::{PackPlan, PlanStats, PlannedBlock, PlannedObject};
use memory_startup::plan_model::{OpenedLayer, ReadOnlyLayerMetadata, Segment, SegmentMapping};
use memory_startup::startup_manifest::{encode_manifest, ManifestError, StartupManifest};
use memory_startup::startup_pack_task::{
    keep_first_error, merge_runs_by_first_need, worker_count, PrefetchError, StartupPackLayer,
    StartupPackPhase, StartupPackSubmission, StartupPackTask, WorkerStep, WorkerStop,
};

fn planned(blocks: Vec<(u16, u32)>, layers: Vec<usize>) -> PackPlan {
    PackPlan {
        objects: layers
            .into_iter()
            .map(|layer| PlannedObject {
                digest: "sha256:x".to_string(),
                size: 1 << 20,
                layer,
            })
            .collect(),
        blocks: blocks
            .into_iter()
            .map(|(object, block_id)| PlannedBlock {
                object,
                block_id,
                metadata: false,
            })
            .collect(),
        stats: PlanStats::default(),
    }
}

#[test]
fn merged_runs_are_delivered_by_earliest_first_need_rank() {
    let mk = |block_id: u32| PlannedBlock {
        object: 0,
        block_id,
        metadata: false,
    };
    // First-need order: block 5, block 1, block 2, block 6. Merging physically
    // adjacent blocks yields run(1,len2) and run(5,len2); delivery must put
    // the run containing the earliest page (5) first.
    let plan = PackPlan {
        objects: vec![PlannedObject {
            digest: "sha256:x".to_string(),
            size: 1 << 20,
            layer: 0,
        }],
        blocks: vec![mk(5), mk(1), mk(2), mk(6)],
        stats: PlanStats::default(),
    };
    let work = merge_runs_by_first_need(&plan);
    assert_eq!(work, vec![(0, 5, 2), (0, 1, 2)]);
}

#[test]
fn runs_stay_in_their_layer_and_under_the_cap() {
    let plan = planned(vec![(1, 7), (0, 8), (0, 7), (1, 8)], vec![3, 2]);
    assert_eq!(
        merge_runs_by_first_need(&plan),
        vec![(2, 7, 2), (3, 7, 2)]
    );
    let plan = planned((0..130).map(|b| (0, b)).collect(), vec![0]);
    assert_eq!(
        merge_runs_by_first_need(&plan),
        vec![(0, 0, 64), (0, 64, 64), (0, 128, 2)]
    );
}

#[test]
fn blocks_that_are_named_twice_are_merged_in_order() {
    // in order 5, 5, 6, 6, 7: a block joins the last run where it continues it
    let plan = planned(vec![(0, 6), (0, 5), (0, 7), (0, 5), (0, 6)], vec![0]);
    let mut work = merge_runs_by_first_need(&plan);
    assert!(work[0] == (0, 5, 2) || work[0] == (0, 6, 2));
    work.sort_unstable();
    assert_eq!(work, vec![(0, 5, 1), (0, 5, 2), (0, 6, 2)]);
}

fn submission(pack_size: u64, index_sha256: String, layers: Vec<u64>) -> StartupPackSubmission {
    StartupPackSubmission {
        task_key: "manifest-1".to_string(),
        pack_size,
        index_sha256,
        mem_virtual_size: 1 << 30,
        layers: layers
            .into_iter()
            .map(|size| StartupPackLayer {
                digest: "sha256:mem".to_string(),
                size,
            })
            .collect(),
        timeout: 30,
    }
}

#[test]
fn task_lifecycle() {
    let mut task = StartupPackTask::new(submission(100, String::new(), vec![1]), 1000);
    assert_eq!(task.phase(), StartupPackPhase::Queued);
    assert_eq!(task.deadline, 1030);
    assert!(!task.is_terminal());
    assert!(!task.fail_if_past_deadline(1029));
    assert_eq!(task.phase(), StartupPackPhase::Queued);
    assert!(task.fail_if_past_deadline(1030));
    assert_eq!(task.phase(), StartupPackPhase::Failed);
    assert!(task.is_terminal());
    // a terminal task must not run, whatever the time
    task.set_phase(StartupPackPhase::Done);
    assert!(task.fail_if_past_deadline(0));
    assert_eq!(task.phase(), StartupPackPhase::Done);
}

#[test]
fn last_holder_abandons_an_unfinished_task() {
    let mut task = StartupPackTask::new(submission(100, String::new(), vec![1]), 0);
    for _ in 0..3 {
        task.retain();
    }
    for _ in 0..3 {
        assert!(!task.release());
    }
    assert!(task.release());
    let mut done = StartupPackTask::new(submission(100, String::new(), vec![1]), 0);
    done.settle(true);
    assert!(!done.release());
}

#[test]
fn outcome_settles_the_phase() {
    let mut task = StartupPackTask::new(submission(100, String::new(), vec![1]), 0);
    task.settle(false);
    assert_eq!(task.phase(), StartupPackPhase::Failed);
    task.cancel();
    assert!(task.is_canceled());
    task.settle(false);
    assert_eq!(task.phase(), StartupPackPhase::Canceled);
    task.settle(true);
    assert_eq!(task.phase(), StartupPackPhase::Done);
}

fn reads(task: &StartupPackTask) -> (u64, u64) {
    let stats = task.stats.snapshot();
    (stats.oss_gets, stats.oss_bytes)
}

#[test]
fn failed_reads_are_counted_without_bytes() {
    // the first read fails
    let mut task = StartupPackTask::new(submission(100, String::new(), vec![1]), 0);
    task.begin();
    task.settle(false);
    assert_eq!(task.phase(), StartupPackPhase::Failed);
    assert_eq!(reads(&task), (1, 0));
    // what the probe turns down is not read any further
    let mut task = StartupPackTask::new(submission(100, String::new(), vec![1]), 0);
    task.begin();
    assert_eq!(
        task.accept_probe(&[0; 64]),
        Err(PrefetchError::NotAManifest)
    );
    assert_eq!(reads(&task), (1, 64));
    // a refill that fails
    let mut task = StartupPackTask::new(submission(100, String::new(), vec![1]), 0);
    assert_eq!(task.dispatch(true, true), Ok(()));
    assert_eq!(reads(&task), (1, 0));
}

#[test]
fn refills_need_a_slot_and_an_open_gate() {
    let mut task = StartupPackTask::new(submission(100, String::new(), vec![1]), 0);
    assert_eq!(task.dispatch(false, true), Err(WorkerStop::SlotsClosed));
    assert_eq!(task.dispatch(false, false), Err(WorkerStop::SlotsClosed));
    assert_eq!(task.dispatch(true, false), Err(WorkerStop::NotAdmitted));
    assert_eq!(reads(&task), (0, 0));
    assert_eq!(task.dispatch(true, true), Ok(()));
    task.receive(4096);
    assert_eq!(reads(&task), (1, 4096));
}

#[test]
fn manifests_are_probed_before_they_are_read() {
    let mut task = StartupPackTask::new(submission(100, String::new(), vec![1]), 0);
    assert_eq!(task.begin(), 64);
    assert_eq!(task.phase(), StartupPackPhase::Running);
    // a read counts when it is issued, its bytes when they arrive
    assert_eq!(reads(&task), (1, 0));
    let mut probe = b"AENVMF01".to_vec();
    probe.resize(64, 7);
    assert_eq!(task.accept_probe(&probe), Ok((64, 36)));
    assert_eq!(reads(&task), (2, 64));
    let body = task.accept_body(&probe, &[9; 36]).unwrap();
    assert_eq!(body.len(), 100);
    assert_eq!(body[63], 7);
    assert_eq!(body[64], 9);
    assert_eq!(reads(&task), (2, 100));
    assert_eq!(
        task.accept_body(&probe, &[9; 35]),
        Err(PrefetchError::ShortManifest {
            expected: 100,
            probe: 64,
            rest: 35
        })
    );
    assert_eq!(
        task.accept_probe(b"AENVPK02"),
        Err(PrefetchError::NotAManifest)
    );
    assert_eq!(task.accept_probe(b"AENV"), Err(PrefetchError::NotAManifest));
    let mut small = StartupPackTask::new(submission(32, String::new(), vec![1]), 0);
    assert_eq!(small.begin(), 32);
    assert_eq!(small.accept_probe(&probe[..32]), Ok((32, 0)));
    assert_eq!(small.accept_body(&probe[..32], &[]), Ok(probe[..32].to_vec()));
}

/// A layer that holds the pages `0..pages` one after the other behind a header
/// of one page, with its index behind them.
fn dense_layer(pages: u64) -> (u64, OpenedLayer) {
    let index_offset = (pages + 1) * 4096;
    let file_size = index_offset + 8192;
    (
        file_size,
        OpenedLayer {
            layout: LayerLayout::Raw { tar_base: 0 },
            metadata: ReadOnlyLayerMetadata {
                index_offset,
                file_size,
            },
        },
    )
}

fn dense_lookup(pages: u64) -> impl Fn(Segment) -> Vec<SegmentMapping> {
    move |segment: Segment| {
        let physical = segment.offset < pages * 8;
        vec![SegmentMapping {
            offset: segment.offset,
            moffset: segment.offset + 8,
            length: segment.length,
            tag: 0,
            physical,
        }]
    }
}

fn manifest() -> StartupManifest {
    StartupManifest {
        mem_virtual_size: 1 << 30,
        prefix_pages: vec![0, 4096],
        ranges: vec![(99 * 4096, 4096), (150 * 4096, 4096)],
    }
}

/// Runs a task on a manifest and one dense layer to its end, and answers with
/// the blocks of the layer that it refilled.
fn run(manifest: &StartupManifest, pages: u64) -> (StartupPackTask, Vec<u64>) {
    let (size, opened) = dense_layer(pages);
    let bytes = encode_manifest(manifest).unwrap();
    let mut task = StartupPackTask::new(
        submission(bytes.len() as u64, hex_sha256(&bytes), vec![size]),
        0,
    );
    let probe = task.begin();
    let (from, len) = task.accept_probe(&bytes[..probe]).expect("probe");
    let rest = &bytes[from as usize..from as usize + len];
    let body = task.accept_body(&bytes[..probe], rest).expect("body");
    let work = task
        .plan_manifest_prefetch(&body, &[opened], dense_lookup(pages))
        .expect("plan");
    let mut cursor = 0;
    let mut blocks: Vec<u64> = vec![];
    loop {
        match task.next_step(true, 1, &work, &mut cursor) {
            WorkerStep::Refill {
                layer,
                start_block,
                len_blocks,
            } => {
                assert_eq!(layer, 0);
                assert_eq!(task.dispatch(true, true), Ok(()));
                let end = (start_block + u64::from(len_blocks)) * (256 << 10);
                task.receive(end.min(size) - start_block * (256 << 10));
                blocks.extend(start_block..start_block + u64::from(len_blocks));
            }
            WorkerStep::Finished => break,
            WorkerStep::Stop(stop) => panic!("stopped: {stop:?}"),
        }
    }
    task.settle(true);
    assert_eq!(task.phase(), StartupPackPhase::Done);
    assert_eq!(reads(&task).0, 2 + work.len() as u64);
    assert!(reads(&task).1 > bytes.len() as u64);
    (task, blocks)
}

#[test]
fn manifest_prefetch_reads_listed_positions() {
    // 200 pages: blocks 0 to 3, of which block 3 holds the index
    let (size, opened) = dense_layer(200);
    let bytes = encode_manifest(&manifest()).unwrap();
    let task = StartupPackTask::new(
        submission(bytes.len() as u64, hex_sha256(&bytes), vec![size]),
        0,
    );
    assert_eq!(
        task.accept_manifest(&bytes),
        Ok(vec![
            (0, 4096),
            (4096, 4096),
            (99 * 4096, 4096),
            (150 * 4096, 4096)
        ])
    );
    let work = task
        .plan_manifest_prefetch(&bytes, &[opened], dense_lookup(200))
        .expect("plan");
    // header block 0 and index block 3 are needed first, then blocks 1 and 2:
    // one run covers them all
    assert_eq!(work, vec![(0, 0, 4)]);
    let (task, blocks) = run(&manifest(), 200);
    assert!(reads(&task).1 > bytes.len() as u64);
    for page in [0u64, 1, 99, 150] {
        let block = (page + 1) * 4096 / (256 << 10);
        assert!(blocks.contains(&block), "page {page} must be prefetched");
    }
}

#[test]
fn manifest_prefetch_consumes_rank_ordered_ranges() {
    // No prefix; ranges in first-touch-rank order (not address order).
    let manifest = StartupManifest {
        mem_virtual_size: 1 << 30,
        prefix_pages: vec![],
        ranges: vec![(150 * 4096, 4096), (0, 8192), (99 * 4096, 4096)],
    };
    let (size, opened) = dense_layer(200);
    let bytes = encode_manifest(&manifest).unwrap();
    let task = StartupPackTask::new(
        submission(bytes.len() as u64, hex_sha256(&bytes), vec![size]),
        0,
    );
    // header (block 0), index (block 3), page 150 (block 2), page 99 (block 1):
    // one run from the block that is needed first
    assert_eq!(
        task.plan_manifest_prefetch(&bytes, &[opened], dense_lookup(200)),
        Ok(vec![(0, 0, 4)])
    );
    let (task, blocks) = run(&manifest, 200);
    assert!(reads(&task).1 > bytes.len() as u64);
    for page in [0u64, 1, 99, 150] {
        let block = (page + 1) * 4096 / (256 << 10);
        assert!(blocks.contains(&block), "page {page} must be prefetched");
    }
}

#[test]
fn manifest_prefetch_hands_out_ranges_in_their_order() {
    let (size, opened) = dense_layer(1000);
    let manifest = StartupManifest {
        mem_virtual_size: 1 << 30,
        prefix_pages: vec![],
        ranges: vec![(700 * 4096, 4096), (0, 8192), (300 * 4096, 8192)],
    };
    let bytes = encode_manifest(&manifest).unwrap();
    let task = StartupPackTask::new(
        submission(bytes.len() as u64, hex_sha256(&bytes), vec![size]),
        0,
    );
    let work = task
        .plan_manifest_prefetch(&bytes, &[opened], dense_lookup(1000))
        .expect("plan");
    // header (block 0), index (block 15), page 700 (block 10), pages 300 and
    // 301 (block 4)
    assert_eq!(work, vec![(0, 0, 1), (0, 15, 1), (0, 10, 1), (0, 4, 1)]);
}

#[test]
fn every_listed_page_is_refilled_once() {
    let (size, opened) = dense_layer(1000);
    let manifest = StartupManifest {
        mem_virtual_size: 1 << 30,
        prefix_pages: vec![77 * 4096, 901 * 4096],
        ranges: vec![(640 * 4096, 130 * 4096), (3 * 4096, 4096), (200 * 4096, 64 * 4096)],
    };
    let bytes = encode_manifest(&manifest).unwrap();
    let task = StartupPackTask::new(
        submission(bytes.len() as u64, hex_sha256(&bytes), vec![size]),
        0,
    );
    let work = task
        .plan_manifest_prefetch(&bytes, &[opened], dense_lookup(1000))
        .expect("plan");
    let pages = [77u64, 901, 3]
        .into_iter()
        .chain(640..770)
        .chain(200..264);
    for page in pages {
        let block = (page + 1) * 4096 / (256 << 10);
        let refills = work
            .iter()
            .filter(|(_, start, len)| *start <= block && block < start + u64::from(*len))
            .count();
        assert_eq!(refills, 1, "page {page}");
    }
}

#[test]
fn manifest_bodies_are_checked_before_use() {
    let bytes = encode_manifest(&manifest()).unwrap();
    let sha = hex_sha256(&bytes);
    let size = bytes.len() as u64;
    let unbound = StartupPackTask::new(submission(size, sha.clone(), vec![]), 0);
    assert_eq!(
        unbound.accept_manifest(&bytes),
        Err(PrefetchError::NoLayers)
    );
    let task = StartupPackTask::new(submission(size, sha.clone(), vec![1]), 0);
    let mut tampered = bytes.clone();
    tampered[40] ^= 0x10;
    assert_eq!(
        task.accept_manifest(&tampered),
        Err(PrefetchError::DigestMismatch)
    );
    // the digest is compared as text
    let shouting = StartupPackTask::new(submission(size, sha.to_uppercase(), vec![1]), 0);
    assert_eq!(
        shouting.accept_manifest(&bytes),
        Err(PrefetchError::DigestMismatch)
    );
    let odd = StartupPackTask::new(submission(size, hex_sha256(&bytes[1..]), vec![1]), 0);
    assert_eq!(
        odd.accept_manifest(&bytes[1..]),
        Err(PrefetchError::Manifest(ManifestError::BadMagic))
    );
    let mut other = submission(size, sha, vec![1]);
    other.mem_virtual_size = 1 << 31;
    let other = StartupPackTask::new(other, 0);
    assert_eq!(
        other.accept_manifest(&bytes),
        Err(PrefetchError::MemSizeMismatch {
            descriptor: 1 << 31,
            header: 1 << 30
        })
    );
    assert_eq!(
        task.accept_manifest_with_digest(&bytes, &"0".repeat(64)),
        Err(PrefetchError::DigestMismatch)
    );
    // an empty layer cannot be planned against
    let (_, opened) = dense_layer(10);
    let hollow = StartupPackTask::new(submission(size, hex_sha256(&bytes), vec![0]), 0);
    assert_eq!(
        hollow.plan_manifest_prefetch(&bytes, &[opened], dense_lookup(10)),
        Err(PrefetchError::Plan(PlanError::EmptyLayer { layer: 0 }))
    );
}

#[test]
fn workers_take_each_item_once() {
    let mut task = StartupPackTask::new(submission(100, String::new(), vec![1]), 0);
    let work = vec![(0, 5, 2), (1, 1, 3)];
    let mut cursor = 0;
    assert_eq!(
        task.next_step(true, 29, &work, &mut cursor),
        WorkerStep::Refill {
            layer: 0,
            start_block: 5,
            len_blocks: 2
        }
    );
    assert_eq!(
        task.next_step(false, 29, &work, &mut cursor),
        WorkerStep::Stop(WorkerStop::ShuttingDown)
    );
    assert_eq!(
        task.next_step(true, 30, &work, &mut cursor),
        WorkerStep::Stop(WorkerStop::TimedOut)
    );
    assert_eq!(
        task.next_step(true, 0, &work, &mut cursor),
        WorkerStep::Refill {
            layer: 1,
            start_block: 1,
            len_blocks: 3
        }
    );
    assert_eq!(
        task.next_step(true, 0, &work, &mut cursor),
        WorkerStep::Finished
    );
    task.cancel();
    assert_eq!(
        task.next_step(true, 30, &work, &mut cursor),
        WorkerStep::Stop(WorkerStop::Canceled)
    );
}

#[test]
fn workers_match_the_work() {
    assert_eq!(worker_count(0), 1);
    assert_eq!(worker_count(1), 1);
    assert_eq!(worker_count(7), 7);
    assert_eq!(worker_count(8), 8);
    assert_eq!(worker_count(900), 8);
}

#[test]
fn the_first_worker_error_is_kept() {
    let first = keep_first_error(None, Ok(()));
    assert_eq!(first, None);
    let first = keep_first_error(first, Err("a"));
    let first = keep_first_error(first, Ok(()));
    let first = keep_first_error(first, Err("b"));
    assert_eq!(first, Some("a"));
}
