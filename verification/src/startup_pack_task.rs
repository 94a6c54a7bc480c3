//! Startup manifest prefetch task: takes one startup manifest (a tiny page
//! list), translates its pages into final-object cache blocks with the same
//! planner the publish side uses, and hands out the runs of blocks to refill
//! (few large requests instead of one per block).
//!
//! The task decides; its caller reads, waits and refills. Times are
//! nanoseconds on the caller's clock.
use vstd::prelude::*;
use crate::extents::PlanError;
use crate::pack_plan::{PackPlan, PlannedBlock, placed};
use crate::runs::{Run, merge_runs, runs_of};
use crate::startup_manifest::{MANIFEST_MAGIC, ManifestError};
use crate::wire::starts_with;

verus! {

/// Concurrent workers for one manifest prefetch.
pub const MANIFEST_WORKERS: usize = 8;

/// Bytes of the first read: enough to tell a manifest from other objects.
pub const PROBE_BYTES: usize = 64;

/// The most blocks of one refill (16 MiB).
pub const RUN_BLOCKS: u64 = 64;

/// One import target of a startup manifest.
#[derive(Clone, Debug, PartialEq, Eq)]
pub struct StartupPackLayer {
    pub digest: String,
    pub size: u64,
}

/// Everything needed to register one startup manifest prefetch.
pub struct StartupPackSubmission {
    /// Dedup identity, bound to the immutable manifest description (its
    /// sha256). Concurrent resumes of the same snapshot share one task.
    pub task_key: String,
    /// The size of the manifest object; the hint avoids a stat probe.
    pub pack_size: u64,
    /// Hex sha256 of the whole manifest body, from the committed record; the
    /// manifest is trusted only after the body matches this digest.
    pub index_sha256: String,
    pub mem_virtual_size: u64,
    /// Import targets in the memory image's bottom-to-top layer order.
    pub layers: Vec<StartupPackLayer>,
    /// Hard bound on queueing plus downloading: a manifest that has not
    /// completed by this point fails, so it can never hold scheduler capacity
    /// forever.
    pub timeout: u128,
}

/// Phase of a startup prefetch task.
#[derive(Clone, Copy, Debug, PartialEq, Eq, Structural)]
pub enum StartupPackPhase {
    Queued,
    Running,
    Done,
    Failed,
    Canceled,
}

/// Per-task accounting.
pub struct StartupPackStats {
    /// Source range reads issued, including retried attempts.
    pub oss_gets: u64,
    /// Bytes received from the source, including retried attempts.
    pub oss_bytes: u64,
}

#[derive(Clone, Copy, Debug, PartialEq, Eq)]
pub struct StartupPackStatsSnapshot {
    pub oss_gets: u64,
    pub oss_bytes: u64,
}

impl StartupPackStats {
    pub fn snapshot(&self) -> (snapshot: StartupPackStatsSnapshot)
        ensures
            snapshot == (StartupPackStatsSnapshot {
                oss_gets: self.oss_gets,
                oss_bytes: self.oss_bytes,
            }),
    {
        StartupPackStatsSnapshot { oss_gets: self.oss_gets, oss_bytes: self.oss_bytes }
    }

    /// After one more read was issued.
    pub open spec fn issued(self) -> StartupPackStats {
        StartupPackStats { oss_gets: self.oss_gets.wrapping_add(1), ..self }
    }

    /// After so many more bytes arrived.
    pub open spec fn received(self, bytes: u64) -> StartupPackStats {
        StartupPackStats { oss_bytes: self.oss_bytes.wrapping_add(bytes), ..self }
    }
}

/// Why a prefetch failed.
#[derive(Clone, Copy, Debug, PartialEq, Eq)]
pub enum PrefetchError {
    /// The object does not start as a startup manifest does.
    NotAManifest,
    /// The reads gave fewer or more bytes than the manifest has.
    ShortManifest { expected: u64, probe: usize, rest: usize },
    /// No layer is bound.
    NoLayers,
    /// The body does not match the committed digest.
    DigestMismatch,
    /// The body is no valid manifest.
    Manifest(ManifestError),
    /// The manifest is for a memory image of another size.
    MemSizeMismatch { descriptor: u64, header: u64 },
    /// The blocks cannot be planned.
    Plan(PlanError),
}

/// Why a worker stops before the work is done.
#[derive(Clone, Copy, Debug, PartialEq, Eq)]
pub enum WorkerStop {
    ShuttingDown,
    Canceled,
    TimedOut,
    /// The block slots are closed.
    SlotsClosed,
    /// The download gate did not admit the refill.
    NotAdmitted,
}

/// What a worker does next.
#[derive(Clone, Copy, Debug, PartialEq, Eq)]
pub enum WorkerStep {
    Stop(WorkerStop),
    /// Nothing is left to do.
    Finished,
    /// Refill `len_blocks` blocks of a layer.
    Refill { layer: usize, start_block: u64, len_blocks: u32 },
}

pub struct StartupPackTask {
    pub task_key: String,
    pub pack_size: u64,
    pub index_sha256: String,
    pub mem_virtual_size: u64,
    pub layers: Vec<StartupPackLayer>,
    pub stats: StartupPackStats,
    pub phase: StartupPackPhase,
    /// Open handle count; the last release of a non-terminal task cancels it.
    pub holders: usize,
    pub canceled: bool,
    pub deadline: u128,
}

/// Whether a phase is one that a task ends in.
pub open spec fn terminal(phase: StartupPackPhase) -> bool {
    phase is Done || phase is Failed || phase is Canceled
}

/// The length of the first read.
pub open spec fn probe_len(pack_size: u64) -> int {
    if pack_size < PROBE_BYTES {
        pack_size as int
    } else {
        PROBE_BYTES as int
    }
}

impl StartupPackTask {
    /// A queued task with one holder.
    pub fn new(submission: StartupPackSubmission, now: u128) -> (task: Self)
        requires
            now + submission.timeout <= u128::MAX,
        ensures
            task == (StartupPackTask {
                task_key: submission.task_key,
                pack_size: submission.pack_size,
                index_sha256: submission.index_sha256,
                mem_virtual_size: submission.mem_virtual_size,
                layers: submission.layers,
                stats: StartupPackStats { oss_gets: 0, oss_bytes: 0 },
                phase: StartupPackPhase::Queued,
                holders: 1,
                canceled: false,
                deadline: (now + submission.timeout) as u128,
            }),
    {
        StartupPackTask {
            task_key: submission.task_key,
            pack_size: submission.pack_size,
            index_sha256: submission.index_sha256,
            mem_virtual_size: submission.mem_virtual_size,
            layers: submission.layers,
            stats: StartupPackStats { oss_gets: 0, oss_bytes: 0 },
            phase: StartupPackPhase::Queued,
            holders: 1,
            canceled: false,
            deadline: now + submission.timeout,
        }
    }

    pub fn phase(&self) -> (phase: StartupPackPhase)
        ensures
            phase == self.phase,
    {
        self.phase
    }

    /// Sets the phase; those that wait for a change are to be notified.
    pub fn set_phase(&mut self, phase: StartupPackPhase)
        ensures
            *final(self) == (StartupPackTask { phase, ..*old(self) }),
    {
        self.phase = phase;
    }

    pub fn is_terminal(&self) -> (is: bool)
        ensures
            is == terminal(self.phase),
    {
        match self.phase {
            StartupPackPhase::Done => true,
            StartupPackPhase::Failed => true,
            StartupPackPhase::Canceled => true,
            StartupPackPhase::Queued => false,
            StartupPackPhase::Running => false,
        }
    }

    pub fn is_canceled(&self) -> (is: bool)
        ensures
            is == self.canceled,
    {
        self.canceled
    }

    /// Marks the task failed when its queue and download deadline has passed.
    /// Returns true when the task is (now) terminal and must not run.
    pub fn fail_if_past_deadline(&mut self, now: u128) -> (must_not_run: bool)
        ensures
            must_not_run == (terminal(old(self).phase) || now >= old(self).deadline),
            *final(self) == if !terminal(old(self).phase) && now >= old(self).deadline {
                StartupPackTask { phase: StartupPackPhase::Failed, ..*old(self) }
            } else {
                *old(self)
            },
    {
        if self.is_terminal() {
            return true;
        }
        if now >= self.deadline {
            self.set_phase(StartupPackPhase::Failed);
            return true;
        }
        false
    }

    /// With one holder more.
    pub open spec fn retained(self) -> StartupPackTask {
        StartupPackTask { holders: self.holders.wrapping_add(1), ..self }
    }

    /// With one holder less.
    pub open spec fn released(self) -> StartupPackTask {
        StartupPackTask { holders: self.holders.wrapping_sub(1), ..self }
    }

    /// Whether the next release leaves a task that has not ended to nobody.
    pub open spec fn abandoned_by_release(self) -> bool {
        self.holders == 1 && !terminal(self.phase)
    }

    /// Adds one holder (a shared device attaching to the same manifest).
    pub fn retain(&mut self)
        ensures
            *final(self) == old(self).retained(),
    {
        self.holders = self.holders.wrapping_add(1);
    }

    /// Drops one holder. Returns true when this was the last holder and the
    /// task was not terminal (the caller cancels and deregisters it).
    pub fn release(&mut self) -> (abandoned: bool)
        ensures
            *final(self) == old(self).released(),
            abandoned == old(self).abandoned_by_release(),
    {
        let last: bool = self.holders == 1;
        self.holders = self.holders.wrapping_sub(1);
        last && !self.is_terminal()
    }

    pub fn cancel(&mut self)
        ensures
            *final(self) == (StartupPackTask { canceled: true, ..*old(self) }),
    {
        self.canceled = true;
    }

    /// Ends the run of a task: done where it succeeded, canceled where it
    /// failed after it was canceled, failed otherwise.
    pub fn settle(&mut self, succeeded: bool)
        ensures
            *final(self) == (StartupPackTask {
                phase: if succeeded {
                    StartupPackPhase::Done
                } else if old(self).canceled {
                    StartupPackPhase::Canceled
                } else {
                    StartupPackPhase::Failed
                },
                ..*old(self)
            }),
            terminal(final(self).phase),
    {
        if succeeded {
            self.set_phase(StartupPackPhase::Done);
        } else if self.is_canceled() {
            self.set_phase(StartupPackPhase::Canceled);
        } else {
            self.set_phase(StartupPackPhase::Failed);
        }
    }

    /// Counts one read that is issued to the source, whatever comes of it.
    fn issue_read(&mut self)
        ensures
            *final(self) == (StartupPackTask { stats: old(self).stats.issued(), ..*old(self) }),
    {
        self.stats.oss_gets = self.stats.oss_gets.wrapping_add(1);
    }

    /// Counts the bytes that a read gave.
    pub fn receive(&mut self, bytes: u64)
        ensures
            *final(self) == (StartupPackTask {
                stats: old(self).stats.received(bytes),
                ..*old(self)
            }),
    {
        self.stats.oss_bytes = self.stats.oss_bytes.wrapping_add(bytes);
    }

    /// Starts to run and issues the first read. Answers with how many bytes to
    /// read from the start of the manifest object: unsupported or corrupt
    /// startup objects are rejected after a tiny read instead of a full
    /// download.
    pub fn begin(&mut self) -> (len: usize)
        ensures
            *final(self) == (StartupPackTask {
                phase: StartupPackPhase::Running,
                stats: old(self).stats.issued(),
                ..*old(self)
            }),
            len == probe_len(old(self).pack_size),
    {
        self.set_phase(StartupPackPhase::Running);
        self.issue_read();
        if self.pack_size < PROBE_BYTES as u64 {
            self.pack_size as usize
        } else {
            PROBE_BYTES
        }
    }

    /// Takes the first bytes of the object. Answers with the offset and the
    /// length of the rest of the body, for which a read is issued next.
    pub fn accept_probe(&mut self, probe: &[u8]) -> (res: Result<(u64, usize), PrefetchError>)
        requires
            old(self).pack_size <= usize::MAX,
        ensures
            *final(self) == (StartupPackTask {
                stats: if res is Ok {
                    old(self).stats.received(probe@.len() as u64).issued()
                } else {
                    old(self).stats.received(probe@.len() as u64)
                },
                ..*old(self)
            }),
            res == if probe@.len() >= 8 && probe@.take(8) == MANIFEST_MAGIC@ {
                let len = probe_len(old(self).pack_size);
                Ok::<(u64, usize), PrefetchError>(
                    (len as u64, (old(self).pack_size - len) as usize),
                )
            } else {
                Err(PrefetchError::NotAManifest)
            },
    {
        self.receive(probe.len() as u64);
        if !starts_with(probe, &MANIFEST_MAGIC) {
            return Err(PrefetchError::NotAManifest);
        }
        self.issue_read();
        let len: u64 = if self.pack_size < PROBE_BYTES as u64 {
            self.pack_size
        } else {
            PROBE_BYTES as u64
        };
        Ok((len, (self.pack_size - len) as usize))
    }

    /// Takes the rest of the body. Answers with the whole manifest.
    pub fn accept_body(&mut self, probe: &[u8], rest: &[u8]) -> (res: Result<
        Vec<u8>,
        PrefetchError,
    >)
        ensures
            *final(self) == (StartupPackTask {
                stats: old(self).stats.received(rest@.len() as u64),
                ..*old(self)
            }),
            if probe_len(old(self).pack_size) + rest@.len() == old(self).pack_size {
                res is Ok && res->Ok_0@ == probe@ + rest@
            } else {
                res == Err::<Vec<u8>, PrefetchError>(
                    PrefetchError::ShortManifest {
                        expected: old(self).pack_size,
                        probe: probe_len(old(self).pack_size) as usize,
                        rest: rest@.len() as usize,
                    },
                )
            },
    {
        self.receive(rest.len() as u64);
        let len: u64 = if self.pack_size < PROBE_BYTES as u64 {
            self.pack_size
        } else {
            PROBE_BYTES as u64
        };
        if rest.len() as u64 != self.pack_size - len {
            return Err(
                PrefetchError::ShortManifest {
                    expected: self.pack_size,
                    probe: len as usize,
                    rest: rest.len(),
                },
            );
        }
        let mut bytes: Vec<u8> = vstd::slice::slice_to_vec(probe);
        let mut tail: Vec<u8> = vstd::slice::slice_to_vec(rest);
        bytes.append(&mut tail);
        Ok(bytes)
    }

    /// What a worker does next, where `cursor` items were handed out.
    pub open spec fn step(
        self,
        running: bool,
        now: u128,
        work: Seq<(usize, u64, u32)>,
        cursor: usize,
    ) -> WorkerStep {
        if !running {
            WorkerStep::Stop(WorkerStop::ShuttingDown)
        } else if self.canceled {
            WorkerStep::Stop(WorkerStop::Canceled)
        } else if now >= self.deadline {
            WorkerStep::Stop(WorkerStop::TimedOut)
        } else if cursor >= work.len() {
            WorkerStep::Finished
        } else {
            let item = work[cursor as int];
            WorkerStep::Refill { layer: item.0, start_block: item.1, len_blocks: item.2 }
        }
    }

    /// What a worker does next: it stops where the scheduler shuts down, the
    /// task is canceled or its time is over, and else takes the next item of
    /// the work list, of which `cursor` tells how much was handed out.
    pub fn next_step(
        &self,
        running: bool,
        now: u128,
        work: &Vec<(usize, u64, u32)>,
        cursor: &mut usize,
    ) -> (step: WorkerStep)
        ensures
            step == self.step(running, now, work@, *old(cursor)),
            *final(cursor) == if step is Stop {
                *old(cursor)
            } else {
                old(cursor).wrapping_add(1)
            },
    {
        if !running {
            return WorkerStep::Stop(WorkerStop::ShuttingDown);
        }
        if self.is_canceled() {
            return WorkerStep::Stop(WorkerStop::Canceled);
        }
        if now >= self.deadline {
            return WorkerStep::Stop(WorkerStop::TimedOut);
        }
        let index: usize = *cursor;
        *cursor = index.wrapping_add(1);
        if index >= work.len() {
            return WorkerStep::Finished;
        }
        let (layer, start_block, len_blocks): (usize, u64, u32) = work[index];
        WorkerStep::Refill { layer, start_block, len_blocks }
    }
}

impl StartupPackTask {
    /// Whether the refill that a worker has taken is dispatched: it needs a
    /// block slot, and the download gate must admit it. A refill that is
    /// dispatched is a read that is issued to the source.
    pub fn dispatch(&mut self, has_slot: bool, admitted: bool) -> (res: Result<(), WorkerStop>)
        ensures
            res == if !has_slot {
                Err::<(), WorkerStop>(WorkerStop::SlotsClosed)
            } else if !admitted {
                Err(WorkerStop::NotAdmitted)
            } else {
                Ok(())
            },
            *final(self) == if res is Ok {
                StartupPackTask { stats: old(self).stats.issued(), ..*old(self) }
            } else {
                *old(self)
            },
    {
        if !has_slot {
            return Err(WorkerStop::SlotsClosed);
        }
        if !admitted {
            return Err(WorkerStop::NotAdmitted);
        }
        self.issue_read();
        Ok(())
    }
}

/// How many workers refill a work list.
pub fn worker_count(work_len: usize) -> (count: usize)
    ensures
        count == if work_len == 0 {
            1
        } else if work_len < MANIFEST_WORKERS {
            work_len as int
        } else {
            MANIFEST_WORKERS as int
        },
{
    if work_len == 0 {
        1
    } else if work_len < MANIFEST_WORKERS {
        work_len
    } else {
        MANIFEST_WORKERS
    }
}

/// Keeps the first error of the workers.
pub fn keep_first_error<E>(first: Option<E>, result: Result<(), E>) -> (kept: Option<E>)
    ensures
        kept == match first {
            Some(e) => Some(e),
            None => match result {
                Ok(()) => None,
                Err(e) => Some(e),
            },
        },
{
    match first {
        Some(e) => Some(e),
        None => match result {
            Ok(()) => None,
            Err(e) => Some(e),
        },
    }
}

/// The planned blocks, each by its layer and its block id, in first-need
/// order.
pub open spec fn block_items(plan: PackPlan) -> Seq<(u64, u64)> {
    plan.blocks@.map_values(
        |b: PlannedBlock| (plan.objects@[b.object as int].layer as u64, b.block_id as u64),
    )
}

/// Runs of blocks as items of a work list.
pub open spec fn work_items(runs: Seq<Run>) -> Seq<(usize, u64, u32)> {
    runs.map_values(|r: Run| (r.group as usize, r.start, r.len as u32))
}

/// Whether a work list holds the planned blocks, merged into runs per layer
/// and in the order of earliest need.
pub open spec fn work_of(plan: PackPlan, work: Seq<(usize, u64, u32)>) -> bool {
    exists|runs: Seq<Run>| #[trigger]
        runs_of(block_items(plan), RUN_BLOCKS as int, runs) && work == work_items(runs)
}

/// Merges the first-need-ordered block plan into per-layer adjacent runs
/// (capped at 64 blocks of 256 KiB, so 16 MiB) so one source read covers a
/// contiguous span. Runs are returned sorted by each run's earliest first-need
/// rank: same runs and request count as physical order, but boot-critical
/// blocks are delivered first.
pub fn merge_runs_by_first_need(plan: &PackPlan) -> (work: Vec<(usize, u64, u32)>)
    requires
        placed(plan.objects@, plan.blocks@),
    ensures
        work_of(*plan, work@),
{
    let ghost all = block_items(*plan);
    let mut items: Vec<(u64, u64)> = Vec::new();
    let mut i: usize = 0;
    while i < plan.blocks.len()
        invariant
            i <= plan.blocks@.len(),
            placed(plan.objects@, plan.blocks@),
            all == block_items(*plan),
            items@ == all.take(i as int),
        decreases plan.blocks@.len() - i,
    {
        assert(plan.blocks@[i as int].object < plan.objects@.len());
        let object: usize = plan.blocks[i].object as usize;
        items.push((plan.objects[object].layer as u64, plan.blocks[i].block_id as u64));
        assert(all.take(i + 1) =~= all.take(i as int).push(all[i as int]));
        i = i + 1;
    }
    assert(all.take(i as int) =~= all);
    let runs: Vec<Run> = merge_runs(&items, RUN_BLOCKS);
    let mut work: Vec<(usize, u64, u32)> = Vec::new();
    let mut k: usize = 0;
    while k < runs.len()
        invariant
            k <= runs@.len(),
            work@ == work_items(runs@).take(k as int),
        decreases runs@.len() - k,
    {
        work.push((runs[k].group as usize, runs[k].start, runs[k].len as u32));
        assert(work_items(runs@).take(k + 1) =~= work_items(runs@).take(k as int).push(
            work_items(runs@)[k as int],
        ));
        k = k + 1;
    }
    assert(work_items(runs@).take(k as int) =~= work_items(runs@));
    work
}

} // verus!
