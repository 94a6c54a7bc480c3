//! Laws on the decisions of a task, over the calls that make them.
use vstd::prelude::*;
use crate::startup_pack_task::{
    PrefetchError, StartupPackPhase, StartupPackSubmission, StartupPackTask, WorkerStep,
    WorkerStop, keep_first_error, worker_count,
};

verus! {

/// A manifest object is read whole, in two parts: a first read of at most 64
/// bytes, and one of all that follows it. The whole is what the two reads gave,
/// one behind the other, where the second one gave as many bytes as it was
/// asked for; otherwise the object is refused. Each read that is issued is
/// counted, and so is each byte that it gave.
pub proof fn law_object_is_read_whole(
    first: &mut StartupPackTask,
    second: &mut StartupPackTask,
    third: &mut StartupPackTask,
    len: usize,
    probe: &[u8],
    next: (u64, usize),
    rest: &[u8],
    res: Result<Vec<u8>, PrefetchError>,
)
    requires
        call_ensures(StartupPackTask::begin, (first,), len),
        *final(first) == *old(second),
        call_ensures(
            StartupPackTask::accept_probe,
            (second, probe),
            Ok::<(u64, usize), PrefetchError>(next),
        ),
        *final(second) == *old(third),
        call_ensures(StartupPackTask::accept_body, (third, probe, rest), res),
        probe@.len() == len,
        old(first).pack_size <= usize::MAX,
        old(first).stats.oss_gets + 2 <= u64::MAX,
        old(first).stats.oss_bytes + probe@.len() + rest@.len() <= u64::MAX,
    ensures
        len <= 64,
        len < 64 ==> len == old(first).pack_size,
        final(first).phase is Running,
        next.0 == len,
        next.0 + next.1 == old(first).pack_size,
        res is Ok <==> rest@.len() == next.1,
        res is Ok ==> res->Ok_0@ == probe@ + rest@ && res->Ok_0@.len() == old(first).pack_size,
        res is Err ==> res->Err_0 == (PrefetchError::ShortManifest {
            expected: old(first).pack_size,
            probe: len,
            rest: rest@.len() as usize,
        }),
        final(first).stats.oss_gets == old(first).stats.oss_gets + 1,
        final(third).stats.oss_gets == old(first).stats.oss_gets + 2,
        final(third).stats.oss_bytes == old(first).stats.oss_bytes + probe@.len() + rest@.len(),
        *final(third) == (StartupPackTask {
            phase: StartupPackPhase::Running,
            stats: final(third).stats,
            ..*old(first)
        }),
{
}

/// The rest of a body is taken exactly where it has all the bytes of the object
/// but the first 64, or none where the object has no more; the whole is then
/// what was read first and the rest behind it.
pub proof fn law_rest_of_a_body(
    task: &mut StartupPackTask,
    probe: &[u8],
    rest: &[u8],
    res: Result<Vec<u8>, PrefetchError>,
)
    requires
        call_ensures(StartupPackTask::accept_body, (task, probe, rest), res),
    ensures
        old(task).pack_size >= 64 ==> (res is Ok <==> rest@.len() == old(task).pack_size - 64),
        old(task).pack_size < 64 ==> (res is Ok <==> rest@.len() == 0),
        res is Ok ==> res->Ok_0@ == probe@ + rest@,
        res is Err ==> res->Err_0 is ShortManifest,
        final(task).stats.oss_gets == old(task).stats.oss_gets,
        *final(task) == (StartupPackTask { stats: final(task).stats, ..*old(task) }),
{
}

/// A first read is taken for that of a manifest exactly where it starts with
/// the bytes "AENVMF01". One that is not refuses the object without a second
/// read.
pub proof fn law_other_objects_are_refused(
    task: &mut StartupPackTask,
    probe: &[u8],
    res: Result<(u64, usize), PrefetchError>,
)
    requires
        old(task).pack_size <= usize::MAX,
        call_ensures(StartupPackTask::accept_probe, (task, probe), res),
    ensures
        res is Ok <==> probe@.len() >= 8 && probe@[0] == 0x41 && probe@[1] == 0x45 && probe@[2]
            == 0x4e && probe@[3] == 0x56 && probe@[4] == 0x4d && probe@[5] == 0x46 && probe@[6]
            == 0x30 && probe@[7] == 0x31,
        res is Err ==> res->Err_0 == PrefetchError::NotAManifest && final(task).stats.oss_gets
            == old(task).stats.oss_gets,
        old(task).stats.oss_bytes + probe@.len() <= u64::MAX ==> final(task).stats.oss_bytes
            == old(task).stats.oss_bytes + probe@.len(),
        *final(task) == (StartupPackTask { stats: final(task).stats, ..*old(task) }),
{
    let magic = crate::startup_manifest::MANIFEST_MAGIC@;
    assert(magic =~= seq![0x41u8, 0x45u8, 0x4eu8, 0x56u8, 0x4du8, 0x46u8, 0x30u8, 0x31u8]);
    if probe@.len() >= 8 {
        let head = probe@.take(8);
        assert(head.len() == 8);
        if head == magic {
            assert(head[0] == magic[0] && head[1] == magic[1] && head[2] == magic[2] && head[3]
                == magic[3] && head[4] == magic[4] && head[5] == magic[5] && head[6] == magic[6]
                && head[7] == magic[7]);
        }
        if probe@[0] == 0x41 && probe@[1] == 0x45 && probe@[2] == 0x4e && probe@[3] == 0x56
            && probe@[4] == 0x4d && probe@[5] == 0x46 && probe@[6] == 0x30 && probe@[7] == 0x31 {
            assert(head =~= magic);
        }
    }
}

/// A new task is queued with one holder, has read nothing and is not canceled.
/// It may run until its timeout has passed since it was submitted, and not from
/// then on: workers stop, and a task that has not ended by then fails.
pub proof fn law_task_runs_until_its_timeout(
    submission: StartupPackSubmission,
    submitted: u128,
    task: StartupPackTask,
    later: &mut StartupPackTask,
    now: u128,
    must_not_run: bool,
    work: Vec<(usize, u64, u32)>,
    cursor: &mut usize,
    step: WorkerStep,
)
    requires
        submitted + submission.timeout <= u128::MAX,
        call_ensures(StartupPackTask::new, (submission, submitted), task),
        *old(later) == task,
        call_ensures(StartupPackTask::fail_if_past_deadline, (later, now), must_not_run),
        call_ensures(StartupPackTask::next_step, (&task, true, now, &work, cursor), step),
    ensures
        task.task_key == submission.task_key,
        task.pack_size == submission.pack_size,
        task.index_sha256 == submission.index_sha256,
        task.mem_virtual_size == submission.mem_virtual_size,
        task.layers == submission.layers,
        task.stats.oss_gets == 0,
        task.stats.oss_bytes == 0,
        task.phase is Queued,
        task.holders == 1,
        !task.canceled,
        must_not_run <==> now >= submitted + submission.timeout,
        must_not_run <==> final(later).phase is Failed,
        !must_not_run ==> final(later).phase is Queued,
        now >= submitted + submission.timeout <==> step == WorkerStep::Stop(WorkerStop::TimedOut),
{
}

/// A task that has ended stays as it is when its deadline passes, and must not
/// run. Another one fails exactly when the deadline has passed.
pub proof fn law_deadline_fails_what_has_not_ended(
    task: &mut StartupPackTask,
    now: u128,
    must_not_run: bool,
    ended: bool,
)
    requires
        call_ensures(StartupPackTask::fail_if_past_deadline, (task, now), must_not_run),
        call_ensures(StartupPackTask::is_terminal, (&*old(task),), ended),
    ensures
        ended <==> !(old(task).phase is Queued) && !(old(task).phase is Running),
        ended ==> must_not_run && *final(task) == *old(task),
        !ended ==> (must_not_run <==> now >= old(task).deadline),
        !ended && must_not_run ==> *final(task) == (StartupPackTask {
            phase: StartupPackPhase::Failed,
            ..*old(task)
        }),
        !must_not_run ==> *final(task) == *old(task),
{
}

/// A holder that attaches and lets go leaves the task as it was. Letting go
/// abandons a task exactly where the holder was the last one and the task has
/// not ended.
pub proof fn law_holders(
    shared: &mut StartupPackTask,
    left: &mut StartupPackTask,
    abandoned: bool,
    ended: bool,
)
    requires
        old(shared).holders < usize::MAX,
        call_ensures(StartupPackTask::retain, (shared,), ()),
        *final(shared) == *old(left),
        call_ensures(StartupPackTask::release, (left,), abandoned),
        call_ensures(StartupPackTask::is_terminal, (&*old(left),), ended),
    ensures
        final(shared).holders == old(shared).holders + 1,
        *final(left) == *old(shared),
        abandoned <==> old(shared).holders == 0 && !ended,
{
}

/// Letting go takes one holder away and nothing else.
pub proof fn law_release(task: &mut StartupPackTask, abandoned: bool)
    requires
        old(task).holders > 0,
        call_ensures(StartupPackTask::release, (task,), abandoned),
    ensures
        final(task).holders == old(task).holders - 1,
        *final(task) == (StartupPackTask { holders: final(task).holders, ..*old(task) }),
        abandoned <==> final(task).holders == 0 && (old(task).phase is Queued || old(
            task,
        ).phase is Running),
{
}

/// A canceled task stops its workers, and where its run then fails it ends as
/// canceled; one that succeeds all the same is done. A run that fails without
/// having been canceled has failed.
pub proof fn law_cancel_and_settle(
    task: &mut StartupPackTask,
    end: &mut StartupPackTask,
    succeeded: bool,
    now: u128,
    work: Vec<(usize, u64, u32)>,
    cursor: &mut usize,
    step: WorkerStep,
)
    requires
        call_ensures(StartupPackTask::cancel, (task,), ()),
        call_ensures(
            StartupPackTask::next_step,
            (&*final(task), true, now, &work, cursor),
            step,
        ),
        call_ensures(StartupPackTask::settle, (end, succeeded), ()),
    ensures
        *final(task) == (StartupPackTask { canceled: true, ..*old(task) }),
        step == WorkerStep::Stop(WorkerStop::Canceled),
        *final(cursor) == *old(cursor),
        final(end).phase is Done <==> succeeded,
        final(end).phase is Canceled <==> !succeeded && old(end).canceled,
        final(end).phase is Failed <==> !succeeded && !old(end).canceled,
        *final(end) == (StartupPackTask { phase: final(end).phase, ..*old(end) }),
{
}

/// While a task may run, its workers take the items of the work list one after
/// the other; behind the last one there is nothing left to do. A worker that
/// stops takes nothing.
pub proof fn law_workers_take_item_by_item(
    task: StartupPackTask,
    running: bool,
    now: u128,
    work: Vec<(usize, u64, u32)>,
    cursor: &mut usize,
    step: WorkerStep,
)
    requires
        call_ensures(StartupPackTask::next_step, (&task, running, now, &work, cursor), step),
    ensures
        step is Stop <==> !running || task.canceled || now >= task.deadline,
        !running ==> step == WorkerStep::Stop(WorkerStop::ShuttingDown),
        running && task.canceled ==> step == WorkerStep::Stop(WorkerStop::Canceled),
        running && !task.canceled && now >= task.deadline ==> step == WorkerStep::Stop(
            WorkerStop::TimedOut,
        ),
        step is Stop ==> *final(cursor) == *old(cursor),
        !(step is Stop) && *old(cursor) < usize::MAX ==> *final(cursor) == *old(cursor) + 1,
        step is Finished <==> !(step is Stop) && *old(cursor) >= work@.len(),
        step matches WorkerStep::Refill { layer, start_block, len_blocks } ==> *old(cursor)
            < work@.len() && work@[*old(cursor) as int] == (layer, start_block, len_blocks),
{
}

/// A refill is dispatched exactly where there is a slot for it and it is
/// admitted, and then counts as a read. A slot that is missing is the reason
/// that is given first.
pub proof fn law_dispatch(
    task: &mut StartupPackTask,
    has_slot: bool,
    admitted: bool,
    res: Result<(), WorkerStop>,
)
    requires
        old(task).stats.oss_gets < u64::MAX,
        call_ensures(StartupPackTask::dispatch, (task, has_slot, admitted), res),
    ensures
        res is Ok <==> has_slot && admitted,
        !has_slot ==> res == Err::<(), WorkerStop>(WorkerStop::SlotsClosed),
        has_slot && !admitted ==> res == Err::<(), WorkerStop>(WorkerStop::NotAdmitted),
        res is Err ==> *final(task) == *old(task),
        res is Ok ==> final(task).stats.oss_gets == old(task).stats.oss_gets + 1
            && final(task).stats.oss_bytes == old(task).stats.oss_bytes && *final(task) == (
        StartupPackTask { stats: final(task).stats, ..*old(task) }),
{
}

/// The bytes of a read are counted, and nothing else changes.
pub proof fn law_receive(task: &mut StartupPackTask, bytes: u64)
    requires
        old(task).stats.oss_bytes + bytes <= u64::MAX,
        call_ensures(StartupPackTask::receive, (task, bytes), ()),
    ensures
        final(task).stats.oss_bytes == old(task).stats.oss_bytes + bytes,
        final(task).stats.oss_gets == old(task).stats.oss_gets,
        *final(task) == (StartupPackTask { stats: final(task).stats, ..*old(task) }),
{
}

/// There are at most eight workers, as many as there are items where these are
/// fewer, and never none.
pub proof fn law_worker_count(work_len: usize, count: usize)
    requires
        call_ensures(worker_count, (work_len,), count),
    ensures
        1 <= count <= 8,
        work_len > 0 ==> count <= work_len,
        count < work_len ==> count == 8,
        work_len == 0 ==> count == 1,
{
}

/// Whether these are the errors kept after each of some results, from none on.
pub open spec fn kept_along<E>(kept: Seq<Option<E>>, results: Seq<Result<(), E>>) -> bool {
    &&& kept.len() == results.len() + 1
    &&& kept[0] is None
    &&& forall|i: int|
        #![trigger results[i]]
        0 <= i < results.len() ==> call_ensures(
            keep_first_error::<E>,
            (kept[i], results[i]),
            kept[i + 1],
        )
}

/// Whatever comes after it, the first error is the one that is kept; where no
/// result is an error, none is kept.
pub proof fn law_first_error_is_kept<E>(
    kept: Seq<Option<E>>,
    results: Seq<Result<(), E>>,
    n: int,
    k: int,
)
    requires
        kept_along(kept, results),
        0 <= n <= results.len(),
    ensures
        kept[n] is None <==> forall|i: int| 0 <= i < n ==> (#[trigger] results[i]) is Ok,
        0 <= k < n && results[k] is Err && (forall|i: int|
            0 <= i < k ==> (#[trigger] results[i]) is Ok) ==> kept[n] == Some(results[k]->Err_0),
    decreases n,
{
    if n > 0 {
        law_first_error_is_kept(kept, results, n - 1, k);
        let last = results[n - 1];
        assert(call_ensures(keep_first_error::<E>, (kept[n - 1], last), kept[n]));
        if forall|i: int| 0 <= i < n - 1 ==> (#[trigger] results[i]) is Ok {
            if last is Ok {
                assert forall|i: int| 0 <= i < n implies (#[trigger] results[i]) is Ok by {}
            }
        }
        if 0 <= k < n && results[k] is Err && (forall|i: int|
            0 <= i < k ==> (#[trigger] results[i]) is Ok) {
            if k == n - 1 {
                assert(kept[n - 1] is None);
            }
        }
    }
}

} // verus!
