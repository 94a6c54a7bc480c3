//! What holds of every prefetch task.
use vstd::prelude::*;
use crate::startup_pack_task::{StartupPackTask, terminal};

verus! {

impl StartupPackTask {
    /// After `n` more holders have attached.
    pub open spec fn retained_times(self, n: nat) -> StartupPackTask
        decreases n,
    {
        if n == 0 {
            self
        } else {
            self.retained_times((n - 1) as nat).retained()
        }
    }

    /// After `n` holders have let go.
    pub open spec fn released_times(self, n: nat) -> StartupPackTask
        decreases n,
    {
        if n == 0 {
            self
        } else {
            self.released_times((n - 1) as nat).released()
        }
    }

    proof fn lemma_retained_times(self, n: nat)
        requires
            self.holders + n <= usize::MAX,
        ensures
            self.retained_times(n) == (StartupPackTask {
                holders: (self.holders + n) as usize,
                ..self
            }),
        decreases n,
    {
        if n > 0 {
            self.lemma_retained_times((n - 1) as nat);
        }
    }

    proof fn lemma_released_times(self, n: nat)
        requires
            n <= self.holders,
        ensures
            self.released_times(n) == (StartupPackTask {
                holders: (self.holders - n) as usize,
                ..self
            }),
        decreases n,
    {
        if n > 0 {
            self.lemma_released_times((n - 1) as nat);
        }
    }

    /// A task that others share is abandoned by its last release, and by no
    /// release before it.
    pub proof fn law_last_release_abandons(self, shared: nat, k: nat)
        requires
            self.holders == 1,
            !terminal(self.phase),
            shared < usize::MAX,
            k <= shared,
        ensures
            self.retained_times(shared).released_times(k).abandoned_by_release() <==> k == shared,
    {
        self.lemma_retained_times(shared);
        self.retained_times(shared).lemma_released_times(k);
    }

    /// A task that has ended is never abandoned.
    pub proof fn law_ended_task_is_not_abandoned(self, k: nat)
        requires
            terminal(self.phase),
            k <= self.holders,
        ensures
            !self.released_times(k).abandoned_by_release(),
    {
        self.lemma_released_times(k);
    }

    /// No work is handed out once the deadline has passed, the task is canceled
    /// or the scheduler shuts down, whatever is left to do.
    pub proof fn law_stopped_task_hands_out_nothing(
        self,
        running: bool,
        now: u128,
        work: Seq<(usize, u64, u32)>,
        cursor: usize,
    )
        requires
            now >= self.deadline || self.canceled || !running,
        ensures
            self.step(running, now, work, cursor) is Stop,
    {
    }
}

} // verus!
