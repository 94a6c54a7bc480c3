//! Shutdown coordination for detached startup-manifest work. Graceful shutdown
//! first stops new continuations from spawning, then drains the in-flight ones
//! (bounded): their recordings complete and manifests land instead of being
//! canceled outright. Only a drain timeout force-cancels what is left.
use vstd::prelude::*;

verus! {

/// The state of the coordination.
pub struct StartupManifestShutdown {
    stop_new: bool,
    abort: bool,
    in_flight: usize,
}

/// The state as numbers and flags.
pub struct ShutdownState {
    /// No new continuation may be spawned.
    pub stop_new: bool,
    /// What is still in flight was told to cancel.
    pub abort: bool,
    /// Continuations in flight.
    pub in_flight: usize,
}

/// What may happen to the coordination.
pub enum ShutdownEvent {
    /// A continuation starts.
    Begin,
    /// A continuation ends.
    End,
    /// Shutdown is requested.
    Drain,
    /// The drain looks whether it is over; `timed_out` tells whether its time
    /// is.
    Poll { timed_out: bool },
}

/// What a drain does next.
#[derive(Clone, Copy, Debug, PartialEq, Eq)]
pub enum DrainStep {
    /// Wait until a continuation ends or the time is over.
    Wait,
    /// Nothing is in flight any more.
    Drained,
    /// The time is over: those that wait for the abort are to be notified.
    Abort,
}

impl ShutdownState {
    /// Before anything has happened.
    pub open spec fn initial() -> ShutdownState {
        ShutdownState { stop_new: false, abort: false, in_flight: 0 }
    }

    /// The state after one event.
    pub open spec fn step(self, event: ShutdownEvent) -> ShutdownState {
        match event {
            ShutdownEvent::Begin => ShutdownState {
                in_flight: self.in_flight.wrapping_add(1),
                ..self
            },
            ShutdownEvent::End => ShutdownState {
                in_flight: self.in_flight.wrapping_sub(1),
                ..self
            },
            ShutdownEvent::Drain => ShutdownState { stop_new: true, ..self },
            ShutdownEvent::Poll { timed_out } => if timed_out && self.in_flight != 0 {
                ShutdownState { abort: true, ..self }
            } else {
                self
            },
        }
    }

    /// The state after some events.
    pub open spec fn after(self, events: Seq<ShutdownEvent>) -> ShutdownState
        decreases events.len(),
    {
        if events.len() == 0 {
            self
        } else {
            self.after(events.drop_last()).step(events.last())
        }
    }
}

impl View for StartupManifestShutdown {
    type V = ShutdownState;

    closed spec fn view(&self) -> ShutdownState {
        ShutdownState { stop_new: self.stop_new, abort: self.abort, in_flight: self.in_flight }
    }
}

impl StartupManifestShutdown {
    pub fn new() -> (state: Self)
        ensures
            state@ == ShutdownState::initial(),
    {
        StartupManifestShutdown { stop_new: false, abort: false, in_flight: 0 }
    }

    /// Requests shutdown: from now on no new continuation may be spawned.
    pub fn request_drain(&mut self)
        ensures
            final(self)@ == old(self)@.step(ShutdownEvent::Drain),
    {
        self.stop_new = true;
    }

    /// Looks whether the drain is over. What is still in flight once
    /// `timed_out` is set is force-canceled.
    pub fn poll_drain(&mut self, timed_out: bool) -> (step: DrainStep)
        ensures
            final(self)@ == old(self)@.step(ShutdownEvent::Poll { timed_out }),
            step == (if old(self)@.in_flight == 0 {
                DrainStep::Drained
            } else if timed_out {
                DrainStep::Abort
            } else {
                DrainStep::Wait
            }),
    {
        if self.in_flight == 0 {
            DrainStep::Drained
        } else if timed_out {
            self.abort = true;
            DrainStep::Abort
        } else {
            DrainStep::Wait
        }
    }
}

/// True once shutdown was requested: the publish flow must not spawn new
/// startup-manifest continuations after this point.
pub fn startup_manifest_shutdown_requested(state: &StartupManifestShutdown) -> (requested: bool)
    ensures
        requested == state@.stop_new,
{
    state.stop_new
}

/// True once the drain timed out and remaining work was told to cancel.
pub fn startup_manifest_abort_requested(state: &StartupManifestShutdown) -> (requested: bool)
    ensures
        requested == state@.abort,
{
    state.abort
}

/// Counts one in-flight startup-manifest continuation.
pub struct StartupManifestTaskGuard {
    _private: (),
}

impl StartupManifestTaskGuard {
    /// Counts a continuation in.
    pub fn new(state: &mut StartupManifestShutdown) -> (guard: Self)
        ensures
            final(state)@ == old(state)@.step(ShutdownEvent::Begin),
    {
        state.in_flight = state.in_flight.wrapping_add(1);
        StartupManifestTaskGuard { _private: () }
    }

    /// Counts the continuation out. Answers whether it was the last one, so
    /// that those that wait for the drain are to be notified.
    pub fn finish(self, state: &mut StartupManifestShutdown) -> (last: bool)
        ensures
            final(state)@ == old(state)@.step(ShutdownEvent::End),
            last == (old(state)@.in_flight == 1),
    {
        let last: bool = state.in_flight == 1;
        state.in_flight = state.in_flight.wrapping_sub(1);
        last
    }
}

/// Once shutdown was requested it stays requested, and an abort stays one.
pub proof fn law_requests_are_final(state: ShutdownState, events: Seq<ShutdownEvent>)
    ensures
        state.stop_new ==> state.after(events).stop_new,
        state.abort ==> state.after(events).abort,
    decreases events.len(),
{
    if events.len() > 0 {
        law_requests_are_final(state, events.drop_last());
    }
}

/// Whether the drain times out, at some place of the history, while a
/// continuation is in flight.
pub open spec fn times_out(events: Seq<ShutdownEvent>) -> bool {
    exists|i: int|
        0 <= i < events.len() && (#[trigger] events[i]) == (ShutdownEvent::Poll { timed_out: true })
            && ShutdownState::initial().after(events.take(i)).in_flight != 0
}

/// Remaining work is told to cancel exactly where a drain timed out with a
/// continuation in flight: what drains in time is never canceled.
pub proof fn law_abort_only_after_timeout(events: Seq<ShutdownEvent>)
    ensures
        ShutdownState::initial().after(events).abort <==> times_out(events),
    decreases events.len(),
{
    if events.len() > 0 {
        let init = events.drop_last();
        law_abort_only_after_timeout(init);
        if times_out(init) {
            let i = choose|i: int|
                0 <= i < init.len() && (#[trigger] init[i]) == (ShutdownEvent::Poll {
                    timed_out: true,
                }) && ShutdownState::initial().after(init.take(i)).in_flight != 0;
            assert(events[i] == init[i]);
            assert(events.take(i) =~= init.take(i));
        }
        if times_out(events) {
            let i = choose|i: int|
                0 <= i < events.len() && (#[trigger] events[i]) == (ShutdownEvent::Poll {
                    timed_out: true,
                }) && ShutdownState::initial().after(events.take(i)).in_flight != 0;
            if i < init.len() {
                assert(init[i] == events[i]);
                assert(events.take(i) =~= init.take(i));
            } else {
                assert(events.take(i) =~= init);
            }
        }
        if ShutdownState::initial().after(events).abort && !ShutdownState::initial().after(
            init,
        ).abort {
            let last = events.len() - 1;
            assert(events.take(last) =~= init);
            assert(events[last] == (ShutdownEvent::Poll { timed_out: true }));
        }
    }
}

/// Starts minus ends.
pub open spec fn open_tasks(events: Seq<ShutdownEvent>) -> int
    decreases events.len(),
{
    if events.len() == 0 {
        0
    } else {
        open_tasks(events.drop_last()) + match events.last() {
            ShutdownEvent::Begin => 1int,
            ShutdownEvent::End => -1int,
            _ => 0int,
        }
    }
}

/// As long as no more continuations end than have started, and a machine word
/// can count them, the count is that of the continuations in flight.
pub proof fn law_in_flight_counts_open_tasks(events: Seq<ShutdownEvent>)
    requires
        forall|i: int| 0 <= i <= events.len() ==> 0 <= #[trigger] open_tasks(events.take(i))
            <= usize::MAX,
    ensures
        ShutdownState::initial().after(events).in_flight == open_tasks(events),
    decreases events.len(),
{
    assert(events.take(events.len() as int) =~= events);
    assert(0 <= open_tasks(events.take(events.len() as int)) <= usize::MAX);
    if events.len() > 0 {
        let init = events.drop_last();
        assert forall|i: int| 0 <= i <= init.len() implies 0 <= #[trigger] open_tasks(init.take(i))
            <= usize::MAX by {
            assert(init.take(i) =~= events.take(i));
            assert(0 <= open_tasks(events.take(i)) <= usize::MAX);
        }
        law_in_flight_counts_open_tasks(init);
    }
}

} // verus!
