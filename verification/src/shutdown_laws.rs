//! Laws on shutdown coordination, over the calls that drive it.
use vstd::prelude::*;
use crate::shutdown::{
    DrainStep, StartupManifestShutdown, StartupManifestTaskGuard, startup_manifest_abort_requested,
    startup_manifest_shutdown_requested,
};

verus! {

/// At first nothing is in flight, and neither shutdown nor an abort is
/// requested.
pub proof fn law_nothing_is_requested_at_first(
    state: StartupManifestShutdown,
    shutdown: bool,
    abort: bool,
)
    requires
        call_ensures(StartupManifestShutdown::new, (), state),
        call_ensures(startup_manifest_shutdown_requested, (&state,), shutdown),
        call_ensures(startup_manifest_abort_requested, (&state,), abort),
    ensures
        !shutdown,
        !abort,
        state@.in_flight == 0,
{
}

/// Requesting a drain stops new continuations from then on. It cancels none,
/// and counts none in or out.
pub proof fn law_drain_stops_new_work_only(
    state: &mut StartupManifestShutdown,
    shutdown: bool,
    abort_before: bool,
    abort: bool,
)
    requires
        call_ensures(startup_manifest_abort_requested, (&*old(state),), abort_before),
        call_ensures(StartupManifestShutdown::request_drain, (state,), ()),
        call_ensures(startup_manifest_shutdown_requested, (&*final(state),), shutdown),
        call_ensures(startup_manifest_abort_requested, (&*final(state),), abort),
    ensures
        shutdown,
        abort == abort_before,
        final(state)@.in_flight == old(state)@.in_flight,
{
}

/// A drain is over exactly where nothing is in flight. While something is, it
/// waits until its time is over, and then what is left is told to cancel; what
/// drains in time never is.
pub proof fn law_drain_cancels_only_what_is_left(
    state: &mut StartupManifestShutdown,
    timed_out: bool,
    step: DrainStep,
    abort_before: bool,
    abort: bool,
)
    requires
        call_ensures(startup_manifest_abort_requested, (&*old(state),), abort_before),
        call_ensures(StartupManifestShutdown::poll_drain, (state, timed_out), step),
        call_ensures(startup_manifest_abort_requested, (&*final(state),), abort),
    ensures
        step is Drained <==> old(state)@.in_flight == 0,
        step is Abort <==> old(state)@.in_flight > 0 && timed_out,
        step is Wait <==> old(state)@.in_flight > 0 && !timed_out,
        abort <==> abort_before || step is Abort,
        final(state)@.in_flight == old(state)@.in_flight,
        final(state)@.stop_new == old(state)@.stop_new,
{
}

/// A continuation is in flight from its start to its end. Its end is told to be
/// the last one exactly where nothing is in flight afterwards, and leaves
/// everything as it was before its start.
pub proof fn law_continuation_is_in_flight(
    state: &mut StartupManifestShutdown,
    guard: StartupManifestTaskGuard,
    later: &mut StartupManifestShutdown,
    last: bool,
)
    requires
        old(state)@.in_flight < usize::MAX,
        call_ensures(StartupManifestTaskGuard::new, (state,), guard),
        *final(state) == *old(later),
        call_ensures(StartupManifestTaskGuard::finish, (guard, later), last),
    ensures
        final(state)@.in_flight == old(state)@.in_flight + 1,
        final(state)@.stop_new == old(state)@.stop_new,
        final(state)@.abort == old(state)@.abort,
        last <==> final(later)@.in_flight == 0,
        final(later)@ == old(state)@,
{
}

/// The end of a continuation counts it out and changes nothing else.
pub proof fn law_continuation_ends(
    guard: StartupManifestTaskGuard,
    state: &mut StartupManifestShutdown,
    last: bool,
)
    requires
        old(state)@.in_flight > 0,
        call_ensures(StartupManifestTaskGuard::finish, (guard, state), last),
    ensures
        final(state)@.in_flight == old(state)@.in_flight - 1,
        last <==> final(state)@.in_flight == 0,
        final(state)@.stop_new == old(state)@.stop_new,
        final(state)@.abort == old(state)@.abort,
{
}

} // verus!
