//! The per-server power state machine: Offline, Starting, Running and
//! Stopping, driven by power actions and container events, with the
//! graceful-stop-then-kill policy.

use vstd::prelude::*;

verus! {

#[derive(Clone, Copy, PartialEq, Eq, Structural, Debug)]
pub enum ServerState {
    Offline,
    Starting,
    Running,
    Stopping,
}

/// What can move the machine: panel power actions and container events.
#[derive(Clone, Copy, PartialEq, Eq, Structural, Debug)]
pub enum PowerAction {
    Start,
    Stop,
    Kill,
    ContainerRunning,
    ContainerExited,
}

/// The transition function. `Start` leaves any non-offline state alone;
/// `Stop` is a no-op when already offline; `Kill` and a container exit
/// force `Offline`; the container reporting itself running completes a
/// start.
pub open spec fn spec_next_state(s: ServerState, a: PowerAction) -> ServerState {
    match a {
        PowerAction::Start => if s is Offline {
            ServerState::Starting
        } else {
            s
        },
        PowerAction::Stop => if s is Offline {
            ServerState::Offline
        } else {
            ServerState::Stopping
        },
        PowerAction::Kill => ServerState::Offline,
        PowerAction::ContainerRunning => if s is Starting {
            ServerState::Running
        } else {
            s
        },
        PowerAction::ContainerExited => ServerState::Offline,
    }
}

pub fn next_state(s: ServerState, a: PowerAction) -> (r: ServerState)
    ensures
        r == spec_next_state(s, a),
{
    match a {
        PowerAction::Start => if matches!(s, ServerState::Offline) {
            ServerState::Starting
        } else {
            s
        },
        PowerAction::Stop => if matches!(s, ServerState::Offline) {
            ServerState::Offline
        } else {
            ServerState::Stopping
        },
        PowerAction::Kill => ServerState::Offline,
        PowerAction::ContainerRunning => if matches!(s, ServerState::Starting) {
            ServerState::Running
        } else {
            s
        },
        PowerAction::ContainerExited => ServerState::Offline,
    }
}

/// A start (like a reinstall) is admitted only offline and never while a
/// transfer is in flight.
pub fn start_allowed(s: ServerState, transferring: bool) -> (r: bool)
    ensures
        r == (s is Offline && !transferring),
{
    matches!(s, ServerState::Offline) && !transferring
}

/// From `Offline`, one step reaches exactly one of: `Starting` (on a
/// start) or `Offline` again (a stop is a no-op); no other state is
/// reachable in one step.
pub proof fn lemma_offline_one_step()
    ensures
        spec_next_state(ServerState::Offline, PowerAction::Start) == ServerState::Starting,
        spec_next_state(ServerState::Offline, PowerAction::Stop) == ServerState::Offline,
        forall|a: PowerAction|
            spec_next_state(ServerState::Offline, a) == ServerState::Offline || spec_next_state(
                ServerState::Offline,
                a,
            ) == ServerState::Starting,
{
}

/// The graceful-stop policy: keep asking the container to stop until the
/// deadline, then kill.
pub open spec fn spec_stop_escalation(elapsed: u64, graceful: u64) -> PowerAction {
    if elapsed >= graceful {
        PowerAction::Kill
    } else {
        PowerAction::Stop
    }
}

/// During a graceful stop, wait for the container until the deadline, then
/// kill.
pub fn stop_escalation(elapsed: u64, graceful: u64) -> (r: PowerAction)
    ensures
        r == spec_stop_escalation(elapsed, graceful),
{
    if elapsed >= graceful {
        PowerAction::Kill
    } else {
        PowerAction::Stop
    }
}

/// A stop always converges: whatever the state, the kill the escalation
/// reaches at the deadline — like a container exit before it — lands the
/// machine in `Offline`. So a stop issued to a running server is offline
/// no later than the graceful window plus the kill step.
pub proof fn lemma_stop_converges()
    ensures
        forall|s: ServerState| spec_next_state(s, PowerAction::Kill) == ServerState::Offline,
        forall|s: ServerState|
            spec_next_state(s, PowerAction::ContainerExited) == ServerState::Offline,
        forall|s: ServerState, elapsed: u64, graceful: u64|
            elapsed >= graceful ==> #[trigger] spec_next_state(
                s,
                spec_stop_escalation(elapsed, graceful),
            ) == ServerState::Offline,
{
}

} // verus!
