use vstd::prelude::*;

verus! {

/// What the registry watcher does next. It watches the key that holds the
/// port proxy rules and tells the window whenever that key changes.
#[derive(Clone, Copy, Debug)]
pub enum WatchAction {
    /// Create the auto-reset event that change notifications signal.
    CreateEvent,
    /// Open the port proxy key for change notification.
    OpenKey,
    /// Sleep `millis` milliseconds, then open the key.
    PauseThenOpen { millis: u64 },
    /// Ask to be signaled on the key's next change.
    ArmNotify,
    /// Wait up to `timeout_millis` milliseconds for the signal.
    WaitForChange { timeout_millis: u32 },
    /// Check that the app is still running (without telling it of a change).
    CheckAlive,
    /// Sleep `millis` milliseconds, then tell the window that the rules changed.
    PauseThenNotify { millis: u64 },
    /// Close the key.
    CloseKey,
    /// Close the event.
    CloseEvent,
    /// The watcher has finished.
    Stop,
}

/// How the last action went.
#[derive(Clone, Copy, Debug)]
pub enum WatchOutcome {
    /// It did what was asked (or it was a pause, which cannot fail; for a
    /// check: the app is still running).
    Succeeded,
    /// It failed (for a wait: any result but a signal or a time-out).
    Failed,
    /// The wait ended because the key changed.
    Signaled,
    /// The wait ran out of time.
    TimedOut,
}

/// The watcher's next action after `done` ended with `outcome`. A key that
/// cannot be opened is tried again after 2 s; a notification that cannot be
/// armed closes the key and reopens it after 1 s; waits last 5 s, and when one
/// runs out the watcher checks that the app still runs before it waits again;
/// a change is told to the window 300 ms after its signal; a failed wait, or an
/// app that is gone (found by that check or by a failed notice), closes the
/// event and stops.
pub open spec fn watch_transition(done: WatchAction, outcome: WatchOutcome) -> WatchAction {
    match done {
        WatchAction::CreateEvent => match outcome {
            WatchOutcome::Succeeded => WatchAction::OpenKey,
            _ => WatchAction::Stop,
        },
        WatchAction::OpenKey => match outcome {
            WatchOutcome::Succeeded => WatchAction::ArmNotify,
            _ => WatchAction::PauseThenOpen { millis: 2000 },
        },
        WatchAction::PauseThenOpen { .. } => WatchAction::OpenKey,
        WatchAction::ArmNotify => match outcome {
            WatchOutcome::Succeeded => WatchAction::WaitForChange { timeout_millis: 5000 },
            _ => WatchAction::CloseKey,
        },
        WatchAction::WaitForChange { .. } => match outcome {
            WatchOutcome::Signaled => WatchAction::PauseThenNotify { millis: 300 },
            WatchOutcome::TimedOut => WatchAction::CheckAlive,
            _ => WatchAction::CloseEvent,
        },
        WatchAction::CheckAlive => match outcome {
            WatchOutcome::Succeeded => WatchAction::WaitForChange { timeout_millis: 5000 },
            _ => WatchAction::CloseEvent,
        },
        WatchAction::PauseThenNotify { .. } => match outcome {
            WatchOutcome::Succeeded => WatchAction::ArmNotify,
            _ => WatchAction::CloseEvent,
        },
        WatchAction::CloseKey => WatchAction::PauseThenOpen { millis: 1000 },
        WatchAction::CloseEvent => WatchAction::Stop,
        WatchAction::Stop => WatchAction::Stop,
    }
}

/// Decides what the registry watcher does after `done` ended with `outcome`.
pub fn watch_next(done: WatchAction, outcome: WatchOutcome) -> (r: WatchAction)
    ensures
        r == watch_transition(done, outcome),
{
    match done {
        WatchAction::CreateEvent => match outcome {
            WatchOutcome::Succeeded => WatchAction::OpenKey,
            _ => WatchAction::Stop,
        },
        WatchAction::OpenKey => match outcome {
            WatchOutcome::Succeeded => WatchAction::ArmNotify,
            _ => WatchAction::PauseThenOpen { millis: 2000 },
        },
        WatchAction::PauseThenOpen { .. } => WatchAction::OpenKey,
        WatchAction::ArmNotify => match outcome {
            WatchOutcome::Succeeded => WatchAction::WaitForChange { timeout_millis: 5000 },
            _ => WatchAction::CloseKey,
        },
        WatchAction::WaitForChange { .. } => match outcome {
            WatchOutcome::Signaled => WatchAction::PauseThenNotify { millis: 300 },
            WatchOutcome::TimedOut => WatchAction::CheckAlive,
            _ => WatchAction::CloseEvent,
        },
        WatchAction::CheckAlive => match outcome {
            WatchOutcome::Succeeded => WatchAction::WaitForChange { timeout_millis: 5000 },
            _ => WatchAction::CloseEvent,
        },
        WatchAction::PauseThenNotify { .. } => match outcome {
            WatchOutcome::Succeeded => WatchAction::ArmNotify,
            _ => WatchAction::CloseEvent,
        },
        WatchAction::CloseKey => WatchAction::PauseThenOpen { millis: 1000 },
        WatchAction::CloseEvent => WatchAction::Stop,
        WatchAction::Stop => WatchAction::Stop,
    }
}

/// The window is told of a change only right after a wait ended in a signal.
pub proof fn lemma_notify_only_after_signal(done: WatchAction, outcome: WatchOutcome)
    ensures
        watch_transition(done, outcome) is PauseThenNotify ==> (done is WaitForChange && outcome is Signaled),
{
}

/// Once the event exists, the watcher stops only by closing it first: it stops
/// right after the event could not be created, after closing the event, or
/// when it had already stopped.
pub proof fn lemma_stop_closes_event(done: WatchAction, outcome: WatchOutcome)
    ensures
        watch_transition(done, outcome) is Stop ==> {
            ||| (done is CreateEvent && !(outcome is Succeeded))
            ||| done is CloseEvent
            ||| done is Stop
        },
{
}

/// A wait that runs out is followed by a check that the app still runs; when
/// the app is gone, the watcher closes the event and then stops, without
/// telling the window of a change: shutdown is noticed at the next time-out.
pub proof fn lemma_timeout_notices_shutdown(timeout_millis: u32)
    ensures
        watch_transition(WatchAction::WaitForChange { timeout_millis }, WatchOutcome::TimedOut) is CheckAlive,
        watch_transition(WatchAction::CheckAlive, WatchOutcome::Failed) is CloseEvent,
        watch_transition(WatchAction::CheckAlive, WatchOutcome::Succeeded) == (WatchAction::WaitForChange {
            timeout_millis: 5000,
        }),
        forall|o: WatchOutcome| #[trigger] watch_transition(WatchAction::CloseEvent, o) is Stop,
{
}

/// A watcher that has stopped stays stopped.
pub proof fn lemma_stop_is_final(outcome: WatchOutcome)
    ensures
        watch_transition(WatchAction::Stop, outcome) is Stop,
{
}

} // verus!
