//! The decisions of the periodic check, as a state machine.
//!
//! The caller owns the clock and the two queues. It performs each
//! [`Action`] and reports what came of it as the next [`Event`].
use crate::config::Millis;
use vstd::prelude::*;

verus! {

/// Where the check stands within its tick.
#[derive(Clone, Copy, Debug, PartialEq, Eq, Structural)]
pub enum Phase {
    /// Between two ticks.
    Idle,
    /// About to ask for fresh tab data.
    Requesting,
    /// Waiting for the outcome of the refresh.
    WaitingResult,
    /// The status is fresh; the strategies run.
    Applying,
    /// The refresh timed out; the next tick begins at once.
    RetryImmediately,
    /// The work of the tick is done; what remains of the tick is slept.
    Sleeping,
}

/// What the caller reports to the state machine.
#[derive(Clone, Copy, Debug, PartialEq, Eq, Structural)]
pub enum Event {
    /// A tick has begun and its time is being measured.
    TickStarted,
    /// The request was offered to the request queue, which took it or was
    /// still full.
    RequestOffered { accepted: bool },
    /// The refresh ended well.
    RefreshSucceeded,
    /// The refresh ended with a failure.
    RefreshFailed,
    /// No outcome of the refresh arrived before the deadline.
    RefreshTimedOut,
    /// The strategies have run.
    StrategiesApplied,
    /// The tick has taken `elapsed` so far.
    TickMeasured { elapsed: Millis },
}

/// What the caller is to do next.
#[derive(Clone, Copy, Debug, PartialEq, Eq, Structural)]
pub enum Action {
    /// Offer a refresh request to the request queue, without blocking.
    OfferRequest,
    /// Wait for the outcome of the refresh, at most for `deadline`.
    AwaitResult { deadline: Millis },
    /// Run the strategies and terminate what they choose.
    ApplyStrategies,
    /// Measure how long the tick has taken.
    MeasureTick,
    /// Sleep for `duration`, then start the next tick.
    Sleep { duration: Millis },
    /// Start the next tick at once.
    StartTick,
    /// The event does not belong to the phase: do nothing.
    Ignore,
}

/// How long to wait for the outcome of a refresh: four ticks, or the greatest
/// number of the type where four ticks exceed it.
pub open spec fn result_deadline(tick: Millis) -> Millis {
    if 4 * tick <= u64::MAX {
        (4 * tick) as u64
    } else {
        u64::MAX
    }
}

/// The phase that follows `phase` on `event`, and what the caller is to do,
/// where one tick lasts `tick`.
pub open spec fn next_step(phase: Phase, event: Event, tick: Millis) -> (Phase, Action) {
    match (phase, event) {
        (Phase::Idle, Event::TickStarted) | (Phase::RetryImmediately, Event::TickStarted) => (
            Phase::Requesting,
            Action::OfferRequest,
        ),
        (Phase::Requesting, Event::RequestOffered { accepted }) => (
            Phase::WaitingResult,
            Action::AwaitResult { deadline: result_deadline(tick) },
        ),
        (Phase::WaitingResult, Event::RefreshSucceeded) => (
            Phase::Applying,
            Action::ApplyStrategies,
        ),
        (Phase::WaitingResult, Event::RefreshFailed) => (Phase::Sleeping, Action::MeasureTick),
        (Phase::WaitingResult, Event::RefreshTimedOut) => (
            Phase::RetryImmediately,
            Action::StartTick,
        ),
        (Phase::Applying, Event::StrategiesApplied) => (Phase::Sleeping, Action::MeasureTick),
        (Phase::Sleeping, Event::TickMeasured { elapsed }) => if tick < elapsed {
            (Phase::Idle, Action::StartTick)
        } else {
            (Phase::Idle, Action::Sleep { duration: (tick - elapsed) as u64 })
        },
        _ => (phase, Action::Ignore),
    }
}

/// Computes [`result_deadline`].
pub fn deadline_for(tick: Millis) -> (deadline: Millis)
    ensures
        deadline == result_deadline(tick),
{
    if tick <= u64::MAX / 4 {
        4 * tick
    } else {
        u64::MAX
    }
}

/// Takes one step of the check: from `phase`, on `event`, with ticks that last
/// `tick`. An event that does not belong to the phase changes nothing.
pub fn step(phase: Phase, event: Event, tick: Millis) -> (next: (Phase, Action))
    ensures
        next == next_step(phase, event, tick),
{
    match phase {
        Phase::Idle | Phase::RetryImmediately => match event {
            Event::TickStarted => (Phase::Requesting, Action::OfferRequest),
            _ => (phase, Action::Ignore),
        },
        Phase::Requesting => match event {
            Event::RequestOffered { accepted: _ } => (
                Phase::WaitingResult,
                Action::AwaitResult { deadline: deadline_for(tick) },
            ),
            _ => (phase, Action::Ignore),
        },
        Phase::WaitingResult => match event {
            Event::RefreshSucceeded => (Phase::Applying, Action::ApplyStrategies),
            Event::RefreshFailed => (Phase::Sleeping, Action::MeasureTick),
            Event::RefreshTimedOut => (Phase::RetryImmediately, Action::StartTick),
            _ => (phase, Action::Ignore),
        },
        Phase::Applying => match event {
            Event::StrategiesApplied => (Phase::Sleeping, Action::MeasureTick),
            _ => (phase, Action::Ignore),
        },
        Phase::Sleeping => match event {
            Event::TickMeasured { elapsed } => if tick < elapsed {
                (Phase::Idle, Action::StartTick)
            } else {
                (Phase::Idle, Action::Sleep { duration: tick - elapsed })
            },
            _ => (phase, Action::Ignore),
        },
    }
}

} // verus!
