use tab_memory_manager::policy_engine::{deadline_for, step, Action, Event, Phase};

#[test]
fn deadline_is_four_ticks() {
    assert_eq!(deadline_for(250), 1000);
    assert_eq!(deadline_for(0), 0);
}

#[test]
fn deadline_saturates() {
    assert_eq!(deadline_for(u64::MAX / 4), u64::MAX - 3);
    assert_eq!(deadline_for(u64::MAX / 4 + 1), u64::MAX);
    assert_eq!(deadline_for(u64::MAX), u64::MAX);
}

#[test]
fn tick_with_successful_refresh() {
    let tick = 1000;
    assert_eq!(step(Phase::Idle, Event::TickStarted, tick), (Phase::Requesting, Action::OfferRequest));
    assert_eq!(
        step(Phase::Requesting, Event::RequestOffered { accepted: true }, tick),
        (Phase::WaitingResult, Action::AwaitResult { deadline: 4000 })
    );
    assert_eq!(
        step(Phase::WaitingResult, Event::RefreshSucceeded, tick),
        (Phase::Applying, Action::ApplyStrategies)
    );
    assert_eq!(
        step(Phase::Applying, Event::StrategiesApplied, tick),
        (Phase::Sleeping, Action::MeasureTick)
    );
    assert_eq!(
        step(Phase::Sleeping, Event::TickMeasured { elapsed: 300 }, tick),
        (Phase::Idle, Action::Sleep { duration: 700 })
    );
}

#[test]
fn request_is_awaited_even_when_the_queue_was_full() {
    assert_eq!(
        step(Phase::Requesting, Event::RequestOffered { accepted: false }, 500),
        (Phase::WaitingResult, Action::AwaitResult { deadline: 2000 })
    );
}

#[test]
fn failed_refresh_skips_the_strategies() {
    assert_eq!(
        step(Phase::WaitingResult, Event::RefreshFailed, 1000),
        (Phase::Sleeping, Action::MeasureTick)
    );
}

#[test]
fn timed_out_refresh_is_retried_at_once() {
    assert_eq!(
        step(Phase::WaitingResult, Event::RefreshTimedOut, 1000),
        (Phase::RetryImmediately, Action::StartTick)
    );
    assert_eq!(
        step(Phase::RetryImmediately, Event::TickStarted, 1000),
        (Phase::Requesting, Action::OfferRequest)
    );
}

#[test]
fn overrun_tick_is_not_slept() {
    assert_eq!(
        step(Phase::Sleeping, Event::TickMeasured { elapsed: 1001 }, 1000),
        (Phase::Idle, Action::StartTick)
    );
    assert_eq!(
        step(Phase::Sleeping, Event::TickMeasured { elapsed: 1000 }, 1000),
        (Phase::Idle, Action::Sleep { duration: 0 })
    );
    assert_eq!(
        step(Phase::Sleeping, Event::TickMeasured { elapsed: 0 }, 1000),
        (Phase::Idle, Action::Sleep { duration: 1000 })
    );
}

#[test]
fn event_out_of_place_is_ignored() {
    assert_eq!(step(Phase::Idle, Event::RefreshSucceeded, 1000), (Phase::Idle, Action::Ignore));
    assert_eq!(
        step(Phase::Applying, Event::TickStarted, 1000),
        (Phase::Applying, Action::Ignore)
    );
    assert_eq!(
        step(Phase::Sleeping, Event::StrategiesApplied, 1000),
        (Phase::Sleeping, Action::Ignore)
    );
    assert_eq!(
        step(Phase::WaitingResult, Event::TickMeasured { elapsed: 5 }, 1000),
        (Phase::WaitingResult, Action::Ignore)
    );
    assert_eq!(
        step(Phase::Requesting, Event::RefreshTimedOut, 1000),
        (Phase::Requesting, Action::Ignore)
    );
}
