//! Timestamps, intervals and the clocks that make them.

use drmkit::time::{default_clock, saturating_nanos, Clock, ManualClock, SteadyClock, Timestamp};
use std::time::Duration;

#[test]
fn steady_clock_is_monotonic() {
    let clock = default_clock();
    let mut previous = clock.now();
    for _ in 0..1_000 {
        let current = clock.now();
        assert!(
            current >= previous,
            "CLOCK_MONOTONIC went backwards: {} -> {}",
            previous.to_string(),
            current.to_string()
        );
        previous = current;
    }
}

#[test]
fn steady_clock_advances() {
    let clock = default_clock();
    let start = clock.now();
    // Busy-spin rather than sleep: this asserts the clock moves, and a sleep
    // would make the test a scheduler observation instead.
    let mut end = clock.now();
    while end == start {
        end = clock.now();
    }
    assert!(end > start);
}

#[test]
fn steady_clock_is_shareable_as_trait_object() {
    let clock: &dyn Clock = default_clock();
    assert!(clock.now() > Timestamp::zero(), "boot was some time ago");
}

#[test]
fn manual_clock_starts_frozen_at_zero() {
    let clock = ManualClock::new();
    assert_eq!(clock.now(), Timestamp::zero());
    assert_eq!(clock.now(), Timestamp::zero(), "does not move on its own");
}

#[test]
fn manual_clock_advances_and_sets() {
    let mut clock = ManualClock::starting_at(Timestamp::from_nanos(500));
    assert_eq!(clock.now().as_nanos(), 500);

    clock.advance(Duration::from_millis(16));
    assert_eq!(clock.now().as_nanos(), 500 + 16_000_000);

    clock.set(Timestamp::zero());
    assert_eq!(clock.now(), Timestamp::zero());
}

/// A wrapped counter runs backwards, and every interval taken against it
/// collapses to zero.
#[test]
fn manual_clock_advance_saturates_instead_of_wrapping() {
    let mut clock = ManualClock::starting_at(Timestamp::from_nanos(u64::MAX - 5));
    let before = clock.now();

    clock.advance(Duration::from_secs(1));

    assert_eq!(
        clock.now().as_nanos(),
        u64::MAX,
        "must clamp at the ceiling"
    );
    assert!(clock.now() >= before, "must never move backwards");

    // Still saturated after a second overflowing step.
    clock.advance(Duration::from_secs(1));
    assert_eq!(clock.now().as_nanos(), u64::MAX);
}

#[test]
fn manual_clock_advance_clamps_oversized_duration() {
    let mut clock = ManualClock::new();
    clock.advance(Duration::from_secs(u64::MAX));
    assert_eq!(clock.now().as_nanos(), u64::MAX);
}

#[test]
fn duration_since_saturates_instead_of_wrapping() {
    let early = Timestamp::from_nanos(1_000);
    let late = Timestamp::from_nanos(17_667_000);

    assert_eq!(
        late.saturating_duration_since(early),
        Duration::from_nanos(17_666_000)
    );
    assert_eq!(early.saturating_duration_since(late), Duration::ZERO);
    assert_eq!(late - early, Duration::from_nanos(17_666_000));
    assert_eq!(early - late, Duration::ZERO);
}

#[test]
fn checked_duration_since_reports_going_backwards() {
    let early = Timestamp::from_nanos(1_000);
    let late = Timestamp::from_nanos(2_000);

    assert_eq!(
        late.checked_duration_since(early),
        Some(Duration::from_nanos(1_000))
    );
    assert_eq!(early.checked_duration_since(late), None);
    assert_eq!(early.checked_duration_since(early), Some(Duration::ZERO));
}

#[test]
fn timestamp_arithmetic_saturates_at_both_ends() {
    let t = Timestamp::from_nanos(1_000);
    assert_eq!((t - Duration::from_secs(1)).as_nanos(), 0, "clamps at zero");
    assert_eq!((t + Duration::from_nanos(500)).as_nanos(), 1_500);

    let high = Timestamp::from_nanos(u64::MAX - 1);
    assert_eq!((high + Duration::from_secs(10)).as_nanos(), u64::MAX);

    let mut acc = Timestamp::zero();
    acc += Duration::from_millis(16);
    assert_eq!(acc.as_nanos(), 16_000_000);
    acc -= Duration::from_millis(32);
    assert_eq!(acc, Timestamp::zero(), "clamps rather than wrapping");
}

#[test]
fn from_timespec_and_timeval_agree() {
    // 3s + 250ms expressed both ways: the two shapes the kernel uses for
    // page-flip (timespec) and vblank (timeval) events.
    let via_timespec = Timestamp::from_timespec(3, 250_000_000);
    let via_timeval = Timestamp::from_timeval(3, 250_000);
    assert_eq!(via_timespec, via_timeval);
    assert_eq!(via_timespec.as_nanos(), 3_250_000_000);
}

#[test]
fn negative_kernel_components_clamp_to_zero() {
    assert_eq!(Timestamp::from_timespec(-1, -1), Timestamp::zero());
    assert_eq!(Timestamp::from_timeval(-1, -1), Timestamp::zero());
    assert_eq!(Timestamp::from_timespec(-1, 500).as_nanos(), 500);
}

#[test]
fn display_reads_as_an_interval_not_a_date() {
    assert_eq!(
        Timestamp::from_nanos(3_250_000_000).to_string(),
        "3.250000000s"
    );
    assert_eq!(Timestamp::zero().to_string(), "0.000000000s");
}

#[test]
fn kernel_components_past_the_timeline_clamp_to_its_end() {
    assert_eq!(Timestamp::from_timespec(i64::MAX, 0).as_nanos(), u64::MAX);
    assert_eq!(Timestamp::from_timeval(i64::MAX, 1).as_nanos(), u64::MAX);
    assert_eq!(
        Timestamp::from_timespec(18_446_744_073, 709_551_615).as_nanos(),
        u64::MAX
    );
    assert_eq!(
        Timestamp::from_timespec(18_446_744_073, 709_551_614).as_nanos(),
        u64::MAX - 1
    );
}

#[test]
fn an_interval_added_back_gives_the_later_time() {
    let early = Timestamp::from_nanos(7);
    let late = Timestamp::from_nanos(1_000_000_007);
    assert_eq!(early + (late - early), late);
    assert_eq!(late - (late - early), early);
}

#[test]
fn a_duration_counts_nanoseconds_up_to_the_timeline() {
    assert_eq!(saturating_nanos(Duration::from_micros(3)), 3_000);
    assert_eq!(saturating_nanos(Duration::from_nanos(u64::MAX)), u64::MAX);
    assert_eq!(saturating_nanos(Duration::from_secs(u64::MAX)), u64::MAX);
}

#[test]
fn clocks_start_where_they_say() {
    assert_eq!(ManualClock::default().now(), Timestamp::default());
    assert!(SteadyClock::new().now() <= SteadyClock::default().now());
}
