//! A monotonic clock, and points in time on it.
//!
//! Subsystems that animate, pace or schedule take a [`Clock`], so a caller can
//! hand in the presentation clock it already has, or step time in a test.

use core::ops::{Add, AddAssign, Sub, SubAssign};
use core::time::Duration;
use vstd::prelude::*;
use vstd::std_specs::ops::{AddSpecImpl, SubSpecImpl};
use crate::text::{decimal, padded_decimal, push_decimal, push_padded_decimal};

verus! {

/// The number of nanoseconds a duration spans.
pub uninterp spec fn duration_nanos(span: Duration) -> nat;

/// `Duration::from_nanos` makes the span of exactly that many nanoseconds.
pub assume_specification[ Duration::from_nanos ](nanos: u64) -> (span: Duration)
    ensures
        duration_nanos(span) == nanos,
;

/// `Duration::as_nanos` is the whole span in nanoseconds.
pub assume_specification[ Duration::as_nanos ](span: &Duration) -> (nanos: u128)
    ensures
        nanos == duration_nanos(*span),
;

/// `rustix::time::clock_gettime` on `CLOCK_MONOTONIC`, as its seconds and
/// nanoseconds. Nothing is claimed of the reading: it depends on when it is
/// taken.
#[verifier::external_body]
pub fn read_monotonic() -> (reading: (i64, i64)) {
    let now = rustix::time::clock_gettime(rustix::time::ClockId::Monotonic);
    (now.tv_sec, now.tv_nsec as i64)
}

/// The largest value the nanosecond timeline holds, or `value` below it.
pub open spec fn saturated(value: int) -> u64 {
    if value > u64::MAX {
        u64::MAX
    } else if value < 0 {
        0
    } else {
        value as u64
    }
}

/// A negative component read as zero.
pub open spec fn at_least_zero(value: i64) -> int {
    if value < 0 {
        0
    } else {
        value as int
    }
}

/// A point on the monotonic timeline, in nanoseconds since an unspecified epoch.
///
/// Only intervals are meaningful. Arithmetic saturates rather than wrapping: a
/// clock that silently runs backwards turns a pacing bug into a torn frame.
#[derive(Debug, Clone, Copy, PartialEq, Eq, PartialOrd, Ord, Hash, Structural)]
pub struct Timestamp {
    /// The raw nanosecond count.
    pub nanos: u64,
}

impl Timestamp {
    /// The zero point of the timeline.
    pub fn zero() -> (at: Self)
        ensures
            at.nanos == 0,
    {
        Timestamp { nanos: 0 }
    }

    /// Build a timestamp from a raw `CLOCK_MONOTONIC` nanosecond count.
    pub fn from_nanos(nanos: u64) -> (at: Self)
        ensures
            at.nanos == nanos,
    {
        Timestamp { nanos }
    }

    /// Build a timestamp from a `timespec` pair. Negative components clamp to
    /// zero.
    pub fn from_timespec(secs: i64, nanos: i64) -> (at: Self)
        ensures
            at.nanos == saturated(at_least_zero(secs) * 1_000_000_000 + at_least_zero(nanos)),
    {
        let s: u128 = if secs < 0 { 0 } else { secs as u128 };
        let n: u128 = if nanos < 0 { 0 } else { nanos as u128 };
        Timestamp { nanos: clamp_nanos(s * 1_000_000_000 + n) }
    }

    /// Build a timestamp from a `timeval` pair, in microseconds.
    pub fn from_timeval(secs: i64, micros: i64) -> (at: Self)
        ensures
            at.nanos == saturated(at_least_zero(secs) * 1_000_000_000 + at_least_zero(micros) * 1_000),
    {
        let s: u128 = if secs < 0 { 0 } else { secs as u128 };
        let m: u128 = if micros < 0 { 0 } else { micros as u128 };
        Timestamp { nanos: clamp_nanos(s * 1_000_000_000 + m * 1_000) }
    }

    /// The raw nanosecond count.
    pub fn as_nanos(self) -> (nanos: u64)
        ensures
            nanos == self.nanos,
    {
        self.nanos
    }

    /// Interval from `earlier` to `self`, zero if `earlier` is in fact later.
    pub fn saturating_duration_since(self, earlier: Self) -> (span: Duration)
        ensures
            duration_nanos(span) == saturated(self.nanos - earlier.nanos),
    {
        Duration::from_nanos(self.nanos.saturating_sub(earlier.nanos))
    }

    /// Interval from `earlier` to `self`, or `None` if `earlier` is later.
    pub fn checked_duration_since(self, earlier: Self) -> (span: Option<Duration>)
        ensures
            match span {
                Some(span) => earlier.nanos <= self.nanos && duration_nanos(span) == self.nanos
                    - earlier.nanos,
                None => earlier.nanos > self.nanos,
            },
    {
        match self.nanos.checked_sub(earlier.nanos) {
            Some(delta) => Some(Duration::from_nanos(delta)),
            None => None,
        }
    }

    /// Seconds with nanosecond precision, readable in a trace.
    pub fn to_string(&self) -> (text: String)
        ensures
            text@ == decimal((self.nanos / 1_000_000_000) as nat) + seq!['.'] + padded_decimal(
                (self.nanos % 1_000_000_000) as nat,
                9,
            ) + seq!['s'],
    {
        let mut text = String::new();
        push_decimal(&mut text, self.nanos / 1_000_000_000);
        text.push('.');
        push_padded_decimal(&mut text, self.nanos % 1_000_000_000, 9);
        text.push('s');
        proof {
            assert(text@ =~= decimal((self.nanos / 1_000_000_000) as nat) + seq!['.']
                + padded_decimal((self.nanos % 1_000_000_000) as nat, 9) + seq!['s']);
        }
        text
    }
}

impl Default for Timestamp {
    /// The zero point of the timeline.
    fn default() -> (at: Self)
        ensures
            at.nanos == 0,
    {
        Timestamp { nanos: 0 }
    }
}

fn clamp_nanos(nanos: u128) -> (clamped: u64)
    ensures
        clamped == saturated(nanos as int),
{
    if nanos > u64::MAX as u128 {
        u64::MAX
    } else {
        nanos as u64
    }
}

/// A duration's nanoseconds clamped into the `u64` timeline.
pub fn saturating_nanos(d: Duration) -> (nanos: u64)
    ensures
        nanos == saturated(duration_nanos(d) as int),
{
    clamp_nanos(d.as_nanos())
}

impl Timestamp {
    /// `self` moved later by `span`, saturating.
    pub open spec fn later(self, span: Duration) -> Timestamp {
        Timestamp { nanos: saturated(self.nanos + duration_nanos(span)) }
    }

    /// `self` moved earlier by `span`, saturating.
    pub open spec fn earlier(self, span: Duration) -> Timestamp {
        Timestamp { nanos: saturated(self.nanos - duration_nanos(span)) }
    }
}

impl AddSpecImpl<Duration> for Timestamp {
    open spec fn obeys_add_spec() -> bool {
        true
    }

    open spec fn add_req(self, rhs: Duration) -> bool {
        true
    }

    open spec fn add_spec(self, rhs: Duration) -> Timestamp {
        self.later(rhs)
    }
}

impl Add<Duration> for Timestamp {
    type Output = Timestamp;

    fn add(self, rhs: Duration) -> (at: Timestamp) {
        Timestamp { nanos: self.nanos.saturating_add(saturating_nanos(rhs)) }
    }
}

impl SubSpecImpl<Duration> for Timestamp {
    open spec fn obeys_sub_spec() -> bool {
        true
    }

    open spec fn sub_req(self, rhs: Duration) -> bool {
        true
    }

    open spec fn sub_spec(self, rhs: Duration) -> Timestamp {
        self.earlier(rhs)
    }
}

impl Sub<Duration> for Timestamp {
    type Output = Timestamp;

    fn sub(self, rhs: Duration) -> (at: Timestamp) {
        Timestamp { nanos: self.nanos.saturating_sub(saturating_nanos(rhs)) }
    }
}

impl SubSpecImpl<Timestamp> for Timestamp {
    open spec fn obeys_sub_spec() -> bool {
        false
    }

    open spec fn sub_req(self, rhs: Timestamp) -> bool {
        true
    }

    open spec fn sub_spec(self, rhs: Timestamp) -> Duration {
        arbitrary()
    }
}

impl Sub<Timestamp> for Timestamp {
    type Output = Duration;

    /// The same interval as [`Timestamp::saturating_duration_since`].
    fn sub(self, rhs: Timestamp) -> (span: Duration)
        ensures
            duration_nanos(span) == saturated(self.nanos - rhs.nanos),
    {
        self.saturating_duration_since(rhs)
    }
}

impl AddAssign<Duration> for Timestamp {
    fn add_assign(&mut self, rhs: Duration)
        ensures
            *final(self) == old(self).later(rhs),
    {
        *self = *self + rhs;
    }
}

impl SubAssign<Duration> for Timestamp {
    fn sub_assign(&mut self, rhs: Duration)
        ensures
            *final(self) == old(self).earlier(rhs),
    {
        *self = *self - rhs;
    }
}

/// A monotonic clock.
///
/// Implementors must be monotonic: a sample never lies before an earlier one.
pub trait Clock: Send + Sync {
    /// Sample the clock.
    fn now(&self) -> Timestamp;
}

/// The clock behind `CLOCK_MONOTONIC`. It holds no state.
#[derive(Debug, Clone, Copy, PartialEq, Eq)]
#[non_exhaustive]
pub struct SteadyClock {}

impl SteadyClock {
    /// Construct the clock.
    pub fn new() -> (clock: Self)
        ensures
            clock == (SteadyClock {  }),
    {
        SteadyClock {  }
    }
}

impl Default for SteadyClock {
    fn default() -> (clock: Self)
        ensures
            clock == (SteadyClock {  }),
    {
        SteadyClock {  }
    }
}

impl Clock for SteadyClock {
    /// The reading taken now, as [`Timestamp::from_timespec`] makes it.
    fn now(&self) -> (at: Timestamp)
        ensures
            exists|reading: (i64, i64)| #[trigger]
                call_ensures(read_monotonic, (), reading) && at.nanos == saturated(
                    at_least_zero(reading.0) * 1_000_000_000 + at_least_zero(reading.1),
                ),
    {
        let (secs, nanos) = read_monotonic();
        Timestamp::from_timespec(secs, nanos)
    }
}

/// A process-wide [`SteadyClock`].
pub fn default_clock() -> (clock: &'static SteadyClock)
    ensures
        *clock == (SteadyClock {  }),
{
    &SteadyClock {  }
}

/// A clock whose time only moves when it is moved.
#[derive(Debug)]
pub struct ManualClock {
    /// The time it shows, in nanoseconds.
    pub nanos: u64,
}

impl ManualClock {
    /// A clock frozen at zero.
    pub fn new() -> (clock: Self)
        ensures
            clock.nanos == 0,
    {
        ManualClock { nanos: 0 }
    }

    /// A clock frozen at `start`.
    pub fn starting_at(start: Timestamp) -> (clock: Self)
        ensures
            clock.nanos == start.nanos,
    {
        ManualClock { nanos: start.as_nanos() }
    }

    /// Move the clock forward by `delta`, saturating at `u64::MAX` nanoseconds.
    pub fn advance(&mut self, delta: Duration)
        ensures
            final(self).nanos == saturated(old(self).nanos + duration_nanos(delta)),
            final(self).nanos >= old(self).nanos,
    {
        self.nanos = self.nanos.saturating_add(saturating_nanos(delta));
    }

    /// Jump the clock to `at`, backwards if need be.
    pub fn set(&mut self, at: Timestamp)
        ensures
            final(self).nanos == at.nanos,
    {
        self.nanos = at.as_nanos();
    }
}

impl Default for ManualClock {
    fn default() -> (clock: Self)
        ensures
            clock.nanos == 0,
    {
        ManualClock { nanos: 0 }
    }
}

impl Clock for ManualClock {
    fn now(&self) -> (at: Timestamp)
        ensures
            at.nanos == self.nanos,
    {
        Timestamp::from_nanos(self.nanos)
    }
}

// --- laws --------------------------------------------------------------------

/// Moving later never moves back, and moving earlier never moves on.
pub proof fn law_arithmetic_never_wraps(at: Timestamp, span: Duration)
    ensures
        at.later(span).nanos >= at.nanos,
        at.earlier(span).nanos <= at.nanos,
{
}

/// Moving by a span and taking the interval back gives the span, as long as
/// the timeline can hold the later point.
pub proof fn law_interval_inverts_addition(at: Timestamp, span: Duration)
    requires
        at.nanos + duration_nanos(span) <= u64::MAX,
    ensures
        saturated(at.later(span).nanos - at.nanos) == duration_nanos(span),
        at.later(span).earlier(span) == at,
{
}

/// The two shapes the kernel reports agree on every instant both can name.
pub proof fn law_timespec_and_timeval_agree(secs: i64, micros: i64)
    requires
        i64::MIN <= micros * 1_000 <= i64::MAX,
    ensures
        saturated(at_least_zero(secs) * 1_000_000_000 + at_least_zero((micros * 1_000) as i64))
            == saturated(at_least_zero(secs) * 1_000_000_000 + at_least_zero(micros) * 1_000),
{
}

/// A later reading never gives an earlier timestamp, as long as the earlier
/// reading is not negative: what lies before the zero point is cut off there.
pub proof fn law_later_readings_are_not_earlier(
    secs: i64,
    nanos: i64,
    later_secs: i64,
    later_nanos: i64,
)
    requires
        secs >= 0,
        nanos >= 0,
        secs * 1_000_000_000 + nanos <= later_secs * 1_000_000_000 + later_nanos,
    ensures
        saturated(at_least_zero(secs) * 1_000_000_000 + at_least_zero(nanos)) <= saturated(
            at_least_zero(later_secs) * 1_000_000_000 + at_least_zero(later_nanos),
        ),
{
}

/// Moving along the timeline adds or takes away exactly the span, and stops at the
/// ends of the timeline rather than going past them.
pub proof fn law_moving_stops_at_the_ends(at: Timestamp, span: Duration)
    ensures
        at.nanos + duration_nanos(span) <= u64::MAX ==> at.later(span).nanos == at.nanos
            + duration_nanos(span),
        at.nanos + duration_nanos(span) > u64::MAX ==> at.later(span).nanos == u64::MAX,
        at.nanos >= duration_nanos(span) ==> at.earlier(span).nanos == at.nanos - duration_nanos(
            span,
        ),
        at.nanos < duration_nanos(span) ==> at.earlier(span).nanos == 0,
{
}

/// A reading in seconds and nanoseconds, or seconds and microseconds, is that many
/// nanoseconds; a negative part counts as none.
pub proof fn law_readings_are_nanoseconds(secs: i64, small: i64, from_spec: Timestamp, from_val: Timestamp)
    requires
        call_ensures(Timestamp::from_timespec, (secs, small), from_spec),
        call_ensures(Timestamp::from_timeval, (secs, small), from_val),
        0 <= secs,
        0 <= small,
    ensures
        secs * 1_000_000_000 + small <= u64::MAX ==> from_spec.nanos == secs * 1_000_000_000
            + small,
        secs * 1_000_000_000 + small * 1_000 <= u64::MAX ==> from_val.nanos == secs * 1_000_000_000
            + small * 1_000,
        secs * 1_000_000_000 + small > u64::MAX ==> from_spec.nanos == u64::MAX,
        secs * 1_000_000_000 + small * 1_000 > u64::MAX ==> from_val.nanos == u64::MAX,
{
}

/// The time from one point to a later one is their difference, and none the other
/// way round unless it is asked for.
pub proof fn law_intervals_are_differences(
    later: Timestamp,
    earlier: Timestamp,
    saturating: Duration,
    checked: Option<Duration>,
)
    requires
        call_ensures(Timestamp::saturating_duration_since, (later, earlier), saturating),
        call_ensures(Timestamp::checked_duration_since, (later, earlier), checked),
    ensures
        later.nanos >= earlier.nanos ==> duration_nanos(saturating) == later.nanos - earlier.nanos
            && checked is Some && duration_nanos(checked->0) == later.nanos - earlier.nanos,
        later.nanos < earlier.nanos ==> duration_nanos(saturating) == 0 && checked is None,
{
}

} // verus!
