//! The two clocks of the relay: wall-clock seconds and a monotonic counter.

use std::time::{Duration, Instant, SystemTime, SystemTimeError};
use vstd::prelude::*;

verus! {

/// A reading of the monotonic clock, carried through unread.
#[verifier::external_type_specification]
#[verifier::external_body]
pub struct ExInstant(Instant);

/// A reading of the wall clock, carried through unread.
#[verifier::external_type_specification]
#[verifier::external_body]
pub struct ExSystemTime(SystemTime);

/// That a wall-clock reading lies before the one it is measured from.
#[verifier::external_type_specification]
#[verifier::external_body]
pub struct ExSystemTimeError(SystemTimeError);

/// `SystemTime::now` reads the wall clock. Nothing is claimed of the reading.
pub assume_specification[ SystemTime::now ]() -> SystemTime
;

/// The span from the Unix epoch to a wall-clock reading, where the reading
/// does not lie before the epoch.
pub uninterp spec fn span_since_epoch(t: SystemTime) -> Option<Duration>;

/// `SystemTime::duration_since`, measured from `UNIX_EPOCH`: the span from the
/// epoch to the reading, or an error where the reading lies before it. Which
/// of the two, and which span, depends on the reading alone.
#[verifier::external_body]
fn since_unix_epoch(t: SystemTime) -> (r: Result<Duration, SystemTimeError>)
    ensures
        (match r {
            Ok(d) => Some(d),
            Err(_) => None,
        }) == span_since_epoch(t),
{
    t.duration_since(std::time::UNIX_EPOCH)
}

/// The nanoseconds of a span.
pub uninterp spec fn nanos_of(d: Duration) -> u128;

/// `Duration::as_nanos` gives the whole span in nanoseconds. A span holds at
/// most `u64::MAX` seconds and less than one second more.
pub assume_specification[ Duration::as_nanos ](d: &Duration) -> (n: u128)
    ensures
        n == nanos_of(*d),
        n < (u64::MAX as u128 + 1) * 1_000_000_000,
;

/// `Duration::as_secs` gives the whole seconds of the span.
pub assume_specification[ Duration::as_secs ](d: &Duration) -> (n: u64)
    ensures
        n == nanos_of(*d) / 1_000_000_000,
;

/// `Instant::now` reads the monotonic clock. Nothing is claimed of the reading.
pub assume_specification[ Instant::now ]() -> Instant
;

/// The span from one monotonic reading to another.
pub uninterp spec fn span_between(earlier: Instant, later: Instant) -> Duration;

/// `Instant::duration_since` gives the span between two readings, zero where
/// the first is the later one. It depends on the two readings alone.
pub assume_specification[ Instant::duration_since ](i: &Instant, earlier: Instant) -> (d: Duration)
    ensures
        d == span_between(earlier, *i),
;

/// The whole seconds from the Unix epoch to a wall-clock reading; zero where
/// the reading lies before the epoch.
pub open spec fn unix_seconds_at(t: SystemTime) -> u128 {
    match span_since_epoch(t) {
        Some(d) => nanos_of(d) / 1_000_000_000,
        None => 0,
    }
}

/// Seconds since the Unix epoch, by a reading that the wall clock gave; zero
/// where the reading lies before the epoch.
pub fn unix_seconds() -> (n: u64)
    ensures
        exists|t: SystemTime|
            call_ensures(SystemTime::now, (), t) && n == #[trigger] unix_seconds_at(t),
{
    let clock = SystemTime::now;
    let t: SystemTime = clock();
    let n: u64 = match since_unix_epoch(t) {
        Ok(d) => d.as_secs(),
        Err(_) => 0,
    };
    assert(n == unix_seconds_at(t));
    n
}

/// The largest reading of a monotonic counter, and one more.
pub open spec fn nanos_limit() -> int {
    (u64::MAX + 1) * 1_000_000_000
}

/// The nanoseconds from one monotonic reading to another.
pub open spec fn nanos_between(earlier: Instant, later: Instant) -> u128 {
    nanos_of(span_between(earlier, later))
}

/// The time between two readings is that of the span between them.
pub proof fn law_time_between_readings_is_their_span(earlier: Instant, later: Instant)
    ensures
        nanos_between(earlier, later) == nanos_of(span_between(earlier, later)),
{
}

/// The seconds of a wall-clock reading are the whole ones of its span since the
/// epoch, and none before it.
pub proof fn law_unix_seconds_are_whole(t: SystemTime)
    ensures
        span_since_epoch(t) matches Some(d) ==> unix_seconds_at(t) * 1_000_000_000 <= nanos_of(d)
            < (unix_seconds_at(t) + 1) * 1_000_000_000,
        span_since_epoch(t) is None ==> unix_seconds_at(t) == 0,
{
}

/// Nanoseconds from `start` to a reading that the monotonic clock gave.
pub fn nanos_since(start: Instant) -> (n: u128)
    ensures
        exists|reading: Instant|
            call_ensures(Instant::now, (), reading) && n == #[trigger] nanos_between(
                start,
                reading,
            ),
        n < nanos_limit(),
{
    let clock = Instant::now;
    let reading: Instant = clock();
    let n: u128 = reading.duration_since(start).as_nanos();
    assert(n == nanos_between(start, reading));
    n
}

} // verus!
