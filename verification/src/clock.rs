//! The time, from the system clock.

use std::time::{Duration, SystemTime, SystemTimeError};
use vstd::prelude::*;

verus! {

/// A reading of the system clock.
#[verifier::external_type_specification]
#[verifier::external_body]
pub struct ExSystemTime(std::time::SystemTime);

/// The error of asking how much earlier a later time is.
#[verifier::external_type_specification]
#[verifier::external_body]
pub struct ExSystemTimeError(std::time::SystemTimeError);

/// How many nanoseconds a reading of the clock lies behind the start of 1970;
/// negative where it lies before.
pub uninterp spec fn reading_nanos(reading: SystemTime) -> int;

/// How many nanoseconds a span of time has.
pub uninterp spec fn span_nanos(span: Duration) -> nat;

/// `SystemTime::now` reads the system clock. Nothing is claimed of what it reads.
pub assume_specification[ std::time::SystemTime::now ]() -> (result: SystemTime)
;

/// `SystemTime::duration_since` the start of 1970: the span from there to the
/// reading, and an error exactly where the reading lies before that.
#[verifier::external_body]
fn since_epoch(now: SystemTime) -> (result: Result<Duration, SystemTimeError>)
    ensures
        match result {
            Ok(span) => span_nanos(span) == reading_nanos(now),
            Err(_) => reading_nanos(now) < 0,
        },
{
    now.duration_since(std::time::UNIX_EPOCH)
}

/// `Duration::as_secs` gives the whole seconds that a span of time has.
pub assume_specification[ std::time::Duration::as_secs ](span: &Duration) -> (result: u64)
    ensures
        result == span_nanos(*span) / 1_000_000_000,
;

/// The timestamp that `seconds` since the start of 1970 make: a clock that
/// stands before 1970 (`None`) counts as 1970, and what an `i64` does not hold
/// wraps around.
pub open spec fn timestamp_of(seconds: Option<u64>) -> int {
    match seconds {
        Some(n) => if n <= i64::MAX {
            n as int
        } else {
            n as int - 0x1_0000_0000_0000_0000
        },
        None => 0,
    }
}

/// The timestamp that `seconds` since the start of 1970 make.
pub fn unix_from(seconds: Option<u64>) -> (unix: i64)
    ensures
        unix == timestamp_of(seconds),
        seconds is None ==> unix == 0,
        seconds matches Some(n) ==> n <= i64::MAX ==> unix == n,
        seconds matches Some(n) ==> n > i64::MAX ==> unix == n - 0x1_0000_0000_0000_0000,
{
    match seconds {
        Some(n) => {
            if n <= i64::MAX as u64 {
                n as i64
            } else {
                let below: u64 = u64::MAX - n;
                -1 - (below as i64)
            }
        },
        None => 0,
    }
}

/// The timestamp of a reading of the clock: the whole seconds since the start of
/// 1970, and 0 for a clock that stands before that.
pub open spec fn timestamp_of_reading(reading: SystemTime) -> int {
    let nanos = reading_nanos(reading);
    timestamp_of(
        if nanos >= 0 {
            Some((nanos / 1_000_000_000) as u64)
        } else {
            None
        },
    )
}

/// The Unix timestamp of this moment: that of a reading of the system clock,
/// which may stand at any time.
pub(crate) fn unix_now() -> (unix: i64)
    ensures
        exists|reading: SystemTime| unix == #[trigger] timestamp_of_reading(reading),
{
    let now = SystemTime::now();
    let ghost reading = now;
    let seconds: Option<u64> = match since_epoch(now) {
        Ok(span) => Some(span.as_secs()),
        Err(_) => None,
    };
    let unix = unix_from(seconds);
    assert(unix == timestamp_of_reading(reading));
    unix
}

} // verus!
