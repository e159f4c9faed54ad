//! Readings of the two clocks, and spans of time.

use std::time::{Instant, SystemTime};

use vstd::prelude::*;

use crate::binary64::double::Double;
use crate::binary64::model::Value;

verus! {

/// How many nanoseconds make a second.
pub const NANOS_PER_SEC: u128 = 1_000_000_000;

/// Every span of time is shorter than this many nanoseconds: whole seconds fit a `u64`.
pub const SPAN_END: u128 = 0x1_0000_0000_0000_0000 * 1_000_000_000;

/// `std::time::Instant`, a reading of the monotonic clock.
#[verifier::external_type_specification]
#[verifier::external_body]
pub struct ExInstant(Instant);

/// `std::time::SystemTime`, a reading of the wall clock.
#[verifier::external_type_specification]
#[verifier::external_body]
pub struct ExSystemTime(SystemTime);

/// `Instant::now` reads the monotonic clock. Nothing is claimed of the reading.
pub assume_specification[ Instant::now ]() -> Instant
;

/// `SystemTime::now` reads the wall clock. Nothing is claimed of the reading.
pub assume_specification[ SystemTime::now ]() -> SystemTime
;

/// `Instant::elapsed`, in nanoseconds. What it returns depends on when it is called;
/// that a duration holds at most `u64::MAX` whole seconds is all that is claimed.
#[verifier::external_body]
fn elapsed_nanos(start: &Instant) -> (r: u128)
    ensures
        r < SPAN_END,
{
    start.elapsed().as_nanos()
}

/// `SystemTime::duration_since` the Unix epoch, in whole seconds; nothing for a time
/// before the epoch. A wall clock reading has no value that a clause could speak of,
/// so nothing is claimed.
#[verifier::external_body]
fn seconds_after_epoch(time: &SystemTime) -> (r: Option<u64>) {
    time.duration_since(std::time::UNIX_EPOCH).ok().map(|d| d.as_secs())
}

/// Whether a time in Unix seconds was read off the wall clock: `SystemTime::now` has returned a
/// time, and this is how long after the epoch it was found to be, or zero for one before it.
pub closed spec fn is_reading(seconds: u64) -> bool {
    exists|now: SystemTime, after_epoch: Option<u64>|
        {
            &&& #[trigger] call_ensures(SystemTime::now, (), now)
            &&& #[trigger] call_ensures(seconds_after_epoch, (&now,), after_epoch)
            &&& seconds == match after_epoch {
                Some(s) => s,
                None => 0,
            }
        }
}

/// The wall clock, in whole seconds since the Unix epoch; zero before it. The clock can
/// show any time, so any number can come back: `unix_seconds_of` says what is made of each.
pub fn unix_seconds() -> (r: u64)
    ensures
        is_reading(r),
{
    let now: SystemTime = SystemTime::now();
    let after_epoch: Option<u64> = seconds_after_epoch(&now);
    unix_seconds_of(after_epoch)
}

/// A time in Unix seconds, from how long after the epoch it is; zero for a time before it.
pub fn unix_seconds_of(after_epoch: Option<u64>) -> (r: u64)
    ensures
        r == match after_epoch {
            Some(seconds) => seconds,
            None => 0,
        },
{
    match after_epoch {
        Some(seconds) => seconds,
        None => 0,
    }
}

/// A monotonic clock that counts nanoseconds from where it was started.
#[derive(Clone, Copy, Debug)]
pub struct Clock {
    origin: Instant,
}

impl Clock {
    /// Whether the clock was started where `Instant::now` was.
    pub closed spec fn is_started(self) -> bool {
        call_ensures(Instant::now, (), self.origin)
    }

    /// Whether nanoseconds were read off this clock: `Instant::elapsed` has returned them of
    /// where the clock was started.
    pub closed spec fn shows(self, nanos: u128) -> bool {
        call_ensures(elapsed_nanos, (&self.origin,), nanos)
    }

    /// A clock that starts now. No clause speaks of when that is.
    pub fn start() -> (r: Clock)
        ensures
            r.is_started(),
    {
        Clock { origin: Instant::now() }
    }

    /// Nanoseconds since the clock was started. How many depends on when it is read; that
    /// they were read off this clock, and are a span of time, is all that holds of every
    /// reading.
    pub fn read(&self) -> (r: u128)
        ensures
            self.shows(r),
            r < SPAN_END,
    {
        elapsed_nanos(&self.origin)
    }
}

/// How much later `now` is than `then`, and zero where it is not.
pub open spec fn span(then: u128, now: u128) -> nat {
    if now >= then {
        (now - then) as nat
    } else {
        0
    }
}

/// How much later `now` is than `then`, and zero where it is not.
pub fn elapsed(then: u128, now: u128) -> (r: u128)
    ensures
        r == span(then, now),
{
    if now >= then {
        now - then
    } else {
        0
    }
}

/// A span of nanoseconds in seconds: the whole seconds, and the rest as a fraction.
pub open spec fn span_secs(nanos: nat) -> Value {
    Value::whole(nanos / 1_000_000_000).plus(
        Value::whole(nanos % 1_000_000_000).over(Value::whole(1_000_000_000)),
    )
}

/// A span of nanoseconds in seconds.
pub fn as_secs(nanos: u128) -> (r: Double)
    requires
        nanos < SPAN_END,
    ensures
        r@ == span_secs(nanos as nat),
{
    let whole: u64 = (nanos / NANOS_PER_SEC) as u64;
    let rest: u64 = (nanos % NANOS_PER_SEC) as u64;
    Double::from_u64(whole).plus(
        Double::from_u64(rest).over(Double::from_u64(1_000_000_000)),
    )
}

} // verus!
