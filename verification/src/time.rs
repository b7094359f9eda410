//! Moments and spans of time as plain integers.
use vstd::prelude::*;

verus! {

/// A moment, in nanoseconds since the Unix epoch (negative before it).
pub type Timestamp = i128;

/// A length of time, in nanoseconds.
pub type Span = u128;

/// Nanoseconds in a second.
pub const NANOS_PER_SEC: u128 = 1_000_000_000;

/// The latest moment that a 64-bit system clock can hold: the last nanosecond of
/// its last second.
pub const MAX_TIMESTAMP: i128 = 9_223_372_036_854_775_807_999_999_999;

/// The earliest moment that a 64-bit system clock can hold.
pub const MIN_TIMESTAMP: i128 = -9_223_372_036_854_775_808_000_000_000;

/// The longest span: the last nanosecond of 64 unsigned bits of seconds.
pub const MAX_SPAN: u128 = 18_446_744_073_709_551_615_999_999_999;

/// The clock difference between hosts that is tolerated, in seconds.
pub const MAX_CLOCK_SKEW_SECS: u64 = 300;

/// The moment is one that the system clock can hold.
pub open spec fn representable(t: int) -> bool {
    MIN_TIMESTAMP <= t <= MAX_TIMESTAMP
}

/// The span of a whole number of seconds.
pub fn secs(n: u64) -> (r: Span)
    ensures
        r == n * NANOS_PER_SEC,
        r <= MAX_SPAN,
{
    n as u128 * NANOS_PER_SEC
}

/// The moment a whole number of seconds after the epoch, unless the clock
/// cannot hold it.
pub fn from_epoch_secs(n: u64) -> (r: Option<Timestamp>)
    ensures
        r == (if representable(n * NANOS_PER_SEC) {
            Some((n * NANOS_PER_SEC) as i128)
        } else {
            None::<Timestamp>
        }),
{
    checked_add(0, secs(n))
}

/// The moment `span` after `t`, unless the clock cannot hold it.
pub fn checked_add(t: Timestamp, span: Span) -> (r: Option<Timestamp>)
    requires
        representable(t as int),
        span <= MAX_SPAN,
    ensures
        r == (if representable(t + span) {
            Some((t + span) as i128)
        } else {
            None::<Timestamp>
        }),
{
    let sum: i128 = t + span as i128;
    if sum <= MAX_TIMESTAMP {
        Some(sum)
    } else {
        None
    }
}

} // verus!
