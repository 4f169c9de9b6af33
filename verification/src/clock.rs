//! The system clock, read as a UTC instant.

use vstd::prelude::*;
use std::time::SystemTime;
use crate::records::{Stamp, EARLIEST_TIMESTAMP, LATEST_TIMESTAMP};

verus! {

/// `std::time::SystemTime`: an instant of the system clock, carried through unread.
#[verifier::external_type_specification]
#[verifier::external_body]
pub struct ExSystemTime(SystemTime);

/// `SystemTime::now` reads the system clock; nothing is stated of what it reads.
pub assume_specification[ SystemTime::now ]() -> (t: SystemTime);

/// `SystemTime::duration_since(UNIX_EPOCH)`, as whole seconds and the
/// nanoseconds within the second: `None` when `t` is before the epoch. Only
/// that the nanoseconds stay below one second is stated, as `Duration`
/// guarantees; how far `t` lies from the epoch is the clock's.
#[verifier::external_body]
fn since_unix_epoch(t: &SystemTime) -> (r: Option<(u64, u32)>)
    ensures
        r matches Some(p) ==> p.1 < 1_000_000_000,
{
    match t.duration_since(std::time::UNIX_EPOCH) {
        Ok(d) => Some((d.as_secs(), d.subsec_nanos())),
        Err(_) => None,
    }
}

/// `chrono::DateTime::<Utc>::from_timestamp(secs, nanos)`, read back with
/// `timestamp` and `timestamp_subsec_nanos`: the same two numbers, when the
/// second lies in chrono's range of dates and the nanoseconds are below one
/// second, or below two seconds in a second that ends a minute (a leap second).
#[verifier::external_body]
fn utc_from_timestamp(secs: i64, nanos: u32) -> (r: Option<Stamp>)
    ensures
        r.is_some() <==> (EARLIEST_TIMESTAMP <= secs <= LATEST_TIMESTAMP && (nanos < 1_000_000_000
            || (nanos < 2_000_000_000 && secs % 60 == 59))),
        r matches Some(s) ==> s.secs == secs && s.nanos == nanos,
{
    match chrono::DateTime::<chrono::Utc>::from_timestamp(secs, nanos) {
        Some(t) => Some(Stamp { secs: t.timestamp(), nanos: t.timestamp_subsec_nanos() }),
        None => None,
    }
}

/// Why the clock gave no UTC instant.
#[derive(Debug, Clone, Copy, PartialEq, Eq, Structural)]
pub enum ClockError {
    /// The clock reads before the Unix epoch.
    BeforeEpoch,
    /// The clock reads past the last date a UTC date-time can hold.
    OutOfRange,
}

/// The UTC instant `secs` seconds and `nanos` nanoseconds after the Unix
/// epoch, as `chrono::Utc::now` turns a clock reading into a date-time; an
/// error where it would panic, past the last date it can hold.
pub fn utc_from_unix(secs: u64, nanos: u32) -> (r: Result<Stamp, ClockError>)
    requires
        nanos < 1_000_000_000,
    ensures
        r is Ok <==> secs <= LATEST_TIMESTAMP,
        r matches Ok(s) ==> s.secs == secs && s.nanos == nanos,
        r matches Err(e) ==> e == ClockError::OutOfRange,
{
    if secs > i64::MAX as u64 {
        return Err(ClockError::OutOfRange);
    }
    match utc_from_timestamp(secs as i64, nanos) {
        Some(s) => Ok(s),
        None => Err(ClockError::OutOfRange),
    }
}

/// The current instant in UTC, read as `chrono::Utc::now` reads it, with an
/// error where that function would panic: `BeforeEpoch` when the clock reads
/// before the Unix epoch, otherwise what `utc_from_unix` makes of the reading.
pub fn utc_now() -> (r: Result<Stamp, ClockError>)
    ensures
        r matches Ok(t) ==> 0 <= t.secs <= LATEST_TIMESTAMP && t.nanos < 1_000_000_000,
{
    let t = SystemTime::now();
    match since_unix_epoch(&t) {
        None => Err(ClockError::BeforeEpoch),
        Some((secs, nanos)) => utc_from_unix(secs, nanos),
    }
}

} // verus!
