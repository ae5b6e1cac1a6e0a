//! The system clock, read as time since the Unix epoch.

use std::time::SystemTime;

use vstd::prelude::*;

verus! {

/// `std::time::SystemTime`, a reading of the clock.
#[verifier::external_type_specification]
#[verifier::external_body]
pub struct ExSystemTime(SystemTime);

/// `SystemTime::now` reads the clock: any time may come back.
pub assume_specification[ SystemTime::now ]() -> SystemTime
;

/// `SystemTime::duration_since` of the Unix epoch, as whole seconds and the
/// nanoseconds of the second begun; none for a time before the epoch.
#[verifier::external_body]
fn since_epoch(t: SystemTime) -> (r: Option<(u64, u32)>)
    ensures
        r matches Some((_, nanos)) ==> nanos < 1_000_000_000,
{
    t.duration_since(std::time::UNIX_EPOCH).ok().map(|d| (d.as_secs(), d.subsec_nanos()))
}

/// Seconds since the epoch, zero for a time before it.
pub open spec fn seconds_of(since: Option<(u64, u32)>) -> u64 {
    match since {
        Some((secs, _)) => secs,
        None => 0,
    }
}

/// Milliseconds since the epoch, zero for a time before it.
pub open spec fn millis_of(since: Option<(u64, u32)>) -> i64 {
    match since {
        Some((secs, nanos)) => (secs * 1000 + nanos / 1_000_000) as u128 as i64,
        None => 0,
    }
}

/// Seconds since the epoch, zero for a time before it.
pub fn unix_seconds(since: Option<(u64, u32)>) -> (r: u64)
    ensures
        r == seconds_of(since),
        since matches Some((secs, _)) ==> r == secs,
        since is None ==> r == 0,
{
    match since {
        Some((secs, _)) => secs,
        None => 0,
    }
}

/// Milliseconds since the epoch, zero for a time before it.
pub fn unix_millis(since: Option<(u64, u32)>) -> (r: i64)
    ensures
        r == millis_of(since),
        since matches Some((secs, nanos)) ==> secs * 1000 + nanos / 1_000_000 <= i64::MAX ==> r
            == secs * 1000 + nanos / 1_000_000,
        since is None ==> r == 0,
{
    match since {
        Some((secs, nanos)) => {
            let ms: u128 = secs as u128 * 1000 + (nanos / 1_000_000) as u128;
            ms as i64
        },
        None => 0,
    }
}

/// The system clock's time since the epoch, none where it stands before it.
pub(crate) fn read() -> (r: Option<(u64, u32)>)
    ensures
        r matches Some((_, nanos)) ==> nanos < 1_000_000_000,
{
    since_epoch(SystemTime::now())
}

} // verus!
