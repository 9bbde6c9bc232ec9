//! Instants of time and the age of a page in whole days.

use vstd::prelude::*;

verus! {

/// An instant: `secs` whole seconds and `nanos` nanoseconds after the start
/// of 1970 in UTC.
#[derive(Clone, Copy, Debug, PartialEq, Eq, Structural)]
pub struct Timestamp {
    pub secs: i64,
    pub nanos: u32,
}

/// The nanoseconds in one second.
pub const NANOS_PER_SEC: u32 = 1_000_000_000;

/// The nanoseconds in one day.
pub const NANOS_PER_DAY: u64 = 86_400_000_000_000;

impl Timestamp {
    /// The instant in nanoseconds.
    pub open spec fn total_nanos(self) -> int {
        self.secs * NANOS_PER_SEC + self.nanos
    }
}

/// The whole days from `then` to `now`; a part of a day is dropped, also
/// where `now` is the earlier of the two.
pub open spec fn whole_days(then: Timestamp, now: Timestamp) -> int {
    let d = now.total_nanos() - then.total_nanos();
    if d >= 0 {
        d / (NANOS_PER_DAY as int)
    } else {
        -((-d) / (NANOS_PER_DAY as int))
    }
}

/// Computes the whole days from `then` to `now`.
pub fn days_between(then: Timestamp, now: Timestamp) -> (r: i64)
    ensures
        r == whole_days(then, now),
{
    let a: i128 = (then.secs as i128) * 1_000_000_000 + (then.nanos as i128);
    let b: i128 = (now.secs as i128) * 1_000_000_000 + (now.nanos as i128);
    assert(a == then.total_nanos() && b == now.total_nanos());
    if b >= a {
        let d: u128 = (b - a) as u128;
        let days: u128 = d / 86_400_000_000_000;
        assert(days <= 0x7fff_ffff_ffff_ffff);
        days as i64
    } else {
        let d: u128 = (a - b) as u128;
        let days: u128 = d / 86_400_000_000_000;
        assert(days <= 0x7fff_ffff_ffff_ffff);
        -(days as i64)
    }
}

/// `std::time::SystemTime::now` reads the system clock, and chrono's
/// conversion of a system time into a `DateTime<Utc>` gives the instant,
/// also of a clock that stands before 1970; the instant has fewer than a
/// thousand million nanoseconds beside its whole seconds.
#[verifier::external_body]
fn utc_now() -> (t: Timestamp)
    ensures
        t.nanos < NANOS_PER_SEC,
{
    let now = chrono::DateTime::<chrono::Utc>::from(std::time::SystemTime::now());
    Timestamp { secs: now.timestamp(), nanos: now.timestamp_subsec_nanos() }
}

/// The present instant.
pub fn now() -> (t: Timestamp)
    ensures
        t.nanos < NANOS_PER_SEC,
{
    utc_now()
}

} // verus!
