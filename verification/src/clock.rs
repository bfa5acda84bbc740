//! The time.
use std::time::SystemTime;
use vstd::prelude::*;

verus! {

/// `std::time::SystemTime`, a reading of the system clock.
#[verifier::external_type_specification]
#[verifier::external_body]
pub struct ExSystemTime(std::time::SystemTime);

/// `Duration::as_secs`: the whole seconds of a duration. Nothing is said of the number.
pub assume_specification[ core::time::Duration::as_secs ](d: &core::time::Duration) -> (r: u64)
;

/// `Duration::subsec_nanos`: the nanoseconds beyond the whole seconds, less than a second.
pub assume_specification[ core::time::Duration::subsec_nanos ](d: &core::time::Duration) -> (r: u32)
    ensures
        r < 1_000_000_000,
;

/// `SystemTime::now` reads the system clock. Nothing is said of the reading.
#[verifier::external_body]
fn read_clock() -> (r: SystemTime) {
    SystemTime::now()
}

/// `SystemTime::duration_since` the Unix epoch; an error text where the clock is before it.
/// Nothing is said of the result.
#[verifier::external_body]
fn since_epoch(t: SystemTime) -> (r: Result<core::time::Duration, String>) {
    t.duration_since(SystemTime::UNIX_EPOCH).map_err(|e| e.to_string())
}

/// The number of nanoseconds in a second.
pub const NANOS_PER_SEC: u128 = 1_000_000_000;

/// A point in time, in nanoseconds since the Unix epoch.
#[derive(Debug, Clone, Copy, PartialEq, Eq, Structural)]
pub struct Timestamp {
    pub nanos: u128,
}

/// The latest reading of a clock whose seconds are a 64-bit number.
pub open spec fn latest_reading() -> nat {
    0xffff_ffff_ffff_ffff * 1_000_000_000 + 999_999_999
}

/// A reading of the clock.
#[derive(Debug)]
pub enum ClockReading {
    /// The time.
    Time(Timestamp),
    /// The clock is before the Unix epoch; an account of that.
    BeforeEpoch(String),
}

impl ClockReading {
    /// True of a reading that a clock can give.
    pub open spec fn wf(self) -> bool {
        self matches ClockReading::Time(t) ==> t.nanos <= latest_reading()
    }

    /// The time; the epoch where the clock is before it.
    pub open spec fn time(self) -> Timestamp {
        match self {
            ClockReading::Time(t) => t,
            ClockReading::BeforeEpoch(_) => Timestamp { nanos: 0 },
        }
    }

    /// The reading of a clock that tells the seconds since the epoch and the nanoseconds beyond
    /// them, or an account of why it cannot.
    pub open spec fn told(since_epoch: Result<(u64, u32), String>) -> ClockReading {
        match since_epoch {
            Ok(d) => ClockReading::Time(
                Timestamp { nanos: (d.0 * 1_000_000_000 + d.1) as u128 },
            ),
            Err(e) => ClockReading::BeforeEpoch(e),
        }
    }

    /// The reading that a clock gives which tells the seconds since the epoch and the nanoseconds
    /// beyond them, or an account of why it cannot.
    pub fn of(since_epoch: Result<(u64, u32), String>) -> (r: Self)
        ensures
            r == Self::told(since_epoch),
    {
        match since_epoch {
            Ok(d) => ClockReading::Time(
                Timestamp { nanos: d.0 as u128 * NANOS_PER_SEC + d.1 as u128 },
            ),
            Err(e) => ClockReading::BeforeEpoch(e),
        }
    }

    /// Reads the clock.
    pub fn now() -> (r: Self)
        ensures
            r.wf(),
    {
        let since = match since_epoch(read_clock()) {
            Ok(d) => Ok((d.as_secs(), d.subsec_nanos())),
            Err(e) => Err(e),
        };
        Self::of(since)
    }

    /// The time; the epoch where the clock is before it.
    pub fn timestamp(&self) -> (r: Timestamp)
        ensures
            r == self.time(),
    {
        match self {
            ClockReading::Time(t) => *t,
            ClockReading::BeforeEpoch(_) => Timestamp { nanos: 0 },
        }
    }
}

impl Timestamp {
    /// The whole seconds since the epoch.
    pub open spec fn whole_seconds(self) -> int {
        self.nanos as int / 1_000_000_000
    }

    /// The point in time some seconds later.
    pub open spec fn later(self, secs: u32) -> Timestamp {
        Timestamp { nanos: (self.nanos + secs * 1_000_000_000) as u128 }
    }

    /// The time now; the epoch where the clock is before it.
    pub fn now() -> (r: Self)
        ensures
            r.nanos <= latest_reading(),
    {
        ClockReading::now().timestamp()
    }

    /// The whole seconds since the epoch.
    pub fn secs(&self) -> (r: u64)
        requires
            self.nanos <= latest_reading(),
        ensures
            r == self.whole_seconds(),
    {
        (self.nanos / NANOS_PER_SEC) as u64
    }

    /// The point in time some seconds later.
    pub fn plus_secs(&self, secs: u32) -> (r: Self)
        requires
            self.nanos <= latest_reading(),
        ensures
            r == self.later(secs),
            r.nanos == self.nanos + secs * 1_000_000_000,
    {
        Timestamp { nanos: self.nanos + secs as u128 * NANOS_PER_SEC }
    }
}

/// A clock that shows some seconds and less than a second beyond them is read as that many whole
/// seconds; each second later is one more. A clock before the epoch is read as the epoch.
pub proof fn law_seconds(secs: u64, nanos: u32, more: u32, account: String)
    requires
        nanos < 1_000_000_000,
    ensures
        ClockReading::told(Ok((secs, nanos))).wf(),
        ClockReading::told(Ok((secs, nanos))).time().whole_seconds() == secs,
        ClockReading::told(Ok((secs, nanos))).time().later(more).whole_seconds() == secs + more,
        ClockReading::told(Err(account)).time().nanos == 0,
{
}

} // verus!
