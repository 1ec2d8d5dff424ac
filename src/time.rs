//! A point in time, counted in microseconds.

use vstd::prelude::*;

verus! {

pub const MICROSECOND: u64 = 1;

pub const MILLISECOND: u64 = 1_000;

pub const SECOND: u64 = 1_000_000;

pub const MINUTE: u64 = 60_000_000;

pub const HOUR: u64 = 3_600_000_000;

pub const DAY: u64 = 86_400_000_000;

/// Microseconds since the epoch.
#[derive(PartialEq, Eq, Structural, PartialOrd, Ord, Debug, Clone, Copy, Hash, Default)]
pub struct Time(pub u64);

/// A length of time in microseconds.
#[derive(PartialEq, Eq, Structural, PartialOrd, Ord, Debug, Clone, Copy, Hash)]
pub struct TimeSpan(pub u64);

impl Time {
    pub fn zero() -> (r: Self)
        ensures
            r.0 == 0,
    {
        Time(0)
    }

    pub fn is_zero(self) -> (r: bool)
        ensures
            r == (self.0 == 0),
    {
        self.0 == 0
    }

    pub fn microseconds(self) -> (r: u64)
        ensures
            r == self.0,
    {
        self.0
    }

    pub fn from_microseconds(microseconds: u64) -> (r: Self)
        ensures
            r.0 == microseconds,
    {
        Time(microseconds)
    }

    pub fn milliseconds(self) -> (r: u64)
        ensures
            r == self.0 / MILLISECOND,
    {
        self.0 / MILLISECOND
    }

    /// The caller keeps the product within `u64`.
    pub fn from_milliseconds(milliseconds: u64) -> (r: Self)
        requires
            milliseconds * MILLISECOND <= u64::MAX,
        ensures
            r.0 == milliseconds * MILLISECOND,
    {
        Time(milliseconds * MILLISECOND)
    }

    /// Whole seconds, truncated to 32 bits.
    pub fn seconds(self) -> (r: u32)
        ensures
            r == (self.0 / SECOND) as u32,
    {
        (self.0 / SECOND) as u32
    }

    pub fn from_seconds(seconds: u32) -> (r: Self)
        ensures
            r.0 == seconds * SECOND,
    {
        Time(seconds as u64 * SECOND)
    }

    /// Whole minutes, truncated to 32 bits.
    pub fn minutes(self) -> (r: u32)
        ensures
            r == (self.0 / MINUTE) as u32,
    {
        (self.0 / MINUTE) as u32
    }

    pub fn from_minutes(minutes: u32) -> (r: Self)
        ensures
            r.0 == minutes * MINUTE,
    {
        Time(minutes as u64 * MINUTE)
    }

    /// Whole hours, truncated to 32 bits.
    pub fn hours(self) -> (r: u32)
        ensures
            r == (self.0 / HOUR) as u32,
    {
        (self.0 / HOUR) as u32
    }

    pub fn from_hours(hours: u32) -> (r: Self)
        ensures
            r.0 == hours * HOUR,
    {
        Time(hours as u64 * HOUR)
    }

    /// Whole days, truncated to 32 bits.
    pub fn days(self) -> (r: u32)
        ensures
            r == (self.0 / DAY) as u32,
    {
        (self.0 / DAY) as u32
    }

    /// The caller keeps the product within `u64`.
    pub fn from_days(days: u32) -> (r: Self)
        requires
            days * DAY <= u64::MAX,
        ensures
            r.0 == days * DAY,
    {
        Time(days as u64 * DAY)
    }

    pub fn max(self, other: Self) -> (r: Self)
        ensures
            r.0 == if self.0 >= other.0 { self.0 } else { other.0 },
    {
        if self.0 >= other.0 {
            self
        } else {
            other
        }
    }

    pub fn min(self, other: Self) -> (r: Self)
        ensures
            r.0 == if self.0 <= other.0 { self.0 } else { other.0 },
    {
        if self.0 <= other.0 {
            self
        } else {
            other
        }
    }
}

impl From<u64> for Time {
    fn from(i: u64) -> (r: Self) {
        Time(i)
    }
}

impl vstd::std_specs::convert::FromSpecImpl<u64> for Time {
    open spec fn obeys_from_spec() -> bool {
        true
    }

    open spec fn from_spec(i: u64) -> Self {
        Time(i)
    }
}

impl From<Time> for u64 {
    fn from(t: Time) -> (r: Self) {
        t.0
    }
}

impl vstd::std_specs::convert::FromSpecImpl<Time> for u64 {
    open spec fn obeys_from_spec() -> bool {
        true
    }

    open spec fn from_spec(t: Time) -> Self {
        t.0
    }
}

impl From<i64> for Time {
    fn from(i: i64) -> (r: Self) {
        Time(i as u64)
    }
}

impl vstd::std_specs::convert::FromSpecImpl<i64> for Time {
    open spec fn obeys_from_spec() -> bool {
        true
    }

    open spec fn from_spec(i: i64) -> Self {
        Time(i as u64)
    }
}

impl From<Time> for i64 {
    fn from(t: Time) -> (r: Self) {
        t.0 as i64
    }
}

impl vstd::std_specs::convert::FromSpecImpl<Time> for i64 {
    open spec fn obeys_from_spec() -> bool {
        true
    }

    open spec fn from_spec(t: Time) -> Self {
        t.0 as i64
    }
}

impl From<Time> for u32 {
    fn from(t: Time) -> (r: Self) {
        t.seconds()
    }
}

impl vstd::std_specs::convert::FromSpecImpl<Time> for u32 {
    open spec fn obeys_from_spec() -> bool {
        true
    }

    open spec fn from_spec(t: Time) -> Self {
        (t.0 / SECOND) as u32
    }
}

} // verus!
