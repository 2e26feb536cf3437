//! Points in time and spans of time, both counted in milliseconds.

use vstd::prelude::*;

verus! {

/// A point in time: milliseconds since the Unix epoch, UTC.
#[derive(Clone, Copy, Debug, PartialEq, Eq, Structural)]
pub struct Timestamp {
    pub millis: i64,
}

/// A signed span of time in milliseconds.
#[derive(Clone, Copy, Debug, PartialEq, Eq, Structural)]
pub struct Duration {
    pub millis: i64,
}

/// Reads the system clock with `chrono::Utc::now` and converts the reading
/// with `DateTime::timestamp_millis`. Nothing is claimed of the value: two
/// calls may differ in either direction. The call does not return on a
/// machine whose clock stands before the Unix epoch.
#[verifier::external_body]
fn utc_now_millis() -> (millis: i64) {
    chrono::Utc::now().timestamp_millis()
}

impl Timestamp {
    /// The Unix epoch.
    pub fn epoch() -> (t: Self)
        ensures
            t.millis == 0,
    {
        Timestamp { millis: 0 }
    }

    pub fn from_millis(millis: i64) -> (t: Self)
        ensures
            t.millis == millis,
    {
        Timestamp { millis }
    }

    /// The current time of the system clock.
    pub fn now() -> (t: Self) {
        Timestamp { millis: utc_now_millis() }
    }

    /// The milliseconds from `earlier` to `self`; negative when `self` comes
    /// first.
    pub open spec fn since(self, earlier: Timestamp) -> int {
        self.millis - earlier.millis
    }

    /// Whether more than `limit` lies between `earlier` and `self`.
    pub fn is_later_by_more_than(self, earlier: Timestamp, limit: Duration) -> (b: bool)
        ensures
            b == (self.since(earlier) > limit.millis),
    {
        let elapsed: i128 = self.millis as i128 - earlier.millis as i128;
        elapsed > limit.millis as i128
    }
}

impl Duration {
    pub fn zero() -> (d: Self)
        ensures
            d.millis == 0,
    {
        Duration { millis: 0 }
    }

    pub fn from_millis(millis: i64) -> (d: Self)
        ensures
            d.millis == millis,
    {
        Duration { millis }
    }
}

} // verus!
