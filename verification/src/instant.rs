//! Instants of the UTC time line.

use vstd::prelude::*;

verus! {

/// A point of the UTC time line, to the second.
///
/// `secs` counts the seconds since 1 January 1970 00:00:00 UTC, leap
/// seconds not counted. An inserted leap second has the count of the second
/// before it and `leap` set, so that it differs from that second and comes
/// between it and the next.
#[derive(Clone, Copy, Debug, PartialEq, Eq, PartialOrd, Ord, Hash, Structural)]
pub struct Instant {
    pub secs: i64,
    pub leap: bool,
}

impl Instant {
    /// The place of the instant on the time line: an instant is before
    /// another exactly when its rank is smaller.
    pub open spec fn rank(self) -> int {
        2 * self.secs + if self.leap {
            1int
        } else {
            0
        }
    }

    /// The number of the UTC calendar day that holds the instant, counted
    /// from 1 January 1970.
    pub open spec fn utc_day(self) -> int {
        self.secs as int / 86_400
    }

    /// The instant `seconds` seconds after this one; before it where
    /// `seconds` is negative.
    pub open spec fn later_by(self, seconds: int) -> Instant {
        Instant { secs: (self.secs + seconds) as i64, leap: self.leap }
    }

    /// The instant of an ordinary second.
    pub fn from_seconds(secs: i64) -> (instant: Instant)
        ensures
            instant == (Instant { secs, leap: false }),
    {
        Instant { secs, leap: false }
    }

    /// Whether the instant is before `other`.
    pub fn is_before(&self, other: &Instant) -> (before: bool)
        ensures
            before == (self.rank() < other.rank()),
    {
        self.secs < other.secs || (self.secs == other.secs && !self.leap && other.leap)
    }

    /// The number of the UTC calendar day that holds the instant.
    pub fn day(&self) -> (day: i64)
        ensures
            day == self.utc_day(),
    {
        if self.secs >= 0 {
            self.secs / 86_400
        } else {
            let back: i64 = -(self.secs + 1);
            -(back / 86_400) - 1
        }
    }
}

/// Two instants of one rank are the same instant.
pub proof fn lemma_rank_injective(a: Instant, b: Instant)
    requires
        a.rank() == b.rank(),
    ensures
        a == b,
{
}

} // verus!
