//! What the time zone database knows: which names are zones, and how far a
//! zone's clocks are from UTC.

use crate::civil::MAX_SECONDS;
use chrono::{Offset, TimeZone};
use vstd::prelude::*;

verus! {

/// Where a zone's clocks stand against UTC at a wall-clock time of the
/// zone.
#[derive(Clone, Copy, Debug, PartialEq, Eq, Structural)]
pub enum LocalOffset {
    /// The zone's clocks never showed the time: they were set forward
    /// past it.
    Skipped,
    /// The zone's clocks showed the time once, running this many seconds
    /// ahead of UTC.
    Single(i32),
    /// The zone's clocks showed the time twice: they were set back over
    /// it.
    Repeated,
}

/// Whether the time zone database has a zone of the name `name`.
pub uninterp spec fn zone_known(name: Seq<char>) -> bool;

/// What the time zone database says of the zone `name` at the wall-clock
/// time that is `local_seconds` seconds after 1 January 1970 00:00:00 on
/// the zone's own clocks.
pub uninterp spec fn zone_offset(name: Seq<char>, local_seconds: int) -> LocalOffset;

/// Whether `name` is a zone of the time zone database.
///
/// Calls `<chrono_tz::Tz as FromStr>::from_str`, which looks the name up in
/// the table compiled into `chrono_tz`. The contract says only that the
/// answer is a function of the name.
#[verifier::external_body]
pub(crate) fn is_known_zone(name: &str) -> (known: bool)
    ensures
        known == zone_known(name@),
{
    name.parse::<chrono_tz::Tz>().is_ok()
}

/// The offset of the zone `name` at a wall-clock time of the zone.
///
/// Calls `<chrono_tz::Tz as chrono::TimeZone>::offset_from_local_datetime`,
/// which searches the zone's table of transitions for the time, and reads
/// the seconds of the offset it finds with `Offset::fix` and
/// `FixedOffset::local_minus_utc`. The contract says only that the answer
/// is a function of the name and the time. The name has to be a zone, and
/// the time has to lie within `MAX_SECONDS` of 1970, which is within the
/// years that `chrono::DateTime::from_timestamp` accepts.
#[verifier::external_body]
pub(crate) fn offset_at_local(name: &str, local_seconds: i64) -> (offset: LocalOffset)
    requires
        zone_known(name@),
        -MAX_SECONDS <= local_seconds <= MAX_SECONDS,
    ensures
        offset == zone_offset(name@, local_seconds as int),
{
    let zone = name.parse::<chrono_tz::Tz>().unwrap_or_default();
    let local = chrono::DateTime::from_timestamp(local_seconds, 0).unwrap_or_default();
    match zone.offset_from_local_datetime(&local.naive_utc()) {
        chrono::MappedLocalTime::None => LocalOffset::Skipped,
        chrono::MappedLocalTime::Single(offset) => LocalOffset::Single(
            offset.fix().local_minus_utc(),
        ),
        chrono::MappedLocalTime::Ambiguous(_, _) => LocalOffset::Repeated,
    }
}

} // verus!
