//! The proleptic Gregorian calendar: lengths of months and years, and the
//! number of a day counted from 1 January 1970.

use crate::instant::Instant;
use vstd::prelude::*;

verus! {

/// Seconds in a day.
pub const SECONDS_PER_DAY: i64 = 86_400;

/// No day that the fields of a date can name is numbered further from
/// 1 January 1970 than this.
pub const MAX_DAYS: i64 = 24_000_000;

/// No time that the fields of a date and time can name lies more seconds
/// from 1 January 1970 00:00:00 than this.
pub const MAX_SECONDS: i64 = 2_100_000_000_000;

/// Whether `year` is a leap year.
pub open spec fn leap_year(year: int) -> bool {
    year % 4 == 0 && (year % 100 != 0 || year % 400 == 0)
}

/// Days in `year`.
pub open spec fn year_length(year: int) -> int {
    if leap_year(year) {
        366
    } else {
        365
    }
}

/// Days in month `month` of `year`, where `month` is 1 to 12.
pub open spec fn month_length(year: int, month: int) -> int {
    if month == 2 {
        if leap_year(year) {
            29
        } else {
            28
        }
    } else if month == 4 || month == 6 || month == 9 || month == 11 {
        30
    } else {
        31
    }
}

/// Days from 1 January 1970 to 1 January of `year`; negative before 1970.
pub open spec fn days_to_year(year: int) -> int
    decreases
            (if year >= 1970 {
                year - 1970
            } else {
                1970 - year
            }),
{
    if year == 1970 {
        0
    } else if year > 1970 {
        days_to_year(year - 1) + year_length(year - 1)
    } else {
        days_to_year(year + 1) - year_length(year)
    }
}

/// Days from 1 January of `year` to the first day of `month` in it.
pub open spec fn days_to_month(year: int, month: int) -> int
    decreases month,
{
    if month <= 1 {
        0
    } else {
        days_to_month(year, month - 1) + month_length(year, month - 1)
    }
}

/// Whether `year`, `month`, `day` name a day of the calendar.
pub open spec fn valid_date(year: int, month: int, day: int) -> bool {
    1 <= month <= 12 && 1 <= day <= month_length(year, month)
}

/// The number of the day `year`-`month`-`day`, counted from 1 January 1970,
/// which is day 0.
pub open spec fn day_number(year: int, month: int, day: int) -> int {
    days_to_year(year) + days_to_month(year, month) + day - 1
}

/// Each year starts as many days after the one before as that one is long.
pub proof fn lemma_days_to_year_step(year: int)
    ensures
        days_to_year(year + 1) == days_to_year(year) + year_length(year),
{
    if year >= 1970 {
        assert(days_to_year(year + 1) == days_to_year(year) + year_length(year));
    } else {
        assert(days_to_year(year) == days_to_year(year + 1) - year_length(year));
    }
}

/// The leap years from year 1 to `year`, counted; for a year before 1,
/// less the leap years from there to year 0.
pub open spec fn leap_years_to(year: int) -> int {
    year / 4 - year / 100 + year / 400
}

/// How many multiples of 4 lie at or below a year grows by one at each
/// multiple.
proof fn lemma_fours_step(year: int)
    ensures
        year / 4 == (year - 1) / 4 + if year % 4 == 0 {
            1int
        } else {
            0
        },
{
}

/// How many multiples of 100 lie at or below a year grows by one at each
/// multiple, which is a multiple of 4 too.
proof fn lemma_hundreds_step(year: int)
    ensures
        year / 100 == (year - 1) / 100 + if year % 100 == 0 {
            1int
        } else {
            0
        },
        year % 100 == 0 ==> year % 4 == 0,
{
}

/// How many multiples of 400 lie at or below a year grows by one at each
/// multiple, which is a multiple of 100 too.
proof fn lemma_four_hundreds_step(year: int)
    ensures
        year / 400 == (year - 1) / 400 + if year % 400 == 0 {
            1int
        } else {
            0
        },
        year % 400 == 0 ==> year % 100 == 0,
{
}

/// The count of leap years grows by one at each leap year, and only there.
pub proof fn lemma_leap_years_step(year: int)
    ensures
        leap_years_to(year) == leap_years_to(year - 1) + if leap_year(year) {
            1int
        } else {
            0
        },
{
    lemma_fours_step(year);
    lemma_hundreds_step(year);
    lemma_four_hundreds_step(year);
}

/// The count of days to a year in closed form: 365 days for each year
/// since year 1, one more for each leap year among them, less the days
/// from year 1 to 1970.
pub proof fn lemma_days_to_year_closed(year: int)
    ensures
        days_to_year(year) == 365 * (year - 1) + leap_years_to(year - 1) - 719_162,
    decreases
            (if year >= 1970 {
                year - 1970
            } else {
                1970 - year
            }),
{
    if year == 1970 {
        assert(leap_years_to(1969) == 477);
    } else if year > 1970 {
        lemma_days_to_year_closed(year - 1);
        lemma_leap_years_step(year - 1);
    } else {
        lemma_days_to_year_closed(year + 1);
        lemma_leap_years_step(year);
    }
}

/// The days before each month, as a table.
pub proof fn lemma_days_to_month_table(year: int, month: int)
    requires
        1 <= month <= 13,
    ensures
        days_to_month(year, month) == (if month == 1 {
            0int
        } else if month == 2 {
            31
        } else if month == 3 {
            59
        } else if month == 4 {
            90
        } else if month == 5 {
            120
        } else if month == 6 {
            151
        } else if month == 7 {
            181
        } else if month == 8 {
            212
        } else if month == 9 {
            243
        } else if month == 10 {
            273
        } else if month == 11 {
            304
        } else if month == 12 {
            334
        } else {
            365
        }) + (if month > 2 && leap_year(year) {
            1int
        } else {
            0
        }),
        days_to_month(year, 13) == year_length(year),
{
    reveal_with_fuel(days_to_month, 14);
}

/// Whether `year` is a leap year.
pub fn is_leap_year(year: u16) -> (leap: bool)
    ensures
        leap == leap_year(year as int),
{
    year % 4 == 0 && (year % 100 != 0 || year % 400 == 0)
}

/// Days in month `month` of `year`.
pub fn days_in_month(year: u16, month: u8) -> (days: u8)
    ensures
        days == month_length(year as int, month as int),
{
    if month == 2 {
        if is_leap_year(year) {
            29
        } else {
            28
        }
    } else if month == 4 || month == 6 || month == 9 || month == 11 {
        30
    } else {
        31
    }
}

/// Whether `year`, `month`, `day` name a day of the calendar.
pub fn is_valid_date(year: u16, month: u8, day: u8) -> (valid: bool)
    ensures
        valid == valid_date(year as int, month as int, day as int),
{
    1 <= month && month <= 12 && 1 <= day && day <= days_in_month(year, month)
}

/// Days from 1 January 1970 to 1 January of `year`.
fn days_before_year(year: u16) -> (days: i64)
    ensures
        days == days_to_year(year as int),
        -719_528 <= days <= MAX_DAYS - 400,
{
    proof {
        lemma_days_to_year_closed(year as int);
        let past = year - 1;
        assert(-1 <= past / 4 <= 16_383);
        assert(-1 <= past / 100 <= 655);
        assert(-1 <= past / 400 <= 163);
    }
    if year == 0 {
        -719_528
    } else {
        let past: i64 = (year - 1) as i64;
        365 * past + past / 4 - past / 100 + past / 400 - 719_162
    }
}

/// Days from 1 January of `year` to the first day of `month` in it.
fn days_before_month(year: u16, month: u8) -> (days: i64)
    requires
        1 <= month <= 12,
    ensures
        days == days_to_month(year as int, month as int),
        0 <= days <= 335,
{
    proof {
        lemma_days_to_month_table(year as int, month as int);
    }
    let table: i64 = if month == 1 {
        0
    } else if month == 2 {
        31
    } else if month == 3 {
        59
    } else if month == 4 {
        90
    } else if month == 5 {
        120
    } else if month == 6 {
        151
    } else if month == 7 {
        181
    } else if month == 8 {
        212
    } else if month == 9 {
        243
    } else if month == 10 {
        273
    } else if month == 11 {
        304
    } else {
        334
    };
    if month > 2 && is_leap_year(year) {
        table + 1
    } else {
        table
    }
}

/// The number of a day counted from 1 January 1970, where the calendar
/// has the day.
pub fn days_from_epoch(year: u16, month: u8, day: u8) -> (days: Option<i64>)
    ensures
        days == if valid_date(year as int, month as int, day as int) {
            Some(day_number(year as int, month as int, day as int) as i64)
        } else {
            None
        },
        days matches Some(number) ==> -MAX_DAYS <= number <= MAX_DAYS && number == day_number(
            year as int,
            month as int,
            day as int,
        ),
{
    if !is_valid_date(year, month, day) {
        return None;
    }
    proof {
        lemma_day_number_bounds(year, month, day);
    }
    Some(days_before_year(year) + days_before_month(year, month) + (day as i64 - 1))
}

/// A later year starts at least as late as the end of each earlier one.
pub proof fn lemma_days_to_year_grows(earlier: int, later: int)
    requires
        earlier < later,
    ensures
        days_to_year(earlier) + year_length(earlier) <= days_to_year(later),
    decreases later - earlier,
{
    lemma_days_to_year_step(later - 1);
    if earlier < later - 1 {
        lemma_days_to_year_grows(earlier, later - 1);
    }
}

/// Days of the calendar are numbered in the order of year, month and day.
pub proof fn lemma_day_number_ordered(
    year1: int,
    month1: int,
    day1: int,
    year2: int,
    month2: int,
    day2: int,
)
    requires
        valid_date(year1, month1, day1),
        valid_date(year2, month2, day2),
        year1 < year2 || (year1 == year2 && (month1 < month2 || (month1 == month2 && day1
            < day2))),
    ensures
        day_number(year1, month1, day1) < day_number(year2, month2, day2),
{
    lemma_days_to_month_table(year1, month1);
    lemma_days_to_month_table(year2, month2);
    if year1 < year2 {
        lemma_days_to_year_grows(year1, year2);
    }
}

/// No two days of the calendar have one number.
pub proof fn lemma_day_number_injective(
    year1: int,
    month1: int,
    day1: int,
    year2: int,
    month2: int,
    day2: int,
)
    requires
        valid_date(year1, month1, day1),
        valid_date(year2, month2, day2),
        day_number(year1, month1, day1) == day_number(year2, month2, day2),
    ensures
        year1 == year2,
        month1 == month2,
        day1 == day2,
{
    if year1 < year2 || (year1 == year2 && (month1 < month2 || (month1 == month2 && day1
        < day2))) {
        lemma_day_number_ordered(year1, month1, day1, year2, month2, day2);
    } else if !(year1 == year2 && month1 == month2 && day1 == day2) {
        lemma_day_number_ordered(year2, month2, day2, year1, month1, day1);
    }
}

/// The fields of a wall clock and calendar: a date and a time of day, with
/// no zone. Second 60 is a leap second.
#[derive(Clone, Copy, Debug, PartialEq, Eq, Structural)]
pub struct CivilDateTime {
    pub year: u16,
    pub month: u8,
    pub day: u8,
    pub hour: u8,
    pub minute: u8,
    pub second: u8,
}

impl CivilDateTime {
    /// Whether the fields name a day of the calendar and a time of that
    /// day.
    pub open spec fn valid(self) -> bool {
        &&& valid_date(self.year as int, self.month as int, self.day as int)
        &&& self.hour <= 23
        &&& self.minute <= 59
        &&& self.second <= 60
    }

    /// The seconds from 1 January 1970 00:00:00 to these fields, both read
    /// in one zone. A leap second counts as the second before it.
    pub open spec fn seconds(self) -> int {
        day_number(self.year as int, self.month as int, self.day as int) * 86_400 + self.hour
            * 3_600 + self.minute * 60 + if self.second == 60 {
            59int
        } else {
            self.second as int
        }
    }

    /// The instant at which a clock set to UTC shows these fields.
    pub open spec fn instant(self) -> Instant {
        Instant { secs: self.seconds() as i64, leap: self.second == 60 }
    }

    /// Whether the fields name a day of the calendar and a time of that
    /// day.
    pub fn is_valid(&self) -> (valid: bool)
        ensures
            valid == self.valid(),
    {
        is_valid_date(self.year, self.month, self.day) && self.hour <= 23 && self.minute <= 59
            && self.second <= 60
    }

    /// The seconds from 1 January 1970 00:00:00 to these fields, where
    /// they are valid.
    pub fn seconds_from_epoch(&self) -> (seconds: Option<i64>)
        ensures
            seconds == if self.valid() {
                Some(self.seconds() as i64)
            } else {
                None
            },
            seconds matches Some(count) ==> -MAX_SECONDS <= count <= MAX_SECONDS && count
                == self.seconds(),
    {
        if !self.is_valid() {
            return None;
        }
        let days: i64 = match days_from_epoch(self.year, self.month, self.day) {
            Some(days) => days,
            None => {
                return None;
            },
        };
        let second: i64 = if self.second == 60 {
            59
        } else {
            self.second as i64
        };
        Some(days * SECONDS_PER_DAY + self.hour as i64 * 3_600 + self.minute as i64 * 60 + second)
    }

    /// The instant at which a clock set to UTC shows these fields, where
    /// they are valid.
    pub fn to_instant(&self) -> (instant: Option<Instant>)
        ensures
            instant == if self.valid() {
                Some(self.instant())
            } else {
                None
            },
    {
        match self.seconds_from_epoch() {
            Some(secs) => Some(Instant { secs, leap: self.second == 60 }),
            None => None,
        }
    }
}

/// The fields that a clock set to UTC shows at `instant`, where the year
/// has at most the digits that the fields can hold.
pub open spec fn utc_fields(instant: Instant) -> CivilDateTime {
    choose|fields: CivilDateTime| fields.valid() && fields.instant() == instant
}

/// The days of valid dates are numbered within bounds.
pub proof fn lemma_day_number_bounds(year: u16, month: u8, day: u8)
    requires
        valid_date(year as int, month as int, day as int),
    ensures
        -MAX_DAYS <= day_number(year as int, month as int, day as int) <= MAX_DAYS,
{
    lemma_days_to_year_closed(year as int);
    lemma_days_to_month_table(year as int, month as int);
    let past = year - 1;
    assert(-1 <= past / 4 <= 16_383);
    assert(-1 <= past / 100 <= 655);
    assert(-1 <= past / 400 <= 163);
}

/// The seconds of valid fields lie within bounds, and so fit the
/// instant's counter.
pub proof fn lemma_seconds_bounds(fields: CivilDateTime)
    requires
        fields.valid(),
    ensures
        -MAX_SECONDS <= fields.seconds() <= MAX_SECONDS,
        fields.instant().secs == fields.seconds(),
{
    lemma_day_number_bounds(fields.year, fields.month, fields.day);
}

/// The day of an instant is the day of the fields that denote it.
pub proof fn lemma_instant_day(fields: CivilDateTime)
    requires
        fields.valid(),
    ensures
        fields.instant().utc_day() == day_number(
            fields.year as int,
            fields.month as int,
            fields.day as int,
        ),
{
    lemma_seconds_bounds(fields);
}

/// Different valid fields denote different instants.
pub proof fn lemma_instant_injective(a: CivilDateTime, b: CivilDateTime)
    requires
        a.valid(),
        b.valid(),
        a.instant() == b.instant(),
    ensures
        a == b,
{
    lemma_instant_day(a);
    lemma_instant_day(b);
    lemma_seconds_bounds(a);
    lemma_seconds_bounds(b);
    lemma_day_number_injective(
        a.year as int,
        a.month as int,
        a.day as int,
        b.year as int,
        b.month as int,
        b.day as int,
    );
}

/// A clock set to UTC shows, at the instant of valid fields, those fields.
pub proof fn lemma_utc_fields(fields: CivilDateTime)
    requires
        fields.valid(),
    ensures
        utc_fields(fields.instant()) == fields,
{
    let shown = utc_fields(fields.instant());
    assert(shown.valid() && shown.instant() == fields.instant());
    lemma_instant_injective(shown, fields);
}

/// Valid fields denote instants in the order of the fields.
pub proof fn lemma_instant_ordered(a: CivilDateTime, b: CivilDateTime)
    requires
        a.valid(),
        b.valid(),
        a.year < b.year || (a.year == b.year && (a.month < b.month || (a.month == b.month && (
        a.day < b.day || (a.day == b.day && (a.hour < b.hour || (a.hour == b.hour && (a.minute
            < b.minute || (a.minute == b.minute && a.second < b.second))))))))),
    ensures
        a.instant().rank() < b.instant().rank(),
{
    lemma_seconds_bounds(a);
    lemma_seconds_bounds(b);
    if a.year != b.year || a.month != b.month || a.day != b.day {
        lemma_day_number_ordered(
            a.year as int,
            a.month as int,
            a.day as int,
            b.year as int,
            b.month as int,
            b.day as int,
        );
    }
}


/// Two instants fall on one UTC day exactly when the fields that denote
/// them have one date, and an instant falls on a later day exactly when
/// its date is later.
pub proof fn lemma_day_is_date(a: CivilDateTime, b: CivilDateTime)
    requires
        a.valid(),
        b.valid(),
    ensures
        a.instant().utc_day() == b.instant().utc_day() <==> (a.year == b.year && a.month
            == b.month && a.day == b.day),
        a.instant().utc_day() < b.instant().utc_day() <==> (a.year < b.year || (a.year == b.year
            && (a.month < b.month || (a.month == b.month && a.day < b.day)))),
{
    lemma_instant_day(a);
    lemma_instant_day(b);
    if a.year < b.year || (a.year == b.year && (a.month < b.month || (a.month == b.month && a.day
        < b.day))) {
        lemma_day_number_ordered(
            a.year as int,
            a.month as int,
            a.day as int,
            b.year as int,
            b.month as int,
            b.day as int,
        );
    } else if !(a.year == b.year && a.month == b.month && a.day == b.day) {
        lemma_day_number_ordered(
            b.year as int,
            b.month as int,
            b.day as int,
            a.year as int,
            a.month as int,
            a.day as int,
        );
    }
}


} // verus!
