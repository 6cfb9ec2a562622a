//! The timestamp type that journal entries carry: a local calendar date and
//! time of day together with the local offset from UTC, all held as plain
//! integers.

use vstd::prelude::*;

verus! {

/// A local timestamp: calendar date, time of day, and the local UTC offset in
/// minutes. Entries keep the full precision even though entry identifiers
/// only encode the day.
#[derive(Clone, Copy, Debug, PartialEq, Eq, Structural)]
pub struct DateTime {
    pub year: u32,
    pub month: u32,
    pub day: u32,
    pub hour: u32,
    pub minute: u32,
    pub second: u32,
    /// Offset of local time from UTC, in minutes east.
    pub offset_min: i32,
}

/// Whether a year has 366 days in the proleptic Gregorian calendar.
pub open spec fn spec_leap_year(y: int) -> bool {
    y % 4 == 0 && (y % 100 != 0 || y % 400 == 0)
}

/// The number of days of a month, for months 1 through 12.
pub open spec fn spec_days_in_month(y: int, m: int) -> int {
    if m == 2 {
        if spec_leap_year(y) {
            29
        } else {
            28
        }
    } else if m == 4 || m == 6 || m == 9 || m == 11 {
        30
    } else {
        31
    }
}

impl DateTime {
    /// A well-formed timestamp: a real calendar date with a four-digit year,
    /// a time of day, and an offset below one day in either direction.
    pub open spec fn wf(&self) -> bool {
        &&& 0 <= self.year <= 9999
        &&& 1 <= self.month <= 12
        &&& 1 <= self.day <= spec_days_in_month(self.year as int, self.month as int)
        &&& self.hour <= 23
        &&& self.minute <= 59
        &&& self.second <= 59
        &&& -1439 <= self.offset_min <= 1439
    }

    /// Checks well-formedness.
    pub fn valid(&self) -> (r: bool)
        ensures
            r == self.wf(),
    {
        let dim: u32 = days_in_month(self.year, self.month);
        self.year <= 9999 && 1 <= self.month && self.month <= 12 && 1 <= self.day && self.day
            <= dim && self.hour <= 23 && self.minute <= 59 && self.second <= 59 && -1439
            <= self.offset_min && self.offset_min <= 1439
    }
}

/// The number of days of a month, as executable code.
pub fn days_in_month(y: u32, m: u32) -> (r: u32)
    ensures
        r as int == spec_days_in_month(y as int, m as int),
{
    if m == 2 {
        if y % 4 == 0 && (y % 100 != 0 || y % 400 == 0) {
            29
        } else {
            28
        }
    } else if m == 4 || m == 6 || m == 9 || m == 11 {
        30
    } else {
        31
    }
}

} // verus!
