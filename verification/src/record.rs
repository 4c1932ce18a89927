use vstd::prelude::*;

verus! {

/// A UTC instant carried by every event record, kept as the plain
/// calendar and clock fields that the dataset's timestamp column spells out.
#[derive(Clone, Copy, Debug, PartialEq, Eq, Structural)]
pub struct Timestamp {
    pub year: u32,
    pub month: u32,
    pub day: u32,
    pub hour: u32,
    pub minute: u32,
    pub second: u32,
    /// Fractional part of the second, in microseconds.
    pub micros: u32,
}

/// True for years with a February 29th in the proleptic Gregorian calendar.
pub open spec fn spec_is_leap_year(year: int) -> bool {
    year % 4 == 0 && (year % 100 != 0 || year % 400 == 0)
}

/// Number of days of month `month` of year `year` (month counted from 1).
pub open spec fn spec_days_in_month(year: int, month: int) -> int {
    if month == 2 {
        if spec_is_leap_year(year) {
            29
        } else {
            28
        }
    } else if month == 4 || month == 6 || month == 9 || month == 11 {
        30
    } else {
        31
    }
}

impl Timestamp {
    /// A timestamp is well formed when every field lies in its calendar
    /// or clock range; the day range depends on month and leap year.
    pub open spec fn well_formed(self) -> bool {
        &&& 1 <= self.month <= 12
        &&& 1 <= self.day <= spec_days_in_month(self.year as int, self.month as int)
        &&& self.hour <= 23
        &&& self.minute <= 59
        &&& self.second <= 59
        &&& self.micros <= 999999
    }
}

pub fn is_leap_year(year: u32) -> (r: bool)
    ensures
        r == spec_is_leap_year(year as int),
{
    year % 4 == 0 && (year % 100 != 0 || year % 400 == 0)
}

pub fn days_in_month(year: u32, month: u32) -> (r: u32)
    requires
        1 <= month <= 12,
    ensures
        r == spec_days_in_month(year as int, month as int),
{
    if month == 2 {
        if is_leap_year(year) {
            29
        } else {
            28
        }
    } else if month == 4 || month == 6 || month == 9 || month == 11 {
        30
    } else {
        31
    }
}

/// Where on the canvas an event applied: a single coordinate or an
/// axis-aligned rectangle, told apart at parse time by field count.
#[derive(Clone, Copy, Debug, PartialEq, Eq, Structural)]
pub enum Fill {
    One { x: u32, y: u32 },
    Rect { x1: u32, y1: u32, x2: u32, y2: u32 },
}

/// One fully parsed CSV event record. A `Pixel` is only ever produced
/// whole: every field comes from a successfully parsed line.
pub struct Pixel {
    pub timestamp: Timestamp,
    /// The raw author label exactly as it stood on the line; kept so the
    /// index builder can compare labels when two of them share a digest.
    pub user_hash: String,
    /// The 64-bit digest derived from `user_hash`.
    pub user_id: u64,
    pub color: [u8; 3],
    pub fill: Fill,
}

} // verus!
