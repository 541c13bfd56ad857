//! A timestamp as plain calendar fields, ordered lexicographically.
//!
//! The merge only ever compares timestamps, so the library models a point in
//! time as its wall-clock fields; conversions from external date
//! representations happen outside the library.

use vstd::prelude::*;

verus! {

/// A wall-clock timestamp. Ordering is lexicographic over
/// (year, month, day, hour, minute, second), which matches chronological
/// order for calendar-valid field values.
#[derive(Clone, Copy, Debug, PartialEq, Eq, Structural)]
pub struct Timestamp {
    pub year: i32,
    pub month: u32,
    pub day: u32,
    pub hour: u32,
    pub minute: u32,
    pub second: u32,
}

impl Timestamp {
    /// `self` is at or before `other` in lexicographic field order.
    pub open spec fn spec_le(self, other: Timestamp) -> bool {
        if self.year != other.year {
            self.year < other.year
        } else if self.month != other.month {
            self.month < other.month
        } else if self.day != other.day {
            self.day < other.day
        } else if self.hour != other.hour {
            self.hour < other.hour
        } else if self.minute != other.minute {
            self.minute < other.minute
        } else {
            self.second <= other.second
        }
    }

    /// `self` is strictly before `other`.
    pub open spec fn spec_lt(self, other: Timestamp) -> bool {
        self.spec_le(other) && self != other
    }

    /// Decides `spec_le`.
    pub fn le(&self, other: &Timestamp) -> (r: bool)
        ensures
            r == self.spec_le(*other),
    {
        if self.year != other.year {
            self.year < other.year
        } else if self.month != other.month {
            self.month < other.month
        } else if self.day != other.day {
            self.day < other.day
        } else if self.hour != other.hour {
            self.hour < other.hour
        } else if self.minute != other.minute {
            self.minute < other.minute
        } else {
            self.second <= other.second
        }
    }

    /// Decides `spec_lt`.
    pub fn lt(&self, other: &Timestamp) -> (r: bool)
        ensures
            r == self.spec_lt(*other),
    {
        self.le(other) && !other.le(self)
    }

    /// Midnight at the start of the given calendar day.
    pub fn from_ymd(year: i32, month: u32, day: u32) -> (r: Timestamp)
        ensures
            r == (Timestamp { year, month, day, hour: 0, minute: 0, second: 0 }),
    {
        Timestamp { year, month, day, hour: 0, minute: 0, second: 0 }
    }
}

/// A leap year of the Gregorian calendar.
pub open spec fn is_leap_year(y: int) -> bool {
    y % 4 == 0 && (y % 100 != 0 || y % 400 == 0)
}

/// The number of days of the given month.
pub open spec fn days_in_month(y: int, m: int) -> int {
    if m == 2 {
        if is_leap_year(y) {
            29
        } else {
            28
        }
    } else if m == 4 || m == 6 || m == 9 || m == 11 {
        30
    } else {
        31
    }
}

/// The fields name a day of the Gregorian calendar.
pub open spec fn valid_ymd(y: int, m: int, d: int) -> bool {
    1 <= m <= 12 && 1 <= d <= days_in_month(y, m)
}

/// Decides `valid_ymd` for non-negative years.
pub fn valid_ymd_check(y: i32, m: i32, d: i32) -> (r: bool)
    requires
        y >= 0,
    ensures
        r == valid_ymd(y as int, m as int, d as int),
{
    let dim: i32 = if m == 2 {
        if y % 4 == 0 && (y % 100 != 0 || y % 400 == 0) {
            29
        } else {
            28
        }
    } else if m == 4 || m == 6 || m == 9 || m == 11 {
        30
    } else {
        31
    };
    1 <= m && m <= 12 && 1 <= d && d <= dim
}

/// The lexicographic order is total: two timestamps always compare.
pub proof fn lemma_le_total(a: Timestamp, b: Timestamp)
    ensures
        a.spec_le(b) || b.spec_le(a),
        a.spec_le(b) && b.spec_le(a) ==> a == b,
{
}

/// The lexicographic order is transitive.
pub proof fn lemma_le_trans(a: Timestamp, b: Timestamp, c: Timestamp)
    ensures
        a.spec_le(b) && b.spec_le(c) ==> a.spec_le(c),
{
}

} // verus!
