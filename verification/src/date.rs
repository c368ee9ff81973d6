//! Calendar dates and the month arithmetic used by the partition lifecycle.

use vstd::prelude::*;

verus! {

/// A proleptic-Gregorian calendar date with a four-digit year.
#[derive(Clone, Copy, PartialEq, Eq, Structural, Debug)]
pub struct Date {
    pub year: u32,
    pub month: u32,
    pub day: u32,
}

pub open spec fn is_leap_year(y: int) -> bool {
    y % 4 == 0 && (y % 100 != 0 || y % 400 == 0)
}

pub open spec fn spec_days_in_month(y: int, m: int) -> int {
    if m == 2 {
        if is_leap_year(y) {
            29
        } else {
            28
        }
    } else if m == 4 || m == 6 || m == 9 || m == 11 {
        30
    } else {
        31
    }
}

/// Dates the library works on: years 1 through 9999, so that the
/// four-digit-year partition naming scheme is total and injective.
pub open spec fn valid_date(d: Date) -> bool {
    &&& 1 <= d.year <= 9999
    &&& 1 <= d.month <= 12
    &&& 1 <= d.day <= spec_days_in_month(d.year as int, d.month as int)
}

/// Strict lexicographic order on (year, month, day).
pub open spec fn date_lt(a: Date, b: Date) -> bool {
    ||| a.year < b.year
    ||| (a.year == b.year && a.month < b.month)
    ||| (a.year == b.year && a.month == b.month && a.day < b.day)
}

pub open spec fn date_le(a: Date, b: Date) -> bool {
    date_lt(a, b) || a == b
}

/// Months since the calendar's origin; consecutive calendar months map to
/// consecutive indices.
pub open spec fn month_index(d: Date) -> int {
    d.year * 12 + d.month - 1
}

/// The first day of the month `n` months after `d`'s month.
pub open spec fn spec_month_start_plus(d: Date, n: int) -> Date {
    let idx = month_index(d) + n;
    Date { year: (idx / 12) as u32, month: (idx % 12 + 1) as u32, day: 1 }
}

/// The greatest date the library represents; stands in for an unbounded
/// window end on the overflow partition.
pub open spec fn spec_max_date() -> Date {
    Date { year: 9999, month: 12, day: 31 }
}

pub fn max_date() -> (d: Date)
    ensures
        d == spec_max_date(),
        valid_date(d),
{
    Date { year: 9999, month: 12, day: 31 }
}

pub fn days_in_month(year: u32, month: u32) -> (r: u32)
    requires
        1 <= month <= 12,
    ensures
        r == spec_days_in_month(year as int, month as int),
{
    if month == 2 {
        if year % 4 == 0 && (year % 100 != 0 || year % 400 == 0) {
            29
        } else {
            28
        }
    } else if month == 4 || month == 6 || month == 9 || month == 11 {
        30
    } else {
        31
    }
}

impl Date {
    /// Builds a date after validating it; `None` exactly on invalid input.
    pub fn new(year: u32, month: u32, day: u32) -> (r: Option<Date>)
        ensures
            r is Some <==> valid_date(Date { year, month, day }),
            r is Some ==> r->0 == (Date { year, month, day }),
    {
        if 1 <= year && year <= 9999 && 1 <= month && month <= 12 && 1 <= day && day
            <= days_in_month(year, month) {
            Some(Date { year, month, day })
        } else {
            None
        }
    }

    pub fn lt(&self, other: &Date) -> (r: bool)
        ensures
            r == date_lt(*self, *other),
    {
        self.year < other.year || (self.year == other.year && self.month < other.month) || (
        self.year == other.year && self.month == other.month && self.day < other.day)
    }

    pub fn le(&self, other: &Date) -> (r: bool)
        ensures
            r == date_le(*self, *other),
    {
        self.lt(other) || (self.year == other.year && self.month == other.month && self.day
            == other.day)
    }
}

/// The first day of the month `n` months after `d`'s month.
pub fn first_of_month_plus(d: Date, n: u32) -> (r: Date)
    requires
        valid_date(d),
        month_index(d) + n <= 9999 * 12 + 11,
    ensures
        r == spec_month_start_plus(d, n as int),
        valid_date(r),
        month_index(r) == month_index(d) + n,
{
    let idx: u32 = d.year * 12 + (d.month - 1) + n;
    let r = Date { year: idx / 12, month: idx % 12 + 1, day: 1 };
    assert(r.year * 12 + r.month - 1 == idx);
    r
}

/// The first day of the month `n` months before `d`'s month.
pub fn first_of_month_minus(d: Date, n: u32) -> (r: Date)
    requires
        valid_date(d),
        n <= month_index(d) - 12,
    ensures
        r == spec_month_start_plus(d, -(n as int)),
        valid_date(r),
        month_index(r) == month_index(d) - n,
{
    let idx: u32 = d.year * 12 + (d.month - 1) - n;
    let r = Date { year: idx / 12, month: idx % 12 + 1, day: 1 };
    assert(r.year * 12 + r.month - 1 == idx);
    r
}

/// Month ordering agrees with date ordering on first-of-month dates.
pub proof fn lemma_month_index_orders(a: Date, b: Date)
    requires
        valid_date(a),
        valid_date(b),
    ensures
        month_index(a) < month_index(b) ==> date_lt(a, b),
        (month_index(a) == month_index(b) && a.day == b.day) ==> a == b,
{
}

} // verus!
