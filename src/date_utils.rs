//! Calendar dates of the proleptic Gregorian calendar.
use chrono::Datelike;
use chrono::NaiveDate;
use vstd::prelude::*;

verus! {

/// The earliest year that `chrono::NaiveDate` holds.
pub const MIN_YEAR: i32 = -262143;

/// The latest year that `chrono::NaiveDate` holds.
pub const MAX_YEAR: i32 = 262142;

pub open spec fn is_leap_year(year: int) -> bool {
    year % 4 == 0 && (year % 100 != 0 || year % 400 == 0)
}

/// Whether the calendar functions handle `month` of `year`: its first day
/// and the first day of the month after it are days that chrono holds.
pub open spec fn month_in_range(year: int, month: int) -> bool {
    &&& MIN_YEAR <= year <= MAX_YEAR
    &&& 1 <= month <= 12
    &&& !(year == MAX_YEAR && month == 12)
}

/// The number of days in `month` of `year`.
pub open spec fn days_in_month(year: int, month: int) -> int {
    if month == 2 {
        if is_leap_year(year) {
            29
        } else {
            28
        }
    } else if month == 4 || month == 6 || month == 9 || month == 11 {
        30
    } else {
        31
    }
}

/// A calendar date.
#[derive(Clone, Copy, Debug, PartialEq, Eq, Hash)]
pub struct Date {
    pub year: i32,
    pub month: u32,
    pub day: u32,
}

impl Date {
    /// A real day within the years that chrono holds.
    pub open spec fn wf(self) -> bool {
        &&& MIN_YEAR <= self.year <= MAX_YEAR
        &&& 1 <= self.month <= 12
        &&& 1 <= self.day <= days_in_month(self.year as int, self.month as int)
    }

    /// `self` is the same day as `other` or an earlier one.
    pub open spec fn on_or_before(self, other: Date) -> bool {
        ||| self.year < other.year
        ||| self.year == other.year && self.month < other.month
        ||| self.year == other.year && self.month == other.month && self.day <= other.day
    }

    /// The date `year`-`month`-`day`, where that is a day of the calendar.
    pub fn from_ymd(year: i32, month: u32, day: u32) -> (r: Option<Date>)
        ensures
            r matches Some(d) ==> d.wf() && d == (Date { year, month, day }),
            r is None ==> !(Date { year, month, day }).wf(),
    {
        if year < MIN_YEAR || year > MAX_YEAR || month < 1 || month > 12 || day < 1 {
            return None;
        }
        // December always has 31 days; its length is not asked of the
        // calendar, which holds no month after December of the last year.
        let n = if month == 12 {
            31
        } else {
            ndays_in_month(year, month)
        };
        if day > n {
            None
        } else {
            Some(Date { year, month, day })
        }
    }

    pub fn is_on_or_before(&self, other: &Date) -> (r: bool)
        ensures
            r == self.on_or_before(*other),
    {
        self.year < other.year || (self.year == other.year && self.month < other.month) || (self.year
            == other.year && self.month == other.month && self.day <= other.day)
    }

    pub fn same_day(&self, other: &Date) -> (r: bool)
        ensures
            r == (*self == *other),
    {
        self.year == other.year && self.month == other.month && self.day == other.day
    }
}

/// Relies on `chrono::NaiveDate`: `from_ymd_opt(year, month, 1)`, then
/// `pred_opt` and `day`, give the length of the month before.
#[verifier::external_body]
fn day_before_first_of_month(year: i32, month: u32) -> (r: Option<u32>)
    requires
        MIN_YEAR <= year <= MAX_YEAR,
        1 <= month <= 12,
        year == MIN_YEAR ==> month > 1,
    ensures
        month == 1 ==> r == Some(days_in_month(year - 1, 12) as u32),
        month > 1 ==> r == Some(days_in_month(year as int, month - 1) as u32),
{
    NaiveDate::from_ymd_opt(year, month, 1).and_then(|d| d.pred_opt()).map(|d| d.day())
}

/// Determine the number of days in a particular month.
pub fn ndays_in_month(year: i32, month: u32) -> (r: u32)
    requires
        month_in_range(year as int, month as int),
    ensures
        r == days_in_month(year as int, month as int),
{
    // the first day of the next month...
    let (y, m) = if month == 12 {
        (year + 1, 1)
    } else {
        (year, month + 1)
    };
    // ...is preceded by the last day of the given month
    match day_before_first_of_month(y, m) {
        Some(d) => d,
        // not reached: the first of the next month always has a day before it
        None => 31,
    }
}

/// Returns last day in a particular month.
pub fn last_day_in_month(year: i32, month: u32) -> (r: Date)
    requires
        month_in_range(year as int, month as int),
    ensures
        r.wf(),
        r == (Date { year, month, day: days_in_month(year as int, month as int) as u32 }),
{
    let day = ndays_in_month(year, month);
    Date { year, month, day }
}

} // verus!
