use chrono::Datelike;
use vstd::prelude::*;

verus! {

/// First year that the calendar of this library accepts.
pub const MIN_YEAR: i32 = -262143;

/// Last year that the calendar of this library accepts.
pub const MAX_YEAR: i32 = 262142;

pub open spec fn is_leap_year(y: int) -> bool {
    (y % 4 == 0 && y % 100 != 0) || y % 400 == 0
}

pub open spec fn days_in_month(y: int, m: int) -> int {
    if m == 2 {
        if is_leap_year(y) { 29 } else { 28 }
    } else if m == 4 || m == 6 || m == 9 || m == 11 {
        30
    } else {
        31
    }
}

/// A day of the proleptic Gregorian calendar within the supported years.
pub open spec fn is_calendar_date(y: int, m: int, d: int) -> bool {
    &&& MIN_YEAR <= y <= MAX_YEAR
    &&& 1 <= m <= 12
    &&& 1 <= d <= days_in_month(y, m)
}

/// What chrono makes of text `s` read with format `fmt`: year, month and day.
pub uninterp spec fn parsed_date(s: Seq<char>, fmt: Seq<char>) -> Option<(i32, u32, u32)>;

/// Relies on chrono::NaiveDate::parse_from_str: the outcome depends on the text
/// and the format alone, and a date it returns is a valid calendar date.
#[verifier::external_body]
fn chrono_parse(s: &str, fmt: &str) -> (r: Option<(i32, u32, u32)>)
    ensures
        r == parsed_date(s@, fmt@),
        r matches Some((y, m, d)) ==> is_calendar_date(y as int, m as int, d as int),
{
    match chrono::NaiveDate::parse_from_str(s, fmt) {
        Ok(d) => Some((d.year(), d.month(), d.day())),
        Err(_) => None,
    }
}

/// A calendar date without a time of day.
#[derive(Clone, Copy, Debug, PartialEq, Eq, Structural, Hash)]
pub struct Date {
    pub year: i32,
    pub month: u32,
    pub day: u32,
}

impl Date {
    pub open spec fn wf(self) -> bool {
        is_calendar_date(self.year as int, self.month as int, self.day as int)
    }

    /// Chronological order: `self` is the same day as `other` or an earlier one.
    pub open spec fn spec_le(self, other: Date) -> bool {
        self.year < other.year || (self.year == other.year && (self.month < other.month || (
        self.month == other.month && self.day <= other.day)))
    }

    /// The date of the given year, month (1 to 12) and day of the month, if
    /// there is such a day.
    pub fn new(year: i32, month: u32, day: u32) -> (r: Option<Date>)
        ensures
            r is Some <==> is_calendar_date(year as int, month as int, day as int),
            r matches Some(d) ==> d.wf() && d.year == year && d.month == month && d.day == day,
    {
        if year < MIN_YEAR || year > MAX_YEAR || month < 1 || month > 12 || day < 1 {
            return None;
        }
        let shifted: i64 = year as i64 + 400_000;
        let leap = (shifted % 4 == 0 && shifted % 100 != 0) || shifted % 400 == 0;
        proof {
            let y = year as int;
            assert(shifted % 4 == y % 4 && shifted % 100 == y % 100 && shifted % 400 == y % 400)
                by (nonlinear_arith)
                requires
                    shifted == y + 400_000,
            ;
        }
        let last: u32 = if month == 2 {
            if leap {
                29
            } else {
                28
            }
        } else if month == 4 || month == 6 || month == 9 || month == 11 {
            30
        } else {
            31
        };
        if day > last {
            None
        } else {
            Some(Date { year, month, day })
        }
    }

    /// The date written in `s` with the strftime-like format `fmt`
    /// (`%m/%d/%Y`, `%d-%b-%Y`), if `s` is one.
    pub fn parse(s: &str, fmt: &str) -> (r: Option<Date>)
        ensures
            r == match parsed_date(s@, fmt@) {
                Some((y, m, d)) => Some(Date { year: y, month: m, day: d }),
                None => None,
            },
            r matches Some(d) ==> d.wf(),
    {
        match chrono_parse(s, fmt) {
            Some((y, m, d)) => Some(Date { year: y, month: m, day: d }),
            None => None,
        }
    }

    /// Whether `self` is the same day as `other` or an earlier one.
    pub fn le(&self, other: &Date) -> (r: bool)
        ensures
            r == self.spec_le(*other),
    {
        self.year < other.year || (self.year == other.year && (self.month < other.month || (
        self.month == other.month && self.day <= other.day)))
    }
}

} // verus!
