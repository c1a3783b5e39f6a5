//! Calendar dates on the proleptic Gregorian calendar, and the rules that a
//! birth date must meet before an employee is recorded.

use vstd::prelude::*;
use std::time::SystemTime;
use chrono::{DateTime, Datelike, NaiveDate, Utc};

verus! {

/// The earliest year that a calendar date of this library may have.
pub const EARLIEST_YEAR: i32 = -262143;

/// The latest year that a calendar date of this library may have.
pub const LATEST_YEAR: i32 = 262142;

/// The age, in whole years, from which a person may be recorded.
pub const LEGAL_AGE: i64 = 18;

/// A date given as year, month (1 to 12) and day of the month.
#[derive(Clone, Copy, Debug, PartialEq, Eq, Structural)]
pub struct CalendarDate {
    pub year: i32,
    pub month: u32,
    pub day: u32,
}

/// Why a birth date was turned down.
#[derive(Clone, Copy, Debug, PartialEq, Eq, Structural)]
pub enum ValidationError {
    /// The year, month and day do not form a real calendar date.
    InvalidDate,
    /// The date is real, but its holder is younger than the legal age.
    Underage,
}

pub open spec fn is_leap_year(year: int) -> bool {
    (year % 4 == 0 && year % 100 != 0) || year % 400 == 0
}

pub open spec fn days_in_month(year: int, month: int) -> int {
    if month == 2 {
        if is_leap_year(year) { 29 } else { 28 }
    } else if month == 4 || month == 6 || month == 9 || month == 11 {
        30
    } else {
        31
    }
}

/// The year, month and day name a day of the proleptic Gregorian calendar
/// that lies within the years this library supports.
pub open spec fn is_real_date(year: int, month: int, day: int) -> bool {
    &&& EARLIEST_YEAR <= year <= LATEST_YEAR
    &&& 1 <= month <= 12
    &&& 1 <= day <= days_in_month(year, month)
}

impl CalendarDate {
    pub open spec fn is_real(self) -> bool {
        is_real_date(self.year as int, self.month as int, self.day as int)
    }
}

/// The month and day `(m1, d1)` come earlier in a calendar year than `(m2, d2)`.
pub open spec fn earlier_in_year(m1: int, d1: int, m2: int, d2: int) -> bool {
    m1 < m2 || (m1 == m2 && d1 < d2)
}

/// Whole years of age, on `today`, of someone born on `birth`: the difference
/// of the years, less one while this year's birthday has not been reached.
pub open spec fn age_on(birth: CalendarDate, today: CalendarDate) -> int {
    today.year - birth.year - if earlier_in_year(
        today.month as int,
        today.day as int,
        birth.month as int,
        birth.day as int,
    ) {
        1int
    } else {
        0int
    }
}

pub open spec fn is_of_age(birth: CalendarDate, today: CalendarDate) -> bool {
    age_on(birth, today) >= LEGAL_AGE
}

/// What checking a birth date on `today` gives: the date itself, or the
/// first rule that it breaks.
pub open spec fn birth_date_check(year: i32, month: u32, day: u32, today: CalendarDate) -> Result<
    CalendarDate,
    ValidationError,
> {
    let birth = CalendarDate { year, month, day };
    if !birth.is_real() {
        Err(ValidationError::InvalidDate)
    } else if !is_of_age(birth, today) {
        Err(ValidationError::Underage)
    } else {
        Ok(birth)
    }
}

/// Relies on chrono's `NaiveDate::from_ymd_opt`, which returns `None` exactly
/// for an invalid month or day or a year outside the supported range.
#[verifier::external_body]
fn is_calendar_date(year: i32, month: u32, day: u32) -> (r: bool)
    ensures
        r == is_real_date(year as int, month as int, day as int),
{
    NaiveDate::from_ymd_opt(year, month, day).is_some()
}

/// Relies on chrono's `From<SystemTime>` for `DateTime<Utc>`, on
/// `SystemTime::now`, and on the `Datelike` accessors: today's date in UTC,
/// which, being a `NaiveDate`, is a real date within the supported years.
/// A clock before 1970 gives a date before 1970; the conversion panics only
/// for a clock set beyond the supported years.
#[verifier::external_body]
fn today_utc() -> (r: CalendarDate)
    ensures
        r.is_real(),
{
    let now = DateTime::<Utc>::from(SystemTime::now()).naive_utc();
    CalendarDate { year: now.year(), month: now.month(), day: now.day() }
}

/// Today's date in UTC.
pub fn today() -> (r: CalendarDate)
    ensures
        r.is_real(),
{
    today_utc()
}

/// Whether someone born on `birth` has reached the legal age on `today`.
pub fn has_legal_age(birth: CalendarDate, today: CalendarDate) -> (r: bool)
    ensures
        r == is_of_age(birth, today),
{
    let years: i64 = today.year as i64 - birth.year as i64;
    let before_birthday = today.month < birth.month || (today.month == birth.month && today.day
        < birth.day);
    if before_birthday {
        years - 1 >= LEGAL_AGE
    } else {
        years >= LEGAL_AGE
    }
}

/// Checks a birth date given as year, month and day, on the date `today`:
/// the date must exist, and its holder must be of legal age.
pub fn validate_birthday(year: i32, month: u32, day: u32, today: CalendarDate) -> (r: Result<
    CalendarDate,
    ValidationError,
>)
    ensures
        r == birth_date_check(year, month, day, today),
{
    if !is_calendar_date(year, month, day) {
        return Err(ValidationError::InvalidDate);
    }
    let birth = CalendarDate { year, month, day };
    if !has_legal_age(birth, today) {
        return Err(ValidationError::Underage);
    }
    Ok(birth)
}

} // verus!
