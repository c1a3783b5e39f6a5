use employee_directory::date::{has_legal_age, validate_birthday, CalendarDate, ValidationError};

fn date(year: i32, month: u32, day: u32) -> CalendarDate {
    CalendarDate { year, month, day }
}

#[test]
fn february_thirtieth_is_invalid() {
    let today = date(2024, 3, 15);
    assert_eq!(validate_birthday(2023, 2, 30, today), Err(ValidationError::InvalidDate));
}

#[test]
fn thirteenth_month_is_invalid() {
    let today = date(2024, 3, 15);
    assert_eq!(validate_birthday(2023, 13, 1, today), Err(ValidationError::InvalidDate));
}

#[test]
fn month_and_day_zero_are_invalid() {
    let today = date(2024, 3, 15);
    assert_eq!(validate_birthday(1990, 0, 10, today), Err(ValidationError::InvalidDate));
    assert_eq!(validate_birthday(1990, 5, 0, today), Err(ValidationError::InvalidDate));
    assert_eq!(validate_birthday(1990, 4, 31, today), Err(ValidationError::InvalidDate));
}

#[test]
fn invalid_date_wins_over_underage() {
    let today = date(2024, 3, 15);
    assert_eq!(validate_birthday(2024, 2, 30, today), Err(ValidationError::InvalidDate));
}

#[test]
fn leap_days_follow_the_gregorian_rule() {
    let today = date(2024, 3, 15);
    assert_eq!(validate_birthday(2000, 2, 29, today), Ok(date(2000, 2, 29)));
    assert_eq!(validate_birthday(1996, 2, 29, today), Ok(date(1996, 2, 29)));
    assert_eq!(validate_birthday(1900, 2, 29, today), Err(ValidationError::InvalidDate));
    assert_eq!(validate_birthday(1999, 2, 29, today), Err(ValidationError::InvalidDate));
}

#[test]
fn zero_and_negative_years_are_accepted() {
    let today = date(2024, 3, 15);
    assert_eq!(validate_birthday(0, 2, 29, today), Ok(date(0, 2, 29)));
    assert_eq!(validate_birthday(-44, 3, 15, today), Ok(date(-44, 3, 15)));
}

#[test]
fn years_outside_the_supported_range_are_invalid() {
    let today = date(2024, 3, 15);
    assert_eq!(validate_birthday(262143, 1, 1, today), Err(ValidationError::InvalidDate));
    assert_eq!(validate_birthday(-262144, 1, 1, today), Err(ValidationError::InvalidDate));
    assert_eq!(validate_birthday(-262143, 1, 1, today), Ok(date(-262143, 1, 1)));
    assert_eq!(validate_birthday(i32::MIN, 1, 1, today), Err(ValidationError::InvalidDate));
}

#[test]
fn seventeen_years_and_364_days_is_underage() {
    let today = date(2024, 3, 15);
    assert_eq!(validate_birthday(2006, 3, 16, today), Err(ValidationError::Underage));
}

#[test]
fn exactly_eighteen_is_of_age() {
    let today = date(2024, 3, 15);
    assert_eq!(validate_birthday(2006, 3, 15, today), Ok(date(2006, 3, 15)));
}

#[test]
fn same_month_later_day_is_underage() {
    let today = date(2024, 3, 15);
    assert_eq!(validate_birthday(2006, 3, 20, today), Err(ValidationError::Underage));
    assert_eq!(validate_birthday(2006, 4, 1, today), Err(ValidationError::Underage));
    assert_eq!(validate_birthday(2006, 2, 28, today), Ok(date(2006, 2, 28)));
}

#[test]
fn born_in_the_future_is_underage() {
    let today = date(2024, 3, 15);
    assert_eq!(validate_birthday(2030, 1, 1, today), Err(ValidationError::Underage));
}

#[test]
fn legal_age_on_given_days() {
    assert!(has_legal_age(date(2000, 1, 1), date(2018, 1, 1)));
    assert!(!has_legal_age(date(2000, 1, 2), date(2018, 1, 1)));
    assert!(has_legal_age(date(1999, 12, 31), date(2018, 1, 1)));
    assert!(!has_legal_age(date(2001, 1, 1), date(2018, 12, 31)));
    assert!(has_legal_age(date(-262143, 1, 1), date(262142, 12, 31)));
}
