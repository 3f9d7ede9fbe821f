use dyd::datetime::DateTime;
use dyd::time::{parse_relative, parse_unix, TimeParseError};

fn at(year: i64, month: u8, day: u8, hour: u8, minute: u8, second: u8) -> DateTime {
    DateTime::new(year, month, day, hour, minute, second).unwrap()
}

#[test]
fn parse_relative_weeks_ok() {
    let now = at(2022, 4, 1, 6, 1, 2);

    let time = parse_relative("1 week ago", &now).unwrap();
    assert_eq!(time, at(2022, 3, 25, 6, 1, 2));

    let time = parse_relative("2 weeks ago", &now).unwrap();
    assert_eq!(time, at(2022, 3, 18, 6, 1, 2));
}

#[test]
fn parse_relative_days_ok() {
    let now = at(2022, 4, 1, 6, 1, 2);

    let time = parse_relative("4 days ago", &now).unwrap();
    assert_eq!(time, at(2022, 3, 28, 6, 1, 2));
}

#[test]
fn parse_relative_months_ok() {
    let now = at(2022, 4, 2, 6, 1, 2);

    let time = parse_relative("2 months ago", &now).unwrap();
    assert_eq!(time, at(2022, 2, 2, 6, 1, 2));

    let time = parse_relative("4 months ago", &now).unwrap();
    assert_eq!(time, at(2021, 12, 2, 6, 1, 2));

    let time = parse_relative("8 months ago", &now).unwrap();
    assert_eq!(time, at(2021, 8, 2, 6, 1, 2));

    let time = parse_relative("12 months ago", &now).unwrap();
    assert_eq!(time, at(2021, 4, 2, 6, 1, 2));

    let time = parse_relative("16 months ago", &now).unwrap();
    assert_eq!(time, at(2020, 12, 2, 6, 1, 2));
}

#[test]
fn parse_relative_months_last_day_ok() {
    let now = at(2022, 3, 31, 6, 1, 2);

    let time = parse_relative("1 month ago", &now).unwrap();
    assert_eq!(time, at(2022, 2, 28, 6, 1, 2));

    let time = parse_relative("4 months ago", &now).unwrap();
    assert_eq!(time, at(2021, 11, 30, 6, 1, 2));
}

#[test]
fn parse_relative_error() {
    let now = at(2024, 6, 15, 12, 0, 0);

    assert!(parse_relative("hello", &now).is_err());
    assert!(parse_relative("2 moons ago", &now).is_err());
}

#[test]
fn parse_relative_reports_each_reason() {
    let now = at(2024, 6, 15, 12, 0, 0);

    assert_eq!(parse_relative("hello", &now), Err(TimeParseError::Pattern));
    assert_eq!(parse_relative("2 moons ago", &now), Err(TimeParseError::UnknownUnit));
    assert_eq!(
        parse_relative("99999999999999999999 days ago", &now),
        Err(TimeParseError::InvalidNumber)
    );
    assert_eq!(
        parse_relative("9223372036854775807 weeks ago", &now),
        Err(TimeParseError::OutOfRange)
    );
    assert_eq!(
        parse_relative("9223372036854775807 months ago", &now),
        Err(TimeParseError::OutOfRange)
    );
}

#[test]
fn parse_relative_rejects_odd_shapes() {
    let now = at(2024, 6, 15, 12, 0, 0);

    assert!(parse_relative("", &now).is_err());
    assert!(parse_relative("days ago", &now).is_err());
    assert!(parse_relative("5  days ago", &now).is_err());
    assert!(parse_relative(" 5 days ago", &now).is_err());
    assert!(parse_relative("5 days ago ", &now).is_err());
    assert!(parse_relative("-5 days ago", &now).is_err());
    assert!(parse_relative("99999999999999999999 days ago", &now).is_err());
}

#[test]
fn parse_relative_leap_month_end() {
    // One month before the end of March in a leap year is 29 February.
    let now = at(2024, 3, 31, 6, 1, 2);
    let time = parse_relative("1 month ago", &now).unwrap();
    assert_eq!(time, at(2024, 2, 29, 6, 1, 2));

    // Zero of a unit is the base instant itself.
    assert_eq!(parse_relative("0 days ago", &now).unwrap(), now);
    assert_eq!(parse_relative("0 months ago", &now).unwrap(), now);
}

#[test]
fn parse_unix_ok() {
    let time = parse_unix("1650989481").unwrap();
    assert_eq!(time, at(2022, 4, 26, 16, 11, 21));
}

#[test]
fn parse_unix_error() {
    assert!(parse_unix("hello").is_err());
}

#[test]
fn parse_unix_edges() {
    assert_eq!(parse_unix("0").unwrap(), at(1970, 1, 1, 0, 0, 0));
    assert_eq!(parse_unix("-1").unwrap(), at(1969, 12, 31, 23, 59, 59));
    assert_eq!(parse_unix("+86400").unwrap(), at(1970, 1, 2, 0, 0, 0));
    assert!(parse_unix("").is_err());
    assert!(parse_unix("12 ").is_err());
    assert!(parse_unix("99999999999999999999").is_err());
}
