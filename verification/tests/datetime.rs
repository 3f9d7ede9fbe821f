use dyd::datetime::{civil_from_days, civil_to_days, days_in_month, leap_year, DateTime};

#[test]
fn leap_year_rule() {
    assert!(leap_year(2024));
    assert!(!leap_year(2023));
    assert!(!leap_year(1900));
    assert!(leap_year(2000));
    assert!(leap_year(-4));
}

#[test]
fn month_lengths() {
    assert_eq!(days_in_month(2023, 2), 28);
    assert_eq!(days_in_month(2024, 2), 29);
    assert_eq!(days_in_month(2024, 1), 31);
    assert_eq!(days_in_month(2024, 4), 30);
    assert_eq!(days_in_month(2024, 12), 31);
}

#[test]
fn epoch_day_zero() {
    assert_eq!(civil_to_days(1970, 1, 1), 0);
    assert_eq!(civil_from_days(0), (1970, 1, 1));
    assert_eq!(civil_to_days(1969, 12, 31), -1);
    assert_eq!(civil_from_days(-1), (1969, 12, 31));
}

#[test]
fn day_numbers_round_trip() {
    for &d in &[
        -719528i64, // 0000-01-01
        -141427, // 1582-10-15
        11016, // 2000-02-29
        19815, // 2024-04-02
        2932896i64, // 9999-12-31
    ] {
        let (y, m, dd) = civil_from_days(d);
        assert_eq!(civil_to_days(y, m, dd), d);
    }
    assert_eq!(civil_from_days(11016), (2000, 2, 29));
    assert_eq!(civil_from_days(-719528), (0, 1, 1));
}

#[test]
fn epoch_seconds_round_trip() {
    for &s in &[0i64, 1_650_989_481, -1, -86_401, i64::MAX, i64::MIN] {
        let dt = DateTime::from_epoch_seconds(s);
        assert_eq!(dt.epoch_seconds(), s as i128);
    }
}

#[test]
fn new_rejects_unreal_dates() {
    assert!(DateTime::new(2023, 2, 29, 0, 0, 0).is_none());
    assert!(DateTime::new(2024, 2, 29, 0, 0, 0).is_some());
    assert!(DateTime::new(2024, 13, 1, 0, 0, 0).is_none());
    assert!(DateTime::new(2024, 0, 1, 0, 0, 0).is_none());
    assert!(DateTime::new(2024, 6, 0, 0, 0, 0).is_none());
    assert!(DateTime::new(2024, 6, 15, 24, 0, 0).is_none());
    assert!(DateTime::new(2024, 6, 15, 23, 60, 0).is_none());
    assert!(DateTime::new(2024, 6, 15, 23, 59, 60).is_none());
}
