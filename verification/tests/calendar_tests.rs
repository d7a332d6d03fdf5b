use chrono::Datelike;
use heatmap::calendar::{
    leap_year, month_first, month_first_ordinal, month_of_ordinal, weekday_of_jan1, year_len, Date,
};

#[test]
fn leap_years_match_chrono() {
    for y in [-400, -100, -4, -1, 0, 1, 100, 1900, 1970, 2000, 2023, 2024, 2100, 9999] {
        let expected = chrono::NaiveDate::from_ymd_opt(y, 1, 1).unwrap().leap_year();
        assert_eq!(leap_year(y), expected, "year {}", y);
    }
}

#[test]
fn year_lengths() {
    assert_eq!(year_len(2024), 366);
    assert_eq!(year_len(2023), 365);
    assert_eq!(year_len(2000), 366);
    assert_eq!(year_len(1900), 365);
}

#[test]
fn jan1_weekday_matches_chrono() {
    for y in [-9999, -100, -1, 0, 1, 4, 100, 1582, 1969, 1970, 2000, 2023, 2024, 2025, 9999] {
        let expected = chrono::NaiveDate::from_ymd_opt(y, 1, 1)
            .unwrap()
            .weekday()
            .num_days_from_monday();
        assert_eq!(weekday_of_jan1(y), expected, "year {}", y);
    }
}

#[test]
fn jan1_2024_is_monday() {
    assert_eq!(weekday_of_jan1(2024), 0);
}

#[test]
fn ordinals_match_chrono() {
    for (y, m, d) in [
        (2024, 1, 1),
        (2024, 2, 29),
        (2024, 3, 1),
        (2024, 12, 31),
        (2023, 12, 25),
        (2023, 12, 31),
        (1999, 7, 4),
    ] {
        let date = Date::from_ymd(y, m, d).unwrap();
        let expected = chrono::NaiveDate::from_ymd_opt(y, m, d).unwrap().ordinal0();
        assert_eq!(date.ordinal0(), expected, "{}-{}-{}", y, m, d);
    }
}

#[test]
fn invalid_dates_are_rejected() {
    assert!(Date::from_ymd(2023, 2, 29).is_none());
    assert!(Date::from_ymd(2024, 2, 29).is_some());
    assert!(Date::from_ymd(2024, 13, 1).is_none());
    assert!(Date::from_ymd(2024, 0, 1).is_none());
    assert!(Date::from_ymd(2024, 4, 31).is_none());
    assert!(Date::from_ymd(2024, 1, 0).is_none());
    assert!(Date::from_ymd(10000, 1, 1).is_none());
    assert!(Date::from_ymd(-10000, 1, 1).is_none());
}

#[test]
fn month_boundaries() {
    assert_eq!(month_first_ordinal(2024, 1), 0);
    assert_eq!(month_first_ordinal(2024, 3), 60);
    assert_eq!(month_first_ordinal(2023, 3), 59);
    assert_eq!(month_first_ordinal(2023, 13), 365);
    assert_eq!(month_of_ordinal(2024, 0), 1);
    assert_eq!(month_of_ordinal(2024, 59), 2);
    assert_eq!(month_of_ordinal(2024, 60), 3);
    assert_eq!(month_of_ordinal(2023, 364), 12);
    assert!(month_first(2024, 0));
    assert!(month_first(2024, 60));
    assert!(!month_first(2024, 1));
    assert!(!month_first(2024, 59));
}

#[test]
fn date_ordering() {
    let a = Date::from_ymd(2023, 12, 31).unwrap();
    let b = Date::from_ymd(2024, 1, 1).unwrap();
    assert!(a.date_le(&b));
    assert!(!b.date_le(&a));
    assert!(a.date_le(&a));
}
