use heatmap::calendar::Date;
use heatmap::error::Error;
use heatmap::range::{default_range, parse_year};
use heatmap::stat::YearData;

fn today() -> Date {
    Date::from_ymd(2024, 5, 15).unwrap()
}

#[test]
fn closed_range_parses() {
    let data = YearData::new();
    let (f, t) = data.parse_range("20220101", "20231231", today()).unwrap();
    assert_eq!(f, Date::from_ymd(2022, 1, 1).unwrap());
    assert_eq!(t, Date::from_ymd(2023, 12, 31).unwrap());
}

#[test]
fn open_right_is_today() {
    let data = YearData::new();
    let (f, t) = data.parse_range("20220101", "_", today()).unwrap();
    assert_eq!(f, Date::from_ymd(2022, 1, 1).unwrap());
    assert_eq!(t, today());
}

#[test]
fn open_left_is_first_stored_year() {
    let mut data = YearData::new();
    data.add(Date::from_ymd(2021, 7, 4).unwrap(), 1);
    data.add(Date::from_ymd(2023, 1, 1).unwrap(), 1);
    let (f, t) = data.parse_range("_", "20231231", today()).unwrap();
    assert_eq!(f, Date::from_ymd(2021, 1, 1).unwrap());
    assert_eq!(t, Date::from_ymd(2023, 12, 31).unwrap());
}

#[test]
fn open_left_on_empty_store_is_no_data() {
    let data = YearData::new();
    assert_eq!(data.parse_range("_", "20231231", today()), Err(Error::NoData));
}

#[test]
fn malformed_endpoints_are_rejected() {
    let data = YearData::new();
    assert_eq!(data.parse_range("2022010", "_", today()), Err(Error::ParseDateError));
    assert_eq!(data.parse_range("2022010a", "_", today()), Err(Error::ParseDateError));
    assert_eq!(data.parse_range("20220101", "202401", today()), Err(Error::ParseDateError));
    // a correctly shaped string naming a day that does not exist
    assert_eq!(data.parse_range("20231301", "_", today()), Err(Error::ParseDateError));
    assert_eq!(data.parse_range("20230229", "_", today()), Err(Error::ParseDateError));
}

#[test]
fn default_range_two_months_back() {
    let (f, t) = default_range(today());
    assert_eq!(f, Date::from_ymd(2024, 3, 1).unwrap());
    assert_eq!(t, today());
}

#[test]
fn default_range_crosses_year() {
    let jan = Date::from_ymd(2024, 1, 10).unwrap();
    let (f, t) = default_range(jan);
    assert_eq!(f, Date::from_ymd(2023, 11, 1).unwrap());
    assert_eq!(t, jan);
}

#[test]
fn year_strings_parse() {
    assert_eq!(parse_year("2024"), Some(2024));
    assert_eq!(parse_year("-5"), Some(-5));
    assert_eq!(parse_year("+7"), Some(7));
    assert_eq!(parse_year("007"), Some(7));
    assert_eq!(parse_year("2147483647"), Some(i32::MAX));
    assert_eq!(parse_year("-2147483648"), Some(i32::MIN));
}

#[test]
fn bad_year_strings_are_rejected() {
    assert_eq!(parse_year(""), None);
    assert_eq!(parse_year("-"), None);
    assert_eq!(parse_year("+"), None);
    assert_eq!(parse_year("12a"), None);
    assert_eq!(parse_year(" 12"), None);
    assert_eq!(parse_year("2147483648"), None);
    assert_eq!(parse_year("-2147483649"), None);
    assert_eq!(parse_year("99999999999999999999"), None);
}
