use heatmap::calendar::Date;
use heatmap::error::Error;
use heatmap::import::Import;
use heatmap::levels::{bucket, glyph, levels, Intensity, Style};
use heatmap::stat::{DaysData, YearData};

#[test]
fn bucket_mapping() {
    assert_eq!(bucket(0), Intensity::L0);
    assert_eq!(bucket(1), Intensity::L1);
    assert_eq!(bucket(2), Intensity::L2);
    assert_eq!(bucket(3), Intensity::L3);
    assert_eq!(bucket(4), Intensity::L4Plus);
    assert_eq!(bucket(100), Intensity::L4Plus);
    assert_eq!(bucket(u32::MAX), Intensity::L4Plus);
}

#[test]
fn glyphs_and_styles() {
    assert_eq!(glyph(Intensity::Empty), ' ');
    assert_eq!(glyph(Intensity::L0), '.');
    assert_eq!(glyph(Intensity::L1), '+');
    assert_eq!(glyph(Intensity::L2), '%');
    assert_eq!(glyph(Intensity::L3), '@');
    assert_eq!(glyph(Intensity::L4Plus), '#');
    let g = levels(0);
    assert_eq!(g.glyph, '.');
    assert_eq!(g.style, Style::Dim);
    let g = levels(3);
    assert_eq!(g.glyph, '@');
    assert_eq!(g.style, Style::RedFg);
    let g = levels(9);
    assert_eq!(g.glyph, '#');
    assert_eq!(g.style, Style::MagentaBg);
}

#[test]
fn duplicate_ingestion_counts_two() {
    let mut data = YearData::new();
    let date = Date::from_ymd(2024, 3, 15).unwrap();
    assert_eq!(data.add(date, 1), 1);
    assert_eq!(data.add(date, 1), 2);
    let dd = data.get_year(2024).unwrap();
    assert_eq!(dd.get(date.ordinal0()), Some(2));
}

#[test]
fn triple_ingestion_is_l3() {
    let mut data = YearData::new();
    let date = Date::from_ymd(2024, 3, 15).unwrap();
    data.add(date, 1);
    data.add(date, 1);
    let total = data.add(date, 1);
    assert_eq!(total, 3);
    let g = levels(total);
    assert_eq!(g.glyph, '@');
    assert_eq!(g.style, Style::RedFg);
}

#[test]
fn zero_times_counts_one() {
    let mut dd = DaysData::new(2024);
    assert_eq!(dd.add(10, 0), 1);
    assert_eq!(dd.add(10, 0), 2);
}

#[test]
fn counts_saturate() {
    let mut dd = DaysData::new(2024);
    assert_eq!(dd.add(5, u32::MAX), u32::MAX);
    assert_eq!(dd.add(5, 7), u32::MAX);
}

#[test]
fn days_data_lookup() {
    let mut dd = DaysData::new(2024);
    assert_eq!(dd.get(3), None);
    dd.add(3, 2);
    dd.add(1, 1);
    dd.add(300, 4);
    assert_eq!(dd.get(3), Some(2));
    assert_eq!(dd.get(1), Some(1));
    assert_eq!(dd.get(300), Some(4));
    assert_eq!(dd.get(2), None);
}

#[test]
fn years_are_sorted() {
    let mut data = YearData::new();
    data.add(Date::from_ymd(2024, 1, 1).unwrap(), 1);
    data.add(Date::from_ymd(2020, 6, 1).unwrap(), 1);
    data.add(Date::from_ymd(2022, 3, 3).unwrap(), 1);
    assert_eq!(data.years(), vec![2020, 2022, 2024]);
    assert!(data.get_year(2021).is_none());
    assert_eq!(data.get_year(2020).unwrap().year, 2020);
}

struct FixedSource {
    items: Vec<(Date, u32)>,
}

impl Import for FixedSource {
    fn all_datas(self) -> Result<Vec<(Date, u32)>, Error> {
        Ok(self.items)
    }
}

#[test]
fn import_builds_store() {
    let d1 = Date::from_ymd(2024, 3, 15).unwrap();
    let d2 = Date::from_ymd(2023, 12, 31).unwrap();
    let src = FixedSource { items: vec![(d1, 1), (d2, 1), (d1, 1)] };
    let data = YearData::from(src).unwrap();
    assert_eq!(data.years(), vec![2023, 2024]);
    assert_eq!(data.get_year(2024).unwrap().get(d1.ordinal0()), Some(2));
    assert_eq!(data.get_year(2023).unwrap().get(d2.ordinal0()), Some(1));
}

struct BrokenSource;

impl Import for BrokenSource {
    fn all_datas(self) -> Result<Vec<(Date, u32)>, Error> {
        Err(Error::DataBaseError(String::from("table missing")))
    }
}

#[test]
fn import_propagates_source_error() {
    let r = YearData::from(BrokenSource);
    assert_eq!(r.unwrap_err(), Error::DataBaseError(String::from("table missing")));
}
