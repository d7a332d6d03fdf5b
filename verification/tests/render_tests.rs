use heatmap::calendar::Date;
use heatmap::display::{colored_table, plain_table};
use heatmap::error::{Error, IoKind};
use heatmap::sink::{Sink, StringSink};
use heatmap::stat::{DaysData, YearData};

fn header(year: i32) -> String {
    format!("{} |   {}\n", " ".repeat(14), year)
}

#[test]
fn single_day_monday() {
    let dd = DaysData::new(2024);
    let table = plain_table();
    let mut sink = StringSink::new();
    dd.fmt_range_year(0, 0, &table, &mut sink).unwrap();
    let expected = format!("*.{} | 01\n", " ".repeat(12));
    assert_eq!(sink.buf, expected);
}

#[test]
fn single_day_mid_week() {
    // 2024-01-03 is a Wednesday: two leading and four trailing padding cells
    let dd = DaysData::new(2024);
    let table = plain_table();
    let mut sink = StringSink::new();
    dd.fmt_range_year(2, 2, &table, &mut sink).unwrap();
    let expected = format!("{} .{} |\n", " ".repeat(4), " ".repeat(8));
    assert_eq!(sink.buf, expected);
}

#[test]
fn leap_year_full_render() {
    let dd = DaysData::new(2024);
    let table = plain_table();
    let mut sink = StringSink::new();
    dd.fmt_range_year(0, 365, &table, &mut sink).unwrap();
    let lines: Vec<&str> = sink.buf.lines().collect();
    assert_eq!(lines.len(), 53);
    let filled = sink.buf.chars().filter(|c| *c == '.').count();
    assert_eq!(filled, 366);
    for line in &lines {
        // seven two-column cells, then " |", then at most one " NN" mark
        let n = line.chars().count();
        assert!(n == 16 || n == 19, "line {:?}", line);
        assert_eq!(&line[14..16], " |");
    }
}

#[test]
fn month_marks_increase() {
    let dd = DaysData::new(2024);
    let table = plain_table();
    let mut sink = StringSink::new();
    dd.fmt_range_year(0, 365, &table, &mut sink).unwrap();
    let marks: Vec<u32> = sink
        .buf
        .lines()
        .filter_map(|l| l.split(" | ").nth(1).map(|m| m.parse::<u32>().unwrap()))
        .collect();
    assert_eq!(marks.len(), 12);
    for pair in marks.windows(2) {
        assert!(pair[0] < pair[1]);
    }
    assert_eq!(marks[0], 1);
    assert_eq!(marks[11], 12);
}

#[test]
fn star_only_on_month_firsts() {
    let dd = DaysData::new(2023);
    let table = plain_table();
    let mut sink = StringSink::new();
    dd.fmt_range_year(0, 364, &table, &mut sink).unwrap();
    let stars = sink.buf.chars().filter(|c| *c == '*').count();
    assert_eq!(stars, 12);
}

#[test]
fn mid_year_range_marks_only_inner_months() {
    // 2024-02-15 (ordinal 45) .. 2024-03-20 (ordinal 79): only March opens
    // within the range, so exactly one star and one "03" mark
    let dd = DaysData::new(2024);
    let table = plain_table();
    let mut sink = StringSink::new();
    dd.fmt_range_year(45, 79, &table, &mut sink).unwrap();
    let stars = sink.buf.chars().filter(|c| *c == '*').count();
    assert_eq!(stars, 1);
    let marks: Vec<&str> = sink.buf.lines().filter_map(|l| l.split(" | ").nth(1)).collect();
    assert_eq!(marks, vec!["03"]);
}

#[test]
fn counted_day_changes_glyph() {
    let mut data = YearData::new();
    let date = Date::from_ymd(2024, 3, 15).unwrap();
    data.add(date, 1);
    data.add(date, 1);
    data.add(date, 1);
    let table = plain_table();
    let mut sink = StringSink::new();
    data.fmt_year(&mut sink, 2024, &table).unwrap();
    assert_eq!(sink.buf.chars().filter(|c| *c == '@').count(), 1);
    assert_eq!(sink.buf.chars().filter(|c| *c == '.').count(), 365);
}

#[test]
fn wrong_date_cases() {
    let dd = DaysData::new(2024);
    let table = plain_table();
    let mut sink = StringSink::new();
    assert_eq!(dd.fmt_range_year(5, 3, &table, &mut sink), Err(Error::WrongDate));
    assert_eq!(dd.fmt_range_year(0, 366, &table, &mut sink), Err(Error::WrongDate));
    let dd23 = DaysData::new(2023);
    assert_eq!(dd23.fmt_range_year(0, 365, &table, &mut sink), Err(Error::WrongDate));
    let far = DaysData::new(20000);
    assert_eq!(far.fmt_range_year(0, 0, &table, &mut sink), Err(Error::WrongDate));
    assert_eq!(sink.buf, "");
}

#[test]
fn missing_year_is_no_data() {
    let data = YearData::new();
    let table = plain_table();
    let mut sink = StringSink::new();
    assert_eq!(data.fmt_year(&mut sink, 2024, &table), Err(Error::NoData));
    assert_eq!(sink.buf, "");
}

#[test]
fn cross_year_range() {
    let data = YearData::new();
    let table = plain_table();
    let mut sink = StringSink::new();
    let from = Date::from_ymd(2023, 12, 25).unwrap();
    let to = Date::from_ymd(2024, 1, 7).unwrap();
    data.fmt_range(&mut sink, from, to, &table).unwrap();
    let row_2023 = format!("{} |\n", " .".repeat(7));
    let row_2024 = format!("*.{} | 01\n", " .".repeat(6));
    let expected = format!("{}{}{}{}", header(2023), row_2023, header(2024), row_2024);
    assert_eq!(sink.buf, expected);
}

#[test]
fn range_equals_per_year_renders() {
    let mut data = YearData::new();
    data.add(Date::from_ymd(2023, 12, 26).unwrap(), 2);
    data.add(Date::from_ymd(2024, 1, 2).unwrap(), 1);
    let table = plain_table();
    let from = Date::from_ymd(2023, 12, 25).unwrap();
    let to = Date::from_ymd(2024, 1, 7).unwrap();

    let mut whole = StringSink::new();
    data.fmt_range(&mut whole, from, to, &table).unwrap();

    let mut parts = StringSink::new();
    parts.write_str(header(2023).as_str()).unwrap();
    data.get_year(2023).unwrap().fmt_range_year(
        from.ordinal0(),
        364,
        &table,
        &mut parts,
    ).unwrap();
    parts.write_str(header(2024).as_str()).unwrap();
    data.get_year(2024).unwrap().fmt_range_year(0, to.ordinal0(), &table, &mut parts).unwrap();

    assert_eq!(whole.buf, parts.buf);
}

#[test]
fn empty_year_still_renders() {
    let data = YearData::new();
    let table = plain_table();
    let mut sink = StringSink::new();
    let from = Date::from_ymd(2024, 1, 1).unwrap();
    let to = Date::from_ymd(2024, 1, 7).unwrap();
    data.fmt_range(&mut sink, from, to, &table).unwrap();
    let expected = format!("{}*.{} | 01\n", header(2024), " .".repeat(6));
    assert_eq!(sink.buf, expected);
}

#[test]
fn inverted_range_is_wrong_date() {
    let data = YearData::new();
    let table = plain_table();
    let mut sink = StringSink::new();
    let from = Date::from_ymd(2024, 1, 7).unwrap();
    let to = Date::from_ymd(2024, 1, 1).unwrap();
    assert_eq!(data.fmt_range(&mut sink, from, to, &table), Err(Error::WrongDate));
    assert_eq!(sink.buf, "");
}

#[test]
fn fmt_all_renders_each_year() {
    let mut data = YearData::new();
    data.add(Date::from_ymd(2022, 5, 1).unwrap(), 1);
    data.add(Date::from_ymd(2024, 1, 1).unwrap(), 4);
    let table = plain_table();
    let mut sink = StringSink::new();
    data.fmt_all(&mut sink, &table).unwrap();
    assert!(sink.buf.starts_with(header(2022).as_str()));
    assert!(sink.buf.contains(header(2024).as_str()));
    assert_eq!(sink.buf.chars().filter(|c| *c == '#').count(), 1);
    assert_eq!(sink.buf.chars().filter(|c| *c == '+').count(), 1);
}

/// A sink that fails on its `fail_at`-th write (0-based), keeping what was
/// written before.
struct FailingSink {
    taken: Vec<String>,
    fail_at: usize,
    writes: usize,
}

impl Sink for FailingSink {
    fn write_str(&mut self, s: &str) -> Result<(), Error> {
        if self.writes == self.fail_at {
            return Err(Error::IoError(IoKind::BrokenPipe));
        }
        self.writes += 1;
        self.taken.push(s.to_string());
        Ok(())
    }
}

#[test]
fn broken_pipe_on_second_line() {
    let dd = DaysData::new(2024);
    let table = plain_table();
    let mut sink = FailingSink { taken: Vec::new(), fail_at: 1, writes: 0 };
    let r = dd.fmt_range_year(0, 365, &table, &mut sink);
    assert_eq!(r, Err(Error::IoError(IoKind::BrokenPipe)));
    assert_eq!(sink.taken.len(), 1);

    let mut whole = StringSink::new();
    dd.fmt_range_year(0, 365, &table, &mut whole).unwrap();
    assert!(whole.buf.starts_with(sink.taken[0].as_str()));
}

#[test]
fn colored_entries_hold_the_glyphs() {
    let t = colored_table();
    assert_eq!(t.empty, " ");
    assert!(t.l0.contains('.'));
    assert!(t.l1.contains('+'));
    assert!(t.l2.contains('%'));
    assert!(t.l3.contains('@'));
    assert!(t.l4.contains('#'));
}

#[test]
fn colored_render_keeps_glyphs() {
    let mut data = YearData::new();
    data.add(Date::from_ymd(2024, 3, 15).unwrap(), 1);
    let table = colored_table();
    let mut sink = StringSink::new();
    data.fmt_year(&mut sink, 2024, &table).unwrap();
    assert_eq!(sink.buf.chars().filter(|c| *c == '+').count(), 1);
    assert_eq!(sink.buf.lines().count(), 53);
}

#[test]
fn print_functions_run() {
    let mut data = YearData::new();
    data.add(Date::from_ymd(2024, 3, 15).unwrap(), 1);
    assert_eq!(data.print_full(), Ok(()));
    assert_eq!(data.print_year(2024), Ok(()));
    assert_eq!(data.print_year(1999), Err(Error::NoData));
}
