//! Gregorian calendar arithmetic: leap years, month lengths, day-of-year
//! ordinals and weekdays, over the proleptic Gregorian calendar.
//!
//! Years are restricted to `[MIN_YEAR, MAX_YEAR]`; a date outside that range
//! is rejected wherever the library takes one in.

use vstd::prelude::*;

verus! {

/// Earliest year the library accepts.
pub const MIN_YEAR: i32 = -9999;

/// Latest year the library accepts.
pub const MAX_YEAR: i32 = 9999;

/// Whether `y` is a leap year of the proleptic Gregorian calendar.
pub open spec fn is_leap_year(y: int) -> bool {
    (y % 4 == 0 && y % 100 != 0) || y % 400 == 0
}

/// Number of days in year `y`: 366 in leap years, else 365.
pub open spec fn days_in_year(y: int) -> int {
    if is_leap_year(y) { 366 } else { 365 }
}

/// 0-based ordinal of the first day of month `m` (1..=12) in year `y`.
/// `m == 13` gives the total number of days of the year, so that
/// `month_first_ord(y, m + 1) - month_first_ord(y, m)` is the length of `m`.
pub open spec fn month_first_ord(y: int, m: int) -> int {
    let leap: int = if is_leap_year(y) { 1 } else { 0 };
    if m <= 1 { 0 }
    else if m == 2 { 31 }
    else if m == 3 { 59 + leap }
    else if m == 4 { 90 + leap }
    else if m == 5 { 120 + leap }
    else if m == 6 { 151 + leap }
    else if m == 7 { 181 + leap }
    else if m == 8 { 212 + leap }
    else if m == 9 { 243 + leap }
    else if m == 10 { 273 + leap }
    else if m == 11 { 304 + leap }
    else if m == 12 { 334 + leap }
    else { 365 + leap }
}

/// Number of days in month `m` (1..=12) of year `y`.
pub open spec fn days_in_month(y: int, m: int) -> int {
    month_first_ord(y, m + 1) - month_first_ord(y, m)
}

/// 1-based month containing the day with 0-based ordinal `d` in year `y`.
pub open spec fn month_of_ord(y: int, d: int) -> int {
    if d < month_first_ord(y, 2) { 1 }
    else if d < month_first_ord(y, 3) { 2 }
    else if d < month_first_ord(y, 4) { 3 }
    else if d < month_first_ord(y, 5) { 4 }
    else if d < month_first_ord(y, 6) { 5 }
    else if d < month_first_ord(y, 7) { 6 }
    else if d < month_first_ord(y, 8) { 7 }
    else if d < month_first_ord(y, 9) { 8 }
    else if d < month_first_ord(y, 10) { 9 }
    else if d < month_first_ord(y, 11) { 10 }
    else if d < month_first_ord(y, 12) { 11 }
    else { 12 }
}

/// Whether the day with 0-based ordinal `d` of year `y` is the first day of
/// its month.
pub open spec fn is_month_first(y: int, d: int) -> bool {
    d == month_first_ord(y, month_of_ord(y, d))
}

/// Leap days among the years `1..=n` (for `n >= 0`; the integer division is
/// Euclidean, which extends the count correctly to negative `n`).
pub open spec fn leap_days_upto(n: int) -> int {
    n / 4 - n / 100 + n / 400
}

/// Monday-indexed weekday (0 = Monday .. 6 = Sunday) of January 1 of year
/// `y`.  January 1 of year 1 is a Monday; every common year shifts the
/// weekday by one (365 = 52 * 7 + 1) and every leap day by one more.
pub open spec fn jan1_weekday(y: int) -> int {
    (365 * (y - 1) + leap_days_upto(y - 1)) % 7
}

/// Euclidean remainder, total over `b > 0`.
fn rem_euclid_i64(a: i64, b: i64) -> (r: i64)
    requires
        b > 0,
    ensures
        r == a as int % b as int,
        0 <= r < b,
{
    proof {
        vstd::arithmetic::div_mod::lemma_mod_bound(a as int, b as int);
    }
    match a.checked_rem_euclid(b) {
        Some(r) => r,
        None => {
            proof {
                assert(false);
            }
            0
        },
    }
}

/// Euclidean quotient, for `b > 0` and results in range.
fn div_euclid_i64(a: i64, b: i64) -> (q: i64)
    requires
        b > 0,
        i64::MIN <= a as int / b as int <= i64::MAX,
    ensures
        q == a as int / b as int,
{
    match a.checked_div_euclid(b) {
        Some(q) => q,
        None => {
            proof {
                assert(false);
            }
            0
        },
    }
}

/// Whether `y` is a leap year.
pub fn leap_year(y: i32) -> (b: bool)
    ensures
        b == is_leap_year(y as int),
{
    let r4: i64 = rem_euclid_i64(y as i64, 4);
    let r100: i64 = rem_euclid_i64(y as i64, 100);
    let r400: i64 = rem_euclid_i64(y as i64, 400);
    (r4 == 0 && r100 != 0) || r400 == 0
}

/// Number of days in year `y`.
pub fn year_len(y: i32) -> (n: u32)
    ensures
        n == days_in_year(y as int),
{
    if leap_year(y) { 366 } else { 365 }
}

/// 0-based ordinal of the first day of month `m` in year `y`; `m == 13`
/// gives the length of the year.
pub fn month_first_ordinal(y: i32, m: u32) -> (d: u32)
    requires
        1 <= m <= 13,
    ensures
        d == month_first_ord(y as int, m as int),
{
    let leap: u32 = if leap_year(y) { 1 } else { 0 };
    if m <= 1 { 0 }
    else if m == 2 { 31 }
    else if m == 3 { 59 + leap }
    else if m == 4 { 90 + leap }
    else if m == 5 { 120 + leap }
    else if m == 6 { 151 + leap }
    else if m == 7 { 181 + leap }
    else if m == 8 { 212 + leap }
    else if m == 9 { 243 + leap }
    else if m == 10 { 273 + leap }
    else if m == 11 { 304 + leap }
    else if m == 12 { 334 + leap }
    else { 365 + leap }
}

/// 1-based month containing the day with 0-based ordinal `d` of year `y`.
pub fn month_of_ordinal(y: i32, d: u32) -> (m: u32)
    ensures
        m == month_of_ord(y as int, d as int),
        1 <= m <= 12,
{
    let mut m: u32 = 1;
    while m < 12
        invariant
            1 <= m <= 12,
            forall|k: int| 2 <= k <= m ==> d as int >= #[trigger] month_first_ord(y as int, k),
        decreases 12 - m,
    {
        if d < month_first_ordinal(y, m + 1) {
            return m;
        }
        m = m + 1;
    }
    m
}

/// Whether the day with 0-based ordinal `d` of year `y` is the first day of
/// its month.
pub fn month_first(y: i32, d: u32) -> (b: bool)
    ensures
        b == is_month_first(y as int, d as int),
{
    let m: u32 = month_of_ordinal(y, d);
    d == month_first_ordinal(y, m)
}

/// Monday-indexed weekday of January 1 of year `y`.
pub fn weekday_of_jan1(y: i32) -> (w: u32)
    requires
        MIN_YEAR <= y <= MAX_YEAR,
    ensures
        w == jan1_weekday(y as int),
        w < 7,
{
    let n: i64 = y as i64 - 1;
    let q4: i64 = div_euclid_i64(n, 4);
    let q100: i64 = div_euclid_i64(n, 100);
    let q400: i64 = div_euclid_i64(n, 400);
    let t: i64 = 365 * n + q4 - q100 + q400;
    let w: i64 = rem_euclid_i64(t, 7);
    w as u32
}

/// `month_of_ord` brackets its day between the month's first ordinal and
/// the next month's.
pub proof fn lemma_month_of_bounds(y: int, d: int)
    requires
        0 <= d < days_in_year(y),
    ensures
        1 <= month_of_ord(y, d) <= 12,
        month_first_ord(y, month_of_ord(y, d)) <= d,
        d < month_first_ord(y, month_of_ord(y, d) + 1),
{
}

/// Later days fall in the same or a later month.
pub proof fn lemma_month_of_monotone(y: int, d1: int, d2: int)
    requires
        d1 <= d2,
    ensures
        month_of_ord(y, d1) <= month_of_ord(y, d2),
{
}

/// `month_first_ord` grows strictly with the month.
pub proof fn lemma_month_first_increasing(y: int, m1: int, m2: int)
    requires
        1 <= m1 < m2 <= 13,
    ensures
        month_first_ord(y, m1) < month_first_ord(y, m2),
{
}

/// A day that does not open a month belongs to the same month as the day
/// before it.
pub proof fn lemma_month_of_step(y: int, d: int)
    requires
        1 <= d < days_in_year(y),
        !is_month_first(y, d),
    ensures
        month_of_ord(y, d) == month_of_ord(y, d - 1),
{
    lemma_month_of_bounds(y, d);
    lemma_month_of_bounds(y, d - 1);
}

/// A well-formed date's ordinal lies within its year.
pub proof fn lemma_ordinal_bounds(d: Date)
    requires
        d.wf(),
    ensures
        0 <= d.ordinal0_spec() < days_in_year(d.year as int),
{
    lemma_month_first_increasing(d.year as int, d.month as int, 13);
    if d.month < 12 {
        lemma_month_first_increasing(d.year as int, d.month as int + 1, 13);
    }
}

/// Of two well-formed dates in the same year, the earlier one has the
/// smaller ordinal.
pub proof fn lemma_date_le_ordinal(a: Date, b: Date)
    requires
        a.wf(),
        b.wf(),
        a.year == b.year,
        date_le_spec(a, b),
    ensures
        a.ordinal0_spec() <= b.ordinal0_spec(),
{
    if a.month < b.month {
        lemma_month_first_increasing(a.year as int, a.month as int, a.month as int + 1);
        if a.month as int + 1 < b.month as int {
            lemma_month_first_increasing(a.year as int, a.month as int + 1, b.month as int);
        }
    }
}

/// Whether date `a` is on or before date `b` in time.
pub open spec fn date_le_spec(a: Date, b: Date) -> bool {
    ||| a.year < b.year
    ||| (a.year == b.year && a.month < b.month)
    ||| (a.year == b.year && a.month == b.month && a.day <= b.day)
}

/// A calendar date, as plain year, month and day fields.
#[derive(Clone, Copy, Debug, PartialEq, Eq, Structural)]
pub struct Date {
    /// Calendar year (may be negative; proleptic Gregorian).
    pub year: i32,
    /// 1-based month.
    pub month: u32,
    /// 1-based day of month.
    pub day: u32,
}

impl Date {
    /// A well-formed date: the year is in the supported range and the
    /// month/day pair exists in that year's calendar.
    pub open spec fn wf(self) -> bool {
        &&& MIN_YEAR <= self.year <= MAX_YEAR
        &&& 1 <= self.month <= 12
        &&& 1 <= self.day <= days_in_month(self.year as int, self.month as int)
    }

    /// 0-based day-of-year ordinal of this date.
    pub open spec fn ordinal0_spec(self) -> int {
        month_first_ord(self.year as int, self.month as int) + self.day - 1
    }

    /// Builds a date after checking that `(year, month, day)` exists in the
    /// calendar and lies in the supported year range.
    pub fn from_ymd(year: i32, month: u32, day: u32) -> (r: Option<Date>)
        ensures
            match r {
                Some(d) => {
                    &&& d.wf()
                    &&& d.year == year
                    &&& d.month == month
                    &&& d.day == day
                },
                None => !(Date { year, month, day }).wf(),
            },
    {
        if year < MIN_YEAR || year > MAX_YEAR {
            return None;
        }
        if month < 1 || month > 12 {
            return None;
        }
        let mstart: u32 = month_first_ordinal(year, month);
        let mnext: u32 = month_first_ordinal(year, month + 1);
        if day < 1 || day > mnext - mstart {
            return None;
        }
        Some(Date { year, month, day })
    }

    /// Whether `self` is on or before `other` in time.
    pub fn date_le(&self, other: &Date) -> (r: bool)
        ensures
            r == date_le_spec(*self, *other),
    {
        if self.year != other.year {
            self.year < other.year
        } else if self.month != other.month {
            self.month < other.month
        } else {
            self.day <= other.day
        }
    }

    /// 0-based day-of-year ordinal of this date.
    pub fn ordinal0(&self) -> (d: u32)
        requires
            self.wf(),
        ensures
            d == self.ordinal0_spec(),
            d < days_in_year(self.year as int),
    {
        let mstart: u32 = month_first_ordinal(self.year, self.month);
        mstart + self.day - 1
    }
}

} // verus!
