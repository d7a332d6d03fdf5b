//! Date-range selection: parsing `YYYYMMDD` range endpoints (with `_` for
//! an open end) and the default range used when nothing is asked for.

use vstd::prelude::*;

use crate::calendar::{Date, MIN_YEAR};
use crate::error::Error;
use crate::stat::YearData;

verus! {

/// Whether `c` is a decimal digit.
pub open spec fn is_digit(c: char) -> bool {
    48 <= c as int <= 57
}

/// The value of the digit `c`.
pub open spec fn digit_val(c: char) -> int {
    c as int - 48
}

/// The value of the digit run `s[i..j]`, most significant first.
pub open spec fn digits_val(s: Seq<char>, i: int, j: int) -> int
    decreases j - i,
{
    if i >= j {
        0
    } else {
        digits_val(s, i, j - 1) * 10 + digit_val(s[j - 1])
    }
}

/// Whether every character of `s[i..j]` is a digit.
pub open spec fn all_digits(s: Seq<char>, i: int, j: int) -> bool {
    forall|k: int| i <= k < j ==> is_digit(#[trigger] s[k])
}

/// The date written as the eight digits `YYYYMMDD`, if `s` has that shape
/// and names a day that exists in the calendar.
pub open spec fn parse_ymd_spec(s: Seq<char>) -> Option<Date> {
    if s.len() == 8 && all_digits(s, 0, 8) {
        let d = Date {
            year: digits_val(s, 0, 4) as i32,
            month: digits_val(s, 4, 6) as u32,
            day: digits_val(s, 6, 8) as u32,
        };
        if d.wf() {
            Some(d)
        } else {
            None
        }
    } else {
        None
    }
}

/// The range's left end: `_` means January 1 of the earliest stored year.
pub open spec fn parse_side_from(years: Seq<i32>, s: Seq<char>) -> Result<Date, Error> {
    if s == seq!['_'] {
        if years.len() > 0 {
            Ok(Date { year: years[0], month: 1, day: 1 })
        } else {
            Err(Error::NoData)
        }
    } else {
        match parse_ymd_spec(s) {
            Some(d) => Ok(d),
            None => Err(Error::ParseDateError),
        }
    }
}

/// The range's right end: `_` means today.
pub open spec fn parse_side_to(today: Date, s: Seq<char>) -> Result<Date, Error> {
    if s == seq!['_'] {
        Ok(today)
    } else {
        match parse_ymd_spec(s) {
            Some(d) => Ok(d),
            None => Err(Error::ParseDateError),
        }
    }
}

/// Both ends together; a failing left end wins.
pub open spec fn parse_range_spec(
    years: Seq<i32>,
    fl: Seq<char>,
    tl: Seq<char>,
    today: Date,
) -> Result<(Date, Date), Error> {
    match parse_side_from(years, fl) {
        Ok(f) => match parse_side_to(today, tl) {
            Ok(t) => Ok((f, t)),
            Err(e) => Err(e),
        },
        Err(e) => Err(e),
    }
}

/// Powers of ten, for digit-run bounds.
pub open spec fn pow10(n: int) -> int
    decreases n,
{
    if n <= 0 {
        1
    } else {
        10 * pow10(n - 1)
    }
}

/// Powers of ten are at least one.
proof fn lemma_pow10_pos(n: int)
    ensures
        pow10(n) >= 1,
    decreases n,
{
    if n > 0 {
        lemma_pow10_pos(n - 1);
    }
}

/// Powers of ten grow with the exponent.
proof fn lemma_pow10_mono(a: int, b: int)
    requires
        a <= b,
    ensures
        pow10(a) <= pow10(b),
    decreases b - a,
{
    if a < b {
        lemma_pow10_mono(a, b - 1);
        lemma_pow10_pos(b - 1);
    }
}

/// A digit run's value stays under `pow10` of its width.
proof fn lemma_digits_val_bound(s: Seq<char>, i: int, j: int)
    requires
        i <= j,
        all_digits(s, i, j),
    ensures
        0 <= digits_val(s, i, j) < pow10(j - i),
    decreases j - i,
{
    if i < j {
        lemma_digits_val_bound(s, i, j - 1);
    }
}

/// Reads the digit run `s[i0..j0]` as a number, or reports the first
/// non-digit.
fn digits_value(s: &str, i0: usize, j0: usize) -> (r: Option<u32>)
    requires
        i0 <= j0 <= s@.len(),
        j0 - i0 <= 4,
    ensures
        r matches Some(v) ==> all_digits(s@, i0 as int, j0 as int) && v == digits_val(
            s@,
            i0 as int,
            j0 as int,
        ),
        r is None ==> !all_digits(s@, i0 as int, j0 as int),
{
    let mut acc: u32 = 0;
    let mut k: usize = i0;
    while k < j0
        invariant
            i0 <= k <= j0,
            all_digits(s@, i0 as int, k as int),
            acc == digits_val(s@, i0 as int, k as int),
            acc < pow10(k as int - i0 as int),
        decreases j0 - k,
    {
        let c: char = s.get_char(k);
        let v: u32 = c as u32;
        if v < 48 || v > 57 {
            proof {
                assert(!is_digit(s@[k as int]));
            }
            return None;
        }
        proof {
            reveal_with_fuel(pow10, 5);
            lemma_pow10_mono(k as int - i0 as int, 3);
            assert(acc < 1000);
        }
        acc = acc * 10 + (v - 48);
        k = k + 1;
    }
    Some(acc)
}

/// Digit runs grow (weakly) as more digits are taken in.
proof fn lemma_digits_val_monotone(s: Seq<char>, i: int, j1: int, j2: int)
    requires
        i <= j1 <= j2,
        all_digits(s, i, j2),
    ensures
        digits_val(s, i, j1) <= digits_val(s, i, j2),
    decreases j2 - j1,
{
    if j1 < j2 {
        lemma_digits_val_monotone(s, i, j1, j2 - 1);
        lemma_digits_val_bound(s, i, j2 - 1);
    }
}

/// Where the digits of an integer literal start: after one optional sign.
pub open spec fn int_body_start(s: Seq<char>) -> int {
    if s.len() > 0 && (s[0] == '-' || s[0] == '+') {
        1
    } else {
        0
    }
}

/// Whether `s` has the shape of a signed decimal integer: an optional sign
/// followed by at least one digit, and nothing else.
pub open spec fn int_shape_ok(s: Seq<char>) -> bool {
    let start = int_body_start(s);
    start < s.len() && all_digits(s, start, s.len() as int)
}

/// The value written in `s`, when it has integer shape.
pub open spec fn int_value(s: Seq<char>) -> int {
    let v = digits_val(s, int_body_start(s), s.len() as int);
    if s.len() > 0 && s[0] == '-' {
        -v
    } else {
        v
    }
}

/// Reads `s` as a signed decimal year: an optional sign, then digits.
/// Yields the year exactly when the shape is right and the value fits an
/// `i32`.
pub fn parse_year(s: &str) -> (r: Option<i32>)
    ensures
        (r is Some) <==> (int_shape_ok(s@) && i32::MIN <= int_value(s@) <= i32::MAX),
        r matches Some(v) ==> v == int_value(s@),
{
    proof {
        reveal_with_fuel(pow10, 5);
    }
    let n: usize = s.unicode_len();
    if n == 0 {
        return None;
    }
    let first: char = s.get_char(0);
    let negative: bool = first == '-';
    let start: usize = if first == '-' || first == '+' {
        1
    } else {
        0
    };
    if start >= n {
        return None;
    }
    let mut acc: u64 = 0;
    let mut k: usize = start;
    while k < n
        invariant
            start <= k <= n,
            n == s@.len(),
            start == int_body_start(s@),
            all_digits(s@, start as int, k as int),
            acc == digits_val(s@, start as int, k as int),
            acc <= 0x8000_0000,
        decreases n - k,
    {
        let c: char = s.get_char(k);
        let v: u32 = c as u32;
        if v < 48 || v > 57 {
            proof {
                assert(!is_digit(s@[k as int]));
            }
            return None;
        }
        acc = acc * 10 + ((v - 48) as u64);
        k = k + 1;
        if acc > 0x8000_0000 {
            proof {
                if int_shape_ok(s@) {
                    lemma_digits_val_monotone(s@, start as int, k as int, n as int);
                }
            }
            return None;
        }
    }
    if negative {
        let v: i64 = 0 - (acc as i64);
        Some(v as i32)
    } else {
        if acc > 0x7fff_ffff {
            return None;
        }
        Some(acc as i32)
    }
}

/// Whether `s` is the single open-end mark `_`.
fn is_open_mark(s: &str) -> (r: bool)
    ensures
        r == (s@ == seq!['_']),
{
    proof {
        reveal_strlit("_");
    }
    if s.unicode_len() != 1 {
        proof {
            assert(s@ != seq!['_']);
        }
        return false;
    }
    let c: char = s.get_char(0);
    if c == '_' {
        proof {
            assert(s@ =~= seq!['_']);
        }
        true
    } else {
        proof {
            assert(s@[0] != '_');
        }
        false
    }
}

/// Parses one `YYYYMMDD` endpoint.
fn parse_ymd(s: &str) -> (r: Option<Date>)
    ensures
        r == parse_ymd_spec(s@),
{
    if s.unicode_len() != 8 {
        return None;
    }
    let y: u32 = match digits_value(s, 0, 4) {
        Some(v) => v,
        None => {
            return None;
        },
    };
    let m: u32 = match digits_value(s, 4, 6) {
        Some(v) => v,
        None => {
            return None;
        },
    };
    let d: u32 = match digits_value(s, 6, 8) {
        Some(v) => v,
        None => {
            return None;
        },
    };
    proof {
        reveal_with_fuel(pow10, 5);
        lemma_digits_val_bound(s@, 0, 4);
        assert(all_digits(s@, 0, 8));
    }
    Date::from_ymd(y as i32, m, d)
}

/// The default range when neither a range nor a year is asked for: from
/// the first day of the month two months before `today`, to `today`.
pub fn default_range(today: Date) -> (r: (Date, Date))
    requires
        today.wf(),
        today.year > MIN_YEAR,
    ensures
        r.1 == today,
        r.0.wf(),
        r.0.day == 1,
        today.month > 2 ==> r.0.year == today.year && r.0.month == today.month - 2,
        today.month <= 2 ==> r.0.year == today.year - 1 && r.0.month == today.month + 10,
        crate::calendar::date_le_spec(r.0, today),
    {
    let from: Date = if today.month > 2 {
        Date { year: today.year, month: today.month - 2, day: 1 }
    } else {
        Date { year: today.year - 1, month: today.month + 10, day: 1 }
    };
    (from, today)
}

impl YearData {
    /// Parses the two endpoints of a range argument: each is `YYYYMMDD`,
    /// or `_` for an open end.  An open left end is January 1 of the
    /// earliest stored year (`NoData` when the store is empty); an open
    /// right end is `today`.
    pub fn parse_range(&self, from: &str, to: &str, today: Date) -> (r: Result<
        (Date, Date),
        Error,
    >)
        requires
            self.wf(),
            today.wf(),
        ensures
            r == parse_range_spec(self.years_seq(), from@, to@, today),
            r matches Ok(p) ==> p.0.wf() && p.1.wf(),
    {
        let f: Date = if is_open_mark(from) {
            let ys: Vec<i32> = self.years();
            if ys.len() == 0 {
                return Err(Error::NoData);
            }
            Date { year: ys[0], month: 1, day: 1 }
        } else {
            match parse_ymd(from) {
                Some(d) => d,
                None => {
                    return Err(Error::ParseDateError);
                },
            }
        };
        let t: Date = if is_open_mark(to) {
            today
        } else {
            match parse_ymd(to) {
                Some(d) => d,
                None => {
                    return Err(Error::ParseDateError);
                },
            }
        };
        Ok((f, t))
    }
}

} // verus!
