//! The grid renderer: turns per-day counts into aligned weekly rows of
//! two-column cells, and drives multi-year date ranges.
//!
//! Weeks begin on Monday.  A day with 0-based ordinal `d` of a year whose
//! January 1 falls on weekday `fw` occupies the absolute cell position
//! `d + fw`; cell positions `7w .. 7w + 7` form week row `w`.  Every row
//! shows seven cells — alignment cells outside the rendered range carry the
//! `Empty` glyph — then `" |"`, then, if a month begins in that row, the
//! 1-based month number as two digits.
//!
//! The exact text of every row is pinned down by the spec functions of this
//! module; which characters stand for the intensity buckets is a parameter,
//! the [`GlyphTable`].

use vstd::prelude::*;

use crate::calendar::{
    days_in_year, is_month_first, jan1_weekday, lemma_month_first_increasing,
    lemma_month_of_bounds, lemma_month_of_monotone, lemma_month_of_step, month_first,
    month_first_ord, month_of_ord, month_of_ordinal, weekday_of_jan1, year_len, Date, MAX_YEAR,
    MIN_YEAR,
};
use crate::error::{Error, IoKind};
use crate::levels::{bucket, bucket_spec, glyph_spec, Intensity};
use crate::sink::{Sink, StringSink};
use crate::stat::{DaysData, YearData};

verus! {

/// The printed text of each intensity bucket.  Every entry is expected to
/// occupy one terminal column; the plain table uses the bare glyphs, the
/// colored table wraps them in terminal escapes.
pub struct GlyphTable {
    /// Text of the `Empty` (padding) bucket.
    pub empty: String,
    /// Text of the `L0` bucket.
    pub l0: String,
    /// Text of the `L1` bucket.
    pub l1: String,
    /// Text of the `L2` bucket.
    pub l2: String,
    /// Text of the `L3` bucket.
    pub l3: String,
    /// Text of the `L4Plus` bucket.
    pub l4: String,
}

impl GlyphTable {
    /// The text of one bucket.
    pub open spec fn entry(&self, i: Intensity) -> Seq<char> {
        match i {
            Intensity::Empty => self.empty@,
            Intensity::L0 => self.l0@,
            Intensity::L1 => self.l1@,
            Intensity::L2 => self.l2@,
            Intensity::L3 => self.l3@,
            Intensity::L4Plus => self.l4@,
        }
    }

    /// Every entry is exactly the bucket's bare glyph.
    pub open spec fn is_plain(&self) -> bool {
        forall|i: Intensity| self.entry(i) == seq![glyph_spec(i)]
    }

    /// The text of one bucket.
    pub fn entry_str(&self, i: Intensity) -> (r: &String)
        ensures
            r@ == self.entry(i),
    {
        match i {
            Intensity::Empty => &self.empty,
            Intensity::L0 => &self.l0,
            Intensity::L1 => &self.l1,
            Intensity::L2 => &self.l2,
            Intensity::L3 => &self.l3,
            Intensity::L4Plus => &self.l4,
        }
    }
}

/// The table that prints each bucket as its bare glyph, without styling.
pub fn plain_table() -> (t: GlyphTable)
    ensures
        t.is_plain(),
{
    proof {
        reveal_strlit(" ");
        reveal_strlit(".");
        reveal_strlit("+");
        reveal_strlit("%");
        reveal_strlit("@");
        reveal_strlit("#");
    }
    let t = GlyphTable {
        empty: String::from_str(" "),
        l0: String::from_str("."),
        l1: String::from_str("+"),
        l2: String::from_str("%"),
        l3: String::from_str("@"),
        l4: String::from_str("#"),
    };
    proof {
        assert(t.empty@ =~= seq![' ']);
        assert(t.l0@ =~= seq!['.']);
        assert(t.l1@ =~= seq!['+']);
        assert(t.l2@ =~= seq!['%']);
        assert(t.l3@ =~= seq!['@']);
        assert(t.l4@ =~= seq!['#']);
        assert forall|i: Intensity| t.entry(i) == seq![glyph_spec(i)] by {
            match i {
                Intensity::Empty => assert(t.entry(i) == seq![glyph_spec(i)]),
                Intensity::L0 => assert(t.entry(i) == seq![glyph_spec(i)]),
                Intensity::L1 => assert(t.entry(i) == seq![glyph_spec(i)]),
                Intensity::L2 => assert(t.entry(i) == seq![glyph_spec(i)]),
                Intensity::L3 => assert(t.entry(i) == seq![glyph_spec(i)]),
                Intensity::L4Plus => assert(t.entry(i) == seq![glyph_spec(i)]),
            }
        };
    }
    t
}

/// `r` is `s` with something (possibly nothing) before and after it — all
/// that crossterm promises of a styled string, since its color escapes can
/// be switched off by the environment.
pub open spec fn wraps_text(r: Seq<char>, s: Seq<char>) -> bool {
    exists|p: Seq<char>, q: Seq<char>| r == #[trigger] ((p + s) + q)
}

/// Relies on crossterm's `Stylize::dark_grey` and `StyledContent`'s
/// `Display`: the styled form prints the content itself between an optional
/// set-color escape and an optional reset escape (both absent when the
/// environment disables coloring).
#[verifier::external_body]
fn dark_grey_text(s: &str) -> (r: String)
    ensures
        wraps_text(r@, s@),
{
    crossterm::style::Stylize::dark_grey(s).to_string()
}

/// Relies on crossterm's `Stylize::green`; see `dark_grey_text`.
#[verifier::external_body]
fn green_text(s: &str) -> (r: String)
    ensures
        wraps_text(r@, s@),
{
    crossterm::style::Stylize::green(s).to_string()
}

/// Relies on crossterm's `Stylize::yellow`; see `dark_grey_text`.
#[verifier::external_body]
fn yellow_text(s: &str) -> (r: String)
    ensures
        wraps_text(r@, s@),
{
    crossterm::style::Stylize::yellow(s).to_string()
}

/// Relies on crossterm's `Stylize::red`; see `dark_grey_text`.
#[verifier::external_body]
fn red_text(s: &str) -> (r: String)
    ensures
        wraps_text(r@, s@),
{
    crossterm::style::Stylize::red(s).to_string()
}

/// Relies on crossterm's `Stylize::on_magenta`; see `dark_grey_text`.
#[verifier::external_body]
fn on_magenta_text(s: &str) -> (r: String)
    ensures
        wraps_text(r@, s@),
{
    crossterm::style::Stylize::on_magenta(s).to_string()
}

/// The table that prints each bucket as its glyph in the bucket's terminal
/// style: every entry holds the bare glyph between (possibly empty) escape
/// runs.
pub fn colored_table() -> (t: GlyphTable)
    ensures
        forall|i: Intensity| #[trigger] wraps_text(t.entry(i), seq![glyph_spec(i)]),
{
    proof {
        reveal_strlit(" ");
        reveal_strlit(".");
        reveal_strlit("+");
        reveal_strlit("%");
        reveal_strlit("@");
        reveal_strlit("#");
    }
    let t = GlyphTable {
        empty: String::from_str(" "),
        l0: dark_grey_text("."),
        l1: green_text("+"),
        l2: yellow_text("%"),
        l3: red_text("@"),
        l4: on_magenta_text("#"),
    };
    proof {
        assert(t.empty@ == (Seq::<char>::empty() + seq![' ']) + Seq::<char>::empty()) by {
            assert((Seq::<char>::empty() + seq![' ']) + Seq::<char>::empty() =~= t.empty@);
        };
        assert(wraps_text(t.empty@, seq![' ']));
        assert("."@ =~= seq!['.']);
        assert("+"@ =~= seq!['+']);
        assert("%"@ =~= seq!['%']);
        assert("@"@ =~= seq!['@']);
        assert("#"@ =~= seq!['#']);
        assert forall|i: Intensity| #[trigger] wraps_text(t.entry(i), seq![glyph_spec(i)]) by {
            match i {
                Intensity::Empty => assert(wraps_text(t.entry(i), seq![glyph_spec(i)])),
                Intensity::L0 => assert(wraps_text(t.entry(i), seq![glyph_spec(i)])),
                Intensity::L1 => assert(wraps_text(t.entry(i), seq![glyph_spec(i)])),
                Intensity::L2 => assert(wraps_text(t.entry(i), seq![glyph_spec(i)])),
                Intensity::L3 => assert(wraps_text(t.entry(i), seq![glyph_spec(i)])),
                Intensity::L4Plus => assert(wraps_text(t.entry(i), seq![glyph_spec(i)])),
            }
        };
    }
    t
}

/// Relies on `std::io::Write::write_all` on `std::io::stdout`: on success
/// the whole string reached the stream; on failure the error's kind tells a
/// broken pipe apart from other write failures.
#[verifier::external_body]
fn write_stdout(s: &str) -> (r: Result<(), Error>)
    ensures
        r matches Err(e) ==> e matches Error::IoError(_),
{
    let kind = match std::io::Write::write_all(&mut std::io::stdout(), s.as_bytes()) {
        Ok(()) => return Ok(()),
        Err(e) => e.kind(),
    };
    Err(Error::IoError(if kind == std::io::ErrorKind::BrokenPipe {
        IoKind::BrokenPipe
    } else {
        IoKind::Other
    }))
}

/// The decimal digit character of `n` (0..=9).
pub open spec fn dec_digit(n: int) -> char {
    if n == 0 { '0' }
    else if n == 1 { '1' }
    else if n == 2 { '2' }
    else if n == 3 { '3' }
    else if n == 4 { '4' }
    else if n == 5 { '5' }
    else if n == 6 { '6' }
    else if n == 7 { '7' }
    else if n == 8 { '8' }
    else { '9' }
}

/// Decimal text of `n >= 0`, without leading zeros.
pub open spec fn dec_nat_text(n: int) -> Seq<char>
    decreases n,
{
    if n < 10 {
        seq![dec_digit(n)]
    } else {
        dec_nat_text(n / 10) + seq![dec_digit(n % 10)]
    }
}

/// Decimal text of `n`, with a leading minus sign when negative.
pub open spec fn dec_int_text(n: int) -> Seq<char> {
    if n < 0 {
        seq!['-'] + dec_nat_text(-n)
    } else {
        dec_nat_text(n)
    }
}

/// The single-character string of digit `d`.
fn digit_str(d: u32) -> (r: &'static str)
    requires
        d < 10,
    ensures
        r@ == seq![dec_digit(d as int)],
{
    proof {
        reveal_strlit("0");
        reveal_strlit("1");
        reveal_strlit("2");
        reveal_strlit("3");
        reveal_strlit("4");
        reveal_strlit("5");
        reveal_strlit("6");
        reveal_strlit("7");
        reveal_strlit("8");
        reveal_strlit("9");
    }
    let r: &'static str = if d == 0 { "0" }
    else if d == 1 { "1" }
    else if d == 2 { "2" }
    else if d == 3 { "3" }
    else if d == 4 { "4" }
    else if d == 5 { "5" }
    else if d == 6 { "6" }
    else if d == 7 { "7" }
    else if d == 8 { "8" }
    else { "9" };
    proof {
        assert(r@ =~= seq![dec_digit(d as int)]);
    }
    r
}

/// Appends the decimal text of `n` to `out`.
fn append_u32_dec(n: u32, out: &mut String)
    ensures
        final(out)@ == old(out)@ + dec_nat_text(n as int),
    decreases n,
{
    if n < 10 {
        out.append(digit_str(n));
    } else {
        append_u32_dec(n / 10, out);
        out.append(digit_str(n % 10));
        proof {
            assert(out@ =~= old(out)@ + dec_nat_text(n as int));
        }
    }
}

/// Appends the decimal text of `y`, sign included, to `out`.
fn append_i32_dec(y: i32, out: &mut String)
    requires
        MIN_YEAR <= y <= MAX_YEAR,
    ensures
        final(out)@ == old(out)@ + dec_int_text(y as int),
{
    proof {
        reveal_strlit("-");
    }
    if y < 0 {
        out.append("-");
        let m: u32 = (0 - y) as u32;
        append_u32_dec(m, out);
        proof {
            assert(out@ =~= old(out)@ + dec_int_text(y as int));
        }
    } else {
        append_u32_dec(y as u32, out);
    }
}

/// The day ordinal shown at absolute cell position `p` of `year`'s grid.
pub open spec fn cell_day(year: int, p: int) -> int {
    p - jan1_weekday(year)
}

/// Whether the cell at position `p` carries the `'*'` month-first prefix:
/// exactly when its day lies in `[from, to]` and opens a month.
pub open spec fn cell_star(year: int, from: int, to: int, p: int) -> bool {
    let d = cell_day(year, p);
    from <= d <= to && is_month_first(year, d)
}

/// The count rendered for day `d`: the stored count, or 0 when absent.
pub open spec fn count_at(counts: Map<u32, u32>, d: int) -> u32 {
    if 0 <= d <= u32::MAX && counts.dom().contains(d as u32) {
        counts[d as u32]
    } else {
        0
    }
}

/// The bucket shown at position `p`: the day's bucket inside `[from, to]`,
/// the `Empty` padding bucket outside.
pub open spec fn cell_level(year: int, from: int, to: int, counts: Map<u32, u32>, p: int)
    -> Intensity {
    let d = cell_day(year, p);
    if from <= d <= to {
        bucket_spec(count_at(counts, d))
    } else {
        Intensity::Empty
    }
}

/// The two-column text of one cell: prefix, then the bucket's glyph text.
pub open spec fn cell_text(t: GlyphTable, star: bool, level: Intensity) -> Seq<char> {
    (if star { seq!['*'] } else { seq![' '] }) + t.entry(level)
}

/// The text of the cells at positions `[p0, p1)`.
pub open spec fn cells_text(
    year: int,
    from: int,
    to: int,
    counts: Map<u32, u32>,
    t: GlyphTable,
    p0: int,
    p1: int,
) -> Seq<char>
    decreases p1 - p0,
{
    if p0 >= p1 {
        Seq::empty()
    } else {
        cell_text(t, cell_star(year, from, to, p0), cell_level(year, from, to, counts, p0))
            + cells_text(year, from, to, counts, t, p0 + 1, p1)
    }
}

/// The month annotated on week row `w`: if a day of `[from, to]` within the
/// row opens a month, the (chronologically latest such) month, else none.
pub open spec fn week_mark(year: int, from: int, to: int, w: int) -> Option<int> {
    let lo = if from >= 7 * w - jan1_weekday(year) { from } else { 7 * w - jan1_weekday(year) };
    let hi = if to <= 7 * w + 6 - jan1_weekday(year) { to } else { 7 * w + 6 - jan1_weekday(year) };
    if exists|d: int| lo <= d <= hi && is_month_first(year, d) {
        Some(month_of_ord(year, hi))
    } else {
        None
    }
}

/// The text of a row's month annotation: nothing, or a space and the month
/// as two digits (`01` .. `12`).
pub open spec fn mark_text(mk: Option<int>) -> Seq<char> {
    match mk {
        None => Seq::empty(),
        Some(m) => seq![' ', dec_digit(m / 10), dec_digit(m % 10)],
    }
}

/// The full text of week row `w`: seven cells, `" |"`, the month
/// annotation, and a newline.
pub open spec fn line_text(
    year: int,
    from: int,
    to: int,
    counts: Map<u32, u32>,
    t: GlyphTable,
    w: int,
) -> Seq<char> {
    cells_text(year, from, to, counts, t, 7 * w, 7 * w + 7) + seq![' ', '|'] + mark_text(
        week_mark(year, from, to, w),
    ) + seq!['\n']
}

/// The week row holding day `from`.
pub open spec fn first_week(year: int, from: int) -> int {
    (from + jan1_weekday(year)) / 7
}

/// The week row holding day `to`.
pub open spec fn last_week(year: int, to: int) -> int {
    (to + jan1_weekday(year)) / 7
}

/// The text of week rows `[w0, w1)`.
pub open spec fn lines_text(
    year: int,
    from: int,
    to: int,
    counts: Map<u32, u32>,
    t: GlyphTable,
    w0: int,
    w1: int,
) -> Seq<char>
    decreases w1 - w0,
{
    if w0 >= w1 {
        Seq::empty()
    } else {
        line_text(year, from, to, counts, t, w0) + lines_text(year, from, to, counts, t, w0 + 1, w1)
    }
}

/// Whether `[from, to]` is a day range the renderer accepts for `year`.
pub open spec fn range_ok(year: int, from: int, to: int) -> bool {
    &&& MIN_YEAR <= year <= MAX_YEAR
    &&& 0 <= from <= to
    &&& to < days_in_year(year)
}

/// The whole grid of `year`'s range `[from, to]`: every week row from the
/// one holding `from` to the one holding `to`.
pub open spec fn grid_text(
    year: int,
    from: int,
    to: int,
    counts: Map<u32, u32>,
    t: GlyphTable,
) -> Seq<char> {
    lines_text(year, from, to, counts, t, first_week(year, from), last_week(year, to) + 1)
}

/// Appending one more cell extends the cell run's text on the right.
proof fn lemma_cells_snoc(
    year: int,
    from: int,
    to: int,
    counts: Map<u32, u32>,
    t: GlyphTable,
    p0: int,
    p1: int,
)
    requires
        p0 <= p1,
    ensures
        cells_text(year, from, to, counts, t, p0, p1 + 1) == cells_text(
            year,
            from,
            to,
            counts,
            t,
            p0,
            p1,
        ) + cell_text(t, cell_star(year, from, to, p1), cell_level(year, from, to, counts, p1)),
    decreases p1 - p0,
{
    let tail = cell_text(t, cell_star(year, from, to, p1), cell_level(year, from, to, counts, p1));
    if p0 == p1 {
        assert(cells_text(year, from, to, counts, t, p0 + 1, p1 + 1) =~= Seq::<char>::empty());
        assert(cells_text(year, from, to, counts, t, p0, p1) =~= Seq::<char>::empty());
        assert(cells_text(year, from, to, counts, t, p0, p1 + 1) =~= cells_text(
            year,
            from,
            to,
            counts,
            t,
            p0,
            p1,
        ) + tail);
    } else {
        lemma_cells_snoc(year, from, to, counts, t, p0 + 1, p1);
        let a = cell_text(t, cell_star(year, from, to, p0), cell_level(year, from, to, counts, p0));
        let b = cells_text(year, from, to, counts, t, p0 + 1, p1);
        assert(cells_text(year, from, to, counts, t, p0, p1) == a + b);
        assert(cells_text(year, from, to, counts, t, p0, p1 + 1) == a + (b + tail));
        assert(a + (b + tail) =~= (a + b) + tail);
    }
}

/// Appending one more row extends the row run's text on the right.
proof fn lemma_lines_snoc(
    year: int,
    from: int,
    to: int,
    counts: Map<u32, u32>,
    t: GlyphTable,
    w0: int,
    w1: int,
)
    requires
        w0 <= w1,
    ensures
        lines_text(year, from, to, counts, t, w0, w1 + 1) == lines_text(
            year,
            from,
            to,
            counts,
            t,
            w0,
            w1,
        ) + line_text(year, from, to, counts, t, w1),
    decreases w1 - w0,
{
    if w0 == w1 {
        assert(lines_text(year, from, to, counts, t, w0 + 1, w1 + 1) =~= Seq::<char>::empty());
        assert(lines_text(year, from, to, counts, t, w0, w1) =~= Seq::<char>::empty());
        assert(lines_text(year, from, to, counts, t, w0, w1 + 1) =~= lines_text(
            year,
            from,
            to,
            counts,
            t,
            w0,
            w1,
        ) + line_text(year, from, to, counts, t, w1));
    } else {
        lemma_lines_snoc(year, from, to, counts, t, w0 + 1, w1);
        let a = line_text(year, from, to, counts, t, w0);
        let b = lines_text(year, from, to, counts, t, w0 + 1, w1);
        let c = line_text(year, from, to, counts, t, w1);
        assert(lines_text(year, from, to, counts, t, w0, w1) == a + b);
        assert(lines_text(year, from, to, counts, t, w0, w1 + 1) == a + (b + c));
        assert(a + (b + c) =~= (a + b) + c);
    }
}

impl DaysData {
    /// Renders the weekly grid of this year's day range `[from, to]`
    /// (0-based ordinals) to `out`, one week row per write.
    ///
    /// On success the sink has grown by exactly `grid_text`.  An inverted
    /// or out-of-bounds range is rejected as `WrongDate` before anything is
    /// written; a failing sink write surfaces as `IoError`, leaving the
    /// rows already written in place.
    #[verifier::rlimit(80)]
    pub fn fmt_range_year<S: Sink>(
        &self,
        from: u32,
        to: u32,
        table: &GlyphTable,
        out: &mut S,
    ) -> (r: Result<(), Error>)
        ensures
            r matches Ok(()) ==> range_ok(self.year as int, from as int, to as int)
                && final(out).content() == old(out).content() + grid_text(
                self.year as int,
                from as int,
                to as int,
                self@,
                *table,
            ),
            (r matches Err(Error::WrongDate)) <==> !range_ok(
                self.year as int,
                from as int,
                to as int,
            ),
            r matches Err(Error::WrongDate) ==> final(out).content() == old(out).content(),
            r matches Err(Error::IoError(_)) ==> exists|k: int|
                first_week(self.year as int, from as int) <= k <= last_week(
                    self.year as int,
                    to as int,
                ) + 1 && final(out).content() == old(out).content() + lines_text(
                    self.year as int,
                    from as int,
                    to as int,
                    self@,
                    *table,
                    first_week(self.year as int, from as int),
                    k,
                ),
            r matches Err(e) ==> (e matches Error::WrongDate) || (e matches Error::IoError(_)),
    {
        let year: i32 = self.year;
        if to < from || year < MIN_YEAR || year > MAX_YEAR {
            return Err(Error::WrongDate);
        }
        let ylen: u32 = year_len(year);
        if to >= ylen {
            return Err(Error::WrongDate);
        }
        let fw: u32 = weekday_of_jan1(year);
        let w0: u32 = (from + fw) / 7;
        let w1: u32 = (to + fw) / 7;
        let ghost gyear = year as int;
        let ghost gfrom = from as int;
        let ghost gto = to as int;
        let ghost counts = self@;
        let ghost t = *table;
        let ghost base = out.content();
        proof {
            reveal_strlit("*");
            reveal_strlit(" ");
            reveal_strlit(" |");
            reveal_strlit("\n");
        }
        let mut w: u32 = w0;
        while w <= w1
            invariant
                w0 <= w <= w1 + 1,
                out.content() == base + lines_text(gyear, gfrom, gto, counts, t, w0 as int, w as int),
            decreases w1 + 1 - w,
        {
            let mut line: String = String::new();
            let mut has_mark: bool = false;
            let mut mark_month: u32 = 1;
            let mut s: u32 = 0;
            proof {
                assert(line@ =~= cells_text(gyear, gfrom, gto, counts, t, 7 * (w as int), 7 * (
                w as int)));
            }
            while s < 7
                invariant
                    s <= 7,
                    w <= w1,
                    line@ == cells_text(gyear, gfrom, gto, counts, t, 7 * (w as int), 7 * (w as int)
                        + s as int),
                    ({
                        let lo = if gfrom >= 7 * (w as int) - fw as int {
                            gfrom
                        } else {
                            7 * (w as int) - fw as int
                        };
                        let hi0 = 7 * (w as int) + (s as int) - 1 - fw as int;
                        let hi = if gto <= hi0 {
                            gto
                        } else {
                            hi0
                        };
                        &&& has_mark == exists|d2: int| lo <= d2 <= hi && is_month_first(gyear, d2)
                        &&& (has_mark ==> lo <= hi && mark_month as int == month_of_ord(gyear, hi)
                            && 1 <= mark_month <= 12)
                    }),
                decreases 7 - s,
            {
                let p: u32 = 7 * w + s;
                proof {
                    lemma_cells_snoc(gyear, gfrom, gto, counts, t, 7 * (w as int), p as int);
                }
                let ghost lo = if gfrom >= 7 * (w as int) - fw as int {
                    gfrom
                } else {
                    7 * (w as int) - fw as int
                };
                let ghost hi_old = if gto <= 7 * (w as int) + (s as int) - 1 - fw as int {
                    gto
                } else {
                    7 * (w as int) + (s as int) - 1 - fw as int
                };
                let ghost hi_new = if gto <= 7 * (w as int) + (s as int) - fw as int {
                    gto
                } else {
                    7 * (w as int) + (s as int) - fw as int
                };
                if p >= fw + from && p <= fw + to {
                    let d: u32 = p - fw;
                    let star: bool = month_first(year, d);
                    if star {
                        line.append("*");
                        mark_month = month_of_ordinal(year, d);
                        has_mark = true;
                        proof {
                            assert(hi_new == d as int);
                            assert(is_month_first(gyear, d as int));
                        }
                    } else {
                        line.append(" ");
                        proof {
                            if hi_old < lo {
                                assert(lo == d as int);
                                assert(!(exists|d2: int|
                                    lo <= d2 <= hi_new && is_month_first(gyear, d2)));
                            } else {
                                lemma_month_of_bounds(gyear, d as int);
                                if has_mark {
                                    lemma_month_of_step(gyear, d as int);
                                }
                                assert((exists|d2: int|
                                    lo <= d2 <= hi_new && is_month_first(gyear, d2)) == (exists|
                                    d2: int,
                                |
                                    lo <= d2 <= hi_old && is_month_first(gyear, d2))) by {
                                    if exists|d2: int|
                                        lo <= d2 <= hi_new && is_month_first(gyear, d2) {
                                        let d2 = choose|d2: int|
                                            lo <= d2 <= hi_new && is_month_first(gyear, d2);
                                        assert(d2 != d as int);
                                        assert(lo <= d2 <= hi_old && is_month_first(gyear, d2));
                                    }
                                };
                            }
                        }
                    }
                    let cnt: u32 = match self.get(d) {
                        Some(c) => c,
                        None => 0,
                    };
                    let lvl: Intensity = bucket(cnt);
                    line.append(table.entry_str(lvl).as_str());
                    proof {
                        assert(cell_star(gyear, gfrom, gto, p as int) == star);
                        assert(cell_level(gyear, gfrom, gto, counts, p as int) == lvl);
                        assert(line@ =~= cells_text(gyear, gfrom, gto, counts, t, 7 * (w as int), p
                            as int + 1));
                    }
                } else {
                    line.append(" ");
                    line.append(table.entry_str(Intensity::Empty).as_str());
                    proof {
                        assert(!cell_star(gyear, gfrom, gto, p as int));
                        assert(cell_level(gyear, gfrom, gto, counts, p as int) == Intensity::Empty);
                        assert(line@ =~= cells_text(gyear, gfrom, gto, counts, t, 7 * (w as int), p
                            as int + 1));
                        if p < fw + from {
                            assert(hi_new < lo);
                            assert(hi_old < lo);
                        } else {
                            assert(hi_new == hi_old);
                        }
                    }
                }
                s = s + 1;
            }
            line.append(" |");
            if has_mark {
                line.append(" ");
                line.append(digit_str(mark_month / 10));
                line.append(digit_str(mark_month % 10));
            }
            line.append("\n");
            proof {
                assert(week_mark(gyear, gfrom, gto, w as int) == (if has_mark {
                    Some(mark_month as int)
                } else {
                    None::<int>
                }));
                assert(line@ =~= line_text(gyear, gfrom, gto, counts, t, w as int));
            }
            match out.write_str(line.as_str()) {
                Ok(()) => {},
                Err(e) => {
                    proof {
                        assert(w0 as int == first_week(gyear, gfrom));
                        assert(w1 as int == last_week(gyear, gto));
                        assert(out.content() == base + lines_text(
                            gyear,
                            gfrom,
                            gto,
                            counts,
                            t,
                            w0 as int,
                            w as int,
                        ));
                    }
                    return Err(e);
                },
            }
            proof {
                lemma_lines_snoc(gyear, gfrom, gto, counts, t, w0 as int, w as int);
            }
            w = w + 1;
        }
        Ok(())
    }
}

/// The text of `n` Empty alignment cells.
pub open spec fn empty_cells_text(t: GlyphTable, n: int) -> Seq<char>
    decreases n,
{
    if n <= 0 {
        Seq::empty()
    } else {
        empty_cells_text(t, n - 1) + seq![' '] + t.entry(Intensity::Empty)
    }
}

/// The year header line: seven Empty cells, `" |   "`, the year, a newline.
pub open spec fn header_text(t: GlyphTable, y: int) -> Seq<char> {
    empty_cells_text(t, 7) + seq![' ', '|', ' ', ' ', ' '] + dec_int_text(y) + seq!['\n']
}

/// The counts rendered for year `y`: the stored mapping, or an empty one
/// for a year without data.
pub open spec fn store_at(store: Map<i32, Map<u32, u32>>, y: i32) -> Map<u32, u32> {
    if store.dom().contains(y) {
        store[y]
    } else {
        Map::empty()
    }
}

/// The first rendered ordinal of year `y` within the range `[dfrom, dto]`.
pub open spec fn year_from_ord(dfrom: Date, y: int) -> int {
    if y == dfrom.year {
        dfrom.ordinal0_spec()
    } else {
        0
    }
}

/// The last rendered ordinal of year `y` within the range `[dfrom, dto]`.
pub open spec fn year_to_ord(dto: Date, y: int) -> int {
    if y == dto.year {
        dto.ordinal0_spec()
    } else {
        days_in_year(y) - 1
    }
}

/// One year's output within a date range: its header, then its grid.
pub open spec fn year_block_text(
    store: Map<i32, Map<u32, u32>>,
    t: GlyphTable,
    dfrom: Date,
    dto: Date,
    y: int,
) -> Seq<char> {
    header_text(t, y) + grid_text(
        y,
        year_from_ord(dfrom, y),
        year_to_ord(dto, y),
        store_at(store, y as i32),
        t,
    )
}

/// The output of the years `[y0, y1)` of a date range, in order.
pub open spec fn years_upto(
    store: Map<i32, Map<u32, u32>>,
    t: GlyphTable,
    dfrom: Date,
    dto: Date,
    y0: int,
    y1: int,
) -> Seq<char>
    decreases y1 - y0,
{
    if y0 >= y1 {
        Seq::empty()
    } else {
        year_block_text(store, t, dfrom, dto, y0) + years_upto(store, t, dfrom, dto, y0 + 1, y1)
    }
}

/// The whole output of the date range `[dfrom, dto]`: one year block per
/// calendar year the range touches.
pub open spec fn range_text(
    store: Map<i32, Map<u32, u32>>,
    t: GlyphTable,
    dfrom: Date,
    dto: Date,
) -> Seq<char> {
    years_upto(store, t, dfrom, dto, dfrom.year as int, dto.year as int + 1)
}

/// The output of the first `i` stored years when everything is rendered:
/// per year its header and its full-year grid.
pub open spec fn years_list_text(
    store: Map<i32, Map<u32, u32>>,
    t: GlyphTable,
    ys: Seq<i32>,
    i: int,
) -> Seq<char>
    decreases i,
{
    if i <= 0 {
        Seq::empty()
    } else {
        years_list_text(store, t, ys, i - 1) + header_text(t, ys[i - 1] as int) + grid_text(
            ys[i - 1] as int,
            0,
            days_in_year(ys[i - 1] as int) - 1,
            store_at(store, ys[i - 1]),
            t,
        )
    }
}

/// The whole output when every stored year is rendered in full.
pub open spec fn all_text(store: Map<i32, Map<u32, u32>>, t: GlyphTable, ys: Seq<i32>)
    -> Seq<char> {
    years_list_text(store, t, ys, ys.len() as int)
}

/// A sequence is a prefix of itself followed by anything.
proof fn lemma_prefix_of_concat(a: Seq<char>, b: Seq<char>)
    ensures
        a.is_prefix_of(a + b),
{
    assert((a + b).subrange(0, a.len() as int) =~= a);
}

/// Prefixes survive extending both sides on the left by the same run.
proof fn lemma_prefix_extend(a: Seq<char>, b: Seq<char>, c: Seq<char>)
    requires
        b.is_prefix_of(c),
    ensures
        (a + b).is_prefix_of(a + c),
{
    assert((a + c).subrange(0, (a + b).len() as int) =~= a + b);
}

/// Prefixes are transitive.
proof fn lemma_prefix_trans(a: Seq<char>, b: Seq<char>, c: Seq<char>)
    requires
        a.is_prefix_of(b),
        b.is_prefix_of(c),
    ensures
        a.is_prefix_of(c),
{
    assert(c.subrange(0, a.len() as int) =~= a);
}

/// A prefix of a run is a prefix of that run followed by anything.
proof fn lemma_prefix_widen(a: Seq<char>, b: Seq<char>, c: Seq<char>)
    requires
        a.is_prefix_of(b),
    ensures
        a.is_prefix_of(b + c),
{
    lemma_prefix_of_concat(b, c);
    lemma_prefix_trans(a, b, b + c);
}

/// Appending one more year block extends the run's text on the right.
proof fn lemma_years_snoc(
    store: Map<i32, Map<u32, u32>>,
    t: GlyphTable,
    dfrom: Date,
    dto: Date,
    y0: int,
    y1: int,
)
    requires
        y0 <= y1,
    ensures
        years_upto(store, t, dfrom, dto, y0, y1 + 1) == years_upto(store, t, dfrom, dto, y0, y1)
            + year_block_text(store, t, dfrom, dto, y1),
    decreases y1 - y0,
{
    let blk = year_block_text(store, t, dfrom, dto, y1);
    if y0 == y1 {
        assert(years_upto(store, t, dfrom, dto, y0 + 1, y1 + 1) =~= Seq::<char>::empty());
        assert(years_upto(store, t, dfrom, dto, y0, y1) =~= Seq::<char>::empty());
        assert(years_upto(store, t, dfrom, dto, y0, y1 + 1) =~= years_upto(
            store,
            t,
            dfrom,
            dto,
            y0,
            y1,
        ) + blk);
    } else {
        lemma_years_snoc(store, t, dfrom, dto, y0 + 1, y1);
        let a = year_block_text(store, t, dfrom, dto, y0);
        let b = years_upto(store, t, dfrom, dto, y0 + 1, y1);
        assert(years_upto(store, t, dfrom, dto, y0, y1) == a + b);
        assert(years_upto(store, t, dfrom, dto, y0, y1 + 1) == a + (b + blk));
        assert(a + (b + blk) =~= (a + b) + blk);
    }
}

/// A run of year blocks splits at any point in between.
proof fn lemma_years_split(
    store: Map<i32, Map<u32, u32>>,
    t: GlyphTable,
    dfrom: Date,
    dto: Date,
    y0: int,
    yk: int,
    y1: int,
)
    requires
        y0 <= yk <= y1,
    ensures
        years_upto(store, t, dfrom, dto, y0, y1) == years_upto(store, t, dfrom, dto, y0, yk)
            + years_upto(store, t, dfrom, dto, yk, y1),
    decreases yk - y0,
{
    if y0 == yk {
        assert(years_upto(store, t, dfrom, dto, y0, yk) =~= Seq::<char>::empty());
        assert(years_upto(store, t, dfrom, dto, y0, y1) =~= years_upto(store, t, dfrom, dto, y0, yk)
            + years_upto(store, t, dfrom, dto, yk, y1));
    } else {
        lemma_years_split(store, t, dfrom, dto, y0 + 1, yk, y1);
        let a = year_block_text(store, t, dfrom, dto, y0);
        let b = years_upto(store, t, dfrom, dto, y0 + 1, yk);
        let c = years_upto(store, t, dfrom, dto, yk, y1);
        assert(years_upto(store, t, dfrom, dto, y0, yk) == a + b);
        assert(years_upto(store, t, dfrom, dto, y0, y1) == a + (b + c));
        assert(a + (b + c) =~= (a + b) + c);
    }
}

/// Earlier cuts of the stored-years output are prefixes of later cuts.
proof fn lemma_years_list_prefix(
    store: Map<i32, Map<u32, u32>>,
    t: GlyphTable,
    ys: Seq<i32>,
    i: int,
    j: int,
)
    requires
        0 <= i <= j,
    ensures
        years_list_text(store, t, ys, i).is_prefix_of(years_list_text(store, t, ys, j)),
    decreases j - i,
{
    let a = years_list_text(store, t, ys, i);
    if i == j {
        assert(a.subrange(0, a.len() as int) =~= a);
    } else {
        lemma_years_list_prefix(store, t, ys, i, j - 1);
        lemma_prefix_widen(
            a,
            years_list_text(store, t, ys, j - 1),
            header_text(t, ys[j - 1] as int),
        );
        lemma_prefix_widen(
            a,
            years_list_text(store, t, ys, j - 1) + header_text(t, ys[j - 1] as int),
            grid_text(
                ys[j - 1] as int,
                0,
                days_in_year(ys[j - 1] as int) - 1,
                store_at(store, ys[j - 1]),
                t,
            ),
        );
    }
}

/// Writes the header line of year `year` to `out`.
fn write_header<S: Sink>(year: i32, table: &GlyphTable, out: &mut S) -> (r: Result<(), Error>)
    requires
        MIN_YEAR <= year <= MAX_YEAR,
    ensures
        r matches Ok(()) ==> final(out).content() == old(out).content() + header_text(
            *table,
            year as int,
        ),
        r matches Err(e) ==> final(out).content() == old(out).content() && (e matches
            Error::IoError(_)),
{
    let mut h: String = String::new();
    proof {
        reveal_strlit(" ");
        reveal_strlit(" |   ");
        reveal_strlit("\n");
        assert(h@ =~= empty_cells_text(*table, 0));
    }
    let mut i: u32 = 0;
    while i < 7
        invariant
            i <= 7,
            h@ == empty_cells_text(*table, i as int),
        decreases 7 - i,
    {
        h.append(" ");
        h.append(table.entry_str(Intensity::Empty).as_str());
        proof {
            assert(h@ =~= empty_cells_text(*table, i as int + 1));
        }
        i = i + 1;
    }
    h.append(" |   ");
    append_i32_dec(year, &mut h);
    h.append("\n");
    proof {
        assert(" |   "@ =~= seq![' ', '|', ' ', ' ', ' ']);
        assert(h@ =~= header_text(*table, year as int));
    }
    out.write_str(h.as_str())
}

impl YearData {
    /// Renders the full-year grid of `year` to `out` (no header line).
    /// Fails with `NoData` when the store has no entry for that year.
    pub fn fmt_year<S: Sink>(&self, out: &mut S, year: i32, table: &GlyphTable) -> (r: Result<
        (),
        Error,
    >)
        requires
            self.wf(),
        ensures
            r matches Ok(()) ==> self@.dom().contains(year) && final(out).content() == old(
                out,
            ).content() + grid_text(
                year as int,
                0,
                days_in_year(year as int) - 1,
                self@[year],
                *table,
            ),
            (r matches Err(Error::NoData)) <==> !self@.dom().contains(year),
            r matches Err(Error::NoData) ==> final(out).content() == old(out).content(),
            r matches Err(Error::IoError(_)) ==> exists|pre: Seq<char>|
                final(out).content() == old(out).content() + pre && pre.is_prefix_of(
                    grid_text(year as int, 0, days_in_year(year as int) - 1, self@[year], *table),
                ),
            r matches Err(e) ==> (e matches Error::NoData) || (e matches Error::IoError(_)),
    {
        let dd: &DaysData = match self.get_year(year) {
            Some(dd) => dd,
            None => {
                return Err(Error::NoData);
            },
        };
        let last: u32 = year_len(year) - 1;
        let ghost gyear = year as int;
        let ghost counts = self@[year];
        let ghost t = *table;
        let r = dd.fmt_range_year(0, last, table, out);
        proof {
            assert(range_ok(gyear, 0, last as int));
        }
        match r {
            Ok(()) => Ok(()),
            Err(e) => {
                proof {
                    if e matches Error::IoError(_) {
                        let k = choose|k: int|
                            first_week(gyear, 0) <= k <= last_week(gyear, last as int) + 1 && out
                                .content() == old(out).content() + lines_text(
                                gyear,
                                0,
                                last as int,
                                counts,
                                t,
                                first_week(gyear, 0),
                                k,
                            );
                        lemma_lines_split(
                            gyear,
                            0,
                            last as int,
                            counts,
                            t,
                            first_week(gyear, 0),
                            k,
                            last_week(gyear, last as int) + 1,
                        );
                        lemma_prefix_of_concat(
                            lines_text(gyear, 0, last as int, counts, t, first_week(gyear, 0), k),
                            lines_text(
                                gyear,
                                0,
                                last as int,
                                counts,
                                t,
                                k,
                                last_week(gyear, last as int) + 1,
                            ),
                        );
                    }
                }
                Err(e)
            },
        }
    }
}

impl YearData {
    /// Renders the date range `[from, to]` to `out`: for each calendar
    /// year the range touches, a year header line and that year's grid,
    /// clipped to the range.  A year without stored data still gets its
    /// header and an all-`L0` grid.
    #[verifier::rlimit(100)]
    #[verifier::spinoff_prover]
    pub fn fmt_range<S: Sink>(
        &self,
        out: &mut S,
        from: Date,
        to: Date,
        table: &GlyphTable,
    ) -> (r: Result<(), Error>)
        requires
            self.wf(),
            from.wf(),
            to.wf(),
        ensures
            r matches Ok(()) ==> crate::calendar::date_le_spec(from, to) && final(out).content()
                == old(out).content() + range_text(self@, *table, from, to),
            (r matches Err(Error::WrongDate)) <==> !crate::calendar::date_le_spec(from, to),
            r matches Err(Error::WrongDate) ==> final(out).content() == old(out).content(),
            r matches Err(Error::IoError(_)) ==> exists|pre: Seq<char>|
                final(out).content() == old(out).content() + pre && pre.is_prefix_of(
                    range_text(self@, *table, from, to),
                ),
            r matches Err(e) ==> (e matches Error::WrongDate) || (e matches Error::IoError(_)),
    {
        if !from.date_le(&to) {
            return Err(Error::WrongDate);
        }
        let ghost store = self@;
        let ghost t = *table;
        let ghost base = out.content();
        let ghost y0 = from.year as int;
        let ghost y1 = to.year as int + 1;
        proof {
            crate::calendar::lemma_ordinal_bounds(from);
            crate::calendar::lemma_ordinal_bounds(to);
        }
        let mut y: i32 = from.year;
        while y <= to.year
            invariant
                from.year <= y <= to.year + 1,
                out.content() == base + years_upto(store, t, from, to, y0, y as int),
            decreases to.year + 1 - y,
        {
            proof {
                lemma_years_split(store, t, from, to, y0, y as int, y1);
            }
            match write_header(y, table, out) {
                Ok(()) => {},
                Err(e) => {
                    proof {
                        lemma_prefix_of_concat(
                            years_upto(store, t, from, to, y0, y as int),
                            years_upto(store, t, from, to, y as int, y1),
                        );
                    }
                    return Err(e);
                },
            }
            let fo: u32 = if y == from.year {
                from.ordinal0()
            } else {
                0
            };
            let lo: u32 = if y == to.year {
                to.ordinal0()
            } else {
                year_len(y) - 1
            };
            proof {
                if y == from.year && y == to.year {
                    crate::calendar::lemma_date_le_ordinal(from, to);
                }
                assert(range_ok(y as int, fo as int, lo as int));
                assert(fo as int == year_from_ord(from, y as int));
                assert(lo as int == year_to_ord(to, y as int));
            }
            let ghost counts = store_at(store, y);
            let ghost mid = out.content();
            let r = match self.get_year(y) {
                Some(dd) => dd.fmt_range_year(fo, lo, table, out),
                None => {
                    let dd = DaysData::new(y);
                    dd.fmt_range_year(fo, lo, table, out)
                },
            };
            match r {
                Ok(()) => {},
                Err(e) => {
                    proof {
                        let gy = y as int;
                        let grid = grid_text(gy, fo as int, lo as int, counts, t);
                        let hdr = header_text(t, gy);
                        let k = choose|k: int|
                            first_week(gy, fo as int) <= k <= last_week(gy, lo as int) + 1 && out
                                .content() == mid + lines_text(
                                gy,
                                fo as int,
                                lo as int,
                                counts,
                                t,
                                first_week(gy, fo as int),
                                k,
                            );
                        let lp = lines_text(
                            gy,
                            fo as int,
                            lo as int,
                            counts,
                            t,
                            first_week(gy, fo as int),
                            k,
                        );
                        lemma_lines_split(
                            gy,
                            fo as int,
                            lo as int,
                            counts,
                            t,
                            first_week(gy, fo as int),
                            k,
                            last_week(gy, lo as int) + 1,
                        );
                        lemma_prefix_of_concat(
                            lp,
                            lines_text(
                                gy,
                                fo as int,
                                lo as int,
                                counts,
                                t,
                                k,
                                last_week(gy, lo as int) + 1,
                            ),
                        );
                        // lp is a prefix of the grid; lift it to the whole range text
                        lemma_prefix_extend(hdr, lp, grid);
                        assert(year_block_text(store, t, from, to, gy) == hdr + grid);
                        lemma_prefix_widen(
                            hdr + lp,
                            hdr + grid,
                            years_upto(store, t, from, to, gy + 1, y1),
                        );
                        assert(years_upto(store, t, from, to, gy, y1) == (hdr + grid) + years_upto(
                            store,
                            t,
                            from,
                            to,
                            gy + 1,
                            y1,
                        ));
                        lemma_prefix_extend(
                            years_upto(store, t, from, to, y0, gy),
                            hdr + lp,
                            years_upto(store, t, from, to, gy, y1),
                        );
                        let pre = years_upto(store, t, from, to, y0, gy) + (hdr + lp);
                        assert(out.content() == (base + years_upto(store, t, from, to, y0, gy)
                            + hdr) + lp);
                        assert(out.content() == base + pre) by {
                            assert(base + pre =~= ((base + years_upto(store, t, from, to, y0, gy))
                                + hdr) + lp);
                        };
                        assert(pre.is_prefix_of(range_text(store, t, from, to)));
                    }
                    return Err(e);
                },
            }
            proof {
                lemma_years_snoc(store, t, from, to, y0, y as int);
                assert(out.content() == base + years_upto(store, t, from, to, y0, y as int + 1))
                    by {
                    assert(base + (years_upto(store, t, from, to, y0, y as int) + (header_text(
                        t,
                        y as int,
                    ) + grid_text(y as int, fo as int, lo as int, counts, t))) =~= ((base
                        + years_upto(store, t, from, to, y0, y as int)) + header_text(t, y as int))
                        + grid_text(y as int, fo as int, lo as int, counts, t));
                };
            }
            y = y + 1;
        }
        Ok(())
    }

    /// Writes one stored year's header line and full-year grid to `out`.
    fn year_block_write<S: Sink>(&self, y: i32, table: &GlyphTable, out: &mut S) -> (r: Result<
        (),
        Error,
    >)
        requires
            self.wf(),
            MIN_YEAR <= y <= MAX_YEAR,
            self@.dom().contains(y),
        ensures
            r matches Ok(()) ==> final(out).content() == old(out).content() + (header_text(
                *table,
                y as int,
            ) + grid_text(y as int, 0, days_in_year(y as int) - 1, self@[y], *table)),
            r matches Err(e) ==> (e matches Error::IoError(_)) && exists|pre: Seq<char>|
                final(out).content() == old(out).content() + pre && pre.is_prefix_of(
                    header_text(*table, y as int) + grid_text(
                        y as int,
                        0,
                        days_in_year(y as int) - 1,
                        self@[y],
                        *table,
                    ),
                ),
    {
        let ghost t = *table;
        let ghost hdr = header_text(t, y as int);
        let ghost grid = grid_text(y as int, 0, days_in_year(y as int) - 1, self@[y], t);
        match write_header(y, table, out) {
            Ok(()) => {},
            Err(e) => {
                proof {
                    let pre = Seq::<char>::empty();
                    assert((hdr + grid).subrange(0, 0) =~= pre);
                    assert(old(out).content() + pre =~= old(out).content());
                }
                return Err(e);
            },
        }
        match self.fmt_year(out, y, table) {
            Ok(()) => {
                proof {
                    assert((old(out).content() + hdr) + grid =~= old(out).content() + (hdr + grid));
                }
                Ok(())
            },
            Err(e) => {
                proof {
                    if e matches Error::IoError(_) {
                        let gp = choose|gp: Seq<char>|
                            out.content() == (old(out).content() + hdr) + gp && gp.is_prefix_of(
                                grid,
                            );
                        lemma_prefix_extend(hdr, gp, grid);
                        assert((old(out).content() + hdr) + gp =~= old(out).content() + (hdr + gp));
                    }
                }
                Err(e)
            },
        }
    }

    /// Renders every stored year in full, ascending: for each, a year
    /// header line and the whole year's grid.
    #[verifier::rlimit(100)]
    #[verifier::spinoff_prover]
    pub fn fmt_all<S: Sink>(&self, out: &mut S, table: &GlyphTable) -> (r: Result<(), Error>)
        requires
            self.wf(),
        ensures
            r matches Ok(()) ==> final(out).content() == old(out).content() + all_text(
                self@,
                *table,
                self.years_seq(),
            ),
            r matches Err(Error::IoError(_)) ==> exists|pre: Seq<char>|
                final(out).content() == old(out).content() + pre && pre.is_prefix_of(
                    all_text(self@, *table, self.years_seq()),
                ),
            r matches Err(e) ==> e matches Error::IoError(_),
    {
        let ys: Vec<i32> = self.years();
        let n: usize = ys.len();
        let ghost store = self@;
        let ghost t = *table;
        let ghost base = out.content();
        let mut i: usize = 0;
        while i < n
            invariant
                i <= n,
                out.content() == base + years_list_text(store, t, ys@, i as int),
            decreases n - i,
        {
            let y: i32 = ys[i];
            let ghost prev = years_list_text(store, t, ys@, i as int);
            let ghost hdr = header_text(t, y as int);
            let ghost grid = grid_text(
                y as int,
                0,
                days_in_year(y as int) - 1,
                store_at(store, y),
                t,
            );
            proof {
                assert(years_list_text(store, t, ys@, i as int + 1) == prev + (hdr + grid)) by {
                    assert((prev + hdr) + grid =~= prev + (hdr + grid));
                };
            }
            match self.year_block_write(y, table, out) {
                Ok(()) => {},
                Err(e) => {
                    proof {
                        let bp = choose|bp: Seq<char>|
                            out.content() == (base + prev) + bp && bp.is_prefix_of(hdr + grid);
                        lemma_prefix_extend(prev, bp, hdr + grid);
                        lemma_years_list_prefix(store, t, ys@, i as int + 1, n as int);
                        lemma_prefix_trans(
                            prev + bp,
                            years_list_text(store, t, ys@, i as int + 1),
                            years_list_text(store, t, ys@, n as int),
                        );
                        assert(out.content() == base + (prev + bp)) by {
                            assert((base + prev) + bp =~= base + (prev + bp));
                        };
                    }
                    return Err(e);
                },
            }
            proof {
                assert(out.content() == base + years_list_text(store, t, ys@, i as int + 1)) by {
                    assert((base + prev) + (hdr + grid) =~= base + (prev + (hdr + grid)));
                };
            }
            i = i + 1;
        }
        Ok(())
    }
}

/// A run of rows splits at any point in between.
pub proof fn lemma_lines_split(
    year: int,
    from: int,
    to: int,
    counts: Map<u32, u32>,
    t: GlyphTable,
    w0: int,
    wk: int,
    w1: int,
)
    requires
        w0 <= wk <= w1,
    ensures
        lines_text(year, from, to, counts, t, w0, w1) == lines_text(
            year,
            from,
            to,
            counts,
            t,
            w0,
            wk,
        ) + lines_text(year, from, to, counts, t, wk, w1),
    decreases wk - w0,
{
    if w0 == wk {
        assert(lines_text(year, from, to, counts, t, w0, wk) =~= Seq::<char>::empty());
        assert(lines_text(year, from, to, counts, t, w0, w1) =~= lines_text(
            year,
            from,
            to,
            counts,
            t,
            w0,
            wk,
        ) + lines_text(year, from, to, counts, t, wk, w1));
    } else {
        lemma_lines_split(year, from, to, counts, t, w0 + 1, wk, w1);
        let a = line_text(year, from, to, counts, t, w0);
        let b = lines_text(year, from, to, counts, t, w0 + 1, wk);
        let c = lines_text(year, from, to, counts, t, wk, w1);
        assert(lines_text(year, from, to, counts, t, w0, wk) == a + b);
        assert(lines_text(year, from, to, counts, t, w0, w1) == a + (b + c));
        assert(a + (b + c) =~= (a + b) + c);
    }
}

impl YearData {
    /// Prints the full-year grid of `year` to standard output, colored.
    /// Fails with `NoData` when the store has no entry for that year.
    pub fn print_year(&self, year: i32) -> (r: Result<(), Error>)
        requires
            self.wf(),
        ensures
            (r matches Err(Error::NoData)) <==> !self@.dom().contains(year),
            r matches Err(e) ==> (e matches Error::NoData) || (e matches Error::IoError(_)),
    {
        let table: GlyphTable = colored_table();
        let mut sink: StringSink = StringSink::new();
        match self.fmt_year(&mut sink, year, &table) {
            Ok(()) => {},
            Err(e) => {
                return Err(e);
            },
        }
        write_stdout(sink.buf.as_str())
    }

    /// Prints every stored year to standard output, colored: per year a
    /// header line and the full-year grid.
    pub fn print_full(&self) -> (r: Result<(), Error>)
        requires
            self.wf(),
        ensures
            r matches Err(e) ==> e matches Error::IoError(_),
    {
        let table: GlyphTable = colored_table();
        let mut sink: StringSink = StringSink::new();
        match self.fmt_all(&mut sink, &table) {
            Ok(()) => {},
            Err(e) => {
                return Err(e);
            },
        }
        write_stdout(sink.buf.as_str())
    }
}

/// The number of cells at positions `[p0, p1)` whose bucket is not `Empty`.
pub open spec fn count_filled(
    year: int,
    from: int,
    to: int,
    counts: Map<u32, u32>,
    p0: int,
    p1: int,
) -> int
    decreases p1 - p0,
{
    if p0 >= p1 {
        0
    } else {
        (if cell_level(year, from, to, counts, p0) != Intensity::Empty {
            1int
        } else {
            0
        }) + count_filled(year, from, to, counts, p0 + 1, p1)
    }
}

/// Law: with one-column glyph texts, a run of cells is two columns per
/// cell — each cell shows its prefix column and its glyph column.
pub proof fn lemma_cells_width(
    year: int,
    from: int,
    to: int,
    counts: Map<u32, u32>,
    t: GlyphTable,
    p0: int,
    p1: int,
)
    requires
        p0 <= p1,
        forall|i: Intensity| (#[trigger] t.entry(i)).len() == 1,
    ensures
        cells_text(year, from, to, counts, t, p0, p1).len() == 2 * (p1 - p0),
    decreases p1 - p0,
{
    if p0 < p1 {
        lemma_cells_width(year, from, to, counts, t, p0 + 1, p1);
        assert(t.entry(cell_level(year, from, to, counts, p0)).len() == 1);
    }
}

/// Law: every week line holds exactly seven two-column cells — with
/// one-column glyph texts it is 17 characters long (14 cell columns, the
/// `" |"` trailer and the newline), plus 3 for a month annotation.
pub proof fn lemma_line_width(
    year: int,
    from: int,
    to: int,
    counts: Map<u32, u32>,
    t: GlyphTable,
    w: int,
)
    requires
        forall|i: Intensity| (#[trigger] t.entry(i)).len() == 1,
    ensures
        line_text(year, from, to, counts, t, w).len() == 17 + (
        if week_mark(year, from, to, w) is Some {
            3int
        } else {
            0
        }),
{
    lemma_cells_width(year, from, to, counts, t, 7 * w, 7 * w + 7);
}

/// Law: a cell's first column is `'*'` exactly when its day lies inside
/// the rendered range and is the first day of a month; every other cell
/// shows a space there.
pub proof fn lemma_star_prefix(
    year: int,
    from: int,
    to: int,
    counts: Map<u32, u32>,
    t: GlyphTable,
    p: int,
)
    ensures
        cell_text(t, cell_star(year, from, to, p), cell_level(year, from, to, counts, p))[0] == (
        if from <= cell_day(year, p) <= to && is_month_first(year, cell_day(year, p)) {
            '*'
        } else {
            ' '
        }),
{
}

/// Counting the filled cells of `[p0, p1)`: exactly the positions whose
/// day lies in `[from, to]`, i.e. the overlap with `[from + fw, to + fw]`.
proof fn lemma_count_filled_overlap(
    year: int,
    from: int,
    to: int,
    counts: Map<u32, u32>,
    p0: int,
    p1: int,
)
    requires
        p0 <= p1,
        from <= to,
    ensures
        ({
            let a = if p0 >= from + jan1_weekday(year) {
                p0
            } else {
                from + jan1_weekday(year)
            };
            let b = if p1 <= to + jan1_weekday(year) + 1 {
                p1
            } else {
                to + jan1_weekday(year) + 1
            };
            count_filled(year, from, to, counts, p0, p1) == if a < b {
                b - a
            } else {
                0
            }
        }),
    decreases p1 - p0,
{
    if p0 < p1 {
        lemma_count_filled_overlap(year, from, to, counts, p0 + 1, p1);
    }
}

/// Law: a full-year render shows exactly one filled (non-`Empty`) cell per
/// day of the year — 365, or 366 in a leap year.
pub proof fn lemma_full_year_filled(year: int, counts: Map<u32, u32>)
    ensures
        count_filled(
            year,
            0,
            days_in_year(year) - 1,
            counts,
            7 * first_week(year, 0),
            7 * (last_week(year, days_in_year(year) - 1) + 1),
        ) == days_in_year(year),
{
    let fw = jan1_weekday(year);
    let to = days_in_year(year) - 1;
    vstd::arithmetic::div_mod::lemma_mod_bound(
        365 * (year - 1) + crate::calendar::leap_days_upto(year - 1),
        7,
    );
    assert(first_week(year, 0) == 0) by {
        assert(0 <= fw < 7);
    };
    let lw = last_week(year, to);
    assert(7 * lw <= to + fw < 7 * (lw + 1)) by {
        assert(lw == (to + fw) / 7);
    };
    lemma_count_filled_overlap(year, 0, to, counts, 0, 7 * (lw + 1));
}

/// Law: a date-range render is exactly the per-year sequence of blocks:
/// for every year the range touches, the header line, then the grid of the
/// year's boundary ordinals (`from`'s ordinal in its year, day 0 after;
/// `to`'s ordinal in its year, the last day before).
pub proof fn lemma_range_per_year(
    store: Map<i32, Map<u32, u32>>,
    t: GlyphTable,
    dfrom: Date,
    dto: Date,
    y: int,
)
    requires
        dfrom.year <= y <= dto.year,
    ensures
        range_text(store, t, dfrom, dto) == years_upto(store, t, dfrom, dto, dfrom.year as int, y)
            + (header_text(t, y) + grid_text(
            y,
            year_from_ord(dfrom, y),
            year_to_ord(dto, y),
            store_at(store, y as i32),
            t,
        )) + years_upto(store, t, dfrom, dto, y + 1, dto.year as int + 1),
{
    let y0 = dfrom.year as int;
    let y1 = dto.year as int + 1;
    lemma_years_split(store, t, dfrom, dto, y0, y, y1);
    let a = years_upto(store, t, dfrom, dto, y0, y);
    let blk = year_block_text(store, t, dfrom, dto, y);
    let rest = years_upto(store, t, dfrom, dto, y + 1, y1);
    assert(years_upto(store, t, dfrom, dto, y, y1) == blk + rest);
    assert(a + (blk + rest) =~= (a + blk) + rest);
}

/// Law: across the rows of one year's render, the month annotations grow
/// strictly — a later row never shows the same or an earlier month.
pub proof fn lemma_marks_increasing(
    year: int,
    from: int,
    to: int,
    wa: int,
    wb: int,
)
    requires
        0 <= from <= to < days_in_year(year),
        wa < wb,
    ensures
        week_mark(year, from, to, wa) matches Some(ma) ==> (week_mark(year, from, to, wb)
            matches Some(mb) ==> ma < mb),
{
    let fw = jan1_weekday(year);
    let la = if from >= 7 * wa - fw { from } else { 7 * wa - fw };
    let ha = if to <= 7 * wa + 6 - fw { to } else { 7 * wa + 6 - fw };
    let lb = if from >= 7 * wb - fw { from } else { 7 * wb - fw };
    let hb = if to <= 7 * wb + 6 - fw { to } else { 7 * wb + 6 - fw };
    if (exists|d: int| la <= d <= ha && is_month_first(year, d)) && (exists|d: int|
        lb <= d <= hb && is_month_first(year, d)) {
        let ma = month_of_ord(year, ha);
        let mb = month_of_ord(year, hb);
        let db = choose|d: int| lb <= d <= hb && is_month_first(year, d);
        lemma_month_of_bounds(year, ha);
        lemma_month_of_bounds(year, hb);
        lemma_month_of_bounds(year, db);
        lemma_month_of_monotone(year, db, hb);
        // the month shown for row wb starts no earlier than the month-first
        // day found in that row, which lies past row wa entirely
        if month_of_ord(year, db) < mb {
            lemma_month_first_increasing(year, month_of_ord(year, db) + 1, mb + 1);
            lemma_month_first_increasing(year, month_of_ord(year, db), month_of_ord(year, db) + 1);
        }
        assert(month_first_ord(year, mb) >= db);
        assert(db >= lb);
        assert(lb >= 7 * wb - fw);
        assert(ha <= 7 * wa + 6 - fw);
        assert(month_first_ord(year, ma) <= ha);
        if ma >= mb {
            if ma == mb {
                assert(month_first_ord(year, ma) == month_first_ord(year, mb));
            } else {
                lemma_month_first_increasing(year, mb, ma);
            }
            assert(false);
        }
    }
}

} // verus!
