//! The intensity mapper: a total function from a day's event count to a
//! discrete bucket, and from a bucket to its glyph and terminal style.
//!
//! All glyphs occupy a single terminal column, so every rendered cell has
//! the same printed width.  The `Empty` bucket is reserved for padding
//! cells the renderer emits for alignment; it is never produced from a
//! count.

use vstd::prelude::*;

verus! {

/// Discrete intensity bucket of a day.
#[derive(Clone, Copy, Debug, PartialEq, Eq, Structural)]
pub enum Intensity {
    /// Blank alignment cell; never produced from a count.
    Empty,
    /// No events.
    L0,
    /// One event.
    L1,
    /// Two events.
    L2,
    /// Three events.
    L3,
    /// Four or more events.
    L4Plus,
}

/// Terminal style of a glyph.
#[derive(Clone, Copy, Debug, PartialEq, Eq, Structural)]
pub enum Style {
    /// No styling (padding cells).
    Plain,
    /// Dim / dark grey foreground.
    Dim,
    /// Green foreground.
    GreenFg,
    /// Yellow foreground.
    YellowFg,
    /// Red foreground.
    RedFg,
    /// Magenta background.
    MagentaBg,
}

/// A glyph together with the style it is printed in.
#[derive(Clone, Copy, Debug, PartialEq, Eq, Structural)]
pub struct StyledGlyph {
    /// The single printable character of the cell.
    pub glyph: char,
    /// The terminal style the character is printed in.
    pub style: Style,
}

/// Bucket of a real count.  Total, and never `Empty`.
pub open spec fn bucket_spec(cnt: u32) -> Intensity {
    if cnt == 0 { Intensity::L0 }
    else if cnt == 1 { Intensity::L1 }
    else if cnt == 2 { Intensity::L2 }
    else if cnt == 3 { Intensity::L3 }
    else { Intensity::L4Plus }
}

/// The glyph of a bucket.
pub open spec fn glyph_spec(i: Intensity) -> char {
    match i {
        Intensity::Empty => ' ',
        Intensity::L0 => '.',
        Intensity::L1 => '+',
        Intensity::L2 => '%',
        Intensity::L3 => '@',
        Intensity::L4Plus => '#',
    }
}

/// The style of a bucket.
pub open spec fn style_spec(i: Intensity) -> Style {
    match i {
        Intensity::Empty => Style::Plain,
        Intensity::L0 => Style::Dim,
        Intensity::L1 => Style::GreenFg,
        Intensity::L2 => Style::YellowFg,
        Intensity::L3 => Style::RedFg,
        Intensity::L4Plus => Style::MagentaBg,
    }
}

/// Bucket of a real count.
pub fn bucket(cnt: u32) -> (i: Intensity)
    ensures
        i == bucket_spec(cnt),
        i != Intensity::Empty,
{
    if cnt == 0 { Intensity::L0 }
    else if cnt == 1 { Intensity::L1 }
    else if cnt == 2 { Intensity::L2 }
    else if cnt == 3 { Intensity::L3 }
    else { Intensity::L4Plus }
}

/// The glyph of a bucket.
pub fn glyph(i: Intensity) -> (c: char)
    ensures
        c == glyph_spec(i),
{
    match i {
        Intensity::Empty => ' ',
        Intensity::L0 => '.',
        Intensity::L1 => '+',
        Intensity::L2 => '%',
        Intensity::L3 => '@',
        Intensity::L4Plus => '#',
    }
}

/// The styled glyph that reflects a day's count.
pub fn levels(cnt: u32) -> (g: StyledGlyph)
    ensures
        g.glyph == glyph_spec(bucket_spec(cnt)),
        g.style == style_spec(bucket_spec(cnt)),
{
    let i: Intensity = bucket(cnt);
    StyledGlyph { glyph: glyph(i), style: style(i) }
}

/// The style of a bucket.
pub fn style(i: Intensity) -> (s: Style)
    ensures
        s == style_spec(i),
{
    match i {
        Intensity::Empty => Style::Plain,
        Intensity::L0 => Style::Dim,
        Intensity::L1 => Style::GreenFg,
        Intensity::L2 => Style::YellowFg,
        Intensity::L3 => Style::RedFg,
        Intensity::L4Plus => Style::MagentaBg,
    }
}

} // verus!
