//! A terminal heatmap of daily event counts.
//!
//! Events are aggregated per calendar day, grouped by year, and each year is
//! rendered as a weekly grid of glyphs whose intensity bucket reflects that
//! day's count.
#![verifier::loop_isolation(false)]

pub mod calendar;
pub mod display;
pub mod error;
pub mod import;
pub mod levels;
pub mod range;
pub mod sink;
pub mod stat;

pub use calendar::Date;
pub use error::Error;
pub use levels::Intensity;
