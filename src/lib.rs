//! Conversion between byte-offset spans and line/column locations in text.
//!
//! A [`Span`] is a half-open range of UTF-8 byte offsets; a [`Location`] is a
//! line, a column and a length, the last two counted in characters. The
//! contracts speak of text as its sequence of characters (see [`text`]);
//! [`laws`] states what holds of the two conversions together.
pub mod decimal;
pub mod laws;
mod location;
pub mod order;
mod span;
pub mod text;

pub use location::{location_at, location_of_span, span_fits, Location};
pub use span::{location_chars, location_fits, span_matches, Span};
