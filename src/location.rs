use core::cmp::Ordering;
use vstd::prelude::*;
use vstd::std_specs::iter::IteratorSpec;
use vstd::string::StringExecFns;

use crate::decimal::{append_decimal, decimal};
use crate::order::{compare, lexicographic};
use crate::span::{location_fits, span_matches, Span};
use crate::text::{
    byte_len, byte_length, byte_offset, char_index, column_after, is_boundary, lemma_char_boundary,
    lemma_char_index, lemma_encoding_len, lemma_line_column_bounds, lemma_offset_monotonic, line_after, utf8_width,
};

verus! {

/// A position in text as people read it: a 1-based line, a 1-based column
/// counted in characters, and a length counted in characters. Line feeds
/// end lines; every other character, a carriage return too, takes a column.
#[derive(Debug, Clone, Copy, PartialEq, Eq, Structural, Ord)]
pub struct Location {
    pub line: u32,
    pub column: u32,
    pub len: u32,
}

/// The location of the characters `s[i..j]`.
pub open spec fn location_at(s: Seq<char>, i: int, j: int) -> Location {
    Location {
        line: line_after(s.take(i)) as u32,
        column: column_after(s.take(i)) as u32,
        len: (j - i) as u32,
    }
}

/// The location of `span` in `s`, for a span whose ends are character
/// boundaries of `s`.
pub open spec fn location_of_span(s: Seq<char>, span: Span) -> Location {
    location_at(s, char_index(s, span.start() as int), char_index(s, span.end() as int))
}

/// `span` lies within `s` and both of its ends are character boundaries.
pub open spec fn span_fits(s: Seq<char>, span: Span) -> bool {
    &&& span.end() <= byte_len(s)
    &&& is_boundary(s, span.start() as int)
    &&& is_boundary(s, span.end() as int)
}

impl PartialOrd for Location {
    /// Locations are ordered by line, then column, then length.
    fn partial_cmp(&self, other: &Location) -> (r: Option<Ordering>) {
        if self.line != other.line {
            if self.line < other.line {
                Some(Ordering::Less)
            } else {
                Some(Ordering::Greater)
            }
        } else if self.column != other.column {
            if self.column < other.column {
                Some(Ordering::Less)
            } else {
                Some(Ordering::Greater)
            }
        } else if self.len < other.len {
            Some(Ordering::Less)
        } else if self.len > other.len {
            Some(Ordering::Greater)
        } else {
            Some(Ordering::Equal)
        }
    }
}

impl vstd::std_specs::cmp::PartialOrdSpecImpl for Location {
    open spec fn obeys_partial_cmp_spec() -> bool {
        true
    }

    open spec fn partial_cmp_spec(&self, other: &Location) -> Option<Ordering> {
        Some(
            lexicographic(
                compare(self.line as int, other.line as int),
                lexicographic(
                    compare(self.column as int, other.column as int),
                    compare(self.len as int, other.len as int),
                ),
            ),
        )
    }
}

impl Location {
    /// The location at `line` and `column` that covers `len` characters.
    pub fn new(line: u32, column: u32, len: u32) -> (r: Location)
        ensures
            r == (Location { line, column, len }),
    {
        Location { line, column, len }
    }

    /// The location as `line:column`, as diagnostics show it.
    pub fn to_string(&self) -> (r: String)
        ensures
            r@ == decimal(self.line as nat) + seq![':'] + decimal(self.column as nat),
    {
        let mut r = String::new();
        append_decimal(&mut r, self.line);
        proof {
            reveal_strlit(":");
        }
        r.append(":");
        append_decimal(&mut r, self.column);
        r
    }

    /// The location as `line:column:len`, with its length too.
    pub fn to_string_verbose(&self) -> (r: String)
        ensures
            r@ == decimal(self.line as nat) + seq![':'] + decimal(self.column as nat) + seq![':']
                + decimal(self.len as nat),
    {
        let mut r = self.to_string();
        proof {
            reveal_strlit(":");
        }
        r.append(":");
        append_decimal(&mut r, self.len);
        r
    }

    /// The span of `source` that this location names, or `None` where
    /// `source` holds no such characters.
    pub fn try_to_span(&self, source: &str) -> (r: Option<Span>)
        ensures
            r is Some <==> location_fits(source@, *self),
            r is Some ==> span_matches(source@, *self, r->0),
    {
        Span::try_from_location(source, *self)
    }

    /// The span of `source` that this location names, which must be one that
    /// `source` holds.
    pub fn to_span(&self, source: &str) -> (r: Span)
        requires
            location_fits(source@, *self),
        ensures
            span_matches(source@, *self, r),
    {
        Span::from_location(source, *self)
    }

    /// The location of `span` in `source`, or `None` where `span` runs past the
    /// end of `source` or cuts a character in two. `source` holds fewer than
    /// `u32::MAX` characters, so that every line, column and length fits.
    pub fn try_from_span(source: &str, span: Span) -> (r: Option<Location>)
        requires
            source@.len() < u32::MAX,
        ensures
            r is Some <==> span_fits(source@, span),
            r is Some ==> r->0 == location_of_span(source@, span),
    {
        if span.end() > byte_length(source) {
            return None;
        }
        proof {
            use_type_invariant(&span);
            lemma_char_boundary(source@, span.start() as int);
            lemma_char_boundary(source@, span.end() as int);
            lemma_encoding_len(source@);
        }
        if !source.is_char_boundary(span.start()) || !source.is_char_boundary(span.end()) {
            return None;
        }
        Some(Self::from_span_unchecked(source, span))
    }

    /// The location of `span` in `source`; `span` must lie within `source` and
    /// start and end on character boundaries.
    pub fn from_span(source: &str, span: Span) -> (r: Location)
        requires
            source@.len() < u32::MAX,
            span_fits(source@, span),
        ensures
            r == location_of_span(source@, span),
    {
        Self::from_span_unchecked(source, span)
    }

    /// The location of `span` in `source`; `span` must lie within `source` and
    /// start and end on character boundaries.
    pub fn from_span_unchecked(source: &str, span: Span) -> (r: Location)
        requires
            source@.len() < u32::MAX,
            span_fits(source@, span),
        ensures
            r == location_of_span(source@, span),
    {
        let ghost s = source@;
        let ghost i = char_index(s, span.start() as int);
        let ghost j = char_index(s, span.end() as int);
        proof {
            use_type_invariant(&span);
            lemma_char_index(s, span.start() as int);
            lemma_char_index(s, span.end() as int);
            if j < i {
                lemma_offset_monotonic(s, j, i);
            }
        }
        let mut chars = source.chars();
        let mut pos: usize = 0;
        let mut line: u32 = 1;
        let mut column: u32 = 1;
        let mut len: u32 = 0;
        let ghost mut k: int = 0;
        while pos < span.end()
            invariant
                0 <= i <= j <= s.len() < u32::MAX,
                i == char_index(s, span.start() as int),
                j == char_index(s, span.end() as int),
                byte_offset(s, i) == span.start(),
                byte_offset(s, j) == span.end(),
                0 <= k <= j,
                pos == byte_offset(s, k),
                chars.remaining() == s.skip(k),
                k <= i ==> line == line_after(s.take(k)) && column == column_after(s.take(k))
                    && len == 0,
                i <= k ==> line == line_after(s.take(i)) && column == column_after(s.take(i))
                    && len == k - i,
            decreases j - k,
        {
            proof {
                if k == j {
                    assert(false);
                }
                lemma_offset_monotonic(s, k, j);
                lemma_offset_monotonic(s, k + 1, j);
                lemma_line_column_bounds(s.take(k));
                if k < i {
                    lemma_offset_monotonic(s, k, i);
                } else if i < k {
                    lemma_offset_monotonic(s, i, k);
                }
                assert(s.take(k + 1).drop_last() =~= s.take(k));
            }
            let c = chars.next().unwrap();
            assert(s.skip(k).drop_first() =~= s.skip(k + 1));
            if pos < span.start() {
                if c == '\n' {
                    line = line + 1;
                    column = 0;
                }
                column = column + 1;
            } else {
                len = len + 1;
            }
            pos = pos + utf8_width(c);
            proof {
                k = k + 1;
            }
        }
        proof {
            if k < j {
                lemma_offset_monotonic(s, k, j);
            }
        }
        Location { line, column, len }
    }
}

} // verus!
