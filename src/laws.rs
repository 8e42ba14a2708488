//! What holds of the two conversions together.
use core::cmp::Ordering;
use vstd::prelude::*;
use vstd::std_specs::cmp::PartialOrdSpec;

use crate::location::{location_of_span, span_fits, Location};
use crate::span::{location_chars, location_fits, span_matches, Span};
use crate::text::{
    byte_len, byte_offset, char_index, column_after, is_boundary, lemma_char_index,
    lemma_first_line, lemma_last_line, lemma_line_column_bounds, lemma_line_start_facts, lemma_line_start_found,
    lemma_line_start_missing, lemma_offset_monotonic, lemma_same_line, lemma_slice_bytes,
    line_after, line_start, newlines,
};

verus! {

/// The column of `loc` lies on its line: between the line's first character
/// and the column no line feed comes.
pub open spec fn column_on_line(s: Seq<char>, loc: Location) -> bool {
    match line_start(s, loc.line as nat) {
        Some(first) => forall|x: int| first <= x < first + loc.column - 1 ==> s[x] != '\n',
        None => false,
    }
}

proof fn lemma_span_indices(s: Seq<char>, span: Span)
    requires
        span.well_formed(),
        span_fits(s, span),
    ensures
        0 <= char_index(s, span.start() as int) <= char_index(s, span.end() as int) <= s.len(),
        byte_offset(s, char_index(s, span.start() as int)) == span.start(),
        byte_offset(s, char_index(s, span.end() as int)) == span.end(),
{
    let i = char_index(s, span.start() as int);
    let j = char_index(s, span.end() as int);
    lemma_char_index(s, span.start() as int);
    lemma_char_index(s, span.end() as int);
    if j < i {
        lemma_offset_monotonic(s, j, i);
    }
}

/// Converting a span to a location and back gives the span again, for every
/// span of `s` whose ends are character boundaries.
pub proof fn lemma_span_round_trip(s: Seq<char>, span: Span)
    requires
        s.len() < u32::MAX,
        span.well_formed(),
        span_fits(s, span),
    ensures
        location_fits(s, location_of_span(s, span)),
        span_matches(s, location_of_span(s, span), span),
        forall|r: Span| #[trigger]
            span_matches(s, location_of_span(s, span), r) ==> r == span,
{
    let i = char_index(s, span.start() as int);
    let j = char_index(s, span.end() as int);
    lemma_span_indices(s, span);
    let t = s.take(i);
    lemma_line_column_bounds(t);
    let loc = location_of_span(s, span);
    if newlines(t) >= 1 {
        lemma_last_line(t);
        let m = t.len() + 1 - column_after(t);
        assert(t.take(m) =~= s.take(m));
        lemma_line_start_found(s, loc.line as nat, m);
    } else {
        lemma_first_line(t);
    }
    assert(location_chars(s, loc) == Some((i, j)));
    assert forall|r: Span| #[trigger] span_matches(s, loc, r) implies r == span by {
        Span::lemma_same_ends(r, span);
    }
}

/// Converting a location to a span and back gives the location again, for
/// every location of `s` whose column lies on its line.
pub proof fn lemma_location_round_trip(s: Seq<char>, loc: Location, span: Span)
    requires
        location_fits(s, loc),
        span_matches(s, loc, span),
        column_on_line(s, loc),
    ensures
        span_fits(s, span),
        location_of_span(s, span) == loc,
{
    let first = line_start(s, loc.line as nat)->0 as int;
    let p = first + loc.column - 1;
    let q = p + loc.len;
    assert(location_chars(s, loc) == Some((p, q)));
    lemma_same_line(s, first, p);
    if loc.line >= 2 {
        lemma_line_start_facts(s, loc.line as nat);
    } else {
        assert(s.take(0) =~= Seq::<char>::empty());
        lemma_first_line(s.take(p));
    }
    lemma_offset_monotonic(s, q, q);
    assert(is_boundary_at(s, span.start() as int, p));
    assert(is_boundary_at(s, span.end() as int, q));
    lemma_char_index(s, span.start() as int);
    lemma_char_index(s, span.end() as int);
}

/// `b` is the byte offset of the character at index `k`.
spec fn is_boundary_at(s: Seq<char>, b: int, k: int) -> bool {
    0 <= k <= s.len() && byte_offset(s, k) == b
}

/// Conversions fail on positions that `s` does not hold, and only on those: a
/// span with both ends on character boundaries fits exactly when it ends
/// within `s`; a location fails where its line is past the last line, or its
/// column or length runs past the last character.
pub proof fn lemma_out_of_bounds(s: Seq<char>, span: Span, loc: Location)
    ensures
        span.end() > byte_len(s) ==> !span_fits(s, span),
        is_boundary(s, span.start() as int) && is_boundary(s, span.end() as int) ==> (span_fits(
            s,
            span,
        ) <==> span.end() <= byte_len(s)),
        loc.line > line_after(s) ==> !location_fits(s, loc),
        line_start(s, loc.line as nat) is Some && line_start(s, loc.line as nat)->0 + loc.column
            - 1 + loc.len > s.len() ==> !location_fits(s, loc),
{
    if loc.line > line_after(s) {
        lemma_line_start_missing(s, loc.line as nat);
    }
}

/// An empty span has a location of length 0, and that location converts back
/// to the same empty span.
pub proof fn lemma_empty_span(s: Seq<char>, span: Span)
    requires
        s.len() < u32::MAX,
        span.well_formed(),
        span.start() == span.end(),
        span_fits(s, span),
    ensures
        location_of_span(s, span).len == 0,
        location_fits(s, location_of_span(s, span)),
        forall|r: Span| #[trigger]
            span_matches(s, location_of_span(s, span), r) ==> r.start() == span.start() && r.end()
                == span.start(),
{
    lemma_span_indices(s, span);
    lemma_span_round_trip(s, span);
}

/// A location counts characters, where its span counts bytes: its length is
/// the number of characters the span covers, whose encoding is as long as the
/// span.
pub proof fn lemma_counts_characters(s: Seq<char>, span: Span)
    requires
        s.len() < u32::MAX,
        span.well_formed(),
        span_fits(s, span),
    ensures
        ({
            let i = char_index(s, span.start() as int);
            let j = char_index(s, span.end() as int);
            &&& location_of_span(s, span).len == j - i
            &&& span.end() - span.start() == byte_len(s.subrange(i, j))
            &&& location_of_span(s, span).column == column_after(s.take(i))
        }),
{
    let i = char_index(s, span.start() as int);
    let j = char_index(s, span.end() as int);
    lemma_span_indices(s, span);
    lemma_slice_bytes(s, i, j);
    lemma_line_column_bounds(s.take(i));
}

/// Spans are totally ordered, by start and then end, and two spans compare
/// equal exactly when they are the same span.
pub proof fn lemma_span_order(a: Span, b: Span)
    ensures
        a.partial_cmp_spec(&b) is Some,
        a.partial_cmp_spec(&b) == Some(Ordering::Equal) <==> a == b,
        a.partial_cmp_spec(&b) == Some(Ordering::Less) <==> b.partial_cmp_spec(&a) == Some(
            Ordering::Greater,
        ),
        a.start() < b.start() ==> a.partial_cmp_spec(&b) == Some(Ordering::Less),
{
    if a.start() == b.start() && a.end() == b.end() {
        Span::lemma_same_ends(a, b);
    }
}

/// Locations are totally ordered, by line, then column, then length, and two
/// locations compare equal exactly when they are the same location.
pub proof fn lemma_location_order(a: Location, b: Location)
    ensures
        a.partial_cmp_spec(&b) is Some,
        a.partial_cmp_spec(&b) == Some(Ordering::Equal) <==> a == b,
        a.partial_cmp_spec(&b) == Some(Ordering::Less) <==> b.partial_cmp_spec(&a) == Some(
            Ordering::Greater,
        ),
        a.line < b.line ==> a.partial_cmp_spec(&b) == Some(Ordering::Less),
{
}

} // verus!
