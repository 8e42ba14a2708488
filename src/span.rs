use core::cmp::Ordering;
use vstd::prelude::*;
use vstd::std_specs::iter::IteratorSpec;

use crate::location::{location_of_span, span_fits, Location};
use crate::order::{compare, lexicographic};
use crate::text::{
    byte_len, byte_length, byte_offset, lemma_line_start_found, lemma_line_start_missing,
    lemma_offset_monotonic, line_start, newlines, utf8_width,
};

verus! {

/// A half-open byte range `[start, end)` into a text buffer.
#[derive(Debug, Clone, Copy, PartialEq, Eq, Structural, Ord)]
pub struct Span {
    start: usize,
    end: usize,
}

impl Span {
    /// A span never ends before it starts.
    #[verifier::type_invariant]
    pub open spec fn well_formed(self) -> bool {
        self.spec_start() <= self.spec_end()
    }

    /// Byte offset where the span begins.
    pub closed spec fn spec_start(&self) -> usize {
        self.start
    }

    /// Byte offset just past the span's last byte.
    pub closed spec fn spec_end(&self) -> usize {
        self.end
    }

    /// The span `[start, end)`; `start` must not exceed `end`.
    pub fn new(start: usize, end: usize) -> (r: Span)
        requires
            start <= end,
        ensures
            r.start() == start,
            r.end() == end,
    {
        Span { start, end }
    }

    /// Spans with the same ends are the same span.
    pub proof fn lemma_same_ends(a: Span, b: Span)
        requires
            a.start() == b.start(),
            a.end() == b.end(),
        ensures
            a == b,
    {
    }

    /// The span of `len` bytes that starts at `start`.
    pub fn with_len(start: usize, len: usize) -> (r: Span)
        requires
            start + len <= usize::MAX,
        ensures
            r.start() == start,
            r.end() == start + len,
    {
        Span { start, end: start + len }
    }

    /// The empty span at byte offset `place`.
    pub fn dot(place: usize) -> (r: Span)
        ensures
            r.start() == place,
            r.end() == place,
    {
        Span { start: place, end: place }
    }

    /// The span of `source` that `location` names, or `None` where
    /// `source` holds no such characters.
    pub fn try_from_location(source: &str, location: Location) -> (r: Option<Span>)
        ensures
            r is Some <==> location_fits(source@, location),
            r is Some ==> span_matches(source@, location, r->0),
    {
        if location.line == 0 || location.column == 0 {
            return None;
        }
        let ghost s = source@;
        let total = byte_length(source);
        let mut chars = source.chars();
        let mut start: usize = 0;
        let ghost mut k: int = 0;
        // pass the line feeds that end the lines before the wanted one
        let mut passed: u32 = 0;
        while passed < location.line - 1
            invariant
                s == source@,
                total == byte_len(s),
                location.line >= 1,
                0 <= k <= s.len(),
                start == byte_offset(s, k),
                chars.remaining() == s.skip(k),
                passed <= location.line - 1,
                passed == newlines(s.take(k)),
                location.line == 1 ==> k == 0,
                k > 0 ==> s[k - 1] == '\n' || passed < location.line - 1,
            decreases s.len() - k,
        {
            proof {
                lemma_offset_monotonic(s, k, k);
                if k < s.len() {
                    lemma_offset_monotonic(s, k + 1, k + 1);
                    assert(s.take(k + 1).drop_last() =~= s.take(k));
                }
            }
            match chars.next() {
                None => {
                    proof {
                        assert(s.skip(k).len() == 0);
                        assert(s.take(k) =~= s);
                        lemma_line_start_missing(s, location.line as nat);
                    }
                    return None;
                },
                Some(c) => {
                    assert(s.skip(k).drop_first() =~= s.skip(k + 1));
                    start = start + utf8_width(c);
                    if c == '\n' {
                        passed = passed + 1;
                    }
                    proof {
                        k = k + 1;
                    }
                },
            }
        }
        let ghost first = k;
        proof {
            if location.line >= 2 {
                assert(s.take(0) =~= Seq::<char>::empty());
                lemma_line_start_found(s, location.line as nat, k);
            }
        }
        // move to the first character of the span
        let skip: u32 = location.column - 1;
        let mut moved: u32 = 0;
        while moved < skip
            invariant
                s == source@,
                total == byte_len(s),
                0 <= k <= s.len(),
                k == first + moved,
                location.line >= 1 && location.column >= 1,
                line_start(s, location.line as nat) == Some(first as nat),
                skip == location.column - 1,
                moved <= skip,
                start == byte_offset(s, k),
                chars.remaining() == s.skip(k),
            decreases skip - moved,
        {
            proof {
                lemma_offset_monotonic(s, k, k);
                if k < s.len() {
                    lemma_offset_monotonic(s, k + 1, k + 1);
                    assert(s.take(k + 1).drop_last() =~= s.take(k));
                }
            }
            match chars.next() {
                None => {
                    assert(s.skip(k).len() == 0);
                    return None;
                },
                Some(c) => {
                    assert(s.skip(k).drop_first() =~= s.skip(k + 1));
                    start = start + utf8_width(c);
                    moved = moved + 1;
                    proof {
                        k = k + 1;
                    }
                },
            }
        }
        let ghost p = k;
        // take the span's characters
        let mut len: usize = 0;
        let mut taken: u32 = 0;
        while taken < location.len
            invariant
                s == source@,
                total == byte_len(s),
                0 <= p <= k <= s.len(),
                k == p + taken,
                location.line >= 1 && location.column >= 1,
                line_start(s, location.line as nat) == Some(first as nat),
                p == first + location.column - 1,
                taken <= location.len,
                start == byte_offset(s, p),
                start + len == byte_offset(s, k),
                chars.remaining() == s.skip(k),
            decreases location.len - taken,
        {
            proof {
                lemma_offset_monotonic(s, k, k);
                if k < s.len() {
                    lemma_offset_monotonic(s, k + 1, k + 1);
                    assert(s.take(k + 1).drop_last() =~= s.take(k));
                }
            }
            match chars.next() {
                None => {
                    assert(s.skip(k).len() == 0);
                    return None;
                },
                Some(c) => {
                    assert(s.skip(k).drop_first() =~= s.skip(k + 1));
                    len = len + utf8_width(c);
                    taken = taken + 1;
                    proof {
                        k = k + 1;
                    }
                },
            }
        }
        proof {
            lemma_offset_monotonic(s, k, k);
        }
        Some(Span::with_len(start, len))
    }

    /// The span of `source` that `location` names, which must be one that
    /// `source` holds.
    pub fn from_location(source: &str, location: Location) -> (r: Span)
        requires
            location_fits(source@, location),
        ensures
            span_matches(source@, location, r),
    {
        Self::try_from_location(source, location).unwrap()
    }

    /// The span ends within `source`. Only lengths are compared: whether the
    /// ends fall on character boundaries is not checked.
    pub fn is_contained_in(&self, source: &str) -> (r: bool)
        ensures
            r == (self.end() <= byte_len(source@)),
    {
        self.end <= byte_length(source)
    }

    /// The range `start..end`, for slicing the text.
    pub fn as_range(&self) -> (r: core::ops::Range<usize>)
        ensures
            r.start == self.start(),
            r.end == self.end(),
    {
        self.start..self.end
    }

    /// Length of the span in bytes.
    pub fn len(&self) -> (r: usize)
        ensures
            r == self.end() - self.start(),
    {
        proof {
            use_type_invariant(self);
        }
        self.end - self.start
    }

    /// The location of this span in `source`; the span must lie within
    /// `source` and start and end on character boundaries.
    pub fn to_location(self, source: &str) -> (r: Location)
        requires
            source@.len() < u32::MAX,
            span_fits(source@, self),
        ensures
            r == location_of_span(source@, self),
    {
        Location::from_span_unchecked(source, self)
    }

    /// Byte offset where the span begins.
    #[verifier::when_used_as_spec(spec_start)]
    pub fn start(&self) -> (r: usize)
        ensures
            r == self.start(),
    {
        self.start
    }

    /// Byte offset just past the span's last byte.
    #[verifier::when_used_as_spec(spec_end)]
    pub fn end(&self) -> (r: usize)
        ensures
            r == self.end(),
    {
        self.end
    }
}

impl PartialOrd for Span {
    /// Spans are ordered by start, then by end.
    fn partial_cmp(&self, other: &Span) -> (r: Option<Ordering>) {
        if self.start < other.start {
            Some(Ordering::Less)
        } else if self.start > other.start {
            Some(Ordering::Greater)
        } else if self.end < other.end {
            Some(Ordering::Less)
        } else if self.end > other.end {
            Some(Ordering::Greater)
        } else {
            Some(Ordering::Equal)
        }
    }
}

impl vstd::std_specs::cmp::PartialOrdSpecImpl for Span {
    open spec fn obeys_partial_cmp_spec() -> bool {
        true
    }

    open spec fn partial_cmp_spec(&self, other: &Span) -> Option<Ordering> {
        Some(
            lexicographic(
                compare(self.start() as int, other.start() as int),
                compare(self.end() as int, other.end() as int),
            ),
        )
    }
}

/// The characters `[p, q)` of `s` that `loc` names: line `loc.line` starts
/// after the `(loc.line - 1)`-th line feed (line 1 at the start of the text),
/// column 1 is its first character, and the span starts `loc.column - 1`
/// characters further on and covers `loc.len` characters. `None` where the
/// text runs out first, and for line 0 or column 0, which name no position.
pub open spec fn location_chars(s: Seq<char>, loc: Location) -> Option<(int, int)> {
    if loc.line == 0 || loc.column == 0 {
        None
    } else {
        match line_start(s, loc.line as nat) {
            None => None,
            Some(first) => {
                let p = first + loc.column - 1;
                let q = p + loc.len;
                if q <= s.len() {
                    Some((p, q))
                } else {
                    None
                }
            },
        }
    }
}

/// `loc` names characters of `s`.
pub open spec fn location_fits(s: Seq<char>, loc: Location) -> bool {
    location_chars(s, loc) is Some
}

/// The span, in bytes, of the characters that `loc` names in `s`.
pub open spec fn span_matches(s: Seq<char>, loc: Location, span: Span) -> bool {
    match location_chars(s, loc) {
        Some((p, q)) => span.start() == byte_offset(s, p) && span.end() == byte_offset(s, q),
        None => false,
    }
}

} // verus!
