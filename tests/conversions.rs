use wut_span::{Location, Span};

#[test]
fn test() {
    let source = "
// one staff
let x = (10 + 6) / 2 - 2
// other staff
    "
    .trim_start();
    // `(10 + 6) / 2 - 2`
    let span = Span::new(21, 37);

    assert!(
        span.is_contained_in(source),
        "source does not include span!"
    );

    assert!(
        // you can convert from span to location and again to span
        span == span.to_location(source).to_span(source),
        "conversation is wrong!"
    );

    assert!(
        Location::from_span(source, span) == Location::new(2, 9, 16),
        "location is wrong!"
    );
}

#[test]
fn span_round_trip() {
    let source = "fn main() {\n    let a = 1;\n}\n";
    let spans = [
        (0, 0), (0, 3), (3, 7), (11, 12), (12, 16), (16, 21), (26, 27), (28, 28), (12, 28), (0, 29),
    ];
    for (start, end) in spans {
        let span = Span::new(start, end);
        let location = span.to_location(source);
        assert_eq!(location.to_span(source), span, "span {start}..{end}");
    }
}

#[test]
fn span_to_location_values() {
    let source = "ab\ncd\n\nefg";
    assert_eq!(Location::from_span(source, Span::new(0, 2)), Location::new(1, 1, 2));
    assert_eq!(Location::from_span(source, Span::new(1, 1)), Location::new(1, 2, 0));
    assert_eq!(Location::from_span(source, Span::new(2, 3)), Location::new(1, 3, 1));
    assert_eq!(Location::from_span(source, Span::new(3, 5)), Location::new(2, 1, 2));
    assert_eq!(Location::from_span(source, Span::new(6, 6)), Location::new(3, 1, 0));
    assert_eq!(Location::from_span(source, Span::new(7, 10)), Location::new(4, 1, 3));
    assert_eq!(Location::from_span(source, Span::new(4, 8)), Location::new(2, 2, 4));
}

#[test]
fn location_round_trip_on_line() {
    let source = "ab\ncd\n\nefg";
    for location in [
        Location::new(2, 1, 2),
        Location::new(2, 3, 0),
        Location::new(3, 1, 0),
        Location::new(4, 2, 2),
        Location::new(4, 4, 0),
        Location::new(2, 2, 5),
        Location::new(1, 1, 2),
        Location::new(1, 3, 0),
        Location::new(1, 2, 1),
    ] {
        let span = location.to_span(source);
        assert_eq!(Location::from_span(source, span), location);
    }
}

#[test]
fn location_to_span_values() {
    let source = "ab\ncd\n\nefg";
    assert_eq!(Span::from_location(source, Location::new(2, 1, 2)), Span::new(3, 5));
    assert_eq!(Span::from_location(source, Location::new(4, 3, 1)), Span::new(9, 10));
    // a length may run on over line ends
    assert_eq!(Span::from_location(source, Location::new(2, 2, 4)), Span::new(4, 8));
    // column 1 of line 1 is the first character of the text
    assert_eq!(Span::from_location(source, Location::new(1, 1, 1)), Span::new(0, 1));
    assert_eq!(Span::from_location(source, Location::new(1, 2, 1)), Span::new(1, 2));
}

#[test]
fn first_line_round_trip() {
    let source = "ab\ncd";
    let location = Span::dot(0).to_location(source);
    assert_eq!(location, Location::new(1, 1, 0));
    assert_eq!(location.to_span(source), Span::dot(0));
    let source = "abc";
    assert_eq!(Span::new(0, 3).to_location(source), Location::new(1, 1, 3));
    assert_eq!(Location::new(1, 1, 3).to_span(source), Span::new(0, 3));
    assert_eq!(Location::new(1, 2, 1).to_span(source), Span::new(1, 2));
    assert_eq!(Span::new(1, 2).to_location(source), Location::new(1, 2, 1));
}

#[test]
fn span_past_end_is_rejected() {
    let source = "abc";
    assert_eq!(Location::try_from_span(source, Span::new(1, 4)), None);
    assert_eq!(Location::try_from_span(source, Span::new(4, 4)), None);
    assert_eq!(Location::try_from_span(source, Span::new(3, 3)), Some(Location::new(1, 4, 0)));
    assert!(!Span::new(0, 4).is_contained_in(source));
    assert!(Span::new(0, 3).is_contained_in(source));
}

#[test]
fn span_inside_a_character_is_rejected() {
    let source = "aé b";
    // `é` takes bytes 1 and 2
    assert!(Span::new(2, 3).is_contained_in(source));
    assert_eq!(Location::try_from_span(source, Span::new(2, 3)), None);
    assert_eq!(Location::try_from_span(source, Span::new(0, 2)), None);
    assert_eq!(Location::try_from_span(source, Span::new(1, 3)), Some(Location::new(1, 2, 1)));
}

#[test]
fn location_past_end_is_rejected() {
    let source = "ab\ncd";
    // line past the last
    assert_eq!(Location::new(3, 1, 0).try_to_span(source), None);
    assert_eq!(Span::try_from_location(source, Location::new(9, 1, 0)), None);
    // column past the last character
    assert_eq!(Span::try_from_location(source, Location::new(2, 4, 0)), None);
    assert_eq!(Span::try_from_location(source, Location::new(2, 3, 0)), Some(Span::dot(5)));
    // length past the last character
    assert_eq!(Span::try_from_location(source, Location::new(2, 1, 3)), None);
    assert_eq!(Span::try_from_location(source, Location::new(2, 1, 2)), Some(Span::new(3, 5)));
    assert_eq!(Span::try_from_location(source, Location::new(1, 3, 3)), Some(Span::new(2, 5)));
    assert_eq!(Span::try_from_location(source, Location::new(1, 3, 4)), None);
    assert_eq!(Span::try_from_location(source, Location::new(1, 7, 0)), None);
    // line 0 and column 0 name no position
    assert_eq!(Span::try_from_location(source, Location::new(0, 1, 0)), None);
    assert_eq!(Span::try_from_location(source, Location::new(2, 0, 0)), None);
    // empty text
    assert_eq!(Span::try_from_location("", Location::new(1, 1, 0)), Some(Span::dot(0)));
    assert_eq!(Span::try_from_location("", Location::new(1, 1, 1)), None);
    assert_eq!(Location::try_from_span("", Span::dot(0)), Some(Location::new(1, 1, 0)));
}

#[test]
fn empty_span_round_trip() {
    let source = "first\nsecond\n";
    for place in [0, 3, 5, 6, 8, 12, 13] {
        let location = Span::dot(place).to_location(source);
        assert_eq!(location.len, 0);
        let back = location.to_span(source);
        assert_eq!(back.start(), place);
        assert_eq!(back.end(), place);
        assert_eq!(back.len(), 0);
    }
}

#[test]
fn multibyte_characters_count_once() {
    let source = "x\nαβγ 😀!";
    // `β` is bytes 4..6; `😀` is bytes 9..13
    let beta = Span::new(4, 6);
    assert_eq!(beta.to_location(source), Location::new(2, 2, 1));
    assert_eq!(beta.len(), 2);
    let smile = Span::new(9, 13);
    assert_eq!(smile.to_location(source), Location::new(2, 5, 1));
    let tail = Span::new(4, 14);
    assert_eq!(tail.to_location(source), Location::new(2, 2, 5));
    assert_eq!(Location::new(2, 2, 5).to_span(source), tail);
    assert_eq!(Location::new(2, 5, 2).to_span(source), Span::new(9, 14));
}

#[test]
fn carriage_returns_are_characters() {
    let source = "a\r\nbc\r\n";
    let span = Span::new(4, 5);
    assert_eq!(span.to_location(source), Location::new(2, 2, 1));
    assert_eq!(Location::new(2, 2, 1).to_span(source), span);
    assert_eq!(Location::new(2, 3, 1).to_span(source), Span::new(5, 6));
}

#[test]
fn spans_order_by_start_then_end() {
    let mut spans = vec![Span::new(4, 9), Span::new(1, 8), Span::new(4, 5), Span::dot(0)];
    spans.sort();
    assert_eq!(spans, vec![Span::dot(0), Span::new(1, 8), Span::new(4, 5), Span::new(4, 9)]);
    assert!(Span::new(1, 8) < Span::new(4, 5));
    assert!(Span::new(4, 5) < Span::new(4, 9));
    assert!(Span::new(4, 9) > Span::new(4, 5));
    assert_eq!(Span::new(2, 3).partial_cmp(&Span::new(2, 3)), Some(std::cmp::Ordering::Equal));
}

#[test]
fn locations_order_by_line_column_len() {
    let mut locations = vec![
        Location::new(2, 1, 5),
        Location::new(1, 9, 0),
        Location::new(2, 1, 3),
        Location::new(2, 4, 0),
    ];
    locations.sort();
    assert_eq!(
        locations,
        vec![
            Location::new(1, 9, 0),
            Location::new(2, 1, 3),
            Location::new(2, 1, 5),
            Location::new(2, 4, 0),
        ]
    );
    assert!(Location::new(1, 9, 9) < Location::new(2, 1, 0));
    assert!(Location::new(3, 2, 0) > Location::new(3, 1, 7));
}

#[test]
fn span_constructors_and_accessors() {
    let span = Span::with_len(5, 3);
    assert_eq!(span, Span::new(5, 8));
    assert_eq!(span.start(), 5);
    assert_eq!(span.end(), 8);
    assert_eq!(span.len(), 3);
    assert_eq!(span.as_range(), 5..8);
    assert_eq!(&"0123456789abc"[span.as_range()], "567");
    let dot = Span::dot(7);
    assert_eq!((dot.start(), dot.end(), dot.len()), (7, 7, 0));
}

#[test]
fn location_text_forms() {
    let location = Location::new(12, 7, 305);
    assert_eq!(location.to_string(), "12:7");
    assert_eq!(location.to_string_verbose(), "12:7:305");
    assert_eq!(Location::new(1, 10, 0).to_string(), "1:10");
    assert_eq!(Location::new(4294967295, 0, 100).to_string_verbose(), "4294967295:0:100");
}
