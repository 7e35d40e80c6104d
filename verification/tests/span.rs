use plainwire::span::Span;

#[test]
fn len_and_empty() {
    assert_eq!(Span::new(4, 10).len(), 6);
    assert!(Span::empty(3).is_empty());
    assert!(!Span::new(0, 1).is_empty());
}

#[test]
fn end_is_clamped_to_start() {
    // A stale cursor that runs past the start must not produce a negative
    // length; it collapses to an empty span instead.
    let s = Span::new(10, 4);
    assert_eq!(s.start, 10);
    assert_eq!(s.end, 10);
    assert!(s.is_empty());
}

#[test]
fn contains_is_half_open() {
    let s = Span::new(2, 5);
    assert!(!s.contains(1));
    assert!(s.contains(2));
    assert!(s.contains(4));
    assert!(!s.contains(5));
}

#[test]
fn slice_clamps_to_buffer() {
    let buf = b"hello";
    assert_eq!(Span::new(1, 3).slice(buf), b"el");
    // A span past the end clamps rather than panicking.
    assert_eq!(Span::new(3, 99).slice(buf), b"lo");
    assert_eq!(Span::new(99, 120).slice(buf), b"");
}

#[test]
fn span_text_is_start_dot_dot_end() {
    assert_eq!(Span::new(3, 17).text(), "3..17");
    assert_eq!(Span::empty(0).text(), "0..0");
}
