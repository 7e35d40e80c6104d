use plainwire::message::{escape_bytes, Body, Framing, Header, StartLine};
use plainwire::span::Span;

#[test]
fn start_line_accessors_alias_the_same_fields() {
    let sl = StartLine {
        fields: ["POST".to_string(), "/x".to_string(), "HTTP/1.1".to_string()],
        span: Span::new(0, 15),
    };
    assert_eq!(sl.method(), "POST");
    assert_eq!(sl.target(), "/x");
    assert_eq!(sl.version(), "HTTP/1.1");
    // Response-flavoured accessors read the same slots.
    assert_eq!(sl.status(), "/x");
}

#[test]
fn header_case_insensitive_match() {
    let h = Header {
        name: "Content-Length".to_string(),
        value: "5".to_string(),
        line_span: Span::new(0, 18),
        name_span: Span::new(0, 14),
        value_span: Span::new(15, 16),
    };
    assert!(h.is("content-length"));
    assert!(h.is("CONTENT-LENGTH"));
    assert!(!h.is("content-type"));
}

#[test]
fn escape_bytes_makes_controls_visible() {
    assert_eq!(escape_bytes(b"a\r\nb"), "a\\r\\nb");
    assert_eq!(escape_bytes(b"\t"), "\\t");
    assert_eq!(escape_bytes(&[0x00, 0x80, b'z']), "\\0\\x80z");
    assert_eq!(escape_bytes(b"plain text 123"), "plain text 123");
}

#[test]
fn empty_body_is_complete_and_zero_length() {
    let b = Body::empty(42);
    assert_eq!(b.framing, Framing::Empty);
    assert!(b.complete);
    assert_eq!(b.decoded_len, 0);
    assert_eq!(b.span, Span::empty(42));
}

#[test]
fn escape_bytes_pads_single_hex_digits() {
    assert_eq!(escape_bytes(&[0x01, 0x7f, 0xff]), "\\x01\\x7f\\xff");
}
