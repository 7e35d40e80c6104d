use plainwire::findings::Finding;
use plainwire::framing::analyze;
use plainwire::message::{Framing, Message, ParseMode};
use plainwire::parser;

fn analyze_bytes(raw: &[u8], mode: ParseMode) -> (Message, Vec<Finding>) {
    let (mut msg, mut findings) = parser::parse(raw, mode);
    analyze(&mut msg, &mut findings, raw);
    (msg, findings)
}

fn req(raw: &[u8]) -> (Message, Vec<Finding>) {
    analyze_bytes(raw, ParseMode::Request)
}

fn codes(f: &[Finding]) -> Vec<&str> {
    f.iter().map(|x| x.code).collect()
}

#[test]
fn bodyless_request_is_empty_framing() {
    let (m, f) = req(b"GET / HTTP/1.1\r\nHost: h\r\n\r\n");
    assert_eq!(m.body.framing, Framing::Empty);
    assert_eq!(m.body.decoded_len, 0);
    assert!(f.is_empty(), "unexpected: {:?}", codes(&f));
}

#[test]
fn content_length_frames_the_body() {
    let (m, f) = req(b"POST / HTTP/1.1\r\nHost: h\r\nContent-Length: 5\r\n\r\nhello");
    assert_eq!(m.body.framing, Framing::ContentLength);
    assert_eq!(m.body.declared_len, Some(5));
    assert_eq!(m.body.decoded_len, 5);
    assert!(m.body.complete);
    assert!(f.is_empty());
}

#[test]
fn short_body_flags_incomplete() {
    let (m, f) = req(b"POST / HTTP/1.1\r\nHost: h\r\nContent-Length: 10\r\n\r\nhi");
    assert!(!m.body.complete);
    assert!(codes(&f).contains(&"PW018"));
}

#[test]
fn both_cl_and_te_flag_pw001() {
    let raw = b"POST / HTTP/1.1\r\nHost: h\r\nContent-Length: 6\r\nTransfer-Encoding: chunked\r\n\r\n0\r\n\r\n";
    let (m, f) = req(raw);
    assert!(codes(&f).contains(&"PW001"));
    // Chunked wins the framing decision.
    assert_eq!(m.body.framing, Framing::Chunked);
}

#[test]
fn duplicate_content_length_flags_pw002() {
    let (_m, f) = req(
        b"POST / HTTP/1.1\r\nHost: h\r\nContent-Length: 5\r\nContent-Length: 5\r\n\r\nhello",
    );
    assert!(codes(&f).contains(&"PW002"));
    // Same value twice is not a conflict.
    assert!(!codes(&f).contains(&"PW003"));
}

#[test]
fn conflicting_content_length_flags_pw003() {
    let (_m, f) = req(
        b"POST / HTTP/1.1\r\nHost: h\r\nContent-Length: 5\r\nContent-Length: 6\r\n\r\nhello",
    );
    assert!(codes(&f).contains(&"PW002"));
    assert!(codes(&f).contains(&"PW003"));
}

#[test]
fn invalid_content_length_flags_pw010() {
    let (m, f) = req(b"POST / HTTP/1.1\r\nHost: h\r\nContent-Length: 0x5\r\n\r\nhello");
    assert!(codes(&f).contains(&"PW010"));
    assert_eq!(m.body.framing, Framing::Ambiguous);
}

#[test]
fn chunked_request_frames_via_te() {
    let (m, f) = req(b"POST / HTTP/1.1\r\nHost: h\r\nTransfer-Encoding: chunked\r\n\r\n5\r\nhello\r\n0\r\n\r\n");
    assert_eq!(m.body.framing, Framing::Chunked);
    assert_eq!(m.body.decoded_len, 5);
    assert!(m.body.complete);
    assert!(f.is_empty());
}

#[test]
fn te_not_chunked_final_flags_pw005() {
    let (m, f) = req(b"POST / HTTP/1.1\r\nHost: h\r\nTransfer-Encoding: gzip\r\n\r\nbody");
    assert!(codes(&f).contains(&"PW005"));
    assert_eq!(m.body.framing, Framing::Ambiguous);
}

#[test]
fn casing_chunked_is_not_obfuscation() {
    // Transfer-coding names are case-insensitive; Chunked is legitimate.
    let (m, f) =
        req(b"POST / HTTP/1.1\r\nHost: h\r\nTransfer-Encoding: Chunked\r\n\r\n0\r\n\r\n");
    assert_eq!(m.body.framing, Framing::Chunked);
    assert!(!codes(&f).contains(&"PW006"));
    assert!(!codes(&f).contains(&"PW005"));
}

#[test]
fn missing_host_flags_pw015() {
    let (_m, f) = req(b"GET / HTTP/1.1\r\n\r\n");
    assert!(codes(&f).contains(&"PW015"));
}

#[test]
fn multiple_host_flags_pw016() {
    let (_m, f) = req(b"GET / HTTP/1.1\r\nHost: a\r\nHost: b\r\n\r\n");
    assert!(codes(&f).contains(&"PW016"));
}

#[test]
fn response_without_framing_reads_until_close() {
    let (m, _f) = analyze_bytes(
        b"HTTP/1.1 200 OK\r\nServer: x\r\n\r\nbody bytes",
        ParseMode::Response,
    );
    assert_eq!(m.body.framing, Framing::UntilClose);
    assert_eq!(m.body.decoded_len, 10);
}

#[test]
fn bodyless_request_with_trailing_bytes_flags_pw017() {
    let (_m, f) = req(b"GET / HTTP/1.1\r\nHost: h\r\n\r\nGET /smuggled HTTP/1.1\r\n");
    assert!(codes(&f).contains(&"PW017"));
}

#[test]
fn conflicting_values_are_listed_in_order() {
    let (_m, f) = req(
        b"POST / HTTP/1.1\r\nHost: h\r\nContent-Length: 7, 5\r\nContent-Length: 7\r\n\r\n",
    );
    let d = &f.iter().find(|x| x.code == "PW003").unwrap().detail;
    assert_eq!(d, "Content-Length resolves to multiple values: 7, 5");
    let d2 = &f.iter().find(|x| x.code == "PW002").unwrap().detail;
    assert_eq!(d2, "2 Content-Length header fields are present");
}

#[test]
fn obfuscated_and_not_final_chunked_details() {
    let (m, f) = req(
        b"POST / HTTP/1.1\r\nHost: h\r\nTransfer-Encoding: chunked, xchunked\r\n\r\n",
    );
    assert_eq!(codes(&f), vec!["PW006", "PW005"]);
    assert_eq!(
        f[0].detail,
        "transfer coding `xchunked` mimics chunked; strict and lenient parsers will disagree"
    );
    assert_eq!(
        f[1].detail,
        "chunked is present but is not the final transfer coding"
    );
    assert_eq!(m.body.framing, Framing::Ambiguous);
}

#[test]
fn cl_body_with_extra_bytes_reports_the_overflow() {
    let (m, f) = req(b"POST / HTTP/1.1\r\nHost: h\r\nContent-Length: 2\r\n\r\nhello");
    assert_eq!(codes(&f), vec!["PW017"]);
    assert_eq!(
        f[0].detail,
        "3 byte(s) follow the Content-Length body (possible smuggled request prefix)"
    );
    assert_eq!(m.body.span.end - m.body.span.start, 2);
    assert_eq!(m.body.decoded_len, 2);
}

#[test]
fn huge_content_length_is_not_a_number() {
    let (m, f) = req(b"POST / HTTP/1.1\r\nHost: h\r\nContent-Length: 99999999999999999999\r\n\r\n");
    assert_eq!(codes(&f), vec!["PW010"]);
    assert_eq!(m.body.framing, Framing::Ambiguous);
}
