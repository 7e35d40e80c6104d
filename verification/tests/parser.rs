use plainwire::findings::Finding;
use plainwire::message::{Message, MessageKind, ParseMode};
use plainwire::parser::{parse, read_line, Term};

fn parse_req(raw: &[u8]) -> (Message, Vec<Finding>) {
    parse(raw, ParseMode::Request)
}

fn codes(findings: &[Finding]) -> Vec<&str> {
    findings.iter().map(|f| f.code).collect()
}

#[test]
fn read_line_splits_crlf() {
    let buf = b"abc\r\ndef";
    let l = read_line(buf, 0);
    assert_eq!(l.term, Term::Crlf);
    assert_eq!(l.content.slice(buf), b"abc");
    assert_eq!(l.full.end, 5);
}

#[test]
fn read_line_splits_bare_lf() {
    let buf = b"abc\ndef";
    let l = read_line(buf, 0);
    assert_eq!(l.term, Term::Lf);
    assert_eq!(l.content.slice(buf), b"abc");
    assert_eq!(l.full.end, 4);
}

#[test]
fn parses_a_clean_request() {
    let (m, f) = parse_req(b"GET /index HTTP/1.1\r\nHost: example.test\r\n\r\n");
    assert_eq!(m.kind, MessageKind::Request);
    assert_eq!(m.start_line.method(), "GET");
    assert_eq!(m.start_line.target(), "/index");
    assert_eq!(m.start_line.version(), "HTTP/1.1");
    assert_eq!(m.headers.len(), 1);
    assert_eq!(m.headers[0].name, "Host");
    assert_eq!(m.headers[0].value, "example.test");
    assert!(f.is_empty(), "clean request had findings: {:?}", codes(&f));
}

#[test]
fn auto_mode_detects_response() {
    let (m, _) = parse(b"HTTP/1.1 200 OK\r\n\r\n", ParseMode::Auto);
    assert_eq!(m.kind, MessageKind::Response);
    assert_eq!(m.start_line.resp_version(), "HTTP/1.1");
    assert_eq!(m.start_line.status(), "200");
    assert_eq!(m.start_line.reason(), "OK");
}

#[test]
fn response_reason_keeps_internal_spaces() {
    let (m, _) = parse(b"HTTP/1.1 404 Not Found\r\n\r\n", ParseMode::Response);
    assert_eq!(m.start_line.reason(), "Not Found");
}

#[test]
fn value_ows_is_trimmed() {
    let (m, _) = parse_req(b"GET / HTTP/1.1\r\nX-Test:   spaced   \r\n\r\n");
    assert_eq!(m.headers[0].value, "spaced");
}

#[test]
fn bare_lf_flags_pw008_once_with_count() {
    let (_m, f) = parse_req(b"GET / HTTP/1.1\nHost: h\n\n");
    let lf: Vec<_> = f.iter().filter(|x| x.code == "PW008").collect();
    assert_eq!(lf.len(), 1, "PW008 should be reported once");
    assert!(lf[0].detail.contains("3"), "counts all three LF lines");
}

#[test]
fn bare_cr_flags_pw009() {
    // A CR in the middle of a value, not before the LF terminator.
    let (_m, f) = parse_req(b"GET / HTTP/1.1\r\nX: a\rb\r\n\r\n");
    assert!(codes(&f).contains(&"PW009"));
}

#[test]
fn non_token_name_flags_pw013() {
    let (_m, f) = parse_req(b"GET / HTTP/1.1\r\nBad Name: v\r\n\r\n");
    assert!(codes(&f).contains(&"PW013"));
}

#[test]
fn obs_fold_flags_pw019_and_joins_value() {
    let (m, f) = parse_req(b"GET / HTTP/1.1\r\nX-Long: a\r\n\tb\r\n\r\n");
    assert!(codes(&f).contains(&"PW019"));
    assert_eq!(m.headers.len(), 1);
    assert_eq!(m.headers[0].value, "a b");
}

#[test]
fn irregular_request_line_flags_pw014() {
    let (_m, f) = parse_req(b"GET  /double  HTTP/1.1\r\n\r\n");
    assert!(codes(&f).contains(&"PW014"));
}

#[test]
fn truncated_headers_have_no_body() {
    let (m, _) = parse_req(b"GET / HTTP/1.1\r\nHost: h");
    assert_eq!(m.body_start, m.raw_len);
    assert_eq!(m.headers.len(), 1);
}

#[test]
fn multiple_headers_preserve_order_and_spans() {
    let raw = b"GET / HTTP/1.1\r\nA: 1\r\nB: 2\r\n\r\n";
    let (m, _) = parse_req(raw);
    assert_eq!(m.headers[0].name, "A");
    assert_eq!(m.headers[1].name, "B");
    // Spans point back at the exact header bytes.
    assert_eq!(m.headers[0].line_span.slice(raw), b"A: 1");
    assert_eq!(m.headers[1].name_span.slice(raw), b"B");
}

#[test]
fn bare_lf_detail_counts_and_first_span() {
    let (_m, f) = parse_req(b"GET / HTTP/1.1\nHost: h\n\n");
    let lf = f.iter().find(|x| x.code == "PW008").unwrap();
    assert_eq!(lf.detail, "3 line(s) end with a bare LF instead of CRLF");
    assert_eq!(lf.span.unwrap().start, 0);
    assert_eq!(lf.span.unwrap().end, 15);
}

#[test]
fn irregular_request_line_keeps_method_target_version() {
    let (m, f) = parse_req(b"GET  /a b  HTTP/1.1\r\n\r\n");
    assert_eq!(m.start_line.method(), "GET");
    assert_eq!(m.start_line.target(), "/a b");
    assert_eq!(m.start_line.version(), "HTTP/1.1");
    let d = &f.iter().find(|x| x.code == "PW014").unwrap().detail;
    assert_eq!(
        d,
        "request line is not exactly `method SP target SP version` (6 space-separated field(s))"
    );
}

#[test]
fn header_without_colon_and_space_before_colon() {
    let (m, f) = parse_req(b"GET / HTTP/1.1\r\nnocolon\r\nName : v\r\n: empty\r\n\r\n");
    let c = codes(&f);
    assert_eq!(c, vec!["PW013", "PW007", "PW013"]);
    assert_eq!(m.headers.len(), 2);
    assert_eq!(m.headers[0].name, "Name");
    assert_eq!(m.headers[1].name, "");
    assert_eq!(f[2].detail, "empty header field name");
}

#[test]
fn fold_without_previous_header_only_reports() {
    let (m, f) = parse_req(b"GET / HTTP/1.1\r\n folded\r\n\r\n");
    assert_eq!(codes(&f), vec!["PW019"]);
    assert!(m.headers.is_empty());
}

#[test]
fn non_utf8_header_bytes_become_replacement_chars() {
    let (m, _) = parse_req(b"GET / HTTP/1.1\r\nX: \xff\r\n\r\n");
    assert_eq!(m.headers[0].value, "\u{fffd}");
}
