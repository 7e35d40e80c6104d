use plainwire::analyze;
use plainwire::annotate::{render, render_findings, Palette};
use plainwire::findings::Finding;
use plainwire::message::ParseMode;
use plainwire::span::Span;

fn render_req(raw: &[u8], color: bool) -> String {
    let a = analyze(raw, ParseMode::Request);
    render(&a, &Palette::new(color))
}

#[test]
fn renders_all_sections() {
    let out = render_req(
        b"POST /login HTTP/1.1\r\nHost: h\r\nContent-Length: 5\r\n\r\nhello",
        false,
    );
    assert!(out.contains("plainwire — request"));
    assert!(out.contains("start-line"));
    assert!(out.contains("method   POST"));
    assert!(out.contains("target   /login"));
    assert!(out.contains("headers (2)"));
    assert!(out.contains("Content-Length: 5"));
    assert!(out.contains("framing   content-length"));
    assert!(out.contains("findings: 0 error"));
}

#[test]
fn clean_message_reports_no_ambiguities() {
    let out = render_req(b"GET / HTTP/1.1\r\nHost: h\r\n\r\n", false);
    assert!(out.contains("no framing ambiguities detected"));
}

#[test]
fn no_color_output_has_no_escape_bytes() {
    let out = render_req(b"POST / HTTP/1.1\r\nHost: h\r\nContent-Length: 6\r\nTransfer-Encoding: chunked\r\n\r\n0\r\n\r\n", false);
    assert!(
        !out.contains('\x1b'),
        "no-color output must not contain ESC"
    );
    assert!(out.contains("PW001"));
}

#[test]
fn findings_are_sorted_error_first() {
    // A message with both an error (PW001) and an info (PW012): the error
    // must be listed before the info.
    let raw = b"POST / HTTP/1.1\r\nHost: h\r\nContent-Length: 6\r\nTransfer-Encoding: chunked\r\n\r\n5;x=1\r\nhello\r\n0\r\n\r\n";
    let out = render_req(raw, false);
    let e = out.find("PW001").unwrap();
    let i = out.find("PW012").unwrap();
    assert!(e < i, "error should sort before info");
}

#[test]
fn exact_breakdown_of_a_clean_get() {
    let out = render_req(b"GET / HTTP/1.1\r\nHost: h\r\n\r\n", false);
    let expected = "plainwire — request, 1 header(s), 27 byte(s)\n\n\
start-line  [0..14]\n  method   GET\n  target   /\n  version  HTTP/1.1\n\n\
headers (1)\n  [16..23]  Host: h\n\n\
body  [27..27]\n  framing   empty\n  decoded   0 byte(s)\n  complete  yes\n\n\
framing: empty (no Content-Length or Transfer-Encoding; no body)\n\n\
findings: 0 error(s), 0 warn(s), 0 info\n  (no framing ambiguities detected)\n";
    assert_eq!(out, expected);
}

#[test]
fn findings_block_pads_and_colours() {
    let fs = vec![
        Finding::new("PW012", "ext".to_string(), None),
        Finding::new("PW008", "lf".to_string(), Some(Span::new(1, 2))),
    ];
    let plain = render_findings(&fs, &Palette::new(false));
    assert_eq!(
        plain,
        "findings: 0 error(s), 1 warn(s), 1 info\n  warn   PW008  bare-lf-line-ending\n         lf\n         at bytes 1..2\n  info   PW012  chunk-extension\n         ext\n"
    );
    let coloured = render_findings(&fs[..1], &Palette::new(true));
    assert!(coloured.contains("\x1b[36minfo\x1b[0m  \x1b[1mPW012\x1b[0m"));
}

#[test]
fn long_header_values_are_truncated_with_an_ellipsis() {
    let mut raw = b"GET / HTTP/1.1\r\nHost: h\r\nX: ".to_vec();
    raw.extend(std::iter::repeat(b'a').take(100));
    raw.extend_from_slice(b"\r\n\r\n");
    let out = render_req(&raw, false);
    let line = out.lines().find(|l| l.contains("X: ")).unwrap();
    assert!(line.ends_with(&format!("{}\u{2026}", "a".repeat(79))));
}
