use plainwire::analyze;
use plainwire::message::ParseMode;

#[test]
fn analyze_is_total_on_empty_input() {
    let a = analyze(b"", ParseMode::Auto);
    assert_eq!(a.message.raw_len, 0);
}

#[test]
fn analyze_a_clean_request_has_no_findings() {
    let a = analyze(b"GET / HTTP/1.1\r\nHost: h\r\n\r\n", ParseMode::Auto);
    assert!(a.findings.is_empty());
    assert_eq!(a.message.headers.len(), 1);
}

#[test]
fn analyze_detects_a_desync() {
    let a = analyze(
        b"POST / HTTP/1.1\r\nHost: h\r\nContent-Length: 6\r\nTransfer-Encoding: chunked\r\n\r\n0\r\n\r\nG",
        ParseMode::Request,
    );
    let codes: Vec<_> = a.findings.iter().map(|f| f.code).collect();
    assert!(codes.contains(&"PW001"));
}

#[test]
fn analyze_orders_structural_before_framing_findings() {
    let a = analyze(b"GET / HTTP/1.1\nX: 1\n\n", ParseMode::Auto);
    let codes: Vec<_> = a.findings.iter().map(|f| f.code).collect();
    assert_eq!(codes, vec!["PW008", "PW015"]);
}
