use plainwire::analyze;
use plainwire::hexdump::render;
use plainwire::message::ParseMode;

fn dump(raw: &[u8]) -> String {
    let a = analyze(raw, ParseMode::Request);
    render(&a.message, raw)
}

#[test]
fn has_a_header_row() {
    let out = dump(b"GET / HTTP/1.1\r\nHost: h\r\n\r\n");
    assert!(out.starts_with("offset    hex"));
    assert!(out.contains("region"));
}

#[test]
fn first_row_offset_is_zero_and_labelled_start_line() {
    let out = dump(b"GET / HTTP/1.1\r\nHost: h\r\n\r\n");
    let first = out.lines().nth(1).unwrap();
    assert!(first.starts_with("00000000"));
    assert!(first.ends_with("start-line"));
}

#[test]
fn ascii_column_shows_printable_bytes() {
    let out = dump(b"GET / HTTP/1.1\r\nHost: h\r\n\r\n");
    // "GET / HTTP/1.1" is printable; the CR/LF become dots.
    assert!(out.contains("GET / HTTP/1.1.."));
}

#[test]
fn body_bytes_are_labelled_body_region() {
    // A Content-Length body may not begin on a 16-byte boundary, so the
    // body label attaches to whichever row starts inside the body region.
    let out = dump(b"POST / HTTP/1.1\r\nHost: h\r\nContent-Length: 40\r\n\r\n0123456789012345678901234567890123456789");
    assert!(out.lines().any(|l| l.ends_with("body")));
}

#[test]
fn chunk_regions_are_labelled() {
    // A 0x20 = 32-byte chunk guarantees a row begins inside the chunk data.
    let body = b"POST / HTTP/1.1\r\nHost: h\r\nTransfer-Encoding: chunked\r\n\r\n20\r\n01234567012345670123456701234567\r\n0\r\n\r\n";
    let out = dump(body);
    assert!(out.contains("chunk[0].data"), "no chunk label in:\n{out}");
}

#[test]
fn exact_rows_for_a_short_request() {
    let out = dump(b"GET / HTTP/1.1\r\nHost: h\r\n\r\n");
    let expected = "offset    hex                                              ascii             region\n\
00000000  47 45 54 20 2f 20 48 54 54 50 2f 31 2e 31 0d 0a  GET / HTTP/1.1..  start-line\n\
00000010  48 6f 73 74 3a 20 68 0d 0a 0d 0a                 Host: h....       header[0]\n";
    assert_eq!(out, expected);
}

#[test]
fn empty_input_says_so() {
    assert!(dump(b"").ends_with("region\n(empty input)\n"));
}
