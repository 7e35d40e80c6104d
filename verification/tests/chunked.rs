use plainwire::chunked::{scan_chunks, ChunkScan};
use plainwire::findings::Finding;

fn scan(buf: &[u8]) -> (ChunkScan, Vec<Finding>) {
    let mut f = Vec::new();
    let s = scan_chunks(buf, 0, &mut f);
    (s, f)
}

fn codes(f: &[Finding]) -> Vec<&str> {
    f.iter().map(|x| x.code).collect()
}

#[test]
fn single_chunk_then_terminator() {
    let (s, f) = scan(b"5\r\nhello\r\n0\r\n\r\n");
    assert!(s.complete);
    assert_eq!(s.chunks.len(), 1);
    assert_eq!(s.chunks[0].size, 5);
    assert_eq!(s.decoded_len, 5);
    assert_eq!(
        s.chunks[0].data_span.slice(b"5\r\nhello\r\n0\r\n\r\n"),
        b"hello"
    );
    assert!(f.is_empty(), "unexpected findings: {:?}", codes(&f));
}

#[test]
fn multiple_chunks_sum_decoded_length() {
    let (s, _) = scan(b"3\r\nabc\r\n2\r\nde\r\n0\r\n\r\n");
    assert_eq!(s.chunks.len(), 2);
    assert_eq!(s.decoded_len, 5);
    assert!(s.complete);
}

#[test]
fn hex_sizes_are_decoded() {
    // 0x1a = 26 bytes.
    let body = [
        b"1a\r\n".to_vec(),
        vec![b'x'; 26],
        b"\r\n0\r\n\r\n".to_vec(),
    ]
    .concat();
    let (s, f) = scan(&body);
    assert_eq!(s.chunks[0].size, 26);
    assert!(s.complete);
    assert!(f.is_empty());
}

#[test]
fn chunk_extension_flags_pw012() {
    let (s, f) = scan(b"5;foo=bar\r\nhello\r\n0\r\n\r\n");
    assert!(codes(&f).contains(&"PW012"));
    assert_eq!(s.chunks[0].extension.as_deref(), Some("foo=bar"));
    assert!(s.complete);
}

#[test]
fn non_hex_size_flags_pw011() {
    let (s, f) = scan(b"zz\r\nhello\r\n0\r\n\r\n");
    assert!(codes(&f).contains(&"PW011"));
    assert!(!s.complete);
}

#[test]
fn missing_terminator_flags_pw020() {
    let (s, f) = scan(b"5\r\nhello\r\n");
    assert!(!s.complete);
    assert!(codes(&f).contains(&"PW020"));
}

#[test]
fn truncated_chunk_data_flags_pw018() {
    // Declares 10 bytes but only 3 are present.
    let (s, f) = scan(b"a\r\nabc");
    assert!(codes(&f).contains(&"PW018"));
    assert!(codes(&f).contains(&"PW020"));
    assert!(!s.complete);
    assert_eq!(s.decoded_len, 3);
}

#[test]
fn trailers_after_final_chunk_are_counted() {
    let (s, f) = scan(b"5\r\nhello\r\n0\r\nX-Trace: 1\r\n\r\n");
    assert!(s.complete);
    assert_eq!(s.trailer_count, 1);
    assert!(f.is_empty());
}

#[test]
fn misaligned_data_flags_pw011() {
    // Size says 2 but data run is longer with no CRLF where expected.
    let (_s, f) = scan(b"2\r\nabcdef\r\n0\r\n\r\n");
    assert!(codes(&f).contains(&"PW011"));
}

#[test]
fn oversized_hex_size_is_not_a_number() {
    let (s, f) = scan(b"10000000000000000\r\nx\r\n0\r\n\r\n");
    assert_eq!(codes(&f), vec!["PW011", "PW020"]);
    assert_eq!(f[0].detail, "chunk size `10000000000000000` is not a hexadecimal number");
    assert!(s.chunks.is_empty());
}

#[test]
fn huge_declared_size_is_a_truncated_chunk() {
    let (s, f) = scan(b"ffffffffffffffff\r\nabc");
    assert_eq!(codes(&f), vec!["PW018", "PW020"]);
    assert_eq!(s.decoded_len, 3);
    assert_eq!(s.end, 0);
}

#[test]
fn blank_size_line_and_extension_detail() {
    let (s, f) = scan(b"\r\n");
    assert_eq!(codes(&f), vec!["PW011", "PW020"]);
    assert_eq!(s.end, 2);
    let (_s, f) = scan(b"1 ; ext=1 \r\nZ\r\n0\r\n\r\n");
    assert_eq!(f[0].detail, "chunk carries an extension `;ext=1`");
}
