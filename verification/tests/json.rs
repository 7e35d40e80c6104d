use plainwire::analyze;
use plainwire::json::{escape, findings_to_json, to_json};
use plainwire::message::ParseMode;

fn json_req(raw: &[u8]) -> String {
    to_json(&analyze(raw, ParseMode::Request))
}

#[test]
fn escapes_special_characters() {
    let mut s = String::new();
    escape("a\"b\\c\nd\te", &mut s);
    assert_eq!(s, "\"a\\\"b\\\\c\\nd\\te\"");
}

#[test]
fn braces_are_balanced() {
    let out = json_req(b"POST / HTTP/1.1\r\nHost: h\r\nContent-Length: 5\r\n\r\nhello");
    let opens = out.matches('{').count();
    let closes = out.matches('}').count();
    assert_eq!(opens, closes);
    let ob = out.matches('[').count();
    let cb = out.matches(']').count();
    assert_eq!(ob, cb);
}

#[test]
fn contains_top_level_keys() {
    let out = json_req(b"GET / HTTP/1.1\r\nHost: h\r\n\r\n");
    assert!(out.contains("\"message\""));
    assert!(out.contains("\"findings\""));
    assert!(out.contains("\"start_line\""));
    assert!(out.contains("\"kind\": \"request\""));
}

#[test]
fn spans_render_inline_as_two_numbers() {
    let out = json_req(b"GET / HTTP/1.1\r\nHost: h\r\n\r\n");
    assert!(out.contains("\"span\": [0, 14]"), "got: {out}");
}

#[test]
fn findings_carry_code_and_severity() {
    let out = json_req(b"POST / HTTP/1.1\r\nHost: h\r\nContent-Length: 6\r\nTransfer-Encoding: chunked\r\n\r\n0\r\n\r\n");
    assert!(out.contains("\"code\": \"PW001\""));
    assert!(out.contains("\"severity\": \"error\""));
}

#[test]
fn declared_len_is_null_for_chunked() {
    let out = json_req(b"POST / HTTP/1.1\r\nHost: h\r\nTransfer-Encoding: chunked\r\n\r\n5\r\nhello\r\n0\r\n\r\n");
    assert!(out.contains("\"declared_len\": null"));
    assert!(out.contains("\"framing\": \"chunked\""));
}

#[test]
fn escapes_control_characters_as_unicode() {
    let mut s = String::new();
    escape("\u{01}\u{08}\u{0c}\u{1f}\r", &mut s);
    assert_eq!(s, "\"\\u0001\\b\\f\\u001f\\r\"");
}

#[test]
fn escape_appends_to_existing_text() {
    let mut s = String::from("x=");
    escape("é", &mut s);
    assert_eq!(s, "x=\"é\"");
}

#[test]
fn empty_findings_print_as_empty_array() {
    assert_eq!(findings_to_json(&[]), "[]\n");
}

#[test]
fn findings_json_lists_each_finding_in_order() {
    let a = analyze(b"GET / HTTP/1.1\nX: 1\n\n", ParseMode::Auto);
    let out = findings_to_json(&a.findings);
    let first = out.find("PW008").unwrap();
    let second = out.find("PW015").unwrap();
    assert!(first < second);
    assert!(out.starts_with("[\n  {\n    \"code\": \"PW008\",\n"));
    assert!(out.ends_with("  }\n]\n"));
}

#[test]
fn whole_document_layout_for_a_clean_get() {
    let out = json_req(b"GET / HTTP/1.1\r\nHost: h\r\n\r\n");
    assert!(out.starts_with("{\n  \"message\": {\n    \"kind\": \"request\",\n    \"raw_len\": 27,\n"));
    assert!(out.ends_with("  \"findings\": []\n}\n"));
    assert!(out.contains("\"fields\": [\n        \"GET\",\n        \"/\",\n        \"HTTP/1.1\"\n      ]"));
}

#[test]
fn escaped_text_never_carries_a_control_character() {
    let all: String = (0u32..0x80).filter_map(char::from_u32).collect();
    let mut s = String::new();
    escape(&all, &mut s);
    assert!(s.chars().all(|c| (c as u32) >= 0x20), "{s:?}");
    assert!(s.contains("\\u0000") && s.contains("\\u001f") && s.contains("\\n"));
}
