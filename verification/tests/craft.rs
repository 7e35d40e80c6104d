use plainwire::analyze;
use plainwire::craft::{build, gadget, ClMode, CraftSpec, Gadget};
use plainwire::message::{Framing, ParseMode};

fn codes_of(raw: &[u8]) -> Vec<&'static str> {
    analyze(raw, ParseMode::Request)
        .findings
        .iter()
        .map(|f| f.code)
        .collect()
}

#[test]
fn default_get_has_no_content_length() {
    let out = build(&CraftSpec::default());
    let text = String::from_utf8(out).unwrap();
    assert_eq!(text, "GET / HTTP/1.1\r\nHost: example.test\r\n\r\n");
}

#[test]
fn auto_content_length_matches_body() {
    let spec = CraftSpec {
        method: "POST".to_string(),
        body: b"hello".to_vec(),
        ..Default::default()
    };
    let out = build(&spec);
    let text = String::from_utf8(out).unwrap();
    assert!(text.contains("Content-Length: 5\r\n"));
    assert!(text.ends_with("\r\n\r\nhello"));
}

#[test]
fn crafted_request_round_trips_cleanly() {
    // A well-formed craft must produce zero findings when inspected.
    let spec = CraftSpec {
        method: "POST".to_string(),
        body: b"payload".to_vec(),
        ..Default::default()
    };
    let out = build(&spec);
    assert!(codes_of(&out).is_empty(), "found: {:?}", codes_of(&out));
}

#[test]
fn explicit_content_length_can_mismatch() {
    let spec = CraftSpec {
        method: "POST".to_string(),
        body: b"hello".to_vec(),
        content_length: ClMode::Explicit(2),
        ..Default::default()
    };
    let out = build(&spec);
    assert!(String::from_utf8(out.clone())
        .unwrap()
        .contains("Content-Length: 2"));
    // Inspecting it flags the trailing bytes.
    assert!(codes_of(&out).contains(&"PW017"));
}

#[test]
fn chunked_encodes_body_and_terminator() {
    let spec = CraftSpec {
        method: "POST".to_string(),
        body: b"hello".to_vec(),
        chunked: true,
        ..Default::default()
    };
    let out = build(&spec);
    let text = String::from_utf8(out.clone()).unwrap();
    assert!(text.contains("Transfer-Encoding: chunked\r\n"));
    assert!(text.contains("5\r\nhello\r\n0\r\n\r\n"));
    let a = analyze(&out, ParseMode::Request);
    assert_eq!(a.message.body.framing, Framing::Chunked);
    assert!(a.findings.is_empty());
}

#[test]
fn extra_host_header_is_not_duplicated() {
    let spec = CraftSpec {
        headers: vec![("Host".to_string(), "override.test".to_string())],
        ..Default::default()
    };
    let out = String::from_utf8(build(&spec)).unwrap();
    assert_eq!(out.matches("Host:").count(), 1);
    assert!(out.contains("Host: override.test"));
}

#[test]
fn gadget_names_parse() {
    assert_eq!(Gadget::parse("cl.te"), Some(Gadget::ClTe));
    assert_eq!(Gadget::parse("TE.CL"), Some(Gadget::TeCl));
    assert_eq!(Gadget::parse("bare-lf"), Some(Gadget::BareLf));
    assert_eq!(Gadget::parse("nope"), None);
}

#[test]
fn cl_te_gadget_flags_both_and_trailing() {
    let out = gadget(Gadget::ClTe, "example.test", "/");
    let c = codes_of(&out);
    assert!(c.contains(&"PW001"), "codes: {c:?}");
    assert!(c.contains(&"PW017"));
}

#[test]
fn te_cl_gadget_is_chunked_with_both_headers() {
    let out = gadget(Gadget::TeCl, "example.test", "/");
    let c = codes_of(&out);
    assert!(c.contains(&"PW001"));
    assert_eq!(
        analyze(&out, ParseMode::Request).message.body.framing,
        Framing::Chunked
    );
}

#[test]
fn te_te_gadget_flags_duplicate_and_obfuscation() {
    let out = gadget(Gadget::TeTe, "example.test", "/");
    let c = codes_of(&out);
    assert!(c.contains(&"PW004"), "codes: {c:?}");
    assert!(c.contains(&"PW006"));
}

#[test]
fn space_colon_gadget_flags_pw007_and_pw001() {
    let out = gadget(Gadget::SpaceColon, "example.test", "/");
    let c = codes_of(&out);
    assert!(c.contains(&"PW007"));
    assert!(c.contains(&"PW001"));
}

#[test]
fn bare_lf_gadget_flags_pw008_and_pw001() {
    let out = gadget(Gadget::BareLf, "example.test", "/");
    let c = codes_of(&out);
    assert!(c.contains(&"PW008"), "codes: {c:?}");
    assert!(c.contains(&"PW001"));
}

#[test]
fn omit_mode_never_adds_content_length() {
    let spec = CraftSpec {
        method: "POST".to_string(),
        body: b"abc".to_vec(),
        content_length: ClMode::Omit,
        ..Default::default()
    };
    let text = String::from_utf8(build(&spec)).unwrap();
    assert_eq!(text, "POST / HTTP/1.1\r\nHost: example.test\r\n\r\nabc");
}

#[test]
fn explicit_zero_is_written_even_without_body() {
    let spec = CraftSpec {
        content_length: ClMode::Explicit(0),
        ..Default::default()
    };
    let text = String::from_utf8(build(&spec)).unwrap();
    assert_eq!(text, "GET / HTTP/1.1\r\nHost: example.test\r\nContent-Length: 0\r\n\r\n");
}

#[test]
fn chunked_empty_body_is_only_the_terminator() {
    let spec = CraftSpec {
        chunked: true,
        ..Default::default()
    };
    let text = String::from_utf8(build(&spec)).unwrap();
    assert_eq!(
        text,
        "GET / HTTP/1.1\r\nHost: example.test\r\nTransfer-Encoding: chunked\r\n\r\n0\r\n\r\n"
    );
}

#[test]
fn chunk_size_is_lowercase_hex() {
    let spec = CraftSpec {
        body: vec![b'x'; 26],
        chunked: true,
        ..Default::default()
    };
    let out = build(&spec);
    let text = String::from_utf8(out).unwrap();
    assert!(text.contains("\r\n\r\n1a\r\n"));
}

#[test]
fn extra_headers_keep_their_order_and_empty_host_is_dropped() {
    let spec = CraftSpec {
        host: String::new(),
        headers: vec![
            ("X-B".to_string(), "2".to_string()),
            ("x-a".to_string(), "1".to_string()),
        ],
        ..Default::default()
    };
    let text = String::from_utf8(build(&spec)).unwrap();
    assert_eq!(text, "GET / HTTP/1.1\r\nX-B: 2\r\nx-a: 1\r\n\r\n");
}

#[test]
fn lowercase_host_header_also_counts() {
    let spec = CraftSpec {
        headers: vec![("hOsT".to_string(), "h2".to_string())],
        ..Default::default()
    };
    let text = String::from_utf8(build(&spec)).unwrap();
    assert_eq!(text, "GET / HTTP/1.1\r\nhOsT: h2\r\n\r\n");
}

#[test]
fn raw_body_bytes_are_copied_verbatim() {
    let spec = CraftSpec {
        method: "PUT".to_string(),
        body: vec![0xff, 0x00, 0x80],
        ..Default::default()
    };
    let out = build(&spec);
    assert!(out.ends_with(&[b'\r', b'\n', b'\r', b'\n', 0xff, 0x00, 0x80]));
    assert!(out.starts_with(b"PUT / HTTP/1.1\r\n"));
}

#[test]
fn gadget_aliases_and_case() {
    assert_eq!(Gadget::parse("CLTE"), Some(Gadget::ClTe));
    assert_eq!(Gadget::parse("tete"), Some(Gadget::TeTe));
    assert_eq!(Gadget::parse("Space-Colon"), Some(Gadget::SpaceColon));
    assert_eq!(Gadget::parse("spacecolon"), Some(Gadget::SpaceColon));
    assert_eq!(Gadget::parse("BARELF"), Some(Gadget::BareLf));
    assert_eq!(Gadget::parse(""), None);
    assert_eq!(Gadget::parse("cl.te "), None);
}

#[test]
fn gadget_list_names_parse_back() {
    let all = Gadget::all();
    assert_eq!(all.len(), 5);
    for (name, desc) in &all {
        assert!(Gadget::parse(name).is_some(), "{name}");
        assert!(!desc.is_empty());
    }
    assert_eq!(all[0].0, "cl.te");
    assert_eq!(all[4].0, "bare-lf");
}

#[test]
fn gadget_uses_host_and_target() {
    let out = gadget(Gadget::TeTe, "h.test", "/admin");
    let text = String::from_utf8(out).unwrap();
    assert_eq!(
        text,
        "POST /admin HTTP/1.1\r\nHost: h.test\r\nTransfer-Encoding: xchunked\r\nTransfer-Encoding: chunked\r\n\r\n1\r\nZ\r\n0\r\n\r\n"
    );
}
