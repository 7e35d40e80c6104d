use plainwire::analyze;
use plainwire::cli::{lint_exit_code, parse_fail_on};
use plainwire::craft::{build, gadget, ClMode, CraftSpec, Gadget};
use plainwire::findings::{catalog, Counts};
use plainwire::message::{Framing, ParseMode};

fn codes(raw: &[u8], mode: ParseMode) -> Vec<&'static str> {
    analyze(raw, mode).findings.iter().map(|f| f.code).collect()
}

fn trim_ows(b: &[u8]) -> &[u8] {
    let mut s = 0;
    let mut e = b.len();
    while s < e && (b[s] == b' ' || b[s] == b'\t') {
        s += 1;
    }
    while e > s && (b[e - 1] == b' ' || b[e - 1] == b'\t') {
        e -= 1;
    }
    &b[s..e]
}

#[test]
fn catalog_codes_are_pairwise_distinct() {
    let cat = catalog();
    for (i, a) in cat.iter().enumerate() {
        for b in cat.iter().skip(i + 1) {
            assert_ne!(a.code, b.code);
        }
    }
}

#[test]
fn header_spans_cover_their_names() {
    let raw: &[u8] = b"GET / HTTP/1.1\r\nHost :  h\r\n\tfolded\r\nX-Y:1\r\n\r\n";
    let a = analyze(raw, ParseMode::Auto);
    assert!(a.message.start_line.span.end <= raw.len());
    for h in &a.message.headers {
        assert!(h.line_span.end <= raw.len());
        assert!(h.value_span.start <= h.value_span.end && h.value_span.end <= raw.len());
        let name = trim_ows(&raw[h.name_span.start..h.name_span.end]);
        assert_eq!(name, h.name.as_bytes());
    }
}

#[test]
fn bytes_after_any_body_are_reported() {
    let cl = b"POST / HTTP/1.1\r\nHost: h\r\nContent-Length: 3\r\n\r\nabcde";
    let te = b"POST / HTTP/1.1\r\nHost: h\r\nTransfer-Encoding: chunked\r\n\r\n0\r\n\r\nX";
    let none = b"GET / HTTP/1.1\r\nHost: h\r\n\r\nGET";
    for raw in [&cl[..], &te[..], &none[..]] {
        let a = analyze(raw, ParseMode::Request);
        assert!(a.message.body.span.end < raw.len());
        assert!(a.findings.iter().any(|f| f.code == "PW017"));
    }
}

#[test]
fn short_and_unterminated_bodies_are_reported() {
    let short = analyze(b"POST / HTTP/1.1\r\nHost: h\r\nContent-Length: 9\r\n\r\nabc", ParseMode::Request);
    assert_eq!(short.message.body.framing, Framing::ContentLength);
    assert!(!short.message.body.complete);
    assert!(short.findings.iter().any(|f| f.code == "PW018"));
    let open = analyze(b"POST / HTTP/1.1\r\nHost: h\r\nTransfer-Encoding: chunked\r\n\r\n3\r\nabc\r\n", ParseMode::Request);
    assert_eq!(open.message.body.framing, Framing::Chunked);
    assert!(!open.message.body.complete);
    assert!(open.findings.iter().any(|f| f.code == "PW020"));
}

#[test]
fn bad_values_in_later_list_positions_are_reported() {
    let c = codes(b"POST / HTTP/1.1\r\nHost: h\r\nContent-Length: 5, x5\r\n\r\nhello", ParseMode::Request);
    assert!(c.contains(&"PW010"), "{c:?}");
    let c = codes(b"POST / HTTP/1.1\r\nHost: h\r\nTransfer-Encoding: gzip, CHUNKED2\r\n\r\n", ParseMode::Request);
    assert!(c.contains(&"PW006"), "{c:?}");
}

#[test]
fn header_line_findings_survive_later_lines() {
    let c = codes(b"GET / HTTP/1.1\r\nHost: h\r\nX-A : 1\r\n folded\r\nX-B: 2\n\r\n", ParseMode::Request);
    assert!(c.contains(&"PW007"), "{c:?}");
    assert!(c.contains(&"PW019"), "{c:?}");
    assert!(c.contains(&"PW008"), "{c:?}");
    let c = codes(b"GET /\r HTTP/1.1\nHost: h\r\n\r\n", ParseMode::Request);
    assert!(c.contains(&"PW008"), "{c:?}");
    assert!(c.contains(&"PW009"), "{c:?}");
}

#[test]
fn chunk_size_problems_are_reported() {
    let c = codes(b"POST / HTTP/1.1\r\nHost: h\r\nTransfer-Encoding: chunked\r\n\r\n3;x=1\r\nabc\r\n0\r\n\r\n", ParseMode::Request);
    assert!(c.contains(&"PW012"), "{c:?}");
    let c = codes(b"POST / HTTP/1.1\r\nHost: h\r\nTransfer-Encoding: chunked\r\n\r\nzz\r\nabc\r\n0\r\n\r\n", ParseMode::Request);
    assert!(c.contains(&"PW011"), "{c:?}");
}

#[test]
fn counts_add_up_to_the_number_of_findings() {
    let a = analyze(b"GET /\r HTTP/1.1\nX : 1\r\n\r\nzz", ParseMode::Request);
    let c = Counts::of(&a.findings);
    assert_eq!(c.total(), a.findings.len());
}

#[test]
fn gadget_tail_does_not_depend_on_host_or_target() {
    for g in [Gadget::ClTe, Gadget::TeCl, Gadget::TeTe, Gadget::SpaceColon, Gadget::BareLf] {
        let a = gadget(g, "a.test", "/");
        let b = gadget(g, "another.example", "/deeper/path?q=1");
        let tail_a = &a[a.len() - 20..];
        let tail_b = &b[b.len() - 20..];
        assert_eq!(tail_a, tail_b);
    }
}

#[test]
fn chunked_craft_ends_with_the_terminator() {
    let spec = CraftSpec { chunked: true, body: b"xyz".to_vec(), ..Default::default() };
    let out = build(&spec);
    assert!(out.ends_with(b"\r\n3\r\nxyz\r\n0\r\n\r\n"));
}

#[test]
fn misaligned_and_truncated_chunks_are_reported() {
    let c = codes(b"POST / HTTP/1.1\r\nHost: h\r\nTransfer-Encoding: chunked\r\n\r\n2\r\nabc\r\n0\r\n\r\n", ParseMode::Request);
    assert!(c.contains(&"PW011"), "{c:?}");
    let c = codes(b"POST / HTTP/1.1\r\nHost: h\r\nTransfer-Encoding: chunked\r\n\r\n10\r\nabc", ParseMode::Request);
    assert!(c.contains(&"PW018"), "{c:?}");
}

#[test]
fn well_formed_crafts_inspect_clean_whatever_their_framing() {
    let body: Vec<u8> = b"0\r\n\r\nGET /x HTTP/1.1\r\n\r\n payload".to_vec();
    let shapes = [
        (false, ClMode::Auto, body.clone()),
        (false, ClMode::Explicit(body.len()), body.clone()),
        (false, ClMode::Omit, Vec::new()),
        (false, ClMode::Auto, Vec::new()),
        (true, ClMode::Auto, body.clone()),
        (true, ClMode::Explicit(3), body.clone()),
        (true, ClMode::Omit, Vec::new()),
        (true, ClMode::Auto, vec![b'z'; 300]),
    ];
    for (chunked, content_length, body) in shapes {
        let spec = CraftSpec {
            method: "PUT".to_string(),
            target: "/upload?id=7".to_string(),
            host: "api.example.test:8080".to_string(),
            headers: vec![
                ("X-Trace".to_string(), "a b\tc".to_string()),
                ("Accept".to_string(), "*/*".to_string()),
            ],
            body,
            chunked,
            content_length,
            ..Default::default()
        };
        let out = build(&spec);
        let a = analyze(&out, ParseMode::Request);
        assert!(a.findings.is_empty(), "chunked={chunked}: {:?}", codes(&out, ParseMode::Request));
        let expected = if chunked {
            Framing::Chunked
        } else if spec.body.is_empty() {
            Framing::Empty
        } else {
            Framing::ContentLength
        };
        assert_eq!(a.message.body.framing, expected);
    }
}

#[test]
fn crafts_with_their_own_host_header_inspect_clean() {
    for chunked in [false, true] {
        let spec = CraftSpec {
            host: String::new(),
            headers: vec![
                ("Accept".to_string(), "text/plain".to_string()),
                ("hOsT".to_string(), "override.test".to_string()),
            ],
            body: b"abc".to_vec(),
            chunked,
            ..Default::default()
        };
        let out = build(&spec);
        let a = analyze(&out, ParseMode::Request);
        assert!(a.findings.is_empty(), "{:?}", codes(&out, ParseMode::Request));
        assert_eq!(a.message.body.decoded_len, 3);
    }
}

#[test]
fn conflicting_content_lengths_leave_the_body_ambiguous() {
    let raw: &[u8] =
        b"POST / HTTP/1.1\r\nHost: h\r\nContent-Length: 5\r\nContent-Length: 6\r\n\r\nhello";
    let a = analyze(raw, ParseMode::Request);
    let c = codes(raw, ParseMode::Request);
    assert!(c.contains(&"PW002") && c.contains(&"PW003"));
    assert!(!c.contains(&"PW017"));
    assert_eq!(a.message.body.framing, Framing::Ambiguous);
    assert!(!a.message.body.complete);
    assert_eq!(a.message.body.declared_len, None);
    let resp: &[u8] = b"HTTP/1.1 200 OK\r\nContent-Length: 1, 2\r\n\r\nxy";
    let r = analyze(resp, ParseMode::Response);
    assert_eq!(r.message.body.framing, Framing::Ambiguous);
}

#[test]
fn cl_te_and_te_cl_gadget_bodies_match_their_content_length() {
    let out = gadget(Gadget::ClTe, "h.test", "/a");
    let text = String::from_utf8(out.clone()).unwrap();
    let k = text.find("\r\n\r\n").unwrap() + 4;
    assert_eq!(&out[k..], b"0\r\n\r\nG");
    assert!(text.contains(&format!("Content-Length: {}\r\n", out.len() - k)));
    let out = gadget(Gadget::TeCl, "h.test", "/a");
    let text = String::from_utf8(out.clone()).unwrap();
    let k = text.find("\r\n\r\n").unwrap() + 4;
    assert_eq!(&out[k..k + 3], b"8\r\n");
    assert!(text.contains("Content-Length: 3\r\n"));
}

#[test]
fn content_length_body_takes_min_of_present_and_declared() {
    for (body, n) in [(&b"hello"[..], 5usize), (&b"hel"[..], 5), (&b"hello!!"[..], 5)] {
        let mut raw = b"POST / HTTP/1.1\r\nHost: h\r\nContent-Length: 5, 5\r\n\r\n".to_vec();
        raw.extend_from_slice(body);
        let a = analyze(&raw, ParseMode::Request);
        let c = codes(&raw, ParseMode::Request);
        let p = body.len();
        let got = p.min(n);
        let b = &a.message.body;
        assert_eq!(b.framing, Framing::ContentLength);
        assert_eq!(b.declared_len, Some(n));
        assert_eq!(b.decoded_len, got);
        assert_eq!(b.span.end - b.span.start, got);
        assert_eq!(b.complete, p >= n);
        assert_eq!(c.contains(&"PW018"), p < n);
        assert_eq!(c.contains(&"PW017"), p > n);
    }
}

#[test]
fn chunk_spans_are_ordered_and_pw020_only_when_incomplete() {
    for raw in [&b"3\r\nabc\r\n2;x=1\r\nde\r\n0\r\n\r\n"[..], &b"3\r\nabc\r\n5\r\nde"[..]] {
        let mut f = Vec::new();
        let s = plainwire::chunked::scan_chunks(raw, 0, &mut f);
        assert!(s.end <= raw.len());
        let total: usize = s.chunks.iter().map(|c| c.data_span.end - c.data_span.start).sum();
        assert_eq!(s.decoded_len, total);
        for (i, c) in s.chunks.iter().enumerate() {
            assert!(c.size_span.end <= c.data_span.start && c.data_span.end <= raw.len());
            if let Some(d) = s.chunks.get(i + 1) {
                assert!(c.data_span.end <= d.size_span.start);
            }
        }
        let pw020 = f.iter().filter(|x| x.code == "PW020").count();
        assert_eq!(pw020, if s.complete { 0 } else { 1 });
    }
}

#[test]
fn framing_resolution_counts_tokens() {
    let raw: &[u8] = b"POST / HTTP/1.1\r\nHost: h\r\nContent-Length: 1, x\r\nContent-Length: y, 2\r\nTransfer-Encoding: gzip, Chunked-x\r\nTransfer-Encoding: xchunked\r\n\r\n";
    let c = codes(raw, ParseMode::Request);
    let count = |k: &str| c.iter().filter(|x| **x == k).count();
    assert_eq!(count("PW002"), 1);
    assert_eq!(count("PW010"), 2);
    assert_eq!(count("PW003"), 1);
    assert_eq!(count("PW004"), 1);
    assert_eq!(count("PW006"), 2);
    assert_eq!(count("PW005"), 1);
}

#[test]
fn findings_json_keys_come_in_order() {
    let raw: &[u8] = b"GET / HTTP/1.1\r\nHost: h\r\nContent-Length: 1\r\nTransfer-Encoding: chunked\r\n\r\n0\r\n\r\n";
    let a = analyze(raw, ParseMode::Request);
    let j = plainwire::json::findings_to_json(&a.findings);
    let keys = ["\"code\"", "\"slug\"", "\"severity\"", "\"title\"", "\"detail\"", "\"span\""];
    let mut at = 0;
    for k in keys {
        let p = j[at..].find(k).unwrap();
        at += p + k.len();
    }
    assert_eq!(plainwire::json::findings_to_json(&[]), "[]\n");
}

#[test]
fn lint_gate_follows_the_threshold_name() {
    let raw: &[u8] = b"GET / HTTP/1.1\r\nHost: h\r\nX :1\r\n\r\n";
    let a = analyze(raw, ParseMode::Request);
    assert!(!a.findings.is_empty());
    assert_eq!(lint_exit_code(&a.findings, parse_fail_on("NEVER").ok().unwrap()), 0);
    assert_eq!(lint_exit_code(&a.findings, parse_fail_on("Info").ok().unwrap()), 1);
    assert_eq!(lint_exit_code(&[], parse_fail_on("info").ok().unwrap()), 0);
}

#[test]
fn json_string_escapes_read_back() {
    let s = "a\"b\\c\nd\u{1}\u{1b}\u{1f}é";
    let mut out = String::new();
    plainwire::json::escape(s, &mut out);
    assert!(out.contains("\\u001b") && out.contains("\\u0001") && out.contains("\\u001f"));
    assert!(!out.chars().any(|c| (c as u32) < 0x20));
}

#[test]
fn plain_render_of_esc_free_bytes_has_no_esc() {
    let raw: &[u8] =
        b"POST /\xff\xfe HTTP/1.1\r\nHost: h\xc3\r\nX-\x80: v\xff\r\nContent-Length: 1\r\nTransfer-Encoding: \xffchunked\r\n\r\n0\r\n\r\n";
    let a = analyze(raw, ParseMode::Request);
    let out = plainwire::annotate::render(&a, &plainwire::annotate::Palette::new(false));
    assert!(!out.contains('\u{1b}'));
    assert!(out.contains("PW001"));
}

#[test]
fn pw001_appears_once_exactly_when_both_framing_headers_do() {
    let both: &[u8] = b"POST / HTTP/1.1\r\nHost: h\r\nContent-Length: 1\r\nContent-Length: 1\r\nTransfer-Encoding: chunked\r\nTransfer-Encoding: chunked\r\n\r\n0\r\n\r\n";
    let c = codes(both, ParseMode::Request);
    assert_eq!(c.iter().filter(|x| **x == "PW001").count(), 1);
    let one: &[u8] = b"POST / HTTP/1.1\r\nHost: h\r\nTransfer-Encoding: chunked\r\n\r\n0\r\n\r\n";
    assert!(!codes(one, ParseMode::Request).contains(&"PW001"));
}

#[test]
fn parse_reports_only_line_codes_and_each_ending_once() {
    let raw: &[u8] = b"GET  / HTTP/1.1\nHost : h\nbad line\n\tfold\r\nX: a\rb\r\nY: c\rd\n\r\n";
    let (m, f) = plainwire::parser::parse(raw, ParseMode::Auto);
    assert_eq!(m.raw_len, raw.len());
    assert!(m.body_start <= raw.len());
    let allowed = ["PW007", "PW008", "PW009", "PW013", "PW014", "PW019"];
    assert!(f.iter().all(|x| allowed.contains(&x.code)));
    assert_eq!(f.iter().filter(|x| x.code == "PW008").count(), 1);
    assert_eq!(f.iter().filter(|x| x.code == "PW009").count(), 1);
}

#[test]
fn lint_and_inspect_run_as_wholes() {
    let raw: &[u8] = b"POST / HTTP/1.1\r\nHost: h\r\nContent-Length: 1\r\nTransfer-Encoding: chunked\r\n\r\n0\r\n\r\n";
    let args = vec!["--json".to_string(), "--fail-on".to_string(), "WARN".to_string()];
    let opts = plainwire::cli::parse_read_args(plainwire::cli::ReadCommand::Lint, &args)
        .ok()
        .unwrap()
        .unwrap();
    let (a, text, code) = plainwire::cli::lint_run(&opts, raw, false);
    assert_eq!(code, 1);
    assert_eq!(text, plainwire::json::findings_to_json(&a.findings));
    let args = vec!["--json".to_string()];
    let opts = plainwire::cli::parse_read_args(plainwire::cli::ReadCommand::Inspect, &args)
        .ok()
        .unwrap()
        .unwrap();
    let (a, text) = plainwire::cli::inspect_run(&opts, raw, true);
    assert_eq!(text, plainwire::json::to_json(&a));
    assert!(text.contains("\"code\": \"PW001\""));
    assert_eq!(text.matches('{').count(), text.matches('}').count());
}
