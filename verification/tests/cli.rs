use plainwire::analyze;
use plainwire::cli::{
    codes_text, codes_wants_help, craft_output, inspect_output, lint_exit_code, lint_output,
    parse_craft_args, parse_fail_on, parse_read_args, ReadCommand,
};
use plainwire::craft::{ClMode, Gadget};
use plainwire::findings::Severity;
use plainwire::message::ParseMode;

fn args(v: &[&str]) -> Vec<String> {
    v.iter().map(|s| s.to_string()).collect()
}

#[test]
fn fail_on_levels_parse_in_any_case() {
    assert_eq!(parse_fail_on("ERROR").ok(), Some(Some(Severity::Error)));
    assert_eq!(parse_fail_on("warn").ok(), Some(Some(Severity::Warn)));
    assert_eq!(parse_fail_on("Info").ok(), Some(Some(Severity::Info)));
    assert_eq!(parse_fail_on("never").ok(), Some(None));
    let e = parse_fail_on("LOUD").err().unwrap();
    assert_eq!(e.code, 2);
    assert_eq!(e.message, "--fail-on expects error|warn|info|never, got 'loud'");
}

#[test]
fn lint_exit_code_follows_threshold() {
    let a = analyze(
        b"POST / HTTP/1.1\r\nHost: h\r\nContent-Length: 6\r\nTransfer-Encoding: chunked\r\n\r\n0\r\n\r\nG",
        ParseMode::Request,
    );
    assert_eq!(lint_exit_code(&a.findings, Some(Severity::Error)), 1);
    assert_eq!(lint_exit_code(&a.findings, None), 0);
    let clean = analyze(b"GET / HTTP/1.1\r\nHost: h\r\n\r\n", ParseMode::Auto);
    assert_eq!(lint_exit_code(&clean.findings, Some(Severity::Info)), 0);
    let warn_only = analyze(b"GET / HTTP/1.1\nHost: h\r\n\r\n", ParseMode::Auto);
    let worst = warn_only.findings.iter().map(|f| f.severity.rank()).max().unwrap();
    assert!(worst < 3);
    assert_eq!(lint_exit_code(&warn_only.findings, Some(Severity::Error)), 0);
    assert_eq!(lint_exit_code(&warn_only.findings, Some(Severity::Info)), 1);
}

#[test]
fn read_args_collect_flags_and_path() {
    let o = parse_read_args(
        ReadCommand::Inspect,
        &args(&["--response", "x.http", "--json", "--hex", "--no-color"]),
    )
    .ok()
    .unwrap()
    .unwrap();
    assert_eq!(o.path.as_deref(), Some("x.http"));
    assert_eq!(o.mode, ParseMode::Response);
    assert!(o.json && o.hex);
    assert_eq!(o.color, Some(false));
}

#[test]
fn read_args_help_and_errors() {
    assert!(parse_read_args(ReadCommand::Hexdump, &args(&["-h"])).ok().unwrap().is_none());
    let e = parse_read_args(ReadCommand::Hexdump, &args(&["--json"])).err().unwrap();
    assert_eq!(e.code, 2);
    assert_eq!(e.message, "unknown option '--json' for hexdump");
    let e = parse_read_args(ReadCommand::Inspect, &args(&["a", "b"])).err().unwrap();
    assert_eq!(e.message, "unknown option 'b' for inspect");
    let e = parse_read_args(ReadCommand::Lint, &args(&["--fail-on"])).err().unwrap();
    assert_eq!(e.message, "--fail-on requires a value");
    let o = parse_read_args(ReadCommand::Lint, &args(&["-", "--fail-on", "WARN"]))
        .ok()
        .unwrap()
        .unwrap();
    assert_eq!(o.path.as_deref(), Some("-"));
    assert_eq!(o.fail_on, Some(Severity::Warn));
    let d = parse_read_args(ReadCommand::Lint, &[]).ok().unwrap().unwrap();
    assert_eq!(d.fail_on, Some(Severity::Error));
    assert_eq!(d.mode, ParseMode::Auto);
    assert!(d.path.is_none());
}

#[test]
fn craft_args_build_the_request() {
    let c = parse_craft_args(&args(&[
        "--body", "hi", "--host", "h.test", "-H", " X-A :  1 ", "--target", "/t",
    ]))
    .ok()
    .unwrap()
    .unwrap();
    assert_eq!(c.spec.method, "POST");
    assert_eq!(c.spec.body, b"hi".to_vec());
    assert_eq!(c.spec.headers, vec![("X-A".to_string(), "1".to_string())]);
    assert_eq!(c.spec.content_length, ClMode::Auto);
    assert!(c.gadget.is_none());
    let out = String::from_utf8(craft_output(&c)).unwrap();
    assert_eq!(out, "POST /t HTTP/1.1\r\nHost: h.test\r\nX-A: 1\r\nContent-Length: 2\r\n\r\nhi");
}

#[test]
fn craft_method_flag_wins_over_body() {
    let c = parse_craft_args(&args(&["-X", "PUT", "--body", "z", "--no-content-length"]))
        .ok()
        .unwrap()
        .unwrap();
    assert_eq!(c.spec.method, "PUT");
    assert_eq!(c.spec.content_length, ClMode::Omit);
}

#[test]
fn craft_args_errors() {
    let e = parse_craft_args(&args(&["-X"])).err().unwrap();
    assert_eq!(e.message, "--method requires a value");
    let e = parse_craft_args(&args(&["-H", "nocolon"])).err().unwrap();
    assert_eq!(e.message, "--header expects 'Key: Value', got 'nocolon'");
    let e = parse_craft_args(&args(&["--smuggle", "zz"])).err().unwrap();
    assert_eq!(e.message, "unknown gadget 'zz'");
    let e = parse_craft_args(&args(&["--bogus"])).err().unwrap();
    assert_eq!(e.message, "unknown option '--bogus' for craft");
    assert_eq!(e.code, 2);
    assert!(parse_craft_args(&args(&["--help"])).ok().unwrap().is_none());
}

#[test]
fn craft_smuggle_uses_host_and_target() {
    let c = parse_craft_args(&args(&["--smuggle", "CL.TE", "--host", "a.b", "--target", "/x"]))
        .ok()
        .unwrap()
        .unwrap();
    assert_eq!(c.gadget, Some(Gadget::ClTe));
    let out = String::from_utf8(craft_output(&c)).unwrap();
    assert!(out.starts_with("POST /x HTTP/1.1\r\nHost: a.b\r\nContent-Length: 6\r\n"));
    assert!(out.ends_with("\r\n\r\n0\r\n\r\nG"));
}

#[test]
fn codes_lists_every_code_and_gadget() {
    let t = codes_text();
    assert!(t.starts_with("plainwire finding codes\n\nPW001  error  both-cl-te\n       "));
    for n in 1..=20 {
        assert!(t.contains(&format!("PW{n:03}  ")), "PW{n:03}");
    }
    assert!(t.contains("smuggling gadgets (plainwire craft --smuggle <name>):\n"));
    assert!(t.contains("    cl.te         Content-Length front-end, Transfer-Encoding back-end\n"));
    assert!(t.ends_with("    bare-lf       bare LF line ending on Transfer-Encoding\n"));
    assert!(codes_wants_help(&args(&["x", "--help"])));
    assert!(!codes_wants_help(&args(&["x"])));
}

#[test]
fn inspect_output_modes() {
    let raw = b"GET / HTTP/1.1\r\nHost: h\r\n\r\n";
    let a = analyze(raw, ParseMode::Auto);
    let j = inspect_output(&a, raw, true, true, true);
    assert!(j.starts_with("{\n  \"message\""));
    assert!(!j.contains("offset"));
    let plain = inspect_output(&a, raw, false, false, false);
    assert!(plain.contains("no framing ambiguities detected"));
    let with_hex = inspect_output(&a, raw, false, true, false);
    assert!(with_hex.starts_with(&plain));
    assert!(with_hex[plain.len()..].starts_with("\noffset"));
    assert!(!plain.contains('\x1b'));
    let lint = lint_output(&a.findings, true, false);
    assert_eq!(lint, "[]\n");
}

// The pipeline of each subcommand, run through the library: arguments, then
// the analysis, then the text and exit code the program would write.

fn inspect_pipeline(argv: &[&str], input: &[u8]) -> String {
    let o = parse_read_args(ReadCommand::Inspect, &args(argv)).ok().unwrap().unwrap();
    let a = analyze(input, o.mode);
    inspect_output(&a, input, o.json, o.hex, o.color.unwrap_or(false))
}

fn lint_pipeline(argv: &[&str], input: &[u8]) -> (String, i32) {
    let o = parse_read_args(ReadCommand::Lint, &args(argv)).ok().unwrap().unwrap();
    let a = analyze(input, o.mode);
    (lint_output(&a.findings, o.json, false), lint_exit_code(&a.findings, o.fail_on))
}

fn craft_pipeline(argv: &[&str]) -> Vec<u8> {
    let c = parse_craft_args(&args(argv)).ok().unwrap().unwrap();
    craft_output(&c)
}

#[test]
fn inspect_annotates_a_request_from_stdin() {
    let text = inspect_pipeline(
        &["-"],
        b"POST /login HTTP/1.1\r\nHost: example.test\r\nContent-Length: 5\r\n\r\nhello",
    );
    assert!(text.contains("plainwire — request"));
    assert!(text.contains("method   POST"));
    assert!(text.contains("framing   content-length"));
    assert!(text.contains("findings: 0 error"));
}

#[test]
fn inspect_json_is_structured() {
    let text = inspect_pipeline(
        &["--json"],
        b"POST / HTTP/1.1\r\nHost: h\r\nContent-Length: 6\r\nTransfer-Encoding: chunked\r\n\r\n0\r\n\r\nG",
    );
    assert!(text.contains("\"message\""));
    assert!(text.contains("\"findings\""));
    assert!(text.contains("\"code\": \"PW001\""));
    assert_eq!(text.matches('{').count(), text.matches('}').count());
}

#[test]
fn lint_exit_codes_and_fail_on_threshold() {
    let (_, clean) = lint_pipeline(&[], b"GET / HTTP/1.1\r\nHost: h\r\n\r\n");
    assert_eq!(clean, 0);
    let desync: &[u8] = b"POST / HTTP/1.1\r\nHost: h\r\nContent-Length: 6\r\nTransfer-Encoding: chunked\r\n\r\n0\r\n\r\nG";
    let (text, code) = lint_pipeline(&[], desync);
    assert_eq!(code, 1);
    assert!(text.contains("PW001"));
    let (text, code) = lint_pipeline(&["--fail-on", "never"], desync);
    assert_eq!(code, 0);
    assert!(text.contains("PW001"));
}

#[test]
fn craft_round_trips_clean_through_inspect() {
    let crafted = craft_pipeline(&["-X", "POST", "--host", "example.test", "--body", "payload"]);
    assert!(crafted.windows(2).any(|w| w == b"\r\n"));
    let text = inspect_pipeline(&["-"], &crafted);
    assert!(text.contains("findings: 0 error"));
}

#[test]
fn craft_smuggle_gadget_is_detected() {
    let gadget = craft_pipeline(&["--smuggle", "cl.te"]);
    let (text, code) = lint_pipeline(&["--request"], &gadget);
    assert_eq!(code, 1);
    assert!(text.contains("PW001"));
    assert!(text.contains("PW017"));
}

#[test]
fn hexdump_labels_regions() {
    let input: &[u8] = b"GET / HTTP/1.1\r\nHost: h\r\n\r\n";
    let o = parse_read_args(ReadCommand::Hexdump, &[]).ok().unwrap().unwrap();
    let a = analyze(input, o.mode);
    let text = plainwire::hexdump::render(&a.message, input);
    assert!(text.contains("region"));
    assert!(text.contains("start-line"));
    assert!(text.contains("00000000"));
}

#[test]
fn codes_lists_the_catalog() {
    let text = codes_text();
    assert!(text.contains("PW001"));
    assert!(text.contains("both-cl-te"));
    assert!(text.contains("--smuggle"));
}
