//! Human-readable rendering of an [`Analysis`]: the annotated breakdown printed
//! by `plainwire inspect` and the findings-only view printed by `plainwire
//! lint`. Output is plain text by default; ANSI colour is opt-in so piped
//! output stays byte-stable and greppable.
use vstd::prelude::*;
use crate::findings::{count_sev, severity_label, severity_rank, Counts, Finding, Severity};
use crate::message::{
    escape_bytes, escaped, framing_label, header_views, kind_label, Analysis, BodyView, Framing,
    Header, HeaderView, MessageKind, MessageView,
};
use crate::span::Span;
use crate::text::{chars_of, dec, no_esc, pad_right, push_char, push_chars, push_dec, push_padded_right, push_str};

verus! {

/// ANSI styling, toggled off for pipes and `--no-color`.
#[derive(Clone, Copy)]
pub struct Palette {
    enabled: bool,
}

/// `text` wrapped in the ANSI escape `ESC [ code m ... ESC [ 0 m` when enabled.
pub open spec fn paint(enabled: bool, code: Seq<char>, text: Seq<char>) -> Seq<char> {
    if enabled {
        seq!['\u{1b}', '['] + code + seq!['m'] + text + seq!['\u{1b}', '[', '0', 'm']
    } else {
        text
    }
}

/// The colour code of a severity.
pub open spec fn severity_code(s: Severity) -> Seq<char> {
    match s {
        Severity::Error => seq!['1', ';', '3', '1'],
        Severity::Warn => seq!['3', '3'],
        Severity::Info => seq!['3', '6'],
    }
}

impl Palette {
    /// Whether ANSI colour is on.
    pub closed spec fn is_enabled(self) -> bool {
        self.enabled
    }

    pub fn new(enabled: bool) -> (p: Palette)
        ensures
            p.is_enabled() == enabled,
    {
        Palette { enabled }
    }

    fn paint(&self, code: &[char], text: &[char], out: &mut String)
        ensures
            final(out)@ == old(out)@ + paint(self.enabled, code@, text@),
    {
        let ghost start = out@;
        if self.enabled {
            push_char(out, '\u{1b}');
            push_char(out, '[');
            push_chars(out, code);
            push_char(out, 'm');
            push_chars(out, text);
            push_char(out, '\u{1b}');
            push_char(out, '[');
            push_char(out, '0');
            push_char(out, 'm');
        } else {
            push_chars(out, text);
        }
        assert(out@ =~= start + paint(self.enabled, code@, text@));
    }

    fn dim(&self, text: &[char], out: &mut String)
        ensures
            final(out)@ == old(out)@ + paint(self.enabled, seq!['2'], text@),
    {
        let mut code = Vec::new();
        code.push('2');
        assert(code@ =~= seq!['2']);
        self.paint(code.as_slice(), text, out);
    }

    fn bold(&self, text: &[char], out: &mut String)
        ensures
            final(out)@ == old(out)@ + paint(self.enabled, seq!['1'], text@),
    {
        let mut code = Vec::new();
        code.push('1');
        assert(code@ =~= seq!['1']);
        self.paint(code.as_slice(), text, out);
    }

    fn severity(&self, sev: Severity, text: &[char]) -> (v: Vec<char>)
        ensures
            v@ == paint(self.enabled, severity_code(sev), text@),
    {
        let mut code = Vec::new();
        match sev {
            Severity::Error => {
                code.push('1');
                code.push(';');
                code.push('3');
                code.push('1');
            },
            Severity::Warn => {
                code.push('3');
                code.push('3');
            },
            Severity::Info => {
                code.push('3');
                code.push('6');
            },
        }
        assert(code@ =~= severity_code(sev));
        let mut s = String::new();
        self.paint(code.as_slice(), text, &mut s);
        assert(s@ =~= paint(self.enabled, severity_code(sev), text@));
        chars_of(s.as_str())
    }
}

/// `s` cut to at most `max` chars, the last one becoming `…` when it is cut.
pub open spec fn truncated(s: Seq<char>, max: nat) -> Seq<char> {
    if s.len() <= max {
        s
    } else {
        s.take(if max >= 1 { max - 1 } else { 0 }) + seq!['\u{2026}']
    }
}

fn truncate(s: &[char], max: usize) -> (v: Vec<char>)
    ensures
        v@ == truncated(s@, max as nat),
{
    if s.len() <= max {
        crate::text::copy_range(s, 0, s.len())
    } else {
        let keep = if max >= 1 { max - 1 } else { 0 };
        let mut v = crate::text::copy_range(s, 0, keep);
        v.push('\u{2026}');
        v
    }
}

/// `"[" + span + "]"`, as the breakdown shows a region.
pub open spec fn bracketed(s: Span) -> Seq<char> {
    seq!['['] + s.text_spec() + seq![']']
}

fn bracketed_chars(s: Span) -> (v: Vec<char>)
    ensures
        v@ == bracketed(s),
{
    let mut t = String::new();
    push_char(&mut t, '[');
    let st = s.text();
    push_str(&mut t, st.as_str());
    push_char(&mut t, ']');
    assert(t@ =~= bracketed(s));
    chars_of(t.as_str())
}

/// The summary line of a findings block (without its newline).
pub open spec fn summary_text(error: nat, warn: nat, info: nat) -> Seq<char> {
    "findings: "@ + dec(error) + " error(s), "@ + dec(warn) + " warn(s), "@ + dec(info) + " info"@
}

/// How one finding is listed.
pub open spec fn entry_text(f: Finding, enabled: bool) -> Seq<char> {
    "  "@ + pad_right(paint(enabled, severity_code(f.severity), severity_label(f.severity)@), 5)
        + "  "@ + paint(enabled, seq!['1'], f.code@) + "  "@ + f.slug@ + "\n"@ + "         "@
        + f.detail@ + "\n"@ + match f.span {
        Some(s) => paint(enabled, seq!['2'], "         at bytes "@ + s.text_spec() + "\n"@),
        None => Seq::empty(),
    }
}

/// The entries of the findings in `fs` with severity `s`, in order.
pub open spec fn entries_of(fs: Seq<Finding>, s: Severity, enabled: bool) -> Seq<char>
    decreases fs.len(),
{
    if fs.len() == 0 {
        Seq::empty()
    } else {
        entries_of(fs.drop_last(), s, enabled) + if fs.last().severity == s {
            entry_text(fs.last(), enabled)
        } else {
            Seq::empty()
        }
    }
}

/// The findings block: a summary line, then the findings most severe first,
/// in discovery order within a severity.
pub open spec fn findings_text(fs: Seq<Finding>, enabled: bool) -> Seq<char> {
    summary_text(
        count_sev(fs, Severity::Error),
        count_sev(fs, Severity::Warn),
        count_sev(fs, Severity::Info),
    ) + "\n"@ + if fs.len() == 0 {
        "  (no framing ambiguities detected)\n"@
    } else {
        entries_of(fs, Severity::Error, enabled) + entries_of(fs, Severity::Warn, enabled)
            + entries_of(fs, Severity::Info, enabled)
    }
}

fn push_entry(out: &mut String, f: &Finding, pal: &Palette)
    ensures
        final(out)@ == old(out)@ + entry_text(*f, pal.is_enabled()),
{
    let ghost start = out@;
    push_str(out, "  ");
    let label = chars_of(f.severity.label());
    let sev = pal.severity(f.severity, label.as_slice());
    push_padded_right(out, sev.as_slice(), 5);
    push_str(out, "  ");
    let code = chars_of(f.code);
    pal.bold(code.as_slice(), out);
    push_str(out, "  ");
    push_str(out, f.slug);
    push_str(out, "\n");
    push_str(out, "         ");
    push_str(out, f.detail.as_str());
    push_str(out, "\n");
    let ghost mid = out@;
    match f.span {
        Some(span) => {
            let mut t = String::new();
            push_str(&mut t, "         at bytes ");
            let st = span.text();
            push_str(&mut t, st.as_str());
            push_str(&mut t, "\n");
            let tc = chars_of(t.as_str());
            pal.dim(tc.as_slice(), out);
        },
        None => {},
    }
    assert(out@ =~= start + entry_text(*f, pal.is_enabled()));
}

fn push_entries_of(out: &mut String, findings: &[Finding], sev: Severity, pal: &Palette)
    ensures
        final(out)@ == old(out)@ + entries_of(findings@, sev, pal.is_enabled()),
{
    let ghost start = out@;
    let mut i: usize = 0;
    while i < findings.len()
        invariant
            i <= findings@.len(),
            out@ == start + entries_of(findings@.take(i as int), sev, pal.is_enabled()),
        decreases findings@.len() - i,
    {
        assert(findings@.take(i + 1).drop_last() =~= findings@.take(i as int));
        if findings[i].severity == sev {
            push_entry(out, &findings[i], pal);
        }
        i += 1;
        assert(out@ =~= start + entries_of(findings@.take(i as int), sev, pal.is_enabled()));
    }
    assert(findings@.take(findings@.len() as int) =~= findings@);
}

fn summary_line(counts: Counts) -> (s: String)
    ensures
        s@ == summary_text(counts.error as nat, counts.warn as nat, counts.info as nat),
{
    let mut out = String::new();
    push_str(&mut out, "findings: ");
    push_dec(&mut out, counts.error as u64);
    push_str(&mut out, " error(s), ");
    push_dec(&mut out, counts.warn as u64);
    push_str(&mut out, " warn(s), ");
    push_dec(&mut out, counts.info as u64);
    push_str(&mut out, " info");
    assert(out@ =~= summary_text(counts.error as nat, counts.warn as nat, counts.info as nat));
    out
}

/// Render the findings block (used by both `inspect` and `lint`). The
/// findings are listed most severe first and, within one severity, in the
/// order they were found: one stable pass per severity.
pub fn render_findings(findings: &[Finding], pal: &Palette) -> (s: String)
    ensures
        s@ == findings_text(findings@, pal.is_enabled()),
{
    let c = Counts::of(findings);
    let mut out = summary_line(c);
    push_str(&mut out, "\n");
    let ghost head = out@;
    if findings.len() == 0 {
        push_str(&mut out, "  (no framing ambiguities detected)\n");
        assert(out@ =~= findings_text(findings@, pal.is_enabled()));
        return out;
    }
    push_entries_of(&mut out, findings, Severity::Error, pal);
    push_entries_of(&mut out, findings, Severity::Warn, pal);
    push_entries_of(&mut out, findings, Severity::Info, pal);
    assert(out@ =~= findings_text(findings@, pal.is_enabled()));
    out
}

/// The one-line explanation of a framing decision.
pub open spec fn framing_note_text(f: Framing) -> Seq<char> {
    match f {
        Framing::Empty => "empty (no Content-Length or Transfer-Encoding; no body)"@,
        Framing::ContentLength => "content-length (fixed-size body)"@,
        Framing::Chunked => "chunked (Transfer-Encoding wins; a Content-Length here would be ignored by a conforming server)"@,
        Framing::UntilClose => "until-close (response body ends when the connection closes)"@,
        Framing::Ambiguous => "AMBIGUOUS (the framing headers contradict each other; two servers may read different body lengths)"@,
    }
}

fn framing_note(f: Framing) -> (s: &'static str)
    ensures
        s@ == framing_note_text(f),
{
    match f {
        Framing::Empty => "empty (no Content-Length or Transfer-Encoding; no body)",
        Framing::ContentLength => "content-length (fixed-size body)",
        Framing::Chunked => "chunked (Transfer-Encoding wins; a Content-Length here would be ignored by a conforming server)",
        Framing::UntilClose => "until-close (response body ends when the connection closes)",
        Framing::Ambiguous => "AMBIGUOUS (the framing headers contradict each other; two servers may read different body lengths)",
    }
}

/// The header lines of the breakdown.
pub open spec fn header_lines(hs: Seq<HeaderView>, enabled: bool) -> Seq<char>
    decreases hs.len(),
{
    if hs.len() == 0 {
        Seq::empty()
    } else {
        let h = hs.last();
        header_lines(hs.drop_last(), enabled) + "  "@ + paint(
            enabled,
            seq!['2'],
            bracketed(h.line_span),
        ) + "  "@ + h.name + ": "@ + truncated(
            escaped(vstd::utf8::encode_utf8(h.value)),
            80,
        ) + "\n"@
    }
}

/// The start-line block of the breakdown.
pub open spec fn start_line_text(m: MessageView, enabled: bool) -> Seq<char> {
    let f = m.start_line.fields;
    "start-line  "@ + paint(enabled, seq!['2'], bracketed(m.start_line.span)) + "\n"@ + match m.kind {
        MessageKind::Request => labelled("  method   "@, f[0]) + labelled("  target   "@, f[1])
            + labelled("  version  "@, f[2]),
        MessageKind::Response => labelled("  version  "@, f[0]) + labelled("  status   "@, f[1])
            + labelled("  reason   "@, f[2]),
    }
}

/// One `label value` line.
pub open spec fn labelled(label: Seq<char>, value: Seq<char>) -> Seq<char> {
    label + value + "\n"@
}

fn push_labelled(out: &mut String, label: &str, value: &str)
    ensures
        final(out)@ == old(out)@ + labelled(label@, value@),
{
    let ghost start = out@;
    push_str(out, label);
    push_str(out, value);
    push_str(out, "\n");
    assert(out@ =~= start + labelled(label@, value@));
}

/// The body block of the breakdown.
pub open spec fn body_text(b: BodyView, enabled: bool) -> Seq<char> {
    body_head(b, enabled) + match b.declared_len {
        Some(n) => "  declared  "@ + dec(n as nat) + " byte(s)\n"@,
        None => Seq::empty(),
    } + "  decoded   "@ + dec(b.decoded_len as nat) + " byte(s)\n"@ + (if b.framing
        == Framing::Chunked {
        "  chunks    "@ + dec(b.chunks.len()) + "\n"@
    } else {
        Seq::empty()
    }) + "  complete  "@ + (if b.complete {
        "yes"@
    } else {
        "no"@
    }) + "\n"@
}

/// The full annotated breakdown of a message and its findings.
pub open spec fn render_text(m: MessageView, fs: Seq<Finding>, enabled: bool) -> Seq<char> {
    paint(enabled, seq!['1'], "plainwire"@) + " — "@ + kind_label(m.kind)@ + ", "@ + dec(
        m.headers.len(),
    ) + " header(s), "@ + dec(m.raw_len as nat) + " byte(s)\n\n"@ + start_line_text(m, enabled)
        + "\nheaders ("@ + dec(m.headers.len()) + ")\n"@ + header_lines(m.headers, enabled)
        + body_text(m.body, enabled) + "\n"@ + "framing: "@ + framing_note_text(m.body.framing)
        + "\n"@ + "\n"@ + findings_text(fs, enabled)
}

fn push_header_lines(out: &mut String, hs: &Vec<Header>, pal: &Palette)
    ensures
        final(out)@ == old(out)@ + header_lines(header_views(hs@), pal.is_enabled()),
{
    let ghost start = out@;
    let mut i: usize = 0;
    while i < hs.len()
        invariant
            i <= hs@.len(),
            out@ == start + header_lines(header_views(hs@).take(i as int), pal.is_enabled()),
        decreases hs@.len() - i,
    {
        let h = &hs[i];
        let ghost before = out@;
        push_str(out, "  ");
        let br = bracketed_chars(h.line_span);
        pal.dim(br.as_slice(), out);
        push_str(out, "  ");
        push_str(out, h.name.as_str());
        push_str(out, ": ");
        let esc = escape_bytes(h.value.as_str().as_bytes());
        let ec = chars_of(esc.as_str());
        let t = truncate(ec.as_slice(), 80);
        push_chars(out, t.as_slice());
        push_str(out, "\n");
        assert(header_views(hs@).take(i + 1).drop_last() =~= header_views(hs@).take(i as int));
        i += 1;
        assert(out@ =~= start + header_lines(header_views(hs@).take(i as int), pal.is_enabled()));
    }
    assert(header_views(hs@).take(hs@.len() as int) =~= header_views(hs@));
}

fn push_start_line(out: &mut String, a: &Analysis, pal: &Palette)
    ensures
        final(out)@ == old(out)@ + start_line_text(a.message@, pal.is_enabled()),
{
    let ghost start = out@;
    let m = &a.message;
    push_str(out, "start-line  ");
    let br = bracketed_chars(m.start_line.span);
    pal.dim(br.as_slice(), out);
    push_str(out, "\n");
    let sl = &m.start_line;
    let ghost mid = out@;
    match m.kind {
        MessageKind::Request => {
            push_labelled(out, "  method   ", sl.method());
            push_labelled(out, "  target   ", sl.target());
            push_labelled(out, "  version  ", sl.version());
        },
        MessageKind::Response => {
            push_labelled(out, "  version  ", sl.resp_version());
            push_labelled(out, "  status   ", sl.status());
            push_labelled(out, "  reason   ", sl.reason());
        },
    }
    assert(out@ =~= start + start_line_text(a.message@, pal.is_enabled()));
}

/// The first lines of the body block: region and framing.
pub open spec fn body_head(b: BodyView, enabled: bool) -> Seq<char> {
    "\nbody  "@ + paint(enabled, seq!['2'], bracketed(b.span)) + "\n"@ + "  framing   "@
        + framing_label(b.framing)@ + "\n"@
}

fn push_body_head(out: &mut String, b: &crate::message::Body, pal: &Palette)
    ensures
        final(out)@ == old(out)@ + body_head(b@, pal.is_enabled()),
{
    let ghost start = out@;
    push_str(out, "\nbody  ");
    let br = bracketed_chars(b.span);
    pal.dim(br.as_slice(), out);
    push_str(out, "\n");
    push_str(out, "  framing   ");
    push_str(out, b.framing.label());
    push_str(out, "\n");
    assert(out@ =~= start + body_head(b@, pal.is_enabled()));
}

fn push_declared(out: &mut String, d: Option<usize>)
    ensures
        final(out)@ == old(out)@ + match d {
            Some(n) => "  declared  "@ + dec(n as nat) + " byte(s)\n"@,
            None => Seq::<char>::empty(),
        },
{
    let ghost start = out@;
    match d {
        Some(n) => {
            push_str(out, "  declared  ");
            push_dec(out, n as u64);
            push_str(out, " byte(s)\n");
        },
        None => {},
    }
    assert(out@ =~= start + match d {
        Some(n) => "  declared  "@ + dec(n as nat) + " byte(s)\n"@,
        None => Seq::<char>::empty(),
    });
}

fn push_decoded(out: &mut String, n: usize)
    ensures
        final(out)@ == old(out)@ + "  decoded   "@ + dec(n as nat) + " byte(s)\n"@,
{
    let ghost start = out@;
    push_str(out, "  decoded   ");
    push_dec(out, n as u64);
    push_str(out, " byte(s)\n");
    assert(out@ =~= start + "  decoded   "@ + dec(n as nat) + " byte(s)\n"@);
}

fn push_chunk_count(out: &mut String, chunked: bool, n: usize)
    ensures
        final(out)@ == old(out)@ + if chunked {
            "  chunks    "@ + dec(n as nat) + "\n"@
        } else {
            Seq::<char>::empty()
        },
{
    let ghost start = out@;
    if chunked {
        push_str(out, "  chunks    ");
        push_dec(out, n as u64);
        push_str(out, "\n");
    }
    assert(out@ =~= start + if chunked {
        "  chunks    "@ + dec(n as nat) + "\n"@
    } else {
        Seq::<char>::empty()
    });
}

fn push_complete(out: &mut String, complete: bool)
    ensures
        final(out)@ == old(out)@ + "  complete  "@ + (if complete {
            "yes"@
        } else {
            "no"@
        }) + "\n"@,
{
    let ghost start = out@;
    push_str(out, "  complete  ");
    if complete {
        push_str(out, "yes");
    } else {
        push_str(out, "no");
    }
    push_str(out, "\n");
    assert(out@ =~= start + "  complete  "@ + (if complete {
        "yes"@
    } else {
        "no"@
    }) + "\n"@);
}

fn push_body(out: &mut String, b: &crate::message::Body, pal: &Palette)
    ensures
        final(out)@ == old(out)@ + body_text(b@, pal.is_enabled()),
{
    let ghost start = out@;
    push_body_head(out, b, pal);
    push_declared(out, b.declared_len);
    push_decoded(out, b.decoded_len);
    push_chunk_count(out, b.framing == Framing::Chunked, b.chunks.len());
    push_complete(out, b.complete);
    assert(out@ =~= start + body_text(b@, pal.is_enabled()));
}

/// Render the full annotated breakdown for `plainwire inspect`.
pub fn render(analysis: &Analysis, pal: &Palette) -> (s: String)
    ensures
        s@ == render_text(analysis.message@, analysis.findings@, pal.is_enabled()),
{
    let m = &analysis.message;
    let mut out = String::new();
    let mut name = Vec::new();
    name.push('p');
    name.push('l');
    name.push('a');
    name.push('i');
    name.push('n');
    name.push('w');
    name.push('i');
    name.push('r');
    name.push('e');
    proof {
        reveal_strlit("plainwire");
    }
    assert(name@ =~= "plainwire"@);
    pal.bold(name.as_slice(), &mut out);
    push_str(&mut out, " — ");
    push_str(&mut out, m.kind.label());
    push_str(&mut out, ", ");
    push_dec(&mut out, m.headers.len() as u64);
    push_str(&mut out, " header(s), ");
    push_dec(&mut out, m.raw_len as u64);
    push_str(&mut out, " byte(s)\n\n");
    let ghost s1 = out@;
    push_start_line(&mut out, analysis, pal);
    let ghost s2 = out@;
    push_str(&mut out, "\nheaders (");
    push_dec(&mut out, m.headers.len() as u64);
    push_str(&mut out, ")\n");
    push_header_lines(&mut out, &m.headers, pal);
    let ghost s3 = out@;
    push_body(&mut out, &m.body, pal);
    push_str(&mut out, "\n");
    push_str(&mut out, "framing: ");
    push_str(&mut out, framing_note(m.body.framing));
    push_str(&mut out, "\n");
    push_str(&mut out, "\n");
    let fb = render_findings(analysis.findings.as_slice(), pal);
    push_str(&mut out, fb.as_str());
    assert(out@ =~= render_text(analysis.message@, analysis.findings@, pal.is_enabled()));
    out
}

/// The findings of `fs` with severity `s`, in discovery order.
pub open spec fn with_severity(fs: Seq<Finding>, s: Severity) -> Seq<Finding>
    decreases fs.len(),
{
    if fs.len() == 0 {
        Seq::empty()
    } else {
        with_severity(fs.drop_last(), s) + if fs.last().severity == s {
            seq![fs.last()]
        } else {
            Seq::empty()
        }
    }
}

/// The findings most severe first, in discovery order within a severity.
pub open spec fn by_severity(fs: Seq<Finding>) -> Seq<Finding> {
    with_severity(fs, Severity::Error) + with_severity(fs, Severity::Warn) + with_severity(
        fs,
        Severity::Info,
    )
}

/// The entries of `fs`, one after another.
pub open spec fn entries_text(fs: Seq<Finding>, enabled: bool) -> Seq<char>
    decreases fs.len(),
{
    if fs.len() == 0 {
        Seq::empty()
    } else {
        entries_text(fs.drop_last(), enabled) + entry_text(fs.last(), enabled)
    }
}

proof fn lemma_entries_text_concat(a: Seq<Finding>, b: Seq<Finding>, enabled: bool)
    ensures
        entries_text(a + b, enabled) == entries_text(a, enabled) + entries_text(b, enabled),
    decreases b.len(),
{
    if b.len() == 0 {
        assert(a + b =~= a);
        assert(entries_text(a, enabled) + entries_text(b, enabled) =~= entries_text(a, enabled));
    } else {
        lemma_entries_text_concat(a, b.drop_last(), enabled);
        assert((a + b).drop_last() =~= a + b.drop_last());
        assert((a + b).last() == b.last());
        assert(entries_text(a + b, enabled) =~= entries_text(a, enabled) + entries_text(b, enabled));
    }
}

proof fn lemma_entries_of_filter(fs: Seq<Finding>, s: Severity, enabled: bool)
    ensures
        entries_of(fs, s, enabled) == entries_text(with_severity(fs, s), enabled),
        forall|i: int|
            0 <= i < with_severity(fs, s).len() ==> (#[trigger] with_severity(fs, s)[i]).severity == s,
    decreases fs.len(),
{
    if fs.len() > 0 {
        let w = with_severity(fs.drop_last(), s);
        lemma_entries_of_filter(fs.drop_last(), s, enabled);
        if fs.last().severity == s {
            lemma_entries_text_concat(w, seq![fs.last()], enabled);
            let one = seq![fs.last()];
            assert(one.drop_last() =~= Seq::<Finding>::empty());
            assert(entries_text(one.drop_last(), enabled) =~= Seq::<char>::empty());
            assert(one.last() == fs.last());
            assert(entries_text(one, enabled) =~= entry_text(fs.last(), enabled));
            assert forall|i: int| 0 <= i < with_severity(fs, s).len() implies (
            #[trigger] with_severity(fs, s)[i]).severity == s by {
                if i < w.len() {
                    assert(with_severity(fs, s)[i] == w[i]);
                }
            }
        } else {
            assert(with_severity(fs, s) =~= w);
            assert(entries_of(fs, s, enabled) =~= entries_of(fs.drop_last(), s, enabled));
        }
    }
}

proof fn lemma_severity_split(fs: Seq<Finding>)
    ensures
        with_severity(fs, Severity::Error).len() + with_severity(fs, Severity::Warn).len()
            + with_severity(fs, Severity::Info).len() == fs.len(),
    decreases fs.len(),
{
    if fs.len() > 0 {
        lemma_severity_split(fs.drop_last());
    }
}

/// The listing of [`render_findings`]: a summary line counting each severity,
/// then either the note that nothing was found or the entries of every
/// finding, most severe first and in discovery order within a severity. The
/// listed findings are exactly as many as the findings.
pub proof fn law_findings_listing(fs: Seq<Finding>, enabled: bool)
    ensures
        findings_text(fs, enabled) == summary_text(
            count_sev(fs, Severity::Error),
            count_sev(fs, Severity::Warn),
            count_sev(fs, Severity::Info),
        ) + "\n"@ + if fs.len() == 0 {
            "  (no framing ambiguities detected)\n"@
        } else {
            entries_text(by_severity(fs), enabled)
        },
        by_severity(fs).len() == fs.len(),
        forall|i: int, j: int|
            0 <= i < j < by_severity(fs).len() ==> severity_rank(
                (#[trigger] by_severity(fs)[i]).severity,
            ) >= severity_rank((#[trigger] by_severity(fs)[j]).severity),
{
    let e = with_severity(fs, Severity::Error);
    let w = with_severity(fs, Severity::Warn);
    let n = with_severity(fs, Severity::Info);
    lemma_entries_of_filter(fs, Severity::Error, enabled);
    lemma_entries_of_filter(fs, Severity::Warn, enabled);
    lemma_entries_of_filter(fs, Severity::Info, enabled);
    lemma_entries_text_concat(e + w, n, enabled);
    lemma_entries_text_concat(e, w, enabled);
    lemma_severity_split(fs);
    let b = by_severity(fs);
    assert forall|i: int, j: int| 0 <= i < j < b.len() implies severity_rank(
        (#[trigger] b[i]).severity,
    ) >= severity_rank((#[trigger] b[j]).severity) by {
        if i < e.len() {
            assert(b[i] == e[i]);
        } else if i < e.len() + w.len() {
            assert(b[i] == w[i - e.len()]);
            assert(j >= e.len());
            if j < e.len() + w.len() {
                assert(b[j] == w[j - e.len()]);
            } else {
                assert(b[j] == n[j - e.len() - w.len()]);
            }
        } else {
            assert(b[i] == n[i - e.len() - w.len()]);
            assert(b[j] == n[j - e.len() - w.len()]);
        }
    }
}

/// The test "has severity `s`", as a predicate on findings.
pub open spec fn sev_pred(s: Severity) -> spec_fn(Finding) -> bool {
    |f: Finding| f.severity == s
}

proof fn lemma_with_severity_filter(fs: Seq<Finding>, s: Severity)
    ensures
        with_severity(fs, s) == fs.filter(sev_pred(s)),
    decreases fs.len(),
{
    reveal(Seq::filter);
    if fs.len() > 0 {
        lemma_with_severity_filter(fs.drop_last(), s);
        let w = with_severity(fs.drop_last(), s);
        if fs.last().severity == s {
            assert(w + seq![fs.last()] =~= w.push(fs.last()));
        } else {
            assert(w + Seq::<Finding>::empty() =~= w);
        }
    } else {
        assert(with_severity(fs, s) =~= fs);
    }
}

proof fn lemma_by_severity_multiset(fs: Seq<Finding>)
    ensures
        by_severity(fs).to_multiset() =~= fs.to_multiset(),
    decreases fs.len(),
{
    broadcast use vstd::seq_lib::lemma_multiset_commutative, vstd::seq_lib::to_multiset_build,
        vstd::multiset::group_multiset_axioms;

    if fs.len() == 0 {
        assert(by_severity(fs) =~= Seq::<Finding>::empty());
        assert(fs =~= Seq::<Finding>::empty());
        assert(by_severity(fs) == fs);
    } else {
        let d = fs.drop_last();
        let x = fs.last();
        lemma_by_severity_multiset(d);
        assert(fs =~= d.push(x));
        let e = with_severity(d, Severity::Error);
        let w = with_severity(d, Severity::Warn);
        let n = with_severity(d, Severity::Info);
        match x.severity {
            Severity::Error => {
                assert(with_severity(fs, Severity::Error) =~= e.push(x));
                assert(with_severity(fs, Severity::Warn) =~= w);
                assert(with_severity(fs, Severity::Info) =~= n);
            },
            Severity::Warn => {
                assert(with_severity(fs, Severity::Error) =~= e);
                assert(with_severity(fs, Severity::Warn) =~= w.push(x));
                assert(with_severity(fs, Severity::Info) =~= n);
            },
            Severity::Info => {
                assert(with_severity(fs, Severity::Error) =~= e);
                assert(with_severity(fs, Severity::Warn) =~= w);
                assert(with_severity(fs, Severity::Info) =~= n.push(x));
            },
        }
        let em = e.to_multiset();
        let wm = w.to_multiset();
        let nm = n.to_multiset();
        assert((e + w + n).to_multiset() =~= em.add(wm).add(nm));
        assert(fs.to_multiset() =~= em.add(wm).add(nm).insert(x));
        let b = by_severity(fs);
        match x.severity {
            Severity::Error => {
                assert(b =~= e.push(x) + w + n);
                assert(b.to_multiset() =~= e.push(x).to_multiset().add(wm).add(nm));
                assert(b.to_multiset() =~= em.insert(x).add(wm).add(nm));
                assert(b.to_multiset() =~= em.add(wm).add(nm).insert(x));
            },
            Severity::Warn => {
                assert(b =~= e + w.push(x) + n);
                assert(b.to_multiset() =~= em.add(w.push(x).to_multiset()).add(nm));
                assert(b.to_multiset() =~= em.add(wm.insert(x)).add(nm));
                assert(b.to_multiset() =~= em.add(wm).add(nm).insert(x));
            },
            Severity::Info => {
                assert(b =~= e + w + n.push(x));
                assert(b.to_multiset() =~= em.add(wm).add(n.push(x).to_multiset()));
                assert(b.to_multiset() =~= em.add(wm).add(nm.insert(x)));
                assert(b.to_multiset() =~= em.add(wm).add(nm).insert(x));
            },
        }
    }
}

/// The listing is a stable sort by severity: the listed findings are the
/// findings rearranged (the same multiset), the errors come first, then the
/// warnings, then the infos, and within each severity they keep their input
/// order (the findings of that severity, filtered from the input in order).
pub proof fn law_findings_listing_is_stable_sort(fs: Seq<Finding>)
    ensures
        by_severity(fs).to_multiset() == fs.to_multiset(),
        by_severity(fs) == fs.filter(sev_pred(Severity::Error)) + fs.filter(
            sev_pred(Severity::Warn),
        ) + fs.filter(sev_pred(Severity::Info)),
{
    lemma_by_severity_multiset(fs);
    lemma_with_severity_filter(fs, Severity::Error);
    lemma_with_severity_filter(fs, Severity::Warn);
    lemma_with_severity_filter(fs, Severity::Info);
}

proof fn lemma_no_esc_cat(a: Seq<char>, b: Seq<char>)
    ensures
        no_esc(a + b) == (no_esc(a) && no_esc(b)),
{
    if no_esc(a + b) {
        assert forall|i: int| 0 <= i < a.len() implies a[i] != '\u{1b}' by {
            assert((a + b)[i] == a[i]);
        }
        assert forall|i: int| 0 <= i < b.len() implies b[i] != '\u{1b}' by {
            assert((a + b)[a.len() + i] == b[i]);
        }
    }
}

proof fn lemma_dec_no_esc(n: nat)
    ensures
        no_esc(dec(n)),
{
    crate::json::lemma_radix_no_control(n, 10);
    assert forall|i: int| 0 <= i < dec(n).len() implies dec(n)[i] != '\u{1b}' by {
        assert((dec(n)[i] as u32) >= 0x20);
    }
}

proof fn lemma_bracketed_no_esc(s: Span)
    ensures
        no_esc(bracketed(s)),
{
    lemma_dec_no_esc(s.start as nat);
    lemma_dec_no_esc(s.end as nat);
    lemma_no_esc_cat(dec(s.start as nat), seq!['.', '.']);
    lemma_no_esc_cat(dec(s.start as nat) + seq!['.', '.'], dec(s.end as nat));
    lemma_no_esc_cat(seq!['['], s.text_spec());
    lemma_no_esc_cat(seq!['['] + s.text_spec(), seq![']']);
}

proof fn lemma_escaped_no_esc(bytes: Seq<u8>)
    ensures
        no_esc(escaped(bytes)),
    decreases bytes.len(),
{
    if bytes.len() > 0 {
        lemma_escaped_no_esc(bytes.drop_last());
        let b = bytes.last();
        let e = crate::message::escape_byte(b);
        if !(b == 13 || b == 10 || b == 9 || b == 0 || (0x20 <= b <= 0x7e)) {
            let h = crate::text::hex(b as nat);
            crate::json::lemma_radix_no_control(b as nat, 16);
            let z = crate::text::zero_pad(h, 2);
            assert forall|i: int| 0 <= i < z.len() implies z[i] != '\u{1b}' by {
                if h.len() < 2 {
                    let k = (2 - h.len()) as int;
                    if i >= k {
                        assert(z[i] == h[i - k]);
                        assert((h[i - k] as u32) >= 0x20);
                    }
                } else {
                    assert((h[i] as u32) >= 0x20);
                }
            }
            lemma_no_esc_cat(seq!['\\', 'x'], z);
        } else if 0x20 <= b <= 0x7e && !(b == 13 || b == 10 || b == 9 || b == 0) {
            assert(e == seq![b as char]);
            assert((b as char) != '\u{1b}');
        }
        assert(no_esc(e));
        lemma_no_esc_cat(escaped(bytes.drop_last()), e);
    }
}

proof fn lemma_truncated_no_esc(s: Seq<char>, max: nat)
    requires
        no_esc(s),
    ensures
        no_esc(truncated(s, max)),
{
    if s.len() > max {
        let k: int = if max >= 1 { max - 1 } else { 0 };
        lemma_no_esc_cat(s.take(k), seq!['\u{2026}']);
    }
}

proof fn lemma_pad_right_no_esc(s: Seq<char>, w: nat)
    requires
        no_esc(s),
    ensures
        no_esc(pad_right(s, w)),
{
    if s.len() < w {
        lemma_no_esc_cat(s, Seq::new((w - s.len()) as nat, |i: int| ' '));
    }
}

proof fn lemma_severity_label_no_esc(v: Severity)
    ensures
        no_esc(severity_label(v)@),
{
    reveal_strlit("error");
    reveal_strlit("warn");
    reveal_strlit("info");
}

/// The uncoloured entry of a finding holds no ESC when its code, slug and
/// detail hold none.
proof fn lemma_entry_no_esc(f: Finding)
    requires
        no_esc(f.code@),
        no_esc(f.slug@),
        no_esc(f.detail@),
    ensures
        no_esc(entry_text(f, false)),
{
    broadcast use lemma_no_esc_cat_auto;
    reveal_strlit("  ");
    reveal_strlit("\n");
    reveal_strlit("         ");
    reveal_strlit("         at bytes ");
    lemma_severity_label_no_esc(f.severity);
    lemma_pad_right_no_esc(severity_label(f.severity)@, 5);
    match f.span {
        Some(s) => {
            lemma_dec_no_esc(s.start as nat);
            lemma_dec_no_esc(s.end as nat);
        },
        None => {},
    }
}

pub broadcast proof fn lemma_no_esc_cat_auto(a: Seq<char>, b: Seq<char>)
    ensures
        #[trigger] no_esc(a + b) == (no_esc(a) && no_esc(b)),
{
    lemma_no_esc_cat(a, b);
}

proof fn lemma_entries_no_esc(fs: Seq<Finding>)
    requires
        forall|i: int|
            0 <= i < fs.len() ==> no_esc((#[trigger] fs[i]).code@) && no_esc(fs[i].slug@)
                && no_esc(fs[i].detail@),
    ensures
        no_esc(entries_text(fs, false)),
    decreases fs.len(),
{
    if fs.len() > 0 {
        let d = fs.drop_last();
        assert forall|i: int| 0 <= i < d.len() implies no_esc((#[trigger] d[i]).code@) && no_esc(
            d[i].slug@,
        ) && no_esc(d[i].detail@) by {
            assert(d[i] == fs[i]);
        }
        lemma_entries_no_esc(d);
        assert(fs.last() == fs[fs.len() - 1]);
        lemma_entry_no_esc(fs.last());
        lemma_no_esc_cat(entries_text(d, false), entry_text(fs.last(), false));
    }
}

proof fn lemma_findings_no_esc(fs: Seq<Finding>)
    requires
        forall|i: int|
            0 <= i < fs.len() ==> no_esc((#[trigger] fs[i]).code@) && no_esc(fs[i].slug@)
                && no_esc(fs[i].detail@),
    ensures
        no_esc(findings_text(fs, false)),
{
    broadcast use lemma_no_esc_cat_auto;
    law_findings_listing(fs, false);
    let b = by_severity(fs);
    let e = with_severity(fs, Severity::Error);
    let w = with_severity(fs, Severity::Warn);
    let n = with_severity(fs, Severity::Info);
    lemma_with_severity_from(fs, Severity::Error);
    lemma_with_severity_from(fs, Severity::Warn);
    lemma_with_severity_from(fs, Severity::Info);
    assert forall|i: int| 0 <= i < b.len() implies no_esc((#[trigger] b[i]).code@) && no_esc(
        b[i].slug@,
    ) && no_esc(b[i].detail@) by {
        if i < e.len() {
            assert(b[i] == e[i]);
        } else if i < e.len() + w.len() {
            assert(b[i] == w[i - e.len()]);
        } else {
            assert(b[i] == n[i - e.len() - w.len()]);
        }
    }
    lemma_entries_no_esc(b);
    reveal_strlit("findings: ");
    reveal_strlit(" error(s), ");
    reveal_strlit(" warn(s), ");
    reveal_strlit(" info");
    reveal_strlit("\n");
    reveal_strlit("  (no framing ambiguities detected)\n");
    lemma_dec_no_esc(count_sev(fs, Severity::Error));
    lemma_dec_no_esc(count_sev(fs, Severity::Warn));
    lemma_dec_no_esc(count_sev(fs, Severity::Info));
}

/// Every finding listed under a severity is one of the findings.
proof fn lemma_with_severity_from(fs: Seq<Finding>, s: Severity)
    ensures
        forall|i: int|
            0 <= i < with_severity(fs, s).len() ==> exists|j: int|
                0 <= j < fs.len() && fs[j] == #[trigger] with_severity(fs, s)[i],
    decreases fs.len(),
{
    if fs.len() > 0 {
        let d = fs.drop_last();
        lemma_with_severity_from(d, s);
        let w = with_severity(d, s);
        assert forall|i: int| 0 <= i < with_severity(fs, s).len() implies exists|j: int|
            0 <= j < fs.len() && fs[j] == #[trigger] with_severity(fs, s)[i] by {
            if i < w.len() {
                assert(with_severity(fs, s)[i] == w[i]);
                let j = choose|j: int| 0 <= j < d.len() && d[j] == w[i];
                assert(fs[j] == d[j]);
            } else {
                assert(with_severity(fs, s)[i] == fs[fs.len() - 1]);
            }
        }
    }
}

proof fn lemma_header_lines_no_esc(hs: Seq<HeaderView>)
    requires
        forall|i: int| 0 <= i < hs.len() ==> no_esc((#[trigger] hs[i]).name),
    ensures
        no_esc(header_lines(hs, false)),
    decreases hs.len(),
{
    broadcast use lemma_no_esc_cat_auto;
    if hs.len() > 0 {
        let d = hs.drop_last();
        assert forall|i: int| 0 <= i < d.len() implies no_esc((#[trigger] d[i]).name) by {
            assert(d[i] == hs[i]);
        }
        lemma_header_lines_no_esc(d);
        let h = hs.last();
        assert(no_esc(hs[hs.len() - 1].name));
        lemma_bracketed_no_esc(h.line_span);
        lemma_escaped_no_esc(vstd::utf8::encode_utf8(h.value));
        lemma_truncated_no_esc(escaped(vstd::utf8::encode_utf8(h.value)), 80);
        reveal_strlit("  ");
        reveal_strlit(": ");
        reveal_strlit("\n");
    }
}

proof fn lemma_start_line_no_esc(m: MessageView)
    requires
        forall|i: int| 0 <= i < 3 ==> no_esc(#[trigger] m.start_line.fields[i]),
    ensures
        no_esc(start_line_text(m, false)),
{
    broadcast use lemma_no_esc_cat_auto;
    lemma_bracketed_no_esc(m.start_line.span);
    assert(no_esc(m.start_line.fields[0]));
    assert(no_esc(m.start_line.fields[1]));
    assert(no_esc(m.start_line.fields[2]));
    reveal_strlit("start-line  ");
    reveal_strlit("\n");
    reveal_strlit("  method   ");
    reveal_strlit("  target   ");
    reveal_strlit("  version  ");
    reveal_strlit("  status   ");
    reveal_strlit("  reason   ");
}

proof fn lemma_body_no_esc(b: BodyView)
    ensures
        no_esc(body_text(b, false)),
{
    broadcast use lemma_no_esc_cat_auto;
    lemma_bracketed_no_esc(b.span);
    lemma_dec_no_esc(b.decoded_len as nat);
    lemma_dec_no_esc(b.chunks.len());
    match b.declared_len {
        Some(n) => lemma_dec_no_esc(n as nat),
        None => {},
    }
    reveal_strlit("\nbody  ");
    reveal_strlit("\n");
    reveal_strlit("  framing   ");
    reveal_strlit("empty");
    reveal_strlit("content-length");
    reveal_strlit("chunked");
    reveal_strlit("until-close");
    reveal_strlit("ambiguous");
    assert(no_esc(body_head(b, false)));
    reveal_strlit("  declared  ");
    reveal_strlit(" byte(s)\n");
    reveal_strlit("  decoded   ");
    reveal_strlit("  chunks    ");
    reveal_strlit("  complete  ");
    reveal_strlit("yes");
    reveal_strlit("no");
}

proof fn lemma_framing_note_no_esc(f: Framing)
    ensures
        no_esc(framing_note_text(f)),
{
    reveal_strlit("empty (no Content-Length or Transfer-Encoding; no body)");
    reveal_strlit("content-length (fixed-size body)");
    reveal_strlit("chunked (Transfer-Encoding wins; a Content-Length here would be ignored by a conforming server)");
    reveal_strlit("until-close (response body ends when the connection closes)");
    reveal_strlit("AMBIGUOUS (the framing headers contradict each other; two servers may read different body lengths)");
}

proof fn lemma_title_no_esc(m: MessageView)
    ensures
        no_esc(paint(false, seq!['1'], "plainwire"@) + " — "@ + kind_label(m.kind)@ + ", "@ + dec(
            m.headers.len(),
        ) + " header(s), "@ + dec(m.raw_len as nat) + " byte(s)\n\n"@),
{
    broadcast use lemma_no_esc_cat_auto;
    lemma_dec_no_esc(m.headers.len());
    lemma_dec_no_esc(m.raw_len as nat);
    reveal_strlit("plainwire");
    reveal_strlit(" — ");
    reveal_strlit("request");
    reveal_strlit("response");
    reveal_strlit(", ");
    reveal_strlit(" header(s), ");
    reveal_strlit(" byte(s)\n\n");
}

/// The code and slug of a catalog entry hold no ESC.
proof fn lemma_catalog_no_esc(n: u8)
    ensures
        no_esc(crate::findings::code_lit(n)@),
        no_esc(crate::findings::slug_lit(n)@),
{
    reveal_strlit("PW001");
    reveal_strlit("PW002");
    reveal_strlit("PW003");
    reveal_strlit("PW004");
    reveal_strlit("PW005");
    reveal_strlit("PW006");
    reveal_strlit("PW007");
    reveal_strlit("PW008");
    reveal_strlit("PW009");
    reveal_strlit("PW010");
    reveal_strlit("PW011");
    reveal_strlit("PW012");
    reveal_strlit("PW013");
    reveal_strlit("PW014");
    reveal_strlit("PW015");
    reveal_strlit("PW016");
    reveal_strlit("PW017");
    reveal_strlit("PW018");
    reveal_strlit("PW019");
    reveal_strlit("PW020");
    reveal_strlit("both-cl-te");
    reveal_strlit("duplicate-content-length");
    reveal_strlit("conflicting-content-length");
    reveal_strlit("duplicate-transfer-encoding");
    reveal_strlit("te-not-chunked-final");
    reveal_strlit("obfuscated-transfer-encoding");
    reveal_strlit("whitespace-before-colon");
    reveal_strlit("bare-lf-line-ending");
    reveal_strlit("bare-cr");
    reveal_strlit("invalid-content-length");
    reveal_strlit("invalid-chunk-size");
    reveal_strlit("chunk-extension");
    reveal_strlit("non-token-header-name");
    reveal_strlit("request-target-whitespace");
    reveal_strlit("missing-host");
    reveal_strlit("multiple-host");
    reveal_strlit("trailing-body-bytes");
    reveal_strlit("incomplete-body");
    reveal_strlit("obsolete-line-folding");
    reveal_strlit("missing-final-chunk");
}

/// With colour off, the annotated breakdown writes no ESC character of its
/// own: for well-formed findings, every ESC in it comes from the message's
/// start-line fields or header names, or from a finding's detail. (Header
/// values are shown escaped, and codes and slugs come from the catalog, so
/// they never carry one.)
pub proof fn law_plain_render_has_no_escape(m: MessageView, fs: Seq<Finding>)
    requires
        forall|i: int| 0 <= i < 3 ==> no_esc(#[trigger] m.start_line.fields[i]),
        forall|i: int| 0 <= i < m.headers.len() ==> no_esc((#[trigger] m.headers[i]).name),
        crate::findings::all_wf(fs),
        forall|i: int| 0 <= i < fs.len() ==> no_esc((#[trigger] fs[i]).detail@),
    ensures
        no_esc(render_text(m, fs, false)),
{
    assert forall|i: int| 0 <= i < fs.len() implies no_esc((#[trigger] fs[i]).code@) && no_esc(
        fs[i].slug@,
    ) && no_esc(fs[i].detail@) by {
        assert(fs[i].wf());
        let n = choose|n: u8|
            1 <= n <= 20 && fs[i].code == #[trigger] crate::findings::code_lit(n)
                && fs[i].slug == crate::findings::slug_lit(n) && fs[i].severity
                == crate::findings::sev_of(n) && fs[i].title == crate::findings::title_lit(n);
        lemma_catalog_no_esc(n);
    }
    lemma_findings_no_esc(fs);
    lemma_header_lines_no_esc(m.headers);
    lemma_start_line_no_esc(m);
    lemma_body_no_esc(m.body);
    lemma_framing_note_no_esc(m.body.framing);
    lemma_title_no_esc(m);
    lemma_dec_no_esc(m.headers.len());
    reveal_strlit("\nheaders (");
    reveal_strlit(")\n");
    reveal_strlit("\n");
    reveal_strlit("framing: ");
    let t = paint(false, seq!['1'], "plainwire"@) + " — "@ + kind_label(m.kind)@ + ", "@ + dec(
        m.headers.len(),
    ) + " header(s), "@ + dec(m.raw_len as nat) + " byte(s)\n\n"@;
    let p1 = t + start_line_text(m, false);
    lemma_no_esc_cat(t, start_line_text(m, false));
    assert(no_esc("\nheaders ("@));
    let p2 = p1 + "\nheaders ("@;
    lemma_no_esc_cat(p1, "\nheaders ("@);
    let p3 = p2 + dec(m.headers.len());
    lemma_no_esc_cat(p2, dec(m.headers.len()));
    assert(no_esc(")\n"@));
    let p4 = p3 + ")\n"@;
    lemma_no_esc_cat(p3, ")\n"@);
    let p5 = p4 + header_lines(m.headers, false);
    lemma_no_esc_cat(p4, header_lines(m.headers, false));
    let p6 = p5 + body_text(m.body, false);
    lemma_no_esc_cat(p5, body_text(m.body, false));
    assert(no_esc("\n"@));
    let p7 = p6 + "\n"@;
    lemma_no_esc_cat(p6, "\n"@);
    assert(no_esc("framing: "@));
    let p8 = p7 + "framing: "@;
    lemma_no_esc_cat(p7, "framing: "@);
    let p9 = p8 + framing_note_text(m.body.framing);
    lemma_no_esc_cat(p8, framing_note_text(m.body.framing));
    let p10 = p9 + "\n"@;
    lemma_no_esc_cat(p9, "\n"@);
    let p11 = p10 + "\n"@;
    lemma_no_esc_cat(p10, "\n"@);
    lemma_no_esc_cat(p11, findings_text(fs, false));
    assert(render_text(m, fs, false) == p11 + findings_text(fs, false));
}

} // verus!
