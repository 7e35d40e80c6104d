//! The finding catalog: every framing anomaly plainwire can report.
//!
//! A [`Finding`] is one observation about a message, carrying a stable `PWnnn`
//! code, a severity, a title, a message-specific detail and the byte [`Span`]
//! it refers to. Catalog entries are numbered 1..=20 in presentation order;
//! entry `n` has code `PW0nn`.
use vstd::prelude::*;
use crate::span::Span;
use crate::text::{push_str, str_eq};

verus! {

/// How seriously a finding should be taken.
#[derive(Debug, Clone, Copy, PartialEq, Eq, Structural)]
pub enum Severity {
    /// A concrete desync vector or a framing rule violation. `lint` fails.
    Error,
    /// Suspicious or non-conforming, but not on its own a desync.
    Warn,
    /// Informational: worth surfacing, harmless by itself.
    Info,
}

/// The lowercase label of a severity.
pub open spec fn severity_label(s: Severity) -> &'static str {
    match s {
        Severity::Error => "error",
        Severity::Warn => "warn",
        Severity::Info => "info",
    }
}

/// The rank of a severity: higher is more severe.
pub open spec fn severity_rank(s: Severity) -> u8 {
    match s {
        Severity::Error => 3,
        Severity::Warn => 2,
        Severity::Info => 1,
    }
}

impl Severity {
    /// Lowercase label used in text output and JSON.
    pub fn label(self) -> (r: &'static str)
        ensures
            r == severity_label(self),
    {
        match self {
            Severity::Error => "error",
            Severity::Warn => "warn",
            Severity::Info => "info",
        }
    }

    /// Higher rank = more severe. Used to sort and to implement `--fail-on`.
    pub fn rank(self) -> (r: u8)
        ensures
            r == severity_rank(self),
    {
        match self {
            Severity::Error => 3,
            Severity::Warn => 2,
            Severity::Info => 1,
        }
    }
}

/// A static catalog entry describing one finding code.
#[derive(Debug, Clone, Copy)]
pub struct FindingSpec {
    pub code: &'static str,
    pub slug: &'static str,
    pub severity: Severity,
    /// One-line title.
    pub title: &'static str,
    /// A sentence explaining why the finding matters.
    pub description: &'static str,
}

/// The code of catalog entry `n`.
pub open spec fn code_lit(n: u8) -> &'static str {
    match n {
        1 => "PW001",
        2 => "PW002",
        3 => "PW003",
        4 => "PW004",
        5 => "PW005",
        6 => "PW006",
        7 => "PW007",
        8 => "PW008",
        9 => "PW009",
        10 => "PW010",
        11 => "PW011",
        12 => "PW012",
        13 => "PW013",
        14 => "PW014",
        15 => "PW015",
        16 => "PW016",
        17 => "PW017",
        18 => "PW018",
        19 => "PW019",
        _ => "PW020",
    }
}

/// The slug of catalog entry `n`.
pub open spec fn slug_lit(n: u8) -> &'static str {
    match n {
        1 => "both-cl-te",
        2 => "duplicate-content-length",
        3 => "conflicting-content-length",
        4 => "duplicate-transfer-encoding",
        5 => "te-not-chunked-final",
        6 => "obfuscated-transfer-encoding",
        7 => "whitespace-before-colon",
        8 => "bare-lf-line-ending",
        9 => "bare-cr",
        10 => "invalid-content-length",
        11 => "invalid-chunk-size",
        12 => "chunk-extension",
        13 => "non-token-header-name",
        14 => "request-target-whitespace",
        15 => "missing-host",
        16 => "multiple-host",
        17 => "trailing-body-bytes",
        18 => "incomplete-body",
        19 => "obsolete-line-folding",
        _ => "missing-final-chunk",
    }
}

/// The severity of catalog entry `n`.
pub open spec fn sev_of(n: u8) -> Severity {
    match n {
        1 => Severity::Error,
        2 => Severity::Error,
        3 => Severity::Error,
        4 => Severity::Error,
        5 => Severity::Error,
        6 => Severity::Error,
        7 => Severity::Error,
        8 => Severity::Warn,
        9 => Severity::Warn,
        10 => Severity::Error,
        11 => Severity::Error,
        12 => Severity::Info,
        13 => Severity::Warn,
        14 => Severity::Warn,
        15 => Severity::Warn,
        16 => Severity::Error,
        17 => Severity::Warn,
        18 => Severity::Warn,
        19 => Severity::Warn,
        _ => Severity::Error,
    }
}

/// The title of catalog entry `n`.
pub open spec fn title_lit(n: u8) -> &'static str {
    match n {
        1 => "Content-Length and Transfer-Encoding are both present",
        2 => "Multiple Content-Length header fields",
        3 => "Content-Length values disagree",
        4 => "Multiple Transfer-Encoding header fields",
        5 => "Transfer-Encoding does not end in chunked",
        6 => "Transfer-Encoding coding is obfuscated",
        7 => "Whitespace between header name and colon",
        8 => "Line terminated by a bare LF",
        9 => "Bare CR inside a line",
        10 => "Content-Length is not a valid integer",
        11 => "Chunk size is not valid hexadecimal",
        12 => "Chunk extension present",
        13 => "Header name contains non-token bytes",
        14 => "Extra whitespace in the request line",
        15 => "HTTP/1.1 request without a Host header",
        16 => "Multiple Host header fields",
        17 => "Bytes remain after the framed body",
        18 => "Body is shorter than its declared length",
        19 => "Obsolete header line folding (obs-fold)",
        _ => "Chunked body is missing its terminating 0-size chunk",
    }
}

/// The description of catalog entry `n`.
pub open spec fn desc_lit(n: u8) -> &'static str {
    match n {
        1 => "A message carries both framing headers. RFC 9112 says the recipient MUST \
                      use Transfer-Encoding and treat the message as unrecoverable if it forwards \
                      it without removing Content-Length. When a front-end and back-end disagree \
                      about which header wins, the leftover bytes become a smuggled request \
                      (the classic CL.TE / TE.CL desync).",
        2 => "More than one Content-Length field was sent. Servers differ on whether they \
                      take the first, the last, or reject the message, so two hops can frame the \
                      body differently.",
        3 => "Content-Length resolves to more than one distinct value (across duplicate \
                      fields or a comma list). The body length is ambiguous and MUST be rejected.",
        4 => "Transfer-Encoding appears more than once. If only one of them names chunked, \
                      a lenient server may honour it while a strict one does not — the TE.TE vector.",
        5 => "The final transfer coding is not chunked (or chunked is missing). For a \
                      request the body length is then undeterminable and the server ought to \
                      answer 400; leniency here is a desync surface.",
        6 => "A transfer coding is written so that only some parsers recognize it as \
                      chunked (for example xchunked, a tab before the value, or odd casing). \
                      This is a deliberate technique to make two servers frame the body differently.",
        7 => "A space or tab sits between the field name and the colon. RFC 9112 forbids it; \
                      some servers strip the space and honour the header, others treat the whole \
                      line as invalid. On a framing header this splits parsers apart.",
        8 => "A line ends with LF instead of CRLF. RFC 9112 lets a recipient treat a bare \
                      LF as a line terminator, so a header a strict CRLF parser ignores can still \
                      take effect downstream — a well-known desync trick.",
        9 => "A carriage return appears that is not part of a CRLF terminator. Parsers \
                      disagree on whether it ends the line, is stripped, or is kept in the value.",
        10 => "The value is not a bare non-negative decimal (it has a sign, spaces, hex, or \
                      trailing junk). Lenient parsers may still extract a number, framing the body \
                      differently from strict ones.",
        11 => "A chunk-size line is not a clean hex number, or the declared size does not \
                      line up with the following CRLF. The chunked stream cannot be trusted.",
        12 => "A chunk carries a ;name=value extension. Harmless on its own, but a surface \
                      for smuggling padding and for parser disagreement.",
        13 => "The field name uses bytes outside the RFC token set (or the line has no \
                      colon). Such lines are handled inconsistently across servers.",
        14 => "The request line is not exactly method SP target SP version. Extra or tab \
                      whitespace can shift how the target and version are parsed.",
        15 => "HTTP/1.1 requires exactly one Host header. Its absence is malformed and \
                      routing becomes implementation-defined.",
        16 => "More than one Host was sent. Different hops may route on different Host \
                      values, which is a request-routing and cache-poisoning vector.",
        17 => "The message is fully framed but bytes follow it. On a request boundary those \
                      bytes are the prefix of a smuggled request; confirm they are intended \
                      pipelining.",
        18 => "Fewer body bytes are present than Content-Length (or the chunked stream) \
                      promised. The message is truncated or waiting for more data.",
        19 => "A header value is continued on a folded line beginning with whitespace. \
                      RFC 9112 deprecates obs-fold; senders and receivers disagree on how to \
                      unfold it.",
        _ => "A chunked message never reached the 0 CRLF CRLF terminator. The receiver \
                      keeps reading, so trailing bytes can be absorbed into this message or leak \
                      into the next.",
    }
}

/// The text of catalog code `n`: `PW0` and two decimal digits.
proof fn lemma_code_digits(n: u8)
    requires
        1 <= n <= 20,
    ensures
        code_lit(n)@.len() == 5,
        code_lit(n)@[3] == ((48 + n / 10) as char),
        code_lit(n)@[4] == ((48 + n % 10) as char),
{
    reveal_strlit("PW001");
    reveal_strlit("PW002");
    reveal_strlit("PW003");
    reveal_strlit("PW004");
    reveal_strlit("PW005");
    reveal_strlit("PW006");
    reveal_strlit("PW007");
    reveal_strlit("PW008");
    reveal_strlit("PW009");
    reveal_strlit("PW010");
    reveal_strlit("PW011");
    reveal_strlit("PW012");
    reveal_strlit("PW013");
    reveal_strlit("PW014");
    reveal_strlit("PW015");
    reveal_strlit("PW016");
    reveal_strlit("PW017");
    reveal_strlit("PW018");
    reveal_strlit("PW019");
    reveal_strlit("PW020");
}

/// The twenty catalog codes are pairwise different, so a code names exactly
/// one entry.
pub proof fn law_catalog_codes_are_distinct(a: u8, b: u8)
    requires
        1 <= a <= 20,
        1 <= b <= 20,
        a != b,
    ensures
        code_lit(a)@ != code_lit(b)@,
{
    lemma_code_digits(a);
    lemma_code_digits(b);
    if code_lit(a)@ == code_lit(b)@ {
        assert(code_lit(a)@[3] == code_lit(b)@[3]);
        assert(code_lit(a)@[4] == code_lit(b)@[4]);
    }
}

/// Catalog entry `n` (1..=20).
pub open spec fn entry_spec(n: u8) -> FindingSpec {
    FindingSpec {
        code: code_lit(n),
        slug: slug_lit(n),
        severity: sev_of(n),
        title: title_lit(n),
        description: desc_lit(n),
    }
}

/// Whether `s` is the text of a catalog code.
pub open spec fn is_known_code(s: Seq<char>) -> bool {
    exists|n: u8| 1 <= n <= 20 && #[trigger] code_lit(n)@ == s
}

/// Catalog entry `n` (1..=20).
pub fn entry(n: u8) -> (e: FindingSpec)
    requires
        1 <= n <= 20,
    ensures
        e == entry_spec(n),
{
    match n {
        1 => FindingSpec {
            code: "PW001",
            slug: "both-cl-te",
            severity: Severity::Error,
            title: "Content-Length and Transfer-Encoding are both present",
            description: "A message carries both framing headers. RFC 9112 says the recipient MUST \
                      use Transfer-Encoding and treat the message as unrecoverable if it forwards \
                      it without removing Content-Length. When a front-end and back-end disagree \
                      about which header wins, the leftover bytes become a smuggled request \
                      (the classic CL.TE / TE.CL desync).",
        },
        2 => FindingSpec {
            code: "PW002",
            slug: "duplicate-content-length",
            severity: Severity::Error,
            title: "Multiple Content-Length header fields",
            description: "More than one Content-Length field was sent. Servers differ on whether they \
                      take the first, the last, or reject the message, so two hops can frame the \
                      body differently.",
        },
        3 => FindingSpec {
            code: "PW003",
            slug: "conflicting-content-length",
            severity: Severity::Error,
            title: "Content-Length values disagree",
            description: "Content-Length resolves to more than one distinct value (across duplicate \
                      fields or a comma list). The body length is ambiguous and MUST be rejected.",
        },
        4 => FindingSpec {
            code: "PW004",
            slug: "duplicate-transfer-encoding",
            severity: Severity::Error,
            title: "Multiple Transfer-Encoding header fields",
            description: "Transfer-Encoding appears more than once. If only one of them names chunked, \
                      a lenient server may honour it while a strict one does not — the TE.TE vector.",
        },
        5 => FindingSpec {
            code: "PW005",
            slug: "te-not-chunked-final",
            severity: Severity::Error,
            title: "Transfer-Encoding does not end in chunked",
            description: "The final transfer coding is not chunked (or chunked is missing). For a \
                      request the body length is then undeterminable and the server ought to \
                      answer 400; leniency here is a desync surface.",
        },
        6 => FindingSpec {
            code: "PW006",
            slug: "obfuscated-transfer-encoding",
            severity: Severity::Error,
            title: "Transfer-Encoding coding is obfuscated",
            description: "A transfer coding is written so that only some parsers recognize it as \
                      chunked (for example xchunked, a tab before the value, or odd casing). \
                      This is a deliberate technique to make two servers frame the body differently.",
        },
        7 => FindingSpec {
            code: "PW007",
            slug: "whitespace-before-colon",
            severity: Severity::Error,
            title: "Whitespace between header name and colon",
            description: "A space or tab sits between the field name and the colon. RFC 9112 forbids it; \
                      some servers strip the space and honour the header, others treat the whole \
                      line as invalid. On a framing header this splits parsers apart.",
        },
        8 => FindingSpec {
            code: "PW008",
            slug: "bare-lf-line-ending",
            severity: Severity::Warn,
            title: "Line terminated by a bare LF",
            description: "A line ends with LF instead of CRLF. RFC 9112 lets a recipient treat a bare \
                      LF as a line terminator, so a header a strict CRLF parser ignores can still \
                      take effect downstream — a well-known desync trick.",
        },
        9 => FindingSpec {
            code: "PW009",
            slug: "bare-cr",
            severity: Severity::Warn,
            title: "Bare CR inside a line",
            description: "A carriage return appears that is not part of a CRLF terminator. Parsers \
                      disagree on whether it ends the line, is stripped, or is kept in the value.",
        },
        10 => FindingSpec {
            code: "PW010",
            slug: "invalid-content-length",
            severity: Severity::Error,
            title: "Content-Length is not a valid integer",
            description: "The value is not a bare non-negative decimal (it has a sign, spaces, hex, or \
                      trailing junk). Lenient parsers may still extract a number, framing the body \
                      differently from strict ones.",
        },
        11 => FindingSpec {
            code: "PW011",
            slug: "invalid-chunk-size",
            severity: Severity::Error,
            title: "Chunk size is not valid hexadecimal",
            description: "A chunk-size line is not a clean hex number, or the declared size does not \
                      line up with the following CRLF. The chunked stream cannot be trusted.",
        },
        12 => FindingSpec {
            code: "PW012",
            slug: "chunk-extension",
            severity: Severity::Info,
            title: "Chunk extension present",
            description: "A chunk carries a ;name=value extension. Harmless on its own, but a surface \
                      for smuggling padding and for parser disagreement.",
        },
        13 => FindingSpec {
            code: "PW013",
            slug: "non-token-header-name",
            severity: Severity::Warn,
            title: "Header name contains non-token bytes",
            description: "The field name uses bytes outside the RFC token set (or the line has no \
                      colon). Such lines are handled inconsistently across servers.",
        },
        14 => FindingSpec {
            code: "PW014",
            slug: "request-target-whitespace",
            severity: Severity::Warn,
            title: "Extra whitespace in the request line",
            description: "The request line is not exactly method SP target SP version. Extra or tab \
                      whitespace can shift how the target and version are parsed.",
        },
        15 => FindingSpec {
            code: "PW015",
            slug: "missing-host",
            severity: Severity::Warn,
            title: "HTTP/1.1 request without a Host header",
            description: "HTTP/1.1 requires exactly one Host header. Its absence is malformed and \
                      routing becomes implementation-defined.",
        },
        16 => FindingSpec {
            code: "PW016",
            slug: "multiple-host",
            severity: Severity::Error,
            title: "Multiple Host header fields",
            description: "More than one Host was sent. Different hops may route on different Host \
                      values, which is a request-routing and cache-poisoning vector.",
        },
        17 => FindingSpec {
            code: "PW017",
            slug: "trailing-body-bytes",
            severity: Severity::Warn,
            title: "Bytes remain after the framed body",
            description: "The message is fully framed but bytes follow it. On a request boundary those \
                      bytes are the prefix of a smuggled request; confirm they are intended \
                      pipelining.",
        },
        18 => FindingSpec {
            code: "PW018",
            slug: "incomplete-body",
            severity: Severity::Warn,
            title: "Body is shorter than its declared length",
            description: "Fewer body bytes are present than Content-Length (or the chunked stream) \
                      promised. The message is truncated or waiting for more data.",
        },
        19 => FindingSpec {
            code: "PW019",
            slug: "obsolete-line-folding",
            severity: Severity::Warn,
            title: "Obsolete header line folding (obs-fold)",
            description: "A header value is continued on a folded line beginning with whitespace. \
                      RFC 9112 deprecates obs-fold; senders and receivers disagree on how to \
                      unfold it.",
        },
        _ => FindingSpec {
            code: "PW020",
            slug: "missing-final-chunk",
            severity: Severity::Error,
            title: "Chunked body is missing its terminating 0-size chunk",
            description: "A chunked message never reached the 0 CRLF CRLF terminator. The receiver \
                      keeps reading, so trailing bytes can be absorbed into this message or leak \
                      into the next.",
        },
    }
}

/// The complete catalog, in presentation order.
pub fn catalog() -> (v: Vec<FindingSpec>)
    ensures
        v@.len() == 20,
        forall|i: int| 0 <= i < 20 ==> #[trigger] v@[i] == entry_spec((i + 1) as u8),
{
    let mut v: Vec<FindingSpec> = Vec::new();
    let mut n: u8 = 1;
    while n <= 20
        invariant
            1 <= n <= 21,
            v@.len() == n - 1,
            forall|i: int| 0 <= i < n - 1 ==> #[trigger] v@[i] == entry_spec((i + 1) as u8),
        decreases 21 - n,
    {
        v.push(entry(n));
        n += 1;
    }
    v
}

/// Look up a catalog entry by code. The code must be one of the catalog's.
pub fn spec(code: &str) -> (e: FindingSpec)
    requires
        is_known_code(code@),
    ensures
        exists|n: u8| 1 <= n <= 20 && code_lit(n)@ == code@ && e == entry_spec(n),
{
    let n = code_number(code);
    entry(n)
}

/// The catalog number of a known code.
fn code_number(code: &str) -> (n: u8)
    requires
        is_known_code(code@),
    ensures
        1 <= n <= 20,
        code_lit(n)@ == code@,
        forall|m: u8| 1 <= m < n ==> code_lit(m)@ != code@,
{
    let mut n: u8 = 1;
    while n <= 20
        invariant
            1 <= n <= 21,
            is_known_code(code@),
            forall|m: u8| 1 <= m < n ==> code_lit(m)@ != code@,
        decreases 21 - n,
    {
        let e = entry(n);
        if str_eq(e.code, code) {
            return n;
        }
        n += 1;
    }
    proof {
        let k = choose|k: u8| 1 <= k <= 20 && #[trigger] code_lit(k)@ == code@;
        assert(code_lit(k)@ != code@);
    }
    0
}

/// The model of a finding: what it says and where.
pub struct FindingView {
    pub code: &'static str,
    pub detail: Seq<char>,
    pub span: Option<Span>,
}

/// The finding for catalog entry `n`.
pub open spec fn note(n: u8, detail: Seq<char>, span: Option<Span>) -> FindingView {
    FindingView { code: code_lit(n), detail, span }
}

/// Whether some finding in `fs` carries the code of catalog entry `n`.
pub open spec fn has_code(fs: Seq<FindingView>, n: u8) -> bool {
    exists|i: int| 0 <= i < fs.len() && #[trigger] fs[i].code == code_lit(n)
}

/// The number of findings with the code of catalog entry `c`.
pub open spec fn code_count(fs: Seq<FindingView>, c: u8) -> nat
    decreases fs.len(),
{
    if fs.len() == 0 {
        0
    } else {
        code_count(fs.drop_last(), c) + (if fs.last().code == code_lit(c) { 1nat } else { 0nat })
    }
}

pub proof fn lemma_code_count_push(fs: Seq<FindingView>, f: FindingView, c: u8)
    ensures
        code_count(fs.push(f), c) == code_count(fs, c) + (if f.code == code_lit(c) {
            1nat
        } else {
            0nat
        }),
{
    assert(fs.push(f).drop_last() =~= fs);
}

/// Counting a code over a concatenation adds the counts of the parts.
pub proof fn lemma_code_count_concat(a: Seq<FindingView>, b: Seq<FindingView>, c: u8)
    ensures
        code_count(a + b, c) == code_count(a, c) + code_count(b, c),
    decreases b.len(),
{
    if b.len() == 0 {
        assert(a + b =~= a);
    } else {
        lemma_code_count_concat(a, b.drop_last(), c);
        assert((a + b).drop_last() =~= a + b.drop_last());
        assert((a + b).last() == b.last());
    }
}

/// A code occurs iff its count is positive.
pub proof fn lemma_code_count_has(fs: Seq<FindingView>, c: u8)
    ensures
        (code_count(fs, c) > 0) == has_code(fs, c),
    decreases fs.len(),
{
    if fs.len() > 0 {
        let d = fs.drop_last();
        lemma_code_count_has(d, c);
        if has_code(d, c) {
            let i = choose|i: int| 0 <= i < d.len() && #[trigger] d[i].code == code_lit(c);
            assert(fs[i] == d[i]);
        }
        if has_code(fs, c) {
            let i = choose|i: int| 0 <= i < fs.len() && #[trigger] fs[i].code == code_lit(c);
            if i < d.len() {
                assert(d[i] == fs[i]);
            }
        }
        if fs.last().code == code_lit(c) {
            lemma_has_code_at(fs, fs.len() - 1, c);
        }
    }
}

/// Findings none of which has code `c` count none.
pub proof fn lemma_code_count_zero(fs: Seq<FindingView>, c: u8)
    requires
        forall|i: int| 0 <= i < fs.len() ==> #[trigger] fs[i].code != code_lit(c),
    ensures
        code_count(fs, c) == 0,
{
    lemma_code_count_has(fs, c);
}

/// A finding at index `i` with code `n` witnesses `has_code`.
pub proof fn lemma_has_code_at(fs: Seq<FindingView>, i: int, n: u8)
    requires
        0 <= i < fs.len(),
        fs[i].code == code_lit(n),
    ensures
        has_code(fs, n),
{
}

/// A code found in `a` is still found in any `b` that extends `a`.
pub proof fn lemma_has_code_grows(a: Seq<FindingView>, b: Seq<FindingView>, n: u8)
    requires
        a.len() <= b.len(),
        forall|i: int| 0 <= i < a.len() ==> #[trigger] b[i] == a[i],
        has_code(a, n),
    ensures
        has_code(b, n),
{
    let i = choose|i: int| 0 <= i < a.len() && #[trigger] a[i].code == code_lit(n);
    lemma_has_code_at(b, i, n);
}

/// One observation about a parsed message.
#[derive(Debug, Clone, PartialEq, Eq)]
pub struct Finding {
    pub code: &'static str,
    pub slug: &'static str,
    pub severity: Severity,
    pub title: &'static str,
    /// A specific, message-dependent explanation (values, counts, offsets).
    pub detail: String,
    /// The bytes this finding is about, if it maps to a region.
    pub span: Option<Span>,
}

impl View for Finding {
    type V = FindingView;

    open spec fn view(&self) -> FindingView {
        FindingView { code: self.code, detail: self.detail@, span: self.span }
    }
}

/// The views of a sequence of findings.
pub open spec fn finding_views(fs: Seq<Finding>) -> Seq<FindingView> {
    fs.map_values(|f: Finding| f@)
}

/// Whether every finding carries its catalog entry's slug, severity and title.
pub open spec fn all_wf(fs: Seq<Finding>) -> bool {
    forall|i: int| 0 <= i < fs.len() ==> #[trigger] fs[i].wf()
}

impl Finding {
    /// The slug, severity and title agree with the catalog entry of the code.
    pub open spec fn wf(self) -> bool {
        exists|n: u8|
            1 <= n <= 20 && self.code == #[trigger] code_lit(n) && self.slug == slug_lit(n)
                && self.severity == sev_of(n) && self.title == title_lit(n)
    }

    /// Build a finding for `code`, filling severity/slug/title from the catalog.
    pub fn new(code: &'static str, detail: String, span: Option<Span>) -> (f: Finding)
        requires
            is_known_code(code@),
        ensures
            f.code@ == code@,
            f.detail@ == detail@,
            f.span == span,
            f.wf(),
    {
        let n = code_number(code);
        Finding::from_entry(n, detail, span)
    }

    /// The finding for catalog entry `n`.
    pub fn from_entry(n: u8, detail: String, span: Option<Span>) -> (f: Finding)
        requires
            1 <= n <= 20,
        ensures
            f@ == note(n, detail@, span),
            f.wf(),
    {
        let s = entry(n);
        Finding {
            code: s.code,
            slug: s.slug,
            severity: s.severity,
            title: s.title,
            detail,
            span,
        }
    }

    /// A finding for entry `n` whose detail is a fixed text.
    pub fn with_text(n: u8, detail: &str, span: Option<Span>) -> (f: Finding)
        requires
            1 <= n <= 20,
        ensures
            f@ == note(n, detail@, span),
            f.wf(),
    {
        let mut d = String::new();
        push_str(&mut d, detail);
        assert(d@ =~= detail@);
        Finding::from_entry(n, d, span)
    }
}

/// Push a finding, keeping the list well formed.
pub fn push_finding(out: &mut Vec<Finding>, f: Finding)
    requires
        f.wf(),
    ensures
        final(out)@ == old(out)@.push(f),
        all_wf(old(out)@) ==> all_wf(final(out)@),
        finding_views(final(out)@) == finding_views(old(out)@).push(f@),
{
    out.push(f);
    assert(finding_views(out@) =~= finding_views(old(out)@).push(f@));
}

/// The number of findings in `fs` with severity `s`.
pub open spec fn count_sev(fs: Seq<Finding>, s: Severity) -> nat
    decreases fs.len(),
{
    if fs.len() == 0 {
        0
    } else {
        count_sev(fs.drop_last(), s) + (if fs.last().severity == s { 1nat } else { 0nat })
    }
}

/// Count of findings by severity, for summaries and exit codes.
#[derive(Debug, Clone, Copy, PartialEq, Eq, Structural)]
pub struct Counts {
    pub error: usize,
    pub warn: usize,
    pub info: usize,
}

impl Default for Counts {
    fn default() -> (c: Counts)
        ensures
            c == (Counts { error: 0, warn: 0, info: 0 }),
    {
        Counts { error: 0, warn: 0, info: 0 }
    }
}

proof fn lemma_count_sum(fs: Seq<Finding>)
    ensures
        count_sev(fs, Severity::Error) + count_sev(fs, Severity::Warn) + count_sev(
            fs,
            Severity::Info,
        ) == fs.len(),
    decreases fs.len(),
{
    if fs.len() > 0 {
        lemma_count_sum(fs.drop_last());
    }
}

impl Counts {
    /// Count the findings of each severity.
    pub fn of(findings: &[Finding]) -> (c: Counts)
        ensures
            c.error == count_sev(findings@, Severity::Error),
            c.warn == count_sev(findings@, Severity::Warn),
            c.info == count_sev(findings@, Severity::Info),
    {
        let mut c = Counts::default();
        let mut i: usize = 0;
        while i < findings.len()
            invariant
                i <= findings@.len(),
                c.error == count_sev(findings@.take(i as int), Severity::Error),
                c.warn == count_sev(findings@.take(i as int), Severity::Warn),
                c.info == count_sev(findings@.take(i as int), Severity::Info),
            decreases findings@.len() - i,
        {
            proof {
                lemma_count_sum(findings@.take(i as int));
            }
            assert(findings@.take(i + 1).drop_last() =~= findings@.take(i as int));
            match findings[i].severity {
                Severity::Error => c.error += 1,
                Severity::Warn => c.warn += 1,
                Severity::Info => c.info += 1,
            }
            i += 1;
        }
        assert(findings@.take(findings@.len() as int) =~= findings@);
        c
    }

    /// Total findings.
    pub fn total(&self) -> (n: usize)
        requires
            self.error + self.warn + self.info <= usize::MAX,
        ensures
            n == self.error + self.warn + self.info,
    {
        self.error + self.warn + self.info
    }

    /// Whether any finding is at least as severe as `threshold`.
    pub fn any_at_least(&self, threshold: Severity) -> (b: bool)
        ensures
            b == ((self.error > 0 && severity_rank(threshold) <= 3) || (self.warn > 0
                && severity_rank(threshold) <= 2) || (self.info > 0 && severity_rank(threshold)
                <= 1)),
    {
        (self.error > 0 && Severity::Error.rank() >= threshold.rank()) || (self.warn > 0
            && Severity::Warn.rank() >= threshold.rank()) || (self.info > 0
            && Severity::Info.rank() >= threshold.rank())
    }
}

/// The counts of any finding list add up to its length.
pub proof fn law_counts_total(fs: Seq<Finding>)
    ensures
        count_sev(fs, Severity::Error) + count_sev(fs, Severity::Warn) + count_sev(
            fs,
            Severity::Info,
        ) == fs.len(),
{
    lemma_count_sum(fs);
}

} // verus!
