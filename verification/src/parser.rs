//! Byte-by-byte HTTP/1.1 message parser.
//!
//! [`parse`] walks the raw buffer one line at a time, recognizing the
//! start-line and the header block, recording an exact [`Span`] for every
//! element and emitting the structural findings (bad line endings, whitespace
//! before a colon, non-token names, obsolete folding, request-line whitespace).
//! It does not decide the body framing; that is [`crate::framing`]'s job.
use vstd::prelude::*;
use crate::findings::{
    all_wf, code_count, code_lit, finding_views, has_code, law_catalog_codes_are_distinct,
    lemma_code_count_concat, lemma_code_count_zero, lemma_has_code_at, lemma_has_code_grows, note,
    push_finding, Finding, FindingView,
};
use crate::message::{
    empty_body, header_views, Body, Header, HeaderView, Message, MessageKind, MessageView,
    ParseMode, StartLine, StartLineView,
};
use crate::span::{span_of, Span};
use crate::text::{
    chars_of, copy_range, dec, find, find_byte, find_char, join, join_range, lemma_find, decode_text,
    text_of, push_dec, push_str, split_chars, split_on, string_of, views_of, esc_free, no_esc,
    lemma_no_esc_concat, lemma_no_esc_subrange, lemma_split_no_esc, lemma_join_no_esc,
    lemma_radix_no_esc,
};

verus! {

// ---------------------------------------------------------------------------
// Lines
// ---------------------------------------------------------------------------

/// The line terminator that ended a line.
#[derive(Debug, Clone, Copy, PartialEq, Eq, Structural)]
pub enum Term {
    /// `\r\n`: the conforming terminator.
    Crlf,
    /// `\n` alone: a desync-relevant bare LF.
    Lf,
    /// End of buffer with no terminator (truncated input).
    Missing,
}

/// One physical line: the content (without terminator) and the full extent
/// (including terminator).
#[derive(Debug, Clone, Copy, PartialEq, Eq, Structural)]
pub struct Line {
    pub content: Span,
    pub full: Span,
    pub term: Term,
}

/// The line that starts at `pos`: it ends at the first `\n` at or after `pos`
/// (a `\r` right before it belongs to the terminator), or at the end of the
/// buffer.
pub open spec fn line_at(buf: Seq<u8>, pos: int) -> Line {
    let n = buf.len() as int;
    if pos >= n || pos < 0 {
        Line {
            content: Span { start: n as usize, end: n as usize },
            full: Span { start: n as usize, end: n as usize },
            term: Term::Missing,
        }
    } else {
        let nl = pos + find(buf.subrange(pos, n), 10u8);
        if nl >= n {
            Line {
                content: Span { start: pos as usize, end: n as usize },
                full: Span { start: pos as usize, end: n as usize },
                term: Term::Missing,
            }
        } else if nl > pos && buf[nl - 1] == 13u8 {
            Line {
                content: Span { start: pos as usize, end: (nl - 1) as usize },
                full: Span { start: pos as usize, end: (nl + 1) as usize },
                term: Term::Crlf,
            }
        } else {
            Line {
                content: Span { start: pos as usize, end: nl as usize },
                full: Span { start: pos as usize, end: (nl + 1) as usize },
                term: Term::Lf,
            }
        }
    }
}

/// The shape of every line: its content sits inside its full extent, which
/// starts at `pos` and makes progress whenever `pos` is inside the buffer.
pub proof fn lemma_line_at(buf: Seq<u8>, pos: int)
    requires
        0 <= pos,
        buf.len() <= usize::MAX,
    ensures
        ({
            let l = line_at(buf, pos);
            &&& l.full.start <= l.content.start <= l.content.end <= l.full.end <= buf.len()
            &&& pos < buf.len() ==> l.full.start == pos && l.content.start == pos && l.full.end
                > pos
            &&& l.term == Term::Lf ==> l.full.end == l.content.end + 1
            &&& l.term != Term::Lf ==> l.full.end >= l.content.end
        }),
{
    let n = buf.len() as int;
    if pos < n {
        lemma_find(buf.subrange(pos, n), 10u8);
    }
}

/// Read the line starting at `pos`.
pub fn read_line(buf: &[u8], pos: usize) -> (l: Line)
    ensures
        l == line_at(buf@, pos as int),
{
    let n = buf.len();
    if pos >= n {
        return Line { content: Span::empty(n), full: Span::empty(n), term: Term::Missing };
    }
    let rest = &buf[pos..n];
    let off = find_byte(rest, 10u8);
    proof {
        lemma_find(rest@, 10u8);
    }
    if off >= rest.len() {
        return Line { content: Span::new(pos, n), full: Span::new(pos, n), term: Term::Missing };
    }
    let nl = pos + off;
    let full = Span::new(pos, nl + 1);
    if nl > pos && buf[nl - 1] == 13u8 {
        Line { content: Span::new(pos, nl - 1), full, term: Term::Crlf }
    } else {
        Line { content: Span::new(pos, nl), full, term: Term::Lf }
    }
}

// ---------------------------------------------------------------------------
// Byte classes
// ---------------------------------------------------------------------------

/// Whether a byte is a valid RFC 9110 token character (used in field names).
pub open spec fn is_token(b: u8) -> bool {
    (48 <= b <= 57) || (65 <= b <= 90) || (97 <= b <= 122) || b == 33 || b == 35 || b == 36 || b
        == 37 || b == 38 || b == 39 || b == 42 || b == 43 || b == 45 || b == 46 || b == 94 || b
        == 95 || b == 96 || b == 124 || b == 126
}

/// Whether a byte is a valid RFC 9110 token character (used in field names).
pub fn is_token_byte(b: u8) -> (r: bool)
    ensures
        r == is_token(b),
{
    (48 <= b && b <= 57) || (65 <= b && b <= 90) || (97 <= b && b <= 122) || b == 33 || b == 35
        || b == 36 || b == 37 || b == 38 || b == 39 || b == 42 || b == 43 || b == 45 || b == 46
        || b == 94 || b == 95 || b == 96 || b == 124 || b == 126
}

/// Optional whitespace: space or horizontal tab.
pub open spec fn is_ows(b: u8) -> bool {
    b == 32 || b == 9
}

/// `s` without leading optional whitespace.
pub open spec fn ows_front(s: Seq<u8>) -> Seq<u8>
    decreases s.len(),
{
    if s.len() > 0 && is_ows(s[0]) {
        ows_front(s.drop_first())
    } else {
        s
    }
}

/// `s` without trailing optional whitespace.
pub open spec fn ows_back(s: Seq<u8>) -> Seq<u8>
    decreases s.len(),
{
    if s.len() > 0 && is_ows(s.last()) {
        ows_back(s.drop_last())
    } else {
        s
    }
}

/// `s` without leading and trailing optional whitespace.
pub open spec fn trim_ows(s: Seq<u8>) -> Seq<u8> {
    ows_back(ows_front(s))
}

/// `s` with optional whitespace removed from both ends.
pub fn trim_ows_bytes(s: &[u8]) -> (r: &[u8])
    ensures
        r@ == trim_ows(s@),
{
    let n = s.len();
    let mut i: usize = 0;
    assert(s@.subrange(0, n as int) =~= s@);
    while i < n && (s[i] == 32u8 || s[i] == 9u8)
        invariant
            i <= n == s@.len(),
            ows_front(s@) == ows_front(s@.subrange(i as int, n as int)),
        decreases n - i,
    {
        assert(s@.subrange(i as int, n as int).drop_first() =~= s@.subrange(i + 1, n as int));
        i += 1;
    }
    let ghost front = s@.subrange(i as int, n as int);
    assert(ows_front(s@) == front) by {
        if front.len() > 0 {
            assert(front[0] == s@[i as int]);
        }
    }
    let mut j: usize = n;
    assert(front.subrange(0, n - i) =~= front);
    while j > i && (s[j - 1] == 32u8 || s[j - 1] == 9u8)
        invariant
            i <= j <= n == s@.len(),
            front == s@.subrange(i as int, n as int),
            ows_back(front) == ows_back(front.subrange(0, j - i)),
        decreases j,
    {
        assert(front.subrange(0, j - i).drop_last() =~= front.subrange(0, j - i - 1));
        j -= 1;
    }
    let ghost kept = front.subrange(0, j - i);
    assert(ows_back(kept) == kept) by {
        if kept.len() > 0 {
            assert(kept.last() == s@[j - 1]);
        }
    }
    assert(kept =~= s@.subrange(i as int, j as int));
    &s[i..j]
}

/// Whether every byte is a token byte.
pub open spec fn all_token(s: Seq<u8>) -> bool {
    forall|i: int| 0 <= i < s.len() ==> is_token(#[trigger] s[i])
}

fn all_token_bytes(s: &[u8]) -> (r: bool)
    ensures
        r == all_token(s@),
{
    let mut i: usize = 0;
    while i < s.len()
        invariant
            i <= s@.len(),
            forall|j: int| 0 <= j < i ==> is_token(#[trigger] s@[j]),
        decreases s@.len() - i,
    {
        if !is_token_byte(s[i]) {
            return false;
        }
        i += 1;
    }
    true
}

// ---------------------------------------------------------------------------
// Bare LF / bare CR bookkeeping
// ---------------------------------------------------------------------------

/// Bare-LF and bare-CR occurrences seen so far, reported once with a count.
pub struct WeirdView {
    pub lf_count: nat,
    pub lf_first: Option<Span>,
    pub cr_count: nat,
    pub cr_first: Option<Span>,
}

/// Nothing seen yet.
pub open spec fn weird_none() -> WeirdView {
    WeirdView { lf_count: 0, lf_first: None, cr_count: 0, cr_first: None }
}

/// Count the CR bytes of `bytes`, which start at offset `base` of the buffer.
pub open spec fn scan_cr(w: WeirdView, bytes: Seq<u8>, base: int) -> WeirdView
    decreases bytes.len(),
{
    if bytes.len() == 0 {
        w
    } else {
        let w0 = scan_cr(w, bytes.drop_last(), base);
        if bytes.last() == 13u8 {
            let at = base + bytes.len() - 1;
            WeirdView {
                cr_count: w0.cr_count + 1,
                cr_first: if w0.cr_first is None {
                    Some(Span { start: at as usize, end: (at + 1) as usize })
                } else {
                    w0.cr_first
                },
                ..w0
            }
        } else {
            w0
        }
    }
}

/// Record a line: a bare-LF terminator and every CR inside its content.
pub open spec fn observe(w: WeirdView, buf: Seq<u8>, line: Line) -> WeirdView {
    let w1 = if line.term == Term::Lf {
        WeirdView {
            lf_count: w.lf_count + 1,
            lf_first: if w.lf_first is None {
                Some(line.full)
            } else {
                w.lf_first
            },
            ..w
        }
    } else {
        w
    };
    scan_cr(w1, line.content.clamped(buf), line.content.start as int)
}

/// The findings the bare-LF / bare-CR counters turn into.
pub open spec fn weird_findings(w: WeirdView) -> Seq<FindingView> {
    let lf = if w.lf_count > 0 {
        seq![
            note(
                8,
                dec(w.lf_count) + " line(s) end with a bare LF instead of CRLF"@,
                w.lf_first,
            ),
        ]
    } else {
        Seq::empty()
    };
    let cr = if w.cr_count > 0 {
        seq![note(9, dec(w.cr_count) + " bare CR byte(s) inside line content"@, w.cr_first)]
    } else {
        Seq::empty()
    };
    lf + cr
}

proof fn lemma_scan_cr_bound(w: WeirdView, bytes: Seq<u8>, base: int)
    ensures
        scan_cr(w, bytes, base).cr_count <= w.cr_count + bytes.len(),
        scan_cr(w, bytes, base).lf_count == w.lf_count,
        scan_cr(w, bytes, base).lf_first == w.lf_first,
    decreases bytes.len(),
{
    if bytes.len() > 0 {
        lemma_scan_cr_bound(w, bytes.drop_last(), base);
    }
}

struct WeirdEndings {
    lf_count: usize,
    lf_first: Option<Span>,
    cr_count: usize,
    cr_first: Option<Span>,
}

impl View for WeirdEndings {
    type V = WeirdView;

    closed spec fn view(&self) -> WeirdView {
        WeirdView {
            lf_count: self.lf_count as nat,
            lf_first: self.lf_first,
            cr_count: self.cr_count as nat,
            cr_first: self.cr_first,
        }
    }
}

impl WeirdEndings {
    fn new() -> (w: WeirdEndings)
        ensures
            w@ == weird_none(),
    {
        WeirdEndings { lf_count: 0, lf_first: None, cr_count: 0, cr_first: None }
    }

    fn observe(&mut self, buf: &[u8], line: &Line)
        requires
            old(self)@.lf_count + old(self)@.cr_count <= line.full.start,
            *line == line_at(buf@, line.full.start as int),
            line.full.start < buf@.len(),
        ensures
            final(self)@ == observe(old(self)@, buf@, *line),
            final(self)@.lf_count + final(self)@.cr_count <= line.full.end,
    {
        let n = buf.len();
        proof {
            lemma_line_at(buf@, line.full.start as int);
        }
        if line.term == Term::Lf {
            self.lf_count += 1;
            if self.lf_first.is_none() {
                self.lf_first = Some(line.full);
            }
        }
        let ghost w1 = self@;
        let bytes = line.content.slice(buf);
        let base = line.content.start;
        let mut i: usize = 0;
        while i < bytes.len()
            invariant
                i <= bytes@.len(),
                bytes@ == line.content.clamped(buf@),
                bytes@.len() == line.content.end - line.content.start,
                base == line.content.start,
                line.content.end <= buf@.len(),
                self@ == scan_cr(w1, bytes@.take(i as int), base as int),
                w1.lf_count + w1.cr_count + bytes@.len() <= line.full.end,
                line.full.end <= n,
                self@.cr_count <= w1.cr_count + i,
                self@.lf_count == w1.lf_count,
            decreases bytes@.len() - i,
        {
            proof {
                lemma_scan_cr_bound(w1, bytes@.take(i as int), base as int);
            }
            assert(bytes@.take(i + 1).drop_last() =~= bytes@.take(i as int));
            if bytes[i] == 13u8 {
                self.cr_count += 1;
                if self.cr_first.is_none() {
                    self.cr_first = Some(Span::new(base + i, base + i + 1));
                }
            }
            i += 1;
        }
        assert(bytes@.take(bytes@.len() as int) =~= bytes@);
    }

    fn emit(&self, out: &mut Vec<Finding>)
        requires
            all_wf(old(out)@),
        ensures
            all_wf(final(out)@),
            finding_views(final(out)@) == finding_views(old(out)@) + weird_findings(self@),
    {
        let ghost start = finding_views(out@);
        if self.lf_count > 0 {
            let mut d = String::new();
            push_dec(&mut d, self.lf_count as u64);
            push_str(&mut d, " line(s) end with a bare LF instead of CRLF");
            push_finding(out, Finding::from_entry(8, d, self.lf_first));
        }
        let ghost mid = finding_views(out@);
        if self.cr_count > 0 {
            let mut d = String::new();
            push_dec(&mut d, self.cr_count as u64);
            push_str(&mut d, " bare CR byte(s) inside line content");
            push_finding(out, Finding::from_entry(9, d, self.cr_first));
        }
        assert(finding_views(out@) =~= start + weird_findings(self@));
    }
}

// ---------------------------------------------------------------------------
// Start-line
// ---------------------------------------------------------------------------

/// The non-empty pieces of `raw`, in order.
pub open spec fn keep_nonempty(raw: Seq<Seq<char>>) -> Seq<Seq<char>>
    decreases raw.len(),
{
    if raw.len() == 0 {
        Seq::empty()
    } else {
        let p = keep_nonempty(raw.drop_last());
        if raw.last().len() > 0 {
            p.push(raw.last())
        } else {
            p
        }
    }
}

/// The `(method, target, version)` of a request line `s`: the first and last
/// non-empty space-separated pieces, and everything between them joined by a
/// space.
pub open spec fn request_fields(s: Seq<char>) -> Seq<Seq<char>> {
    let ne = keep_nonempty(split_on(s, ' '));
    let method = if ne.len() > 0 {
        ne[0]
    } else {
        Seq::empty()
    };
    let target = if ne.len() >= 3 {
        join(ne.subrange(1, ne.len() - 1), seq![' '])
    } else if ne.len() == 2 {
        ne[1]
    } else {
        Seq::empty()
    };
    let version = if ne.len() >= 3 {
        ne.last()
    } else {
        Seq::empty()
    };
    seq![method, target, version]
}

/// Whether a request line is anything but `method SP target SP version`.
pub open spec fn request_irregular(s: Seq<char>) -> bool {
    let raw = split_on(s, ' ');
    raw.len() != 3 || (exists|i: int| 0 <= i < raw.len() && #[trigger] raw[i].len() == 0) || (
    exists|i: int| 0 <= i < s.len() && #[trigger] s[i] == '\t')
}

/// The `(version, status, reason)` of a status line `s`: split at the first
/// two spaces (`splitn(3, ' ')`).
pub open spec fn response_fields(s: Seq<char>) -> Seq<Seq<char>> {
    let i1 = find(s, ' ');
    if i1 >= s.len() {
        seq![s, Seq::empty(), Seq::empty()]
    } else {
        let rest = s.subrange(i1 + 1, s.len() as int);
        let i2 = find(rest, ' ');
        if i2 >= rest.len() {
            seq![s.subrange(0, i1), rest, Seq::empty()]
        } else {
            seq![s.subrange(0, i1), rest.subrange(0, i2), rest.subrange(i2 + 1, rest.len() as int)]
        }
    }
}

/// The start-line model and its findings, for start-line text `s` at `span`.
pub open spec fn start_line_spec(s: Seq<char>, span: Span, kind: MessageKind) -> (
    StartLineView,
    Seq<FindingView>,
) {
    match kind {
        MessageKind::Request => {
            let f = if request_irregular(s) {
                seq![
                    note(
                        14,
                        "request line is not exactly `method SP target SP version` ("@ + dec(
                            split_on(s, ' ').len(),
                        ) + " space-separated field(s))"@,
                        Some(span),
                    ),
                ]
            } else {
                Seq::empty()
            };
            (StartLineView { fields: request_fields(s), span }, f)
        },
        MessageKind::Response => (StartLineView { fields: response_fields(s), span }, Seq::empty()),
    }
}

fn keep_nonempty_parts(raw: &Vec<Vec<char>>) -> (ne: Vec<Vec<char>>)
    ensures
        views_of(ne@) == keep_nonempty(views_of(raw@)),
{
    let mut ne: Vec<Vec<char>> = Vec::new();
    let mut i: usize = 0;
    while i < raw.len()
        invariant
            i <= raw@.len(),
            views_of(ne@) == keep_nonempty(views_of(raw@).take(i as int)),
        decreases raw@.len() - i,
    {
        assert(views_of(raw@).take(i + 1).drop_last() =~= views_of(raw@).take(i as int));
        if raw[i].len() > 0 {
            let c = copy_range(raw[i].as_slice(), 0, raw[i].len());
            assert(c@ =~= raw@[i as int]@);
            ne.push(c);
            assert(views_of(ne@) =~= keep_nonempty(views_of(raw@).take(i + 1)));
        }
        i += 1;
    }
    assert(views_of(raw@).take(raw@.len() as int) =~= views_of(raw@));
    ne
}

fn has_empty_part(raw: &Vec<Vec<char>>) -> (r: bool)
    ensures
        r == exists|i: int| 0 <= i < raw@.len() && #[trigger] views_of(raw@)[i].len() == 0,
{
    let mut i: usize = 0;
    while i < raw.len()
        invariant
            i <= raw@.len(),
            forall|j: int| 0 <= j < i ==> #[trigger] views_of(raw@)[j].len() != 0,
        decreases raw@.len() - i,
    {
        if raw[i].len() == 0 {
            assert(views_of(raw@)[i as int].len() == 0);
            return true;
        }
        i += 1;
    }
    false
}

fn parse_start_line(bytes: &[u8], span: Span, kind: MessageKind, findings: &mut Vec<Finding>) -> (sl: StartLine)
    requires
        all_wf(old(findings)@),
    ensures
        all_wf(final(findings)@),
        sl@ == start_line_spec(text_of(bytes@), span, kind).0,
        finding_views(final(findings)@) == finding_views(old(findings)@) + start_line_spec(
            text_of(bytes@),
            span,
            kind,
        ).1,
        esc_free(bytes@) ==> no_esc(text_of(bytes@)),
{
    let s = decode_text(bytes);
    let cs = chars_of(s.as_str());
    let ghost sv = s@;
    let ghost start = finding_views(findings@);
    match kind {
        MessageKind::Request => {
            let raw = split_chars(cs.as_slice(), ' ');
            let ne = keep_nonempty_parts(&raw);
            let tab = find_char(cs.as_slice(), '\t');
            proof {
                lemma_find(cs@, '\t');
            }
            let irregular = raw.len() != 3 || has_empty_part(&raw) || tab < cs.len();
            assert(irregular == request_irregular(sv)) by {
                if tab < cs.len() {
                    assert(sv[tab as int] == '\t');
                }
                if exists|i: int| 0 <= i < sv.len() && #[trigger] sv[i] == '\t' {
                    let i = choose|i: int| 0 <= i < sv.len() && #[trigger] sv[i] == '\t';
                    assert(tab <= i);
                }
            }
            if irregular {
                let mut d = String::new();
                push_str(&mut d, "request line is not exactly `method SP target SP version` (");
                push_dec(&mut d, raw.len() as u64);
                push_str(&mut d, " space-separated field(s))");
                push_finding(findings, Finding::from_entry(14, d, Some(span)));
            }
            let n = ne.len();
            let method = if n > 0 {
                string_of(ne[0].as_slice())
            } else {
                String::new()
            };
            let version = if n >= 3 {
                string_of(ne[n - 1].as_slice())
            } else {
                String::new()
            };
            let target = if n >= 3 {
                let mut sep: Vec<char> = Vec::new();
                sep.push(' ');
                assert(sep@ =~= seq![' ']);
                let j = join_range(&ne, 1, n - 1, sep.as_slice());
                string_of(j.as_slice())
            } else if n == 2 {
                string_of(ne[1].as_slice())
            } else {
                String::new()
            };
            let sl = StartLine { fields: [method, target, version], span };
            proof {
                let ne_v = keep_nonempty(split_on(sv, ' '));
                assert(views_of(ne@) == ne_v);
                assert(ne_v.len() == n);
                if n > 0 {
                    assert(ne_v[0] == ne@[0]@);
                    assert(sl.fields[0]@ == ne_v[0]);
                }
                if n >= 3 {
                    assert(ne_v[n - 1] == ne@[n - 1]@);
                    assert(sl.fields[2]@ == ne_v.last());
                    assert(sl.fields[1]@ == join(ne_v.subrange(1, n - 1), seq![' ']));
                }
                if n == 2 {
                    assert(ne_v[1] == ne@[1]@);
                }
                assert(sl.fields[0]@ == request_fields(sv)[0]);
                assert(sl.fields[1]@ == request_fields(sv)[1]);
                assert(sl.fields[2]@ == request_fields(sv)[2]);
            }
            assert(sl@.fields =~= request_fields(sv));
            assert(finding_views(findings@) =~= start + start_line_spec(sv, span, kind).1);
            sl
        },
        MessageKind::Response => {
            let i1 = find_char(cs.as_slice(), ' ');
            proof {
                lemma_find(cs@, ' ');
            }
            let sl = if i1 >= cs.len() {
                StartLine { fields: [string_of(cs.as_slice()), String::new(), String::new()], span }
            } else {
                let rest = copy_range(cs.as_slice(), i1 + 1, cs.len());
                let i2 = find_char(rest.as_slice(), ' ');
                proof {
                    lemma_find(rest@, ' ');
                }
                let v = copy_range(cs.as_slice(), 0, i1);
                if i2 >= rest.len() {
                    StartLine {
                        fields: [string_of(v.as_slice()), string_of(rest.as_slice()), String::new()],
                        span,
                    }
                } else {
                    let st = copy_range(rest.as_slice(), 0, i2);
                    let re = copy_range(rest.as_slice(), i2 + 1, rest.len());
                    StartLine {
                        fields: [
                            string_of(v.as_slice()),
                            string_of(st.as_slice()),
                            string_of(re.as_slice()),
                        ],
                        span,
                    }
                }
            };
            assert(sl@.fields =~= response_fields(sv));
            assert(finding_views(findings@) =~= start + start_line_spec(sv, span, kind).1);
            sl
        },
    }
}

// ---------------------------------------------------------------------------
// Header block
// ---------------------------------------------------------------------------

/// What the header loop has built so far.
pub struct HeadState {
    pub headers: Seq<HeaderView>,
    pub findings: Seq<FindingView>,
    pub weird: WeirdView,
}

/// A folded continuation line `cb` (content span `line.content`) joins the
/// previous header's value with a single space.
pub open spec fn fold_spec(st: HeadState, line: Line, cb: Seq<u8>) -> HeadState {
    let f = st.findings.push(
        note(19, "header value continued via obsolete line folding"@, Some(line.content)),
    );
    if st.headers.len() == 0 {
        HeadState { findings: f, ..st }
    } else {
        let prev = st.headers.last();
        let cont = text_of(trim_ows(cb));
        let v = if prev.value.len() == 0 {
            cont
        } else {
            prev.value.push(' ') + cont
        };
        let h = HeaderView {
            value: v,
            value_span: span_of(prev.value_span.start as int, line.content.end as int),
            line_span: span_of(prev.line_span.start as int, line.content.end as int),
            ..prev
        };
        HeadState { headers: st.headers.update(st.headers.len() - 1, h), findings: f, ..st }
    }
}

/// A header line `cb` (content span `line.content`): name, colon, value.
pub open spec fn header_line_spec(st: HeadState, line: Line, cb: Seq<u8>) -> HeadState {
    let base = line.content.start as int;
    let colon = find(cb, 58u8);
    if colon >= cb.len() {
        HeadState {
            findings: st.findings.push(note(13, "header line has no colon"@, Some(line.content))),
            ..st
        }
    } else {
        let name_b = cb.subrange(0, colon);
        let value_b = cb.subrange(colon + 1, cb.len() as int);
        let name_span = span_of(base, base + colon);
        let value_span = span_of(base + colon + 1, line.content.end as int);
        let tn = trim_ows(name_b);
        let f1 = if tn.len() != name_b.len() {
            st.findings.push(
                note(7, "whitespace sits between the field name and the colon"@, Some(name_span)),
            )
        } else {
            st.findings
        };
        let name = text_of(tn);
        let f2 = if name.len() == 0 {
            f1.push(note(13, "empty header field name"@, Some(name_span)))
        } else if !all_token(tn) {
            f1.push(
                note(
                    13,
                    "field name `"@ + name + "` contains non-token bytes"@,
                    Some(name_span),
                ),
            )
        } else {
            f1
        };
        let h = HeaderView {
            name,
            value: text_of(trim_ows(value_b)),
            line_span: line.content,
            name_span,
            value_span,
        };
        HeadState { headers: st.headers.push(h), findings: f2, weird: st.weird }
    }
}

/// The header block from `pos` on: the final state and where the body starts.
pub open spec fn headers_from(buf: Seq<u8>, pos: int, st: HeadState) -> (HeadState, int)
    decreases buf.len() - pos,
{
    if pos < 0 || pos >= buf.len() || buf.len() > usize::MAX {
        (st, buf.len() as int)
    } else {
        let line = line_at(buf, pos);
        let st1 = HeadState { weird: observe(st.weird, buf, line), ..st };
        if line.content.start == line.content.end {
            (st1, line.full.end as int)
        } else {
            let cb = line.content.clamped(buf);
            let st2 = if cb[0] == 32u8 || cb[0] == 9u8 {
                fold_spec(st1, line, cb)
            } else {
                header_line_spec(st1, line, cb)
            };
            proof {
                lemma_line_at(buf, pos);
            }
            headers_from(buf, line.full.end as int, st2)
        }
    }
}

/// The kind of message the start-line bytes `first` announce under `mode`.
pub open spec fn kind_of(mode: ParseMode, first: Seq<u8>) -> MessageKind {
    match mode {
        ParseMode::Request => MessageKind::Request,
        ParseMode::Response => MessageKind::Response,
        ParseMode::Auto => if first.len() >= 5 && first.take(5) == seq![72u8, 84u8, 84u8, 80u8, 47u8] {
            MessageKind::Response
        } else {
            MessageKind::Request
        },
    }
}

/// Everything [`parse`] computes: the message (with an empty body at the
/// body start) and the structural findings, in order.
pub open spec fn parse_spec(buf: Seq<u8>, mode: ParseMode) -> (MessageView, Seq<FindingView>) {
    let first = line_at(buf, 0);
    let fb = first.content.clamped(buf);
    let kind = kind_of(mode, fb);
    let (sl, f0) = start_line_spec(text_of(fb), first.content, kind);
    let w0 = if buf.len() > 0 {
        observe(weird_none(), buf, first)
    } else {
        weird_none()
    };
    let (st, body_start) = headers_from(
        buf,
        first.full.end as int,
        HeadState { headers: Seq::empty(), findings: f0, weird: w0 },
    );
    let msg = MessageView {
        kind,
        start_line: sl,
        headers: st.headers,
        body: empty_body(body_start as usize),
        body_start: body_start as usize,
        raw_len: buf.len() as usize,
    };
    (msg, st.findings + weird_findings(st.weird))
}

// ---------------------------------------------------------------------------
// Laws of the header loop
// ---------------------------------------------------------------------------

proof fn lemma_scan_cr_grows(w: WeirdView, bytes: Seq<u8>, base: int)
    ensures
        scan_cr(w, bytes, base).cr_count >= w.cr_count,
        bytes.contains(13u8) ==> scan_cr(w, bytes, base).cr_count > 0,
    decreases bytes.len(),
{
    if bytes.len() > 0 {
        lemma_scan_cr_grows(w, bytes.drop_last(), base);
        if bytes.contains(13u8) && bytes.last() != 13u8 {
            let k = choose|k: int| 0 <= k < bytes.len() && bytes[k] == 13u8;
            assert(bytes.drop_last()[k] == 13u8);
        }
    }
}

proof fn lemma_observe_grows(w: WeirdView, buf: Seq<u8>, line: Line)
    ensures
        observe(w, buf, line).lf_count >= w.lf_count,
        observe(w, buf, line).cr_count >= w.cr_count,
        line.term == Term::Lf ==> observe(w, buf, line).lf_count > 0,
        line.content.clamped(buf).contains(13u8) ==> observe(w, buf, line).cr_count > 0,
{
    let w1 = if line.term == Term::Lf {
        WeirdView {
            lf_count: w.lf_count + 1,
            lf_first: if w.lf_first is None {
                Some(line.full)
            } else {
                w.lf_first
            },
            ..w
        }
    } else {
        w
    };
    lemma_scan_cr_bound(w1, line.content.clamped(buf), line.content.start as int);
    lemma_scan_cr_grows(w1, line.content.clamped(buf), line.content.start as int);
}

/// The header loop never drops anything it found: the findings so far stay
/// in front of the final findings, and the bare-LF / bare-CR counts only grow.
pub proof fn law_header_loop_keeps_findings(buf: Seq<u8>, pos: int, st: HeadState)
    ensures
        st.findings.len() <= headers_from(buf, pos, st).0.findings.len(),
        forall|i: int|
            0 <= i < st.findings.len() ==> #[trigger] headers_from(buf, pos, st).0.findings[i]
                == st.findings[i],
        headers_from(buf, pos, st).0.weird.lf_count >= st.weird.lf_count,
        headers_from(buf, pos, st).0.weird.cr_count >= st.weird.cr_count,
    decreases buf.len() - pos,
{
    if 0 <= pos < buf.len() && buf.len() <= usize::MAX {
        let line = line_at(buf, pos);
        lemma_observe_grows(st.weird, buf, line);
        let st1 = HeadState { weird: observe(st.weird, buf, line), ..st };
        if line.content.start != line.content.end {
            let cb = line.content.clamped(buf);
            let st2 = if cb[0] == 32u8 || cb[0] == 9u8 {
                fold_spec(st1, line, cb)
            } else {
                header_line_spec(st1, line, cb)
            };
            lemma_line_at(buf, pos);
            law_header_loop_keeps_findings(buf, line.full.end as int, st2);
        }
    }
}

/// A header line that the loop reads with a bare-LF terminator is reported
/// as PW008, and one with a CR inside its content as PW009 (the parser adds
/// `weird_findings` of the loop's final counts after the header findings).
pub proof fn law_bad_line_endings_are_reported(buf: Seq<u8>, pos: int, st: HeadState)
    requires
        0 <= pos < buf.len(),
        buf.len() <= usize::MAX,
    ensures
        line_at(buf, pos).term == Term::Lf ==> has_code(
            weird_findings(headers_from(buf, pos, st).0.weird),
            8,
        ),
        line_at(buf, pos).content.clamped(buf).contains(13u8) ==> has_code(
            weird_findings(headers_from(buf, pos, st).0.weird),
            9,
        ),
{
    let line = line_at(buf, pos);
    lemma_observe_grows(st.weird, buf, line);
    let st1 = HeadState { weird: observe(st.weird, buf, line), ..st };
    if line.content.start != line.content.end {
        let cb = line.content.clamped(buf);
        let st2 = if cb[0] == 32u8 || cb[0] == 9u8 {
            fold_spec(st1, line, cb)
        } else {
            header_line_spec(st1, line, cb)
        };
        lemma_line_at(buf, pos);
        law_header_loop_keeps_findings(buf, line.full.end as int, st2);
    }
    let wf = weird_findings(headers_from(buf, pos, st).0.weird);
    if line.term == Term::Lf {
        lemma_has_code_at(wf, 0, 8);
    }
    if line.content.clamped(buf).contains(13u8) {
        lemma_has_code_at(wf, wf.len() - 1, 9);
    }
}

/// A header line that starts with a space or a tab (obsolete line folding) is
/// reported as PW019.
pub proof fn law_obs_fold_is_reported(buf: Seq<u8>, pos: int, st: HeadState)
    requires
        0 <= pos < buf.len(),
        buf.len() <= usize::MAX,
        line_at(buf, pos).content.start != line_at(buf, pos).content.end,
        line_at(buf, pos).content.clamped(buf)[0] == 32u8 || line_at(buf, pos).content.clamped(
            buf,
        )[0] == 9u8,
    ensures
        has_code(headers_from(buf, pos, st).0.findings, 19),
{
    let line = line_at(buf, pos);
    let st1 = HeadState { weird: observe(st.weird, buf, line), ..st };
    let cb = line.content.clamped(buf);
    let st2 = fold_spec(st1, line, cb);
    lemma_has_code_at(st2.findings, st2.findings.len() - 1, 19);
    lemma_line_at(buf, pos);
    law_header_loop_keeps_findings(buf, line.full.end as int, st2);
    lemma_has_code_grows(st2.findings, headers_from(buf, pos, st).0.findings, 19);
}

/// A header line with whitespace between the field name and the colon is
/// reported as PW007.
pub proof fn law_space_before_colon_is_reported(buf: Seq<u8>, pos: int, st: HeadState)
    requires
        0 <= pos < buf.len(),
        buf.len() <= usize::MAX,
        line_at(buf, pos).content.start != line_at(buf, pos).content.end,
        line_at(buf, pos).content.clamped(buf)[0] != 32u8,
        line_at(buf, pos).content.clamped(buf)[0] != 9u8,
        find(line_at(buf, pos).content.clamped(buf), 58u8) < line_at(
            buf,
            pos,
        ).content.clamped(buf).len(),
        trim_ows(
            line_at(buf, pos).content.clamped(buf).subrange(
                0,
                find(line_at(buf, pos).content.clamped(buf), 58u8),
            ),
        ).len() != find(line_at(buf, pos).content.clamped(buf), 58u8),
    ensures
        has_code(headers_from(buf, pos, st).0.findings, 7),
{
    let line = line_at(buf, pos);
    let st1 = HeadState { weird: observe(st.weird, buf, line), ..st };
    let cb = line.content.clamped(buf);
    let st2 = header_line_spec(st1, line, cb);
    lemma_find(cb, 58u8);
    let k = st1.findings.len();
    assert(st2.findings[k as int].code == code_lit(7));
    lemma_has_code_at(st2.findings, k as int, 7);
    lemma_line_at(buf, pos);
    law_header_loop_keeps_findings(buf, line.full.end as int, st2);
    lemma_has_code_grows(st2.findings, headers_from(buf, pos, st).0.findings, 7);
}

/// A header field line (not a continuation) with no colon, or whose field
/// name, trimmed, is empty or holds a byte that is not a token character, is
/// reported as PW013.
pub proof fn law_malformed_field_line_is_reported(buf: Seq<u8>, pos: int, st: HeadState)
    requires
        0 <= pos < buf.len(),
        buf.len() <= usize::MAX,
        line_at(buf, pos).content.start != line_at(buf, pos).content.end,
        line_at(buf, pos).content.clamped(buf)[0] != 32u8,
        line_at(buf, pos).content.clamped(buf)[0] != 9u8,
        ({
            let cb = line_at(buf, pos).content.clamped(buf);
            let colon = find(cb, 58u8);
            let tn = trim_ows(cb.subrange(0, colon));
            ||| colon >= cb.len()
            ||| text_of(tn).len() == 0
            ||| !all_token(tn)
        }),
    ensures
        has_code(headers_from(buf, pos, st).0.findings, 13),
{
    let line = line_at(buf, pos);
    let st1 = HeadState { weird: observe(st.weird, buf, line), ..st };
    let cb = line.content.clamped(buf);
    let st2 = header_line_spec(st1, line, cb);
    lemma_find(cb, 58u8);
    let colon = find(cb, 58u8);
    let k = st2.findings.len() - 1;
    assert(st2.findings[k as int].code == code_lit(13));
    lemma_has_code_at(st2.findings, k as int, 13);
    lemma_line_at(buf, pos);
    law_header_loop_keeps_findings(buf, line.full.end as int, st2);
    lemma_has_code_grows(st2.findings, headers_from(buf, pos, st).0.findings, 13);
}

// ---------------------------------------------------------------------------
// Text without ESC
// ---------------------------------------------------------------------------

/// Every header name and value, and every finding's detail, is free of ESC.
pub open spec fn texts_ok(hs: Seq<HeaderView>, fs: Seq<FindingView>) -> bool {
    &&& forall|i: int| 0 <= i < hs.len() ==> no_esc((#[trigger] hs[i]).name) && no_esc(hs[i].value)
    &&& forall|i: int| 0 <= i < fs.len() ==> no_esc((#[trigger] fs[i]).detail)
}

pub proof fn lemma_esc_free_subrange(b: Seq<u8>, i: int, j: int)
    requires
        esc_free(b),
        0 <= i <= j <= b.len(),
    ensures
        esc_free(b.subrange(i, j)),
{
    assert forall|k: int| 0 <= k < j - i implies b.subrange(i, j)[k] != 0x1bu8 by {
        assert(b.subrange(i, j)[k] == b[i + k]);
    }
}

pub proof fn lemma_esc_free_trim_ows(b: Seq<u8>)
    requires
        esc_free(b),
    ensures
        esc_free(ows_front(b)),
        esc_free(trim_ows(b)),
    decreases b.len(),
{
    if b.len() > 0 {
        lemma_esc_free_subrange(b, 1, b.len() as int);
        assert(b.drop_first() =~= b.subrange(1, b.len() as int));
        lemma_esc_free_trim_ows(b.drop_first());
    }
    lemma_esc_free_ows_back(ows_front(b));
}

proof fn lemma_esc_free_ows_back(b: Seq<u8>)
    requires
        esc_free(b),
    ensures
        esc_free(ows_back(b)),
    decreases b.len(),
{
    if b.len() > 0 {
        lemma_esc_free_subrange(b, 0, b.len() - 1);
        assert(b.drop_last() =~= b.subrange(0, b.len() - 1));
        lemma_esc_free_ows_back(b.drop_last());
    }
}

proof fn lemma_push_ok(hs: Seq<HeaderView>, fs: Seq<FindingView>, f: FindingView)
    requires
        texts_ok(hs, fs),
        no_esc(f.detail),
    ensures
        texts_ok(hs, fs.push(f)),
{
    assert forall|i: int| 0 <= i < fs.push(f).len() implies no_esc((#[trigger] fs.push(f)[i]).detail) by {
        if i < fs.len() {
            assert(fs.push(f)[i] == fs[i]);
        }
    }
}

/// A header line keeps every text free of ESC when its name and value texts are.
proof fn lemma_header_line_ok(st: HeadState, line: Line, cb: Seq<u8>)
    requires
        texts_ok(st.headers, st.findings),
        find(cb, 58u8) < cb.len() ==> no_esc(text_of(trim_ows(cb.subrange(0, find(cb, 58u8)))))
            && no_esc(text_of(trim_ows(cb.subrange(find(cb, 58u8) + 1, cb.len() as int)))),
    ensures
        texts_ok(header_line_spec(st, line, cb).headers, header_line_spec(st, line, cb).findings),
{
    broadcast use lemma_no_esc_concat;

    reveal_strlit("header line has no colon");
    reveal_strlit("whitespace sits between the field name and the colon");
    reveal_strlit("empty header field name");
    reveal_strlit("field name `");
    reveal_strlit("` contains non-token bytes");
    let colon = find(cb, 58u8);
    lemma_find(cb, 58u8);
    if colon >= cb.len() {
        lemma_push_ok(st.headers, st.findings, note(13, "header line has no colon"@, Some(line.content)));
    } else {
        let r = header_line_spec(st, line, cb);
        let name_b = cb.subrange(0, colon);
        let tn = trim_ows(name_b);
        let name = text_of(tn);
        let base = line.content.start as int;
        let name_span = span_of(base, base + colon);
        let f1 = if tn.len() != name_b.len() {
            st.findings.push(
                note(7, "whitespace sits between the field name and the colon"@, Some(name_span)),
            )
        } else {
            st.findings
        };
        if tn.len() != name_b.len() {
            lemma_push_ok(st.headers, st.findings, note(7, "whitespace sits between the field name and the colon"@, Some(name_span)));
        }
        assert(texts_ok(st.headers, f1));
        if name.len() == 0 {
            lemma_push_ok(st.headers, f1, note(13, "empty header field name"@, Some(name_span)));
        } else if !all_token(tn) {
            lemma_push_ok(
                st.headers,
                f1,
                note(13, "field name `"@ + name + "` contains non-token bytes"@, Some(name_span)),
            );
        }
        assert forall|i: int| 0 <= i < r.headers.len() implies no_esc((#[trigger] r.headers[i]).name)
            && no_esc(r.headers[i].value) by {
            if i < st.headers.len() {
                assert(r.headers[i] == st.headers[i]);
            }
        }
    }
}

/// A folded line keeps every text free of ESC when its continuation text is.
proof fn lemma_fold_ok(st: HeadState, line: Line, cb: Seq<u8>)
    requires
        texts_ok(st.headers, st.findings),
        st.headers.len() > 0 ==> no_esc(text_of(trim_ows(cb))),
    ensures
        texts_ok(fold_spec(st, line, cb).headers, fold_spec(st, line, cb).findings),
{
    broadcast use lemma_no_esc_concat;

    reveal_strlit("header value continued via obsolete line folding");
    let f = note(19, "header value continued via obsolete line folding"@, Some(line.content));
    lemma_push_ok(st.headers, st.findings, f);
    let r = fold_spec(st, line, cb);
    if st.headers.len() > 0 {
        let prev = st.headers.last();
        assert(no_esc(st.headers[st.headers.len() - 1].value));
        assert(no_esc(st.headers[st.headers.len() - 1].name));
        let cont = text_of(trim_ows(cb));
        if prev.value.len() != 0 {
            assert(no_esc(prev.value.push(' '))) by {
                assert(prev.value.push(' ') =~= prev.value + seq![' ']);
            }
        }
        assert forall|i: int| 0 <= i < r.headers.len() implies no_esc((#[trigger] r.headers[i]).name)
            && no_esc(r.headers[i].value) by {
            if i < st.headers.len() - 1 {
                assert(r.headers[i] == st.headers[i]);
            }
        }
    }
}

/// The bare-LF / bare-CR findings carry no ESC.
proof fn lemma_weird_ok(w: WeirdView)
    ensures
        forall|i: int| 0 <= i < weird_findings(w).len() ==> no_esc(#[trigger] weird_findings(w)[i].detail),
{
    broadcast use lemma_no_esc_concat;

    reveal_strlit(" line(s) end with a bare LF instead of CRLF");
    reveal_strlit(" bare CR byte(s) inside line content");
    lemma_radix_no_esc(w.lf_count, 10);
    lemma_radix_no_esc(w.cr_count, 10);
}

/// The start line of ESC-free text has ESC-free fields and findings.
proof fn lemma_start_line_ok(s: Seq<char>, span: Span, kind: MessageKind)
    requires
        no_esc(s),
    ensures
        forall|i: int| 0 <= i < 3 ==> no_esc(#[trigger] start_line_spec(s, span, kind).0.fields[i]),
        forall|i: int|
            0 <= i < start_line_spec(s, span, kind).1.len() ==> no_esc(
                #[trigger] start_line_spec(s, span, kind).1[i].detail,
            ),
{
    broadcast use lemma_no_esc_concat;

    reveal_strlit("request line is not exactly `method SP target SP version` (");
    reveal_strlit(" space-separated field(s))");
    lemma_radix_no_esc(split_on(s, ' ').len(), 10);
    lemma_split_no_esc(s, ' ');
    match kind {
        MessageKind::Request => {
            let raw = split_on(s, ' ');
            lemma_keep_nonempty_no_esc(raw);
            let ne = keep_nonempty(raw);
            let f = request_fields(s);
            if ne.len() >= 3 {
                let mid = ne.subrange(1, ne.len() - 1);
                assert forall|i: int| 0 <= i < mid.len() implies no_esc(#[trigger] mid[i]) by {
                    assert(mid[i] == ne[i + 1]);
                }
                lemma_join_no_esc(mid, seq![' ']);
                assert(no_esc(ne[ne.len() - 1]));
            }
            if ne.len() > 0 {
                assert(no_esc(ne[0]));
            }
            if ne.len() == 2 {
                assert(no_esc(ne[1]));
            }
            assert(no_esc(f[0]) && no_esc(f[1]) && no_esc(f[2]));
        },
        MessageKind::Response => {
            let i1 = find(s, ' ');
            crate::text::lemma_find(s, ' ');
            if i1 < s.len() {
                let rest = s.subrange(i1 + 1, s.len() as int);
                lemma_no_esc_subrange(s, 0, i1);
                lemma_no_esc_subrange(s, i1 + 1, s.len() as int);
                let i2 = find(rest, ' ');
                crate::text::lemma_find(rest, ' ');
                if i2 < rest.len() {
                    lemma_no_esc_subrange(rest, 0, i2);
                    lemma_no_esc_subrange(rest, i2 + 1, rest.len() as int);
                }
            }
            let f = response_fields(s);
            assert(no_esc(f[0]) && no_esc(f[1]) && no_esc(f[2]));
        },
    }
}

proof fn lemma_keep_nonempty_no_esc(raw: Seq<Seq<char>>)
    requires
        forall|i: int| 0 <= i < raw.len() ==> no_esc(#[trigger] raw[i]),
    ensures
        forall|i: int| 0 <= i < keep_nonempty(raw).len() ==> no_esc(#[trigger] keep_nonempty(raw)[i]),
    decreases raw.len(),
{
    if raw.len() > 0 {
        let d = raw.drop_last();
        assert forall|i: int| 0 <= i < d.len() implies no_esc(#[trigger] d[i]) by {
            assert(d[i] == raw[i]);
        }
        lemma_keep_nonempty_no_esc(d);
        let p = keep_nonempty(d);
        assert(no_esc(raw[raw.len() - 1]));
        assert forall|i: int| 0 <= i < keep_nonempty(raw).len() implies no_esc(
            #[trigger] keep_nonempty(raw)[i],
        ) by {
            if i < p.len() {
                assert(keep_nonempty(raw)[i] == p[i]);
            }
        }
    }
}

/// A finding that the header loop or the start line can report: PW007,
/// PW013, PW014 or PW019.
pub open spec fn line_code(f: FindingView) -> bool {
    ||| f.code == code_lit(7)
    ||| f.code == code_lit(13)
    ||| f.code == code_lit(14)
    ||| f.code == code_lit(19)
}

/// A finding that [`parse`] can report: a line finding, or PW008 / PW009.
pub open spec fn parse_code(f: FindingView) -> bool {
    line_code(f) || f.code == code_lit(8) || f.code == code_lit(9)
}

proof fn lemma_header_loop_codes(buf: Seq<u8>, pos: int, st: HeadState)
    requires
        forall|i: int| 0 <= i < st.findings.len() ==> line_code(#[trigger] st.findings[i]),
    ensures
        forall|i: int|
            0 <= i < headers_from(buf, pos, st).0.findings.len() ==> line_code(
                #[trigger] headers_from(buf, pos, st).0.findings[i],
            ),
    decreases buf.len() - pos,
{
    if 0 <= pos < buf.len() && buf.len() <= usize::MAX {
        let line = line_at(buf, pos);
        let st1 = HeadState { weird: observe(st.weird, buf, line), ..st };
        if line.content.start != line.content.end {
            let cb = line.content.clamped(buf);
            let st2 = if cb[0] == 32u8 || cb[0] == 9u8 {
                fold_spec(st1, line, cb)
            } else {
                header_line_spec(st1, line, cb)
            };
            assert forall|i: int| 0 <= i < st2.findings.len() implies line_code(
                #[trigger] st2.findings[i],
            ) by {
                if i < st.findings.len() {
                    assert(st2.findings[i] == st.findings[i]);
                }
            }
            lemma_line_at(buf, pos);
            lemma_header_loop_codes(buf, line.full.end as int, st2);
        }
    }
}

/// What [`parse`] gives for any input: the raw length; a body start inside
/// the buffer with an empty body there; a response exactly when the mode says
/// so or, in auto mode, when the first line starts with `HTTP/`; findings
/// among PW007, PW008, PW009, PW013, PW014 and PW019 only; and PW008 and
/// PW009 at most once each.
pub proof fn law_parse_outcome(buf: Seq<u8>, mode: ParseMode)
    requires
        buf.len() <= usize::MAX,
    ensures
        ({
            let (m, f) = parse_spec(buf, mode);
            let fb = line_at(buf, 0).content.clamped(buf);
            &&& m.raw_len == buf.len()
            &&& m.body_start <= buf.len()
            &&& m.body == empty_body(m.body_start)
            &&& (m.kind == MessageKind::Response) == (mode == ParseMode::Response || (mode
                == ParseMode::Auto && fb.len() >= 5 && fb.take(5) == seq![72u8, 84u8, 84u8, 80u8, 47u8]))
            &&& forall|i: int| 0 <= i < f.len() ==> parse_code(#[trigger] f[i])
            &&& code_count(f, 8) <= 1
            &&& code_count(f, 9) <= 1
        }),
{
    let first = line_at(buf, 0);
    lemma_line_at(buf, 0);
    let fb = first.content.clamped(buf);
    let kind = kind_of(mode, fb);
    let (sl, f0) = start_line_spec(text_of(fb), first.content, kind);
    let w0 = if buf.len() > 0 {
        observe(weird_none(), buf, first)
    } else {
        weird_none()
    };
    let init = HeadState { headers: Seq::empty(), findings: f0, weird: w0 };
    lemma_header_loop_codes(buf, first.full.end as int, init);
    lemma_headers_from_bound(buf, first.full.end as int, init);
    let (st, bs) = headers_from(buf, first.full.end as int, init);
    let wf = weird_findings(st.weird);
    let f = st.findings + wf;
    law_catalog_codes_are_distinct(8, 7);
    law_catalog_codes_are_distinct(8, 13);
    law_catalog_codes_are_distinct(8, 14);
    law_catalog_codes_are_distinct(8, 19);
    law_catalog_codes_are_distinct(9, 7);
    law_catalog_codes_are_distinct(9, 13);
    law_catalog_codes_are_distinct(9, 14);
    law_catalog_codes_are_distinct(9, 19);
    law_catalog_codes_are_distinct(8, 9);
    assert forall|i: int| 0 <= i < f.len() implies parse_code(#[trigger] f[i]) by {
        if i >= st.findings.len() {
            assert(f[i] == wf[i - st.findings.len()]);
        }
    }
    lemma_code_count_zero(st.findings, 8);
    lemma_code_count_zero(st.findings, 9);
    lemma_code_count_concat(st.findings, wf, 8);
    lemma_code_count_concat(st.findings, wf, 9);
    let lf = if st.weird.lf_count > 0 {
        seq![note(8, dec(st.weird.lf_count) + " line(s) end with a bare LF instead of CRLF"@, st.weird.lf_first)]
    } else {
        Seq::<FindingView>::empty()
    };
    let cr = if st.weird.cr_count > 0 {
        seq![note(9, dec(st.weird.cr_count) + " bare CR byte(s) inside line content"@, st.weird.cr_first)]
    } else {
        Seq::<FindingView>::empty()
    };
    assert(wf == lf + cr);
    lemma_code_count_zero(lf, 9);
    lemma_code_count_zero(cr, 8);
    lemma_code_count_concat(lf, cr, 8);
    lemma_code_count_concat(lf, cr, 9);
    if st.weird.lf_count > 0 {
        assert(lf.drop_last() =~= Seq::<FindingView>::empty());
    }
    if st.weird.cr_count > 0 {
        assert(cr.drop_last() =~= Seq::<FindingView>::empty());
        assert(code_count(cr.drop_last(), 9) == 0);
    }
    assert(code_count(cr, 9) <= 1);
    assert(code_count(lf, 9) == 0);
    assert(code_count(wf, 9) <= 1);
    assert(code_count(st.findings, 9) == 0);
    assert(code_count(f, 9) <= 1);
    assert(f == parse_spec(buf, mode).1);
}

proof fn lemma_headers_from_bound(buf: Seq<u8>, pos: int, st: HeadState)
    requires
        0 <= pos,
        buf.len() <= usize::MAX,
    ensures
        0 <= headers_from(buf, pos, st).1 <= buf.len(),
    decreases buf.len() - pos,
{
    if 0 <= pos < buf.len() {
        let line = line_at(buf, pos);
        lemma_line_at(buf, pos);
        let st1 = HeadState { weird: observe(st.weird, buf, line), ..st };
        if line.content.start != line.content.end {
            let cb = line.content.clamped(buf);
            let st2 = if cb[0] == 32u8 || cb[0] == 9u8 {
                fold_spec(st1, line, cb)
            } else {
                header_line_spec(st1, line, cb)
            };
            lemma_headers_from_bound(buf, line.full.end as int, st2);
        }
    }
}

/// A start-line ended by a bare LF is reported as PW008, and a CR inside it
/// as PW009.
pub proof fn law_bad_start_line_endings_are_reported(buf: Seq<u8>, mode: ParseMode)
    requires
        buf.len() > 0,
        buf.len() <= usize::MAX,
    ensures
        line_at(buf, 0).term == Term::Lf ==> has_code(parse_spec(buf, mode).1, 8),
        line_at(buf, 0).content.clamped(buf).contains(13u8) ==> has_code(
            parse_spec(buf, mode).1,
            9,
        ),
{
    let first = line_at(buf, 0);
    let fb = first.content.clamped(buf);
    let kind = kind_of(mode, fb);
    let (sl, f0) = start_line_spec(text_of(fb), first.content, kind);
    let w0 = observe(weird_none(), buf, first);
    lemma_observe_grows(weird_none(), buf, first);
    let st0 = HeadState { headers: Seq::empty(), findings: f0, weird: w0 };
    law_header_loop_keeps_findings(buf, first.full.end as int, st0);
    let st = headers_from(buf, first.full.end as int, st0).0;
    let fs = parse_spec(buf, mode).1;
    let wf = weird_findings(st.weird);
    if first.term == Term::Lf {
        assert(fs[st.findings.len() as int] == wf[0]);
        lemma_has_code_at(fs, st.findings.len() as int, 8);
    }
    if fb.contains(13u8) {
        let at = st.findings.len() + wf.len() - 1;
        assert(fs[at] == wf[wf.len() - 1]);
        lemma_has_code_at(fs, at, 9);
    }
}

/// A span that lies inside a buffer of length `n`.
pub open spec fn inside(s: Span, n: int) -> bool {
    s.start <= s.end <= n
}

/// Every header's spans lie inside the buffer, and its name is exactly the
/// decoded, OWS-trimmed bytes of its name span.
pub open spec fn spans_exact(hs: Seq<HeaderView>, buf: Seq<u8>) -> bool {
    forall|i: int|
        0 <= i < hs.len() ==> {
            let h = #[trigger] hs[i];
            &&& inside(h.line_span, buf.len() as int)
            &&& inside(h.name_span, buf.len() as int)
            &&& inside(h.value_span, buf.len() as int)
            &&& h.name == text_of(trim_ows(h.name_span.clamped(buf)))
        }
}

proof fn lemma_headers_spans(buf: Seq<u8>, pos: int, st: HeadState)
    requires
        0 <= pos,
        buf.len() <= usize::MAX,
        spans_exact(st.headers, buf),
    ensures
        spans_exact(headers_from(buf, pos, st).0.headers, buf),
    decreases buf.len() - pos,
{
    if 0 <= pos < buf.len() {
        let line = line_at(buf, pos);
        lemma_line_at(buf, pos);
        let st1 = HeadState { weird: observe(st.weird, buf, line), ..st };
        if line.content.start != line.content.end {
            let cb = line.content.clamped(buf);
            let st2 = if cb[0] == 32u8 || cb[0] == 9u8 {
                fold_spec(st1, line, cb)
            } else {
                header_line_spec(st1, line, cb)
            };
            if cb[0] == 32u8 || cb[0] == 9u8 {
                if st1.headers.len() > 0 {
                    let k = st1.headers.len() - 1;
                    assert(spans_exact(st2.headers, buf)) by {
                        assert forall|i: int| 0 <= i < st2.headers.len() implies {
                            let h = #[trigger] st2.headers[i];
                            &&& inside(h.line_span, buf.len() as int)
                            &&& inside(h.name_span, buf.len() as int)
                            &&& inside(h.value_span, buf.len() as int)
                            &&& h.name == text_of(trim_ows(h.name_span.clamped(buf)))
                        } by {
                            if i != k {
                                assert(st2.headers[i] == st1.headers[i]);
                            } else {
                                assert(st1.headers[k] == st.headers[k]);
                            }
                        }
                    }
                }
            } else {
                let base = line.content.start as int;
                let colon = find(cb, 58u8);
                lemma_find(cb, 58u8);
                if colon < cb.len() {
                    let name_span = span_of(base, base + colon);
                    assert(name_span.clamped(buf) =~= cb.subrange(0, colon));
                    assert(spans_exact(st2.headers, buf)) by {
                        assert forall|i: int| 0 <= i < st2.headers.len() implies {
                            let h = #[trigger] st2.headers[i];
                            &&& inside(h.line_span, buf.len() as int)
                            &&& inside(h.name_span, buf.len() as int)
                            &&& inside(h.value_span, buf.len() as int)
                            &&& h.name == text_of(trim_ows(h.name_span.clamped(buf)))
                        } by {
                            if i < st.headers.len() {
                                assert(st2.headers[i] == st.headers[i]);
                            }
                        }
                    }
                }
            }
            lemma_headers_spans(buf, line.full.end as int, st2);
        }
    }
}

/// The start-line span and every header's line, name and value spans lie
/// inside the buffer, and each header's name is exactly the bytes its name
/// span covers (OWS-trimmed and decoded).
pub proof fn law_header_spans_are_exact(buf: Seq<u8>, mode: ParseMode)
    requires
        buf.len() <= usize::MAX,
    ensures
        inside(parse_spec(buf, mode).0.start_line.span, buf.len() as int),
        spans_exact(parse_spec(buf, mode).0.headers, buf),
{
    let first = line_at(buf, 0);
    lemma_line_at(buf, 0);
    let fb = first.content.clamped(buf);
    let kind = kind_of(mode, fb);
    let (sl, f0) = start_line_spec(text_of(fb), first.content, kind);
    let w0 = if buf.len() > 0 {
        observe(weird_none(), buf, first)
    } else {
        weird_none()
    };
    let st0 = HeadState { headers: Seq::empty(), findings: f0, weird: w0 };
    lemma_headers_spans(buf, first.full.end as int, st0);
}

fn fold_onto_previous(headers: &mut Vec<Header>, line: &Line, cbytes: &[u8], findings: &mut Vec<Finding>)
    requires
        all_wf(old(findings)@),
    ensures
        all_wf(final(findings)@),
        ({
            let st = HeadState {
                headers: header_views(old(headers)@),
                findings: finding_views(old(findings)@),
                weird: weird_none(),
            };
            let r = fold_spec(st, *line, cbytes@);
            &&& header_views(final(headers)@) == r.headers
            &&& finding_views(final(findings)@) == r.findings
        }),
        esc_free(cbytes@) && old(headers)@.len() > 0 ==> no_esc(text_of(trim_ows(cbytes@))),
{
    proof {
        if esc_free(cbytes@) {
            lemma_esc_free_trim_ows(cbytes@);
        }
    }
    push_finding(
        findings,
        Finding::with_text(19, "header value continued via obsolete line folding", Some(line.content)),
    );
    let ghost hv = header_views(headers@);
    if headers.len() > 0 {
        let mut prev = headers.pop().unwrap();
        assert(headers@ =~= old(headers)@.drop_last());
        let ghost pv = prev@;
        let cont = decode_text(trim_ows_bytes(cbytes));
        if !prev.value.as_str().is_empty() {
            text_push_space(&mut prev.value);
        }
        prev.value.append(cont.as_str());
        prev.value_span = Span::new(prev.value_span.start, line.content.end);
        prev.line_span = Span::new(prev.line_span.start, line.content.end);
        headers.push(prev);
        assert(header_views(headers@) =~= hv.update(hv.len() - 1, prev@));
    }
}

fn text_push_space(s: &mut String)
    ensures
        final(s)@ == old(s)@.push(' '),
{
    crate::text::push_char(s, ' ');
}

fn parse_header_line(line: &Line, cbytes: &[u8], headers: &mut Vec<Header>, findings: &mut Vec<Finding>)
    requires
        all_wf(old(findings)@),
        line.content.start + cbytes@.len() == line.content.end,
    ensures
        all_wf(final(findings)@),
        ({
            let st = HeadState {
                headers: header_views(old(headers)@),
                findings: finding_views(old(findings)@),
                weird: weird_none(),
            };
            let r = header_line_spec(st, *line, cbytes@);
            &&& header_views(final(headers)@) == r.headers
            &&& finding_views(final(findings)@) == r.findings
        }),
        esc_free(cbytes@) && find(cbytes@, 58u8) < cbytes@.len() ==> no_esc(
            text_of(trim_ows(cbytes@.subrange(0, find(cbytes@, 58u8)))),
        ) && no_esc(
            text_of(trim_ows(cbytes@.subrange(find(cbytes@, 58u8) + 1, cbytes@.len() as int))),
        ),
{
    let base = line.content.start;
    let colon = find_byte(cbytes, 58u8);
    proof {
        lemma_find(cbytes@, 58u8);
    }
    if colon >= cbytes.len() {
        push_finding(findings, Finding::with_text(13, "header line has no colon", Some(line.content)));
        return;
    }
    let name_bytes = &cbytes[0..colon];
    let value_bytes = &cbytes[colon + 1..cbytes.len()];
    let name_span = Span::new(base, base + colon);
    let value_span = Span::new(base + colon + 1, line.content.end);
    let trimmed_name = trim_ows_bytes(name_bytes);
    if trimmed_name.len() != name_bytes.len() {
        push_finding(
            findings,
            Finding::with_text(
                7,
                "whitespace sits between the field name and the colon",
                Some(name_span),
            ),
        );
    }
    proof {
        if esc_free(cbytes@) {
            lemma_esc_free_subrange(cbytes@, 0, colon as int);
            assert(name_bytes@ =~= cbytes@.subrange(0, colon as int));
            lemma_esc_free_trim_ows(name_bytes@);
            lemma_esc_free_subrange(cbytes@, colon + 1, cbytes@.len() as int);
            assert(value_bytes@ =~= cbytes@.subrange(colon + 1, cbytes@.len() as int));
            lemma_esc_free_trim_ows(value_bytes@);
        }
    }
    let name = decode_text(trimmed_name);
    if name.as_str().is_empty() {
        push_finding(findings, Finding::with_text(13, "empty header field name", Some(name_span)));
    } else if !all_token_bytes(trimmed_name) {
        let mut d = String::new();
        push_str(&mut d, "field name `");
        d.append(name.as_str());
        push_str(&mut d, "` contains non-token bytes");
        push_finding(findings, Finding::from_entry(13, d, Some(name_span)));
    }
    let value = decode_text(trim_ows_bytes(value_bytes));
    let ghost hv = header_views(headers@);
    let h = Header { name, value, line_span: line.content, name_span, value_span };
    headers.push(h);
    assert(header_views(headers@) =~= hv.push(h@));
}

/// Parse the start-line and headers of a raw message. Returns the structural
/// [`Message`] (with an empty body at the body start) and the structural
/// findings.
pub fn parse(buf: &[u8], mode: ParseMode) -> (res: (Message, Vec<Finding>))
    ensures
        res.0@ == parse_spec(buf@, mode).0,
        finding_views(res.1@) == parse_spec(buf@, mode).1,
        all_wf(res.1@),
        res.0.body_start <= buf@.len(),
        esc_free(buf@) ==> (forall|i: int| 0 <= i < 3 ==> no_esc(#[trigger] res.0@.start_line.fields[i]))
            && texts_ok(res.0@.headers, finding_views(res.1@)),
{
    let mut findings: Vec<Finding> = Vec::new();
    let mut weird = WeirdEndings::new();
    let n = buf.len();
    let first = read_line(buf, 0);
    proof {
        lemma_line_at(buf@, 0);
    }
    if n > 0 {
        weird.observe(buf, &first);
    }
    let first_bytes = first.content.slice(buf);
    let kind = match mode {
        ParseMode::Request => MessageKind::Request,
        ParseMode::Response => MessageKind::Response,
        ParseMode::Auto => {
            let is_http = first_bytes.len() >= 5 && first_bytes[0] == 72u8 && first_bytes[1]
                == 84u8 && first_bytes[2] == 84u8 && first_bytes[3] == 80u8 && first_bytes[4]
                == 47u8;
            let ghost http = seq![72u8, 84u8, 84u8, 80u8, 47u8];
            proof {
                if first_bytes@.len() >= 5 {
                    let t = first_bytes@.take(5);
                    if t == http {
                        assert(t[0] == http[0] && t[1] == http[1] && t[2] == http[2] && t[3]
                            == http[3] && t[4] == http[4]);
                    }
                    if is_http {
                        assert(t =~= http);
                    }
                }
            }
            if is_http {
                MessageKind::Response
            } else {
                MessageKind::Request
            }
        },
    };
    let start_line = parse_start_line(first_bytes, first.content, kind, &mut findings);
    proof {
        if esc_free(buf@) {
            let c = first.content;
            lemma_esc_free_subrange(buf@, c.start as int, c.end as int);
            assert(first_bytes@ =~= buf@.subrange(c.start as int, c.end as int));
            lemma_start_line_ok(text_of(first_bytes@), first.content, kind);
            assert(texts_ok(Seq::<HeaderView>::empty(), finding_views(findings@))) by {
                assert forall|i: int| 0 <= i < finding_views(findings@).len() implies no_esc(
                    (#[trigger] finding_views(findings@)[i]).detail,
                ) by {
                    assert(finding_views(findings@)[i] == start_line_spec(
                        text_of(first_bytes@),
                        first.content,
                        kind,
                    ).1[i]);
                }
            }
        }
    }
    let mut headers: Vec<Header> = Vec::new();
    let mut pos = first.full.end;
    let ghost init = HeadState {
        headers: Seq::empty(),
        findings: finding_views(findings@),
        weird: weird@,
    };
    let ghost target = headers_from(buf@, first.full.end as int, init);
    assert(header_views(headers@) =~= Seq::<HeaderView>::empty());
    let mut body_start: usize = n;
    loop
        invariant_except_break
            pos <= n == buf@.len(),
            all_wf(findings@),
            esc_free(buf@) ==> texts_ok(header_views(headers@), finding_views(findings@)),
            weird@.lf_count + weird@.cr_count <= pos,
            headers_from(
                buf@,
                pos as int,
                HeadState {
                    headers: header_views(headers@),
                    findings: finding_views(findings@),
                    weird: weird@,
                },
            ) == target,
        ensures
            all_wf(findings@),
            esc_free(buf@) ==> texts_ok(header_views(headers@), finding_views(findings@)),
            body_start <= n,
            target == (
                HeadState {
                    headers: header_views(headers@),
                    findings: finding_views(findings@),
                    weird: weird@,
                },
                body_start as int,
            ),
        decreases n - pos,
    {
        if pos >= n {
            body_start = n;
            break;
        }
        let line = read_line(buf, pos);
        proof {
            lemma_line_at(buf@, pos as int);
        }
        weird.observe(buf, &line);
        if line.content.is_empty() {
            body_start = line.full.end;
            break;
        }
        let cbytes = line.content.slice(buf);
        proof {
            if esc_free(buf@) {
                let c = line.content;
                lemma_esc_free_subrange(buf@, c.start as int, c.end as int);
                assert(cbytes@ =~= buf@.subrange(c.start as int, c.end as int));
            }
        }
        let first_byte = cbytes[0];
        let ghost st1 = HeadState {
            headers: header_views(headers@),
            findings: finding_views(findings@),
            weird: weird@,
        };
        if first_byte == 32u8 || first_byte == 9u8 {
            fold_onto_previous(&mut headers, &line, cbytes, &mut findings);
            proof {
                if esc_free(buf@) {
                    lemma_fold_ok(st1, line, cbytes@);
                }
            }
            assert(HeadState {
                headers: header_views(headers@),
                findings: finding_views(findings@),
                weird: weird@,
            } == fold_spec(st1, line, cbytes@));
        } else {
            parse_header_line(&line, cbytes, &mut headers, &mut findings);
            proof {
                if esc_free(buf@) {
                    lemma_header_line_ok(st1, line, cbytes@);
                }
            }
            assert(HeadState {
                headers: header_views(headers@),
                findings: finding_views(findings@),
                weird: weird@,
            } == header_line_spec(st1, line, cbytes@));
        }
        pos = line.full.end;
    }
    let ghost before_emit = finding_views(findings@);
    let ghost wv = weird@;
    weird.emit(&mut findings);
    proof {
        if esc_free(buf@) {
            lemma_weird_ok(wv);
            let fv = finding_views(findings@);
            assert forall|i: int| 0 <= i < fv.len() implies no_esc((#[trigger] fv[i]).detail) by {
                if i >= before_emit.len() {
                    assert(fv[i] == weird_findings(wv)[i - before_emit.len()]);
                } else {
                    assert(fv[i] == before_emit[i]);
                }
            }
        }
    }
    let message = Message {
        kind,
        start_line,
        headers,
        body: Body::empty(body_start),
        body_start,
        raw_len: n,
    };
    (message, findings)
}

} // verus!
