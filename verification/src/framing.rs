//! Body-framing analysis: deciding how long the body is and, in doing so,
//! surfacing the request-smuggling ambiguities.
//!
//! HTTP/1.1 message length follows a strict precedence (RFC 9112 §6.1–6.3):
//! Transfer-Encoding with a final `chunked` coding wins; otherwise a single
//! valid Content-Length applies; a message carrying both, or contradictory
//! copies of either, is unrecoverable. [`analyze`] reproduces that precedence,
//! frames the body accordingly, and reports every point where two conforming
//! parsers could reach different lengths.
use vstd::prelude::*;
use crate::chunked::{scan_chunks, scan_spec};
use crate::findings::{
    all_wf, code_count, code_lit, law_catalog_codes_are_distinct, lemma_code_count_concat,
    lemma_code_count_has, lemma_code_count_push, lemma_code_count_zero, finding_views, has_code, lemma_has_code_at, lemma_has_code_grows, note,
    push_finding, Finding, FindingView,
};
use crate::message::{
    empty_body, header_views, Body, BodyView, ChunkView, Framing, Header,
    HeaderView, Message, MessageKind, MessageView,
};
use crate::span::{span_of, Span};
use crate::text::{
    esc_free, lemma_join_no_esc, lemma_lower_no_esc, lemma_no_esc_concat, lemma_radix_no_esc,
    lemma_split_no_esc, lemma_trim_no_esc, no_esc,
    ascii_ieq, chars_contain, chars_of, contains_run, dec, join, lemma_join_step, lower_all,
    lower_chars, push_chars, push_dec, push_str, split_chars, split_on, trim,
    trim_chars, views_of,
};

verus! {

// ---------------------------------------------------------------------------
// Collecting framing-relevant headers
// ---------------------------------------------------------------------------

/// The value and line span of every header named `name` (ASCII
/// case-insensitively), in order.
pub open spec fn collect_spec(hs: Seq<HeaderView>, name: Seq<char>) -> Seq<(Seq<char>, Span)>
    decreases hs.len(),
{
    if hs.len() == 0 {
        Seq::empty()
    } else {
        let p = collect_spec(hs.drop_last(), name);
        if ascii_ieq(hs.last().name, name) {
            p.push((hs.last().value, hs.last().line_span))
        } else {
            p
        }
    }
}

/// One collected header: its value characters and line span.
struct HeaderRef {
    value: Vec<char>,
    span: Span,
}

spec fn ref_views(rs: Seq<HeaderRef>) -> Seq<(Seq<char>, Span)> {
    rs.map_values(|r: HeaderRef| (r.value@, r.span))
}

fn collect(headers: &Vec<Header>, name: &str) -> (out: Vec<HeaderRef>)
    ensures
        ref_views(out@) == collect_spec(header_views(headers@), name@),
{
    let mut out: Vec<HeaderRef> = Vec::new();
    let mut i: usize = 0;
    while i < headers.len()
        invariant
            i <= headers@.len(),
            ref_views(out@) == collect_spec(header_views(headers@).take(i as int), name@),
        decreases headers@.len() - i,
    {
        assert(header_views(headers@).take(i + 1).drop_last() =~= header_views(headers@).take(
            i as int,
        ));
        if headers[i].is(name) {
            let r = HeaderRef { value: chars_of(headers[i].value.as_str()), span: headers[i].line_span };
            let ghost before = ref_views(out@);
            out.push(r);
            assert(ref_views(out@) =~= before.push((r.value@, r.span)));
        }
        i += 1;
    }
    assert(header_views(headers@).take(headers@.len() as int) =~= header_views(headers@));
    out
}

/// The smallest span covering both.
pub open spec fn combine(a: Span, b: Span) -> Span {
    span_of(
        if a.start < b.start { a.start as int } else { b.start as int },
        if a.end > b.end { a.end as int } else { b.end as int },
    )
}

fn combine_spans(a: Span, b: Span) -> (s: Span)
    ensures
        s == combine(a, b),
{
    Span::new(if a.start < b.start { a.start } else { b.start }, if a.end > b.end { a.end } else { b.end })
}

// ---------------------------------------------------------------------------
// Content-Length
// ---------------------------------------------------------------------------

/// The number a run of ASCII decimal digits spells.
pub open spec fn dec_number(s: Seq<char>) -> nat
    decreases s.len(),
{
    if s.len() == 0 {
        0
    } else {
        dec_number(s.drop_last()) * 10 + (s.last() as nat - 48) as nat
    }
}

/// Whether a char is an ASCII decimal digit.
pub open spec fn is_digit(c: char) -> bool {
    '0' <= c && c <= '9'
}

/// A Content-Length token: a non-empty run of ASCII digits whose value fits in
/// `u64` (`str::parse::<u64>` after checking every char is a digit).
pub open spec fn cl_value(s: Seq<char>) -> Option<u64> {
    if s.len() > 0 && (forall|i: int| 0 <= i < s.len() ==> is_digit(#[trigger] s[i]))
        && dec_number(s) <= u64::MAX {
        Some(dec_number(s) as u64)
    } else {
        None
    }
}

proof fn lemma_dec_number_grows(s: Seq<char>, i: int)
    requires
        0 <= i <= s.len(),
    ensures
        dec_number(s.take(i)) <= dec_number(s),
    decreases s.len() - i,
{
    if i < s.len() {
        lemma_dec_number_grows(s, i + 1);
        assert(s.take(i + 1).drop_last() =~= s.take(i));
    } else {
        assert(s.take(i) =~= s);
    }
}

fn parse_cl(token: &[char]) -> (r: Option<u64>)
    ensures
        r == cl_value(token@),
{
    let n = token.len();
    if n == 0 {
        return None;
    }
    let mut i: usize = 0;
    while i < n
        invariant
            i <= n == token@.len(),
            forall|j: int| 0 <= j < i ==> is_digit(#[trigger] token@[j]),
        decreases n - i,
    {
        if !('0' <= token[i] && token[i] <= '9') {
            return None;
        }
        i += 1;
    }
    let mut acc: u64 = 0;
    let mut k: usize = 0;
    while k < n
        invariant
            k <= n == token@.len(),
            forall|j: int| 0 <= j < n ==> is_digit(#[trigger] token@[j]),
            acc == dec_number(token@.take(k as int)),
        decreases n - k,
    {
        assert(is_digit(token@[k as int]));
        let d: u64 = ((token[k] as u32) - 48) as u64;
        assert(token@.take(k + 1).drop_last() =~= token@.take(k as int));
        if acc > (u64::MAX - d) / 10 {
            proof {
                lemma_dec_number_grows(token@, k + 1);
                assert(acc * 10 + d > u64::MAX) by (nonlinear_arith)
                    requires
                        acc > (u64::MAX - d) / 10,
                        d <= 9,
                ;
            }
            return None;
        }
        assert(acc * 10 + d <= u64::MAX) by (nonlinear_arith)
            requires
                acc <= (u64::MAX - d) / 10,
                d <= 9,
        ;
        acc = acc * 10 + d;
        k += 1;
    }
    assert(token@.take(n as int) =~= token@);
    Some(acc)
}

/// What resolving Content-Length has gathered so far.
pub struct ClAcc {
    /// Distinct valid values, in order of first appearance.
    pub values: Seq<u64>,
    /// Whether some value was not a bare decimal.
    pub invalid: bool,
    pub findings: Seq<FindingView>,
}

/// Fold the comma-separated pieces of one Content-Length field.
pub open spec fn cl_pieces(acc: ClAcc, pieces: Seq<Seq<char>>, span: Span) -> ClAcc
    decreases pieces.len(),
{
    if pieces.len() == 0 {
        acc
    } else {
        let a = cl_pieces(acc, pieces.drop_last(), span);
        let token = trim(pieces.last());
        match cl_value(token) {
            Some(v) => if a.values.contains(v) {
                a
            } else {
                ClAcc { values: a.values.push(v), ..a }
            },
            None => ClAcc {
                invalid: true,
                findings: a.findings.push(
                    note(
                        10,
                        "Content-Length value `"@ + token + "` is not a bare decimal integer"@,
                        Some(span),
                    ),
                ),
                ..a
            },
        }
    }
}

/// Fold every Content-Length field.
pub open spec fn cl_fields(cls: Seq<(Seq<char>, Span)>) -> ClAcc
    decreases cls.len(),
{
    if cls.len() == 0 {
        ClAcc { values: Seq::empty(), invalid: false, findings: Seq::empty() }
    } else {
        cl_pieces(cl_fields(cls.drop_last()), split_on(cls.last().0, ','), cls.last().1)
    }
}

/// The resolution of Content-Length across its fields.
pub struct ClResolution {
    /// The single agreed length, if exactly one valid value was found.
    pub value: Option<u64>,
    /// True if a Content-Length field is present at all.
    pub present: bool,
    /// True if any value was unparseable.
    pub invalid: bool,
}

/// Content-Length resolution: the outcome and the findings, in order.
pub open spec fn cl_spec(cls: Seq<(Seq<char>, Span)>) -> (ClResolution, Seq<FindingView>) {
    if cls.len() == 0 {
        (ClResolution { value: None, present: false, invalid: false }, Seq::empty())
    } else {
        let sp = combine(cls[0].1, cls.last().1);
        let f1 = if cls.len() > 1 {
            seq![
                note(
                    2,
                    dec(cls.len()) + " Content-Length header fields are present"@,
                    Some(sp),
                ),
            ]
        } else {
            Seq::empty()
        };
        let acc = cl_fields(cls);
        let f3 = if acc.values.len() > 1 {
            seq![
                note(
                    3,
                    "Content-Length resolves to multiple values: "@ + join(
                        acc.values.map_values(|v: u64| dec(v as nat)),
                        seq![',', ' '],
                    ),
                    Some(sp),
                ),
            ]
        } else {
            Seq::empty()
        };
        (
            ClResolution {
                value: if !acc.invalid && acc.values.len() == 1 {
                    Some(acc.values[0])
                } else {
                    None
                },
                present: true,
                invalid: acc.invalid,
            },
            f1 + acc.findings + f3,
        )
    }
}

fn contains_u64(v: &Vec<u64>, x: u64) -> (r: bool)
    ensures
        r == v@.contains(x),
{
    let mut i: usize = 0;
    while i < v.len()
        invariant
            i <= v@.len(),
            forall|j: int| 0 <= j < i ==> v@[j] != x,
        decreases v@.len() - i,
    {
        if v[i] == x {
            return true;
        }
        i += 1;
    }
    false
}

fn resolve_content_length(cls: &Vec<HeaderRef>, findings: &mut Vec<Finding>) -> (r: ClResolution)
    ensures
        all_wf(old(findings)@) ==> all_wf(final(findings)@),
        r == cl_spec(ref_views(cls@)).0,
        finding_views(final(findings)@) == finding_views(old(findings)@) + cl_spec(
            ref_views(cls@),
        ).1,
{
    let ghost rv = ref_views(cls@);
    let ghost f0 = finding_views(findings@);
    let ghost w0 = all_wf(findings@);
    if cls.len() == 0 {
        assert(finding_views(findings@) =~= f0 + cl_spec(rv).1);
        return ClResolution { value: None, present: false, invalid: false };
    }
    let last = cls.len() - 1;
    let sp = combine_spans(cls[0].span, cls[last].span);
    if cls.len() > 1 {
        let mut d = String::new();
        push_dec(&mut d, cls.len() as u64);
        push_str(&mut d, " Content-Length header fields are present");
        push_finding(findings, Finding::from_entry(2, d, Some(sp)));
    }
    let ghost f1 = finding_views(findings@);
    let mut values: Vec<u64> = Vec::new();
    let mut invalid = false;
    let mut i: usize = 0;
    while i < cls.len()
        invariant
            i <= cls@.len(),
            rv == ref_views(cls@),
            w0 ==> all_wf(findings@),
            f1.len() <= finding_views(findings@).len(),
            finding_views(findings@).subrange(0, f1.len() as int) == f1,
            ({
                let a = cl_fields(rv.take(i as int));
                &&& a.values == values@
                &&& a.invalid == invalid
                &&& a.findings == finding_views(findings@).subrange(
                    f1.len() as int,
                    finding_views(findings@).len() as int,
                )
            }),
        decreases cls@.len() - i,
    {
        assert(rv.take(i + 1).drop_last() =~= rv.take(i as int));
        let pieces = split_chars(cls[i].value.as_slice(), ',');
        let ghost a0 = cl_fields(rv.take(i as int));
        let mut j: usize = 0;
        while j < pieces.len()
            invariant
                i < cls@.len(),
                j <= pieces@.len(),
                rv == ref_views(cls@),
                views_of(pieces@) == split_on(rv[i as int].0, ','),
                w0 ==> all_wf(findings@),
                f1.len() <= finding_views(findings@).len(),
                finding_views(findings@).subrange(0, f1.len() as int) == f1,
                ({
                    let a = cl_pieces(a0, views_of(pieces@).take(j as int), rv[i as int].1);
                    &&& a.values == values@
                    &&& a.invalid == invalid
                    &&& a.findings == finding_views(findings@).subrange(
                        f1.len() as int,
                        finding_views(findings@).len() as int,
                    )
                }),
            decreases pieces@.len() - j,
        {
            assert(views_of(pieces@).take(j + 1).drop_last() =~= views_of(pieces@).take(j as int));
            let token = trim_chars(pieces[j].as_slice());
            let ghost fa = finding_views(findings@);
            match parse_cl(token.as_slice()) {
                Some(v) => {
                    if !contains_u64(&values, v) {
                        values.push(v);
                    }
                },
                None => {
                    invalid = true;
                    let mut d = String::new();
                    push_str(&mut d, "Content-Length value `");
                    push_chars(&mut d, token.as_slice());
                    push_str(&mut d, "` is not a bare decimal integer");
                    push_finding(findings, Finding::from_entry(10, d, Some(cls[i].span)));
                    assert(finding_views(findings@).subrange(0, f1.len() as int) =~= f1);
                    assert(finding_views(findings@).subrange(
                        f1.len() as int,
                        finding_views(findings@).len() as int,
                    ) =~= fa.subrange(f1.len() as int, fa.len() as int).push(
                        finding_views(findings@).last(),
                    ));
                },
            }
            j += 1;
        }
        assert(views_of(pieces@).take(pieces@.len() as int) =~= views_of(pieces@));
        i += 1;
    }
    assert(rv.take(cls@.len() as int) =~= rv);
    let ghost f2 = finding_views(findings@);
    if values.len() > 1 {
        let mut d = String::new();
        push_str(&mut d, "Content-Length resolves to multiple values: ");
        let ghost dstart = d@;
        let ghost strs = values@.map_values(|v: u64| dec(v as nat));
        let mut k: usize = 0;
        while k < values.len()
            invariant
                k <= values@.len(),
                strs == values@.map_values(|v: u64| dec(v as nat)),
                d@ == dstart + join(strs.take(k as int), seq![',', ' ']),
            decreases values@.len() - k,
        {
            if k > 0 {
                proof {
                    lemma_join_step(strs, k as int, seq![',', ' ']);
                }
                crate::text::push_char(&mut d, ',');
                crate::text::push_char(&mut d, ' ');
            } else {
                assert(strs.take(1) =~= seq![strs[0]]);
            }
            push_dec(&mut d, values[k]);
            k += 1;
            assert(d@ =~= dstart + join(strs.take(k as int), seq![',', ' ']));
        }
        assert(strs.take(values@.len() as int) =~= strs);
        push_finding(findings, Finding::from_entry(3, d, Some(sp)));
    }
    assert(finding_views(findings@) =~= f0 + cl_spec(rv).1) by {
        assert(f2 =~= f1 + f2.subrange(f1.len() as int, f2.len() as int));
    }
    ClResolution {
        value: if !invalid && values.len() == 1 {
            Some(values[0])
        } else {
            None
        },
        present: true,
        invalid,
    }
}

// ---------------------------------------------------------------------------
// Transfer-Encoding
// ---------------------------------------------------------------------------

/// The characters of `chunked`.
pub open spec fn chunked_word() -> Seq<char> {
    seq!['c', 'h', 'u', 'n', 'k', 'e', 'd']
}

/// A coding that contains `chunked` (ignoring ASCII case) without being it.
pub open spec fn obfuscated(token: Seq<char>) -> bool {
    contains_run(lower_all(token), chunked_word()) && lower_all(token) != chunked_word()
}

/// What resolving Transfer-Encoding has gathered so far.
pub struct TeAcc {
    /// Every non-empty coding, lowercased, in order.
    pub codings: Seq<Seq<char>>,
    pub findings: Seq<FindingView>,
}

/// Fold the comma-separated pieces of one Transfer-Encoding field.
pub open spec fn te_pieces(acc: TeAcc, pieces: Seq<Seq<char>>, span: Span) -> TeAcc
    decreases pieces.len(),
{
    if pieces.len() == 0 {
        acc
    } else {
        let a = te_pieces(acc, pieces.drop_last(), span);
        let token = trim(pieces.last());
        if token.len() == 0 {
            a
        } else {
            let f = if obfuscated(token) {
                a.findings.push(
                    note(
                        6,
                        "transfer coding `"@ + token
                            + "` mimics chunked; strict and lenient parsers will disagree"@,
                        Some(span),
                    ),
                )
            } else {
                a.findings
            };
            TeAcc { codings: a.codings.push(lower_all(token)), findings: f }
        }
    }
}

/// Fold every Transfer-Encoding field.
pub open spec fn te_fields(tes: Seq<(Seq<char>, Span)>) -> TeAcc
    decreases tes.len(),
{
    if tes.len() == 0 {
        TeAcc { codings: Seq::empty(), findings: Seq::empty() }
    } else {
        te_pieces(te_fields(tes.drop_last()), split_on(tes.last().0, ','), tes.last().1)
    }
}

/// The resolution of Transfer-Encoding across its fields.
pub struct TeResolution {
    pub present: bool,
    pub final_is_chunked: bool,
    pub span: Option<Span>,
}

/// Transfer-Encoding resolution: the outcome and the findings, in order.
pub open spec fn te_spec(tes: Seq<(Seq<char>, Span)>) -> (TeResolution, Seq<FindingView>) {
    if tes.len() == 0 {
        (TeResolution { present: false, final_is_chunked: false, span: None }, Seq::empty())
    } else {
        let sp = combine(tes[0].1, tes.last().1);
        let f1 = if tes.len() > 1 {
            seq![
                note(
                    4,
                    dec(tes.len()) + " Transfer-Encoding header fields are present"@,
                    Some(sp),
                ),
            ]
        } else {
            Seq::empty()
        };
        let acc = te_fields(tes);
        let cs = acc.codings;
        let final_is_chunked = cs.len() > 0 && cs.last() == chunked_word();
        let f3 = if !final_is_chunked {
            let detail = if cs.contains(chunked_word()) {
                "chunked is present but is not the final transfer coding"@
            } else {
                "final transfer coding is `"@ + (if cs.len() > 0 {
                    cs.last()
                } else {
                    Seq::empty()
                }) + "`, not chunked; request body length is undeterminable"@
            };
            seq![note(5, detail, Some(sp))]
        } else {
            Seq::empty()
        };
        (TeResolution { present: true, final_is_chunked, span: Some(sp) }, f1 + acc.findings + f3)
    }
}

fn chunked_chars() -> (v: Vec<char>)
    ensures
        v@ == chunked_word(),
{
    let mut v = Vec::new();
    v.push('c');
    v.push('h');
    v.push('u');
    v.push('n');
    v.push('k');
    v.push('e');
    v.push('d');
    assert(v@ =~= chunked_word());
    v
}

fn chars_equal(a: &[char], b: &[char]) -> (r: bool)
    ensures
        r == (a@ == b@),
{
    if a.len() != b.len() {
        return false;
    }
    let mut i: usize = 0;
    while i < a.len()
        invariant
            a@.len() == b@.len(),
            i <= a@.len(),
            forall|j: int| 0 <= j < i ==> a@[j] == b@[j],
        decreases a@.len() - i,
    {
        if a[i] != b[i] {
            return false;
        }
        i += 1;
    }
    assert(a@ =~= b@);
    true
}

fn is_obfuscated_chunked(token: &[char]) -> (r: bool)
    ensures
        r == obfuscated(token@),
{
    let lower = lower_chars(token);
    let word = chunked_chars();
    chars_contain(lower.as_slice(), word.as_slice()) && !chars_equal(lower.as_slice(), word.as_slice())
}

fn resolve_transfer_encoding(tes: &Vec<HeaderRef>, findings: &mut Vec<Finding>) -> (r: TeResolution)
    ensures
        all_wf(old(findings)@) ==> all_wf(final(findings)@),
        r == te_spec(ref_views(tes@)).0,
        finding_views(final(findings)@) == finding_views(old(findings)@) + te_spec(
            ref_views(tes@),
        ).1,
{
    let ghost rv = ref_views(tes@);
    let ghost f0 = finding_views(findings@);
    let ghost w0 = all_wf(findings@);
    if tes.len() == 0 {
        assert(finding_views(findings@) =~= f0 + te_spec(rv).1);
        return TeResolution { present: false, final_is_chunked: false, span: None };
    }
    let last = tes.len() - 1;
    let sp = combine_spans(tes[0].span, tes[last].span);
    if tes.len() > 1 {
        let mut d = String::new();
        push_dec(&mut d, tes.len() as u64);
        push_str(&mut d, " Transfer-Encoding header fields are present");
        push_finding(findings, Finding::from_entry(4, d, Some(sp)));
    }
    let ghost f1 = finding_views(findings@);
    let mut codings: Vec<Vec<char>> = Vec::new();
    let mut i: usize = 0;
    while i < tes.len()
        invariant
            i <= tes@.len(),
            rv == ref_views(tes@),
            w0 ==> all_wf(findings@),
            f1.len() <= finding_views(findings@).len(),
            finding_views(findings@).subrange(0, f1.len() as int) == f1,
            ({
                let a = te_fields(rv.take(i as int));
                &&& a.codings == views_of(codings@)
                &&& a.findings == finding_views(findings@).subrange(
                    f1.len() as int,
                    finding_views(findings@).len() as int,
                )
            }),
        decreases tes@.len() - i,
    {
        assert(rv.take(i + 1).drop_last() =~= rv.take(i as int));
        let pieces = split_chars(tes[i].value.as_slice(), ',');
        let ghost a0 = te_fields(rv.take(i as int));
        let mut j: usize = 0;
        while j < pieces.len()
            invariant
                i < tes@.len(),
                j <= pieces@.len(),
                rv == ref_views(tes@),
                views_of(pieces@) == split_on(rv[i as int].0, ','),
                w0 ==> all_wf(findings@),
                f1.len() <= finding_views(findings@).len(),
                finding_views(findings@).subrange(0, f1.len() as int) == f1,
                ({
                    let a = te_pieces(a0, views_of(pieces@).take(j as int), rv[i as int].1);
                    &&& a.codings == views_of(codings@)
                    &&& a.findings == finding_views(findings@).subrange(
                        f1.len() as int,
                        finding_views(findings@).len() as int,
                    )
                }),
            decreases pieces@.len() - j,
        {
            assert(views_of(pieces@).take(j + 1).drop_last() =~= views_of(pieces@).take(j as int));
            let token = trim_chars(pieces[j].as_slice());
            let ghost fa = finding_views(findings@);
            if token.len() > 0 {
                if is_obfuscated_chunked(token.as_slice()) {
                    let mut d = String::new();
                    push_str(&mut d, "transfer coding `");
                    push_chars(&mut d, token.as_slice());
                    push_str(&mut d, "` mimics chunked; strict and lenient parsers will disagree");
                    push_finding(findings, Finding::from_entry(6, d, Some(tes[i].span)));
                    assert(finding_views(findings@).subrange(0, f1.len() as int) =~= f1);
                    assert(finding_views(findings@).subrange(
                        f1.len() as int,
                        finding_views(findings@).len() as int,
                    ) =~= fa.subrange(f1.len() as int, fa.len() as int).push(
                        finding_views(findings@).last(),
                    ));
                }
                let ghost cv = views_of(codings@);
                let low = lower_chars(token.as_slice());
                codings.push(low);
                assert(views_of(codings@) =~= cv.push(low@));
            }
            j += 1;
        }
        assert(views_of(pieces@).take(pieces@.len() as int) =~= views_of(pieces@));
        i += 1;
    }
    assert(rv.take(tes@.len() as int) =~= rv);
    let ghost f2 = finding_views(findings@);
    let ghost cs = views_of(codings@);
    let word = chunked_chars();
    let nc = codings.len();
    let final_is_chunked = nc > 0 && chars_equal(codings[nc - 1].as_slice(), word.as_slice());
    if !final_is_chunked {
        let mut any = false;
        let mut k: usize = 0;
        while k < nc
            invariant
                k <= nc == codings@.len(),
                cs == views_of(codings@),
                word@ == chunked_word(),
                any == (exists|m: int| 0 <= m < k && cs[m] == chunked_word()),
            decreases nc - k,
        {
            assert(cs[k as int] == codings@[k as int]@);
            if chars_equal(codings[k].as_slice(), word.as_slice()) {
                any = true;
            }
            k += 1;
        }
        assert(any == cs.contains(chunked_word())) by {
            if cs.contains(chunked_word()) {
                let m = choose|m: int| 0 <= m < cs.len() && cs[m] == chunked_word();
                assert(0 <= m < k && cs[m] == chunked_word());
            }
        }
        let mut d = String::new();
        if any {
            push_str(&mut d, "chunked is present but is not the final transfer coding");
        } else {
            push_str(&mut d, "final transfer coding is `");
            if nc > 0 {
                push_chars(&mut d, codings[nc - 1].as_slice());
            }
            push_str(&mut d, "`, not chunked; request body length is undeterminable");
        }
        push_finding(findings, Finding::from_entry(5, d, Some(sp)));
    }
    assert(finding_views(findings@) =~= f0 + te_spec(rv).1) by {
        assert(f2 =~= f1 + f2.subrange(f1.len() as int, f2.len() as int));
    }
    TeResolution { present: true, final_is_chunked, span: Some(sp) }
}

// ---------------------------------------------------------------------------
// The framing decision
// ---------------------------------------------------------------------------

/// The characters of the three framing-relevant header names.
pub open spec fn content_length_name() -> Seq<char> {
    "content-length"@
}

pub open spec fn transfer_encoding_name() -> Seq<char> {
    "transfer-encoding"@
}

pub open spec fn host_name() -> Seq<char> {
    "host"@
}

/// Host checks for a request: none is PW015, several is PW016.
pub open spec fn host_findings(m: MessageView) -> Seq<FindingView> {
    let hosts = collect_spec(m.headers, host_name());
    if m.kind == MessageKind::Request {
        if hosts.len() == 0 {
            seq![
                note(15, "HTTP/1.1 request has no Host header"@, Some(m.start_line.span)),
            ]
        } else if hosts.len() > 1 {
            seq![
                note(
                    16,
                    dec(hosts.len()) + " Host header fields are present"@,
                    Some(combine(hosts[0].1, hosts.last().1)),
                ),
            ]
        } else {
            Seq::empty()
        }
    } else {
        Seq::empty()
    }
}

/// The body and the findings of the body-length decision, once Content-Length
/// and Transfer-Encoding are resolved.
pub open spec fn body_spec(
    kind: MessageKind,
    body_start: usize,
    buf: Seq<u8>,
    cl: ClResolution,
    te: TeResolution,
) -> (BodyView, Seq<FindingView>) {
    let start = body_start as int;
    let len = buf.len() as int;
    if te.present && te.final_is_chunked {
        let (scan, sf) = scan_spec(buf, start);
        let f = if scan.end < len {
            sf.push(
                note(
                    17,
                    dec((len - scan.end) as nat)
                        + " byte(s) follow the chunked body (possible smuggled request prefix)"@,
                    Some(span_of(scan.end, len)),
                ),
            )
        } else {
            sf
        };
        (
            BodyView {
                framing: Framing::Chunked,
                span: span_of(start, if scan.end < len { scan.end } else { len }),
                declared_len: None,
                decoded_len: scan.decoded_len as usize,
                chunks: scan.chunks,
                complete: scan.complete,
            },
            f,
        )
    } else if te.present || (cl.value is None && (cl.invalid || cl.present)) {
        (
            BodyView {
                framing: Framing::Ambiguous,
                span: span_of(start, len),
                declared_len: None,
                decoded_len: (len - start) as usize,
                chunks: Seq::empty(),
                complete: false,
            },
            Seq::empty(),
        )
    } else if cl.value is Some {
        let n = cl.value->0 as usize;
        let present = len - start;
        let body_end = if start + n < len { start + n } else { len };
        let f = if present < n {
            seq![
                note(
                    18,
                    "Content-Length is "@ + dec(n as nat) + " but only "@ + dec(present as nat)
                        + " body byte(s) are present"@,
                    Some(span_of(start, len)),
                ),
            ]
        } else if present > n {
            seq![
                note(
                    17,
                    dec((present - n) as nat)
                        + " byte(s) follow the Content-Length body (possible smuggled request prefix)"@,
                    Some(span_of(body_end, len)),
                ),
            ]
        } else {
            Seq::empty()
        };
        (
            BodyView {
                framing: Framing::ContentLength,
                span: span_of(start, body_end),
                declared_len: Some(n),
                decoded_len: (if present < n { present } else { n as int }) as usize,
                chunks: Seq::empty(),
                complete: present >= n,
            },
            f,
        )
    } else if kind == MessageKind::Response {
        (
            BodyView {
                framing: Framing::UntilClose,
                span: span_of(start, len),
                declared_len: None,
                decoded_len: (len - start) as usize,
                chunks: Seq::empty(),
                complete: true,
            },
            Seq::empty(),
        )
    } else {
        let f = if len > start {
            seq![
                note(
                    17,
                    dec((len - start) as nat)
                        + " byte(s) follow a body-less request (possible smuggled/pipelined request)"@,
                    Some(span_of(start, len)),
                ),
            ]
        } else {
            Seq::empty()
        };
        (empty_body(start as usize), f)
    }
}

/// Everything [`analyze`] decides for a parsed message `m` over `buf`: the
/// framed body and the framing findings, in order (Host, Content-Length,
/// Transfer-Encoding, both-present, then the body's own).
pub open spec fn framing_spec(m: MessageView, buf: Seq<u8>) -> (BodyView, Seq<FindingView>) {
    let cls = collect_spec(m.headers, content_length_name());
    let tes = collect_spec(m.headers, transfer_encoding_name());
    let (cl, fcl) = cl_spec(cls);
    let (te, fte) = te_spec(tes);
    let fboth = if cl.present && te.present {
        seq![
            note(
                1,
                "both Content-Length and Transfer-Encoding are present; conforming servers use chunked and ignore Content-Length"@,
                Some(combine(cls[0].1, te.span->0)),
            ),
        ]
    } else {
        Seq::empty()
    };
    let (body, fbody) = body_spec(m.kind, m.body_start, buf, cl, te);
    (body, host_findings(m) + fcl + fte + fboth + fbody)
}

fn frame_body(
    kind: MessageKind,
    start: usize,
    buf: &[u8],
    cl: &ClResolution,
    te: &TeResolution,
    findings: &mut Vec<Finding>,
) -> (b: Body)
    requires
        start <= buf@.len(),
    ensures
        all_wf(old(findings)@) ==> all_wf(final(findings)@),
        b@ == body_spec(kind, start, buf@, *cl, *te).0,
        finding_views(final(findings)@) == finding_views(old(findings)@) + body_spec(
            kind,
            start,
            buf@,
            *cl,
            *te,
        ).1,
        esc_free(buf@) ==> details_no_esc(body_spec(kind, start, buf@, *cl, *te).1),
{
    let ghost f0 = finding_views(findings@);
    let len = buf.len();
    let b = if te.present && te.final_is_chunked {
        let scan = scan_chunks(buf, start, findings);
        if scan.end < len {
            let mut d = String::new();
            push_dec(&mut d, (len - scan.end) as u64);
            push_str(&mut d, " byte(s) follow the chunked body (possible smuggled request prefix)");
            push_finding(findings, Finding::from_entry(17, d, Some(Span::new(scan.end, len))));
        }
        let b = Body {
            framing: Framing::Chunked,
            span: Span::new(start, if scan.end < len { scan.end } else { len }),
            declared_len: None,
            decoded_len: scan.decoded_len,
            chunks: scan.chunks,
            complete: scan.complete,
        };
        b
    } else if te.present {
        let b = Body {
            framing: Framing::Ambiguous,
            span: Span::new(start, len),
            declared_len: None,
            decoded_len: len - start,
            chunks: Vec::new(),
            complete: false,
        };
        assert(b@.chunks =~= Seq::<ChunkView>::empty());
        b
    } else if cl.value.is_some() {
        let n = cl.value.unwrap() as usize;
        let present = len - start;
        let body_end = if n < len - start { start + n } else { len };
        if present < n {
            let mut d = String::new();
            push_str(&mut d, "Content-Length is ");
            push_dec(&mut d, n as u64);
            push_str(&mut d, " but only ");
            push_dec(&mut d, present as u64);
            push_str(&mut d, " body byte(s) are present");
            push_finding(findings, Finding::from_entry(18, d, Some(Span::new(start, len))));
        } else if present > n {
            let mut d = String::new();
            push_dec(&mut d, (present - n) as u64);
            push_str(
                &mut d,
                " byte(s) follow the Content-Length body (possible smuggled request prefix)",
            );
            push_finding(findings, Finding::from_entry(17, d, Some(Span::new(body_end, len))));
        }
        let b = Body {
            framing: Framing::ContentLength,
            span: Span::new(start, body_end),
            declared_len: Some(n),
            decoded_len: if present < n { present } else { n },
            chunks: Vec::new(),
            complete: present >= n,
        };
        assert(b@.chunks =~= Seq::<ChunkView>::empty());
        b
    } else if cl.invalid || cl.present {
        let b = Body {
            framing: Framing::Ambiguous,
            span: Span::new(start, len),
            declared_len: None,
            decoded_len: len - start,
            chunks: Vec::new(),
            complete: false,
        };
        assert(b@.chunks =~= Seq::<ChunkView>::empty());
        b
    } else if kind == MessageKind::Response {
        let b = Body {
            framing: Framing::UntilClose,
            span: Span::new(start, len),
            declared_len: None,
            decoded_len: len - start,
            chunks: Vec::new(),
            complete: true,
        };
        assert(b@.chunks =~= Seq::<ChunkView>::empty());
        b
    } else {
        if len > start {
            let mut d = String::new();
            push_dec(&mut d, (len - start) as u64);
            push_str(
                &mut d,
                " byte(s) follow a body-less request (possible smuggled/pipelined request)",
            );
            push_finding(findings, Finding::from_entry(17, d, Some(Span::new(start, len))));
        }
        Body::empty(start)
    };
    assert(finding_views(findings@) =~= f0 + body_spec(kind, start, buf@, *cl, *te).1);
    proof {
        if esc_free(buf@) {
            lemma_body_no_esc(kind, start, buf@, *cl, *te);
        }
    }
    b
}

// ---------------------------------------------------------------------------
// Laws of the framing decision
// ---------------------------------------------------------------------------

/// A message that carries both Content-Length and Transfer-Encoding is always
/// reported as PW001 (both-cl-te).
pub proof fn law_both_framing_headers_are_reported(m: MessageView, buf: Seq<u8>)
    requires
        collect_spec(m.headers, content_length_name()).len() > 0,
        collect_spec(m.headers, transfer_encoding_name()).len() > 0,
    ensures
        has_code(framing_spec(m, buf).1, 1),
{
    let cls = collect_spec(m.headers, content_length_name());
    let tes = collect_spec(m.headers, transfer_encoding_name());
    let fs = framing_spec(m, buf).1;
    let i = host_findings(m).len() + cl_spec(cls).1.len() + te_spec(tes).1.len();
    lemma_has_code_at(fs, i as int, 1);
}

proof fn lemma_bad_cl_notes_codes(toks: Seq<(Seq<char>, Span)>)
    ensures
        forall|i: int| 0 <= i < bad_cl_notes(toks).len() ==> #[trigger] bad_cl_notes(toks)[i].code
            == code_lit(10),
    decreases toks.len(),
{
    if toks.len() > 0 {
        lemma_bad_cl_notes_codes(toks.drop_last());
        let a = bad_cl_notes(toks.drop_last());
        assert forall|i: int| 0 <= i < bad_cl_notes(toks).len() implies #[trigger] bad_cl_notes(
            toks,
        )[i].code == code_lit(10) by {
            if i < a.len() {
                assert(bad_cl_notes(toks)[i] == a[i]);
            }
        }
    }
}

proof fn lemma_obfuscated_notes_codes(toks: Seq<(Seq<char>, Span)>)
    ensures
        forall|i: int|
            0 <= i < obfuscated_notes(toks).len() ==> #[trigger] obfuscated_notes(toks)[i].code
                == code_lit(6),
    decreases toks.len(),
{
    if toks.len() > 0 {
        lemma_obfuscated_notes_codes(toks.drop_last());
        let a = obfuscated_notes(toks.drop_last());
        assert forall|i: int| 0 <= i < obfuscated_notes(toks).len() implies #[trigger] obfuscated_notes(
            toks,
        )[i].code == code_lit(6) by {
            if i < a.len() {
                assert(obfuscated_notes(toks)[i] == a[i]);
            }
        }
    }
}

/// Headers named `name` are collected iff one of them is so named.
proof fn lemma_collect_nonempty(hs: Seq<HeaderView>, name: Seq<char>)
    ensures
        (collect_spec(hs, name).len() > 0) == (exists|i: int|
            0 <= i < hs.len() && ascii_ieq(#[trigger] hs[i].name, name)),
    decreases hs.len(),
{
    if hs.len() > 0 {
        let d = hs.drop_last();
        lemma_collect_nonempty(d, name);
        if exists|i: int| 0 <= i < d.len() && ascii_ieq(#[trigger] d[i].name, name) {
            let i = choose|i: int| 0 <= i < d.len() && ascii_ieq(#[trigger] d[i].name, name);
            assert(hs[i] == d[i]);
        }
        if exists|i: int| 0 <= i < hs.len() && ascii_ieq(#[trigger] hs[i].name, name) {
            let i = choose|i: int| 0 <= i < hs.len() && ascii_ieq(#[trigger] hs[i].name, name);
            if i < d.len() {
                assert(d[i] == hs[i]);
            } else {
                assert(hs[i] == hs.last());
            }
        }
    }
}

/// PW001 is reported exactly when both framing headers are present, and then
/// once: the framing findings hold one PW001 if some header is named
/// Content-Length and some header is named Transfer-Encoding, and none
/// otherwise.
pub proof fn law_pw001_iff_both_framing_headers(m: MessageView, buf: Seq<u8>)
    requires
        m.body_start <= buf.len() <= usize::MAX,
    ensures
        ({
            let both = (exists|i: int|
                0 <= i < m.headers.len() && ascii_ieq(
                    #[trigger] m.headers[i].name,
                    content_length_name(),
                )) && (exists|j: int|
                0 <= j < m.headers.len() && ascii_ieq(
                    #[trigger] m.headers[j].name,
                    transfer_encoding_name(),
                ));
            &&& code_count(framing_spec(m, buf).1, 1) == (if both { 1nat } else { 0nat })
            &&& has_code(framing_spec(m, buf).1, 1) == both
        }),
{
    let cls = collect_spec(m.headers, content_length_name());
    let tes = collect_spec(m.headers, transfer_encoding_name());
    lemma_collect_nonempty(m.headers, content_length_name());
    lemma_collect_nonempty(m.headers, transfer_encoding_name());
    let (cl, fcl) = cl_spec(cls);
    let (te, fte) = te_spec(tes);
    let hf = host_findings(m);
    let fboth = if cl.present && te.present {
        seq![
            note(
                1,
                "both Content-Length and Transfer-Encoding are present; conforming servers use chunked and ignore Content-Length"@,
                Some(combine(cls[0].1, te.span->0)),
            ),
        ]
    } else {
        Seq::<FindingView>::empty()
    };
    let (body, fbody) = body_spec(m.kind, m.body_start, buf, cl, te);
    let fs = framing_spec(m, buf).1;
    assert(fs == hf + fcl + fte + fboth + fbody);
    law_catalog_codes_are_distinct(1, 2);
    law_catalog_codes_are_distinct(1, 3);
    law_catalog_codes_are_distinct(1, 4);
    law_catalog_codes_are_distinct(1, 5);
    law_catalog_codes_are_distinct(1, 6);
    law_catalog_codes_are_distinct(1, 10);
    law_catalog_codes_are_distinct(1, 15);
    law_catalog_codes_are_distinct(1, 16);
    law_catalog_codes_are_distinct(1, 17);
    law_catalog_codes_are_distinct(1, 18);
    // Host.
    lemma_code_count_zero(hf, 1);
    // Content-Length.
    lemma_cl_fields_tokens(cls);
    lemma_cl_fold_facts(field_tokens(cls));
    lemma_bad_cl_notes_codes(field_tokens(cls));
    assert forall|i: int| 0 <= i < fcl.len() implies #[trigger] fcl[i].code != code_lit(1) by {
        if cls.len() > 0 {
            let k: int = if cls.len() > 1 { 1 } else { 0 };
            let b = cl_fields(cls).findings;
            if k <= i < k + b.len() {
                assert(fcl[i] == b[i - k]);
            }
        }
    }
    lemma_code_count_zero(fcl, 1);
    // Transfer-Encoding.
    lemma_te_fields_tokens(tes);
    lemma_obfuscated_notes_codes(field_tokens(tes));
    assert forall|i: int| 0 <= i < fte.len() implies #[trigger] fte[i].code != code_lit(1) by {
        if tes.len() > 0 {
            let k: int = if tes.len() > 1 { 1 } else { 0 };
            let b = te_fields(tes).findings;
            if k <= i < k + b.len() {
                assert(fte[i] == b[i - k]);
            }
        }
    }
    lemma_code_count_zero(fte, 1);
    // Body.
    if te.present && te.final_is_chunked {
        crate::chunked::law_scan_layout(buf, m.body_start as int);
        let sf = scan_spec(buf, m.body_start as int).1;
        if fbody.len() > sf.len() {
            assert(fbody == sf.push(fbody.last()));
            lemma_code_count_push(sf, fbody.last(), 1);
        } else {
            assert(fbody == sf);
        }
    } else {
        lemma_code_count_zero(fbody, 1);
    }
    // Both.
    if cl.present && te.present {
        assert(fboth.drop_last() =~= Seq::<FindingView>::empty());
        assert(code_count(fboth.drop_last(), 1) == 0);
        assert(fboth.last().code == code_lit(1));
        assert(code_count(fboth, 1) == 1);
    } else {
        assert(code_count(fboth, 1) == 0);
    }
    assert(code_count(hf, 1) == 0);
    assert(code_count(fcl, 1) == 0);
    assert(code_count(fte, 1) == 0);
    assert(code_count(fbody, 1) == 0);
    assert(cl.present == (cls.len() > 0));
    assert(te.present == (tes.len() > 0));
    lemma_code_count_concat(hf, fcl, 1);
    lemma_code_count_concat(hf + fcl, fte, 1);
    lemma_code_count_concat(hf + fcl + fte, fboth, 1);
    lemma_code_count_concat(hf + fcl + fte + fboth, fbody, 1);
    lemma_code_count_has(fs, 1);
}

// ---------------------------------------------------------------------------
// Text without ESC
// ---------------------------------------------------------------------------

/// Every finding's detail is free of ESC.
pub open spec fn details_no_esc(fs: Seq<FindingView>) -> bool {
    forall|i: int| 0 <= i < fs.len() ==> no_esc(#[trigger] fs[i].detail)
}

proof fn lemma_details_concat(a: Seq<FindingView>, b: Seq<FindingView>)
    requires
        details_no_esc(a),
        details_no_esc(b),
    ensures
        details_no_esc(a + b),
{
    assert forall|i: int| 0 <= i < (a + b).len() implies no_esc(#[trigger] (a + b)[i].detail) by {
        if i < a.len() {
            assert((a + b)[i] == a[i]);
        } else {
            assert((a + b)[i] == b[i - a.len()]);
        }
    }
}

proof fn lemma_collect_no_esc(hs: Seq<HeaderView>, name: Seq<char>)
    requires
        forall|i: int| 0 <= i < hs.len() ==> no_esc(#[trigger] hs[i].value),
    ensures
        forall|i: int| 0 <= i < collect_spec(hs, name).len() ==> no_esc(
            #[trigger] collect_spec(hs, name)[i].0,
        ),
    decreases hs.len(),
{
    if hs.len() > 0 {
        let d = hs.drop_last();
        assert forall|i: int| 0 <= i < d.len() implies no_esc(#[trigger] d[i].value) by {
            assert(d[i] == hs[i]);
        }
        lemma_collect_no_esc(d, name);
        let p = collect_spec(d, name);
        assert(no_esc(hs[hs.len() - 1].value));
        assert forall|i: int| 0 <= i < collect_spec(hs, name).len() implies no_esc(
            #[trigger] collect_spec(hs, name)[i].0,
        ) by {
            if i < p.len() {
                assert(collect_spec(hs, name)[i] == p[i]);
            }
        }
    }
}

proof fn lemma_tokens_no_esc(fs: Seq<(Seq<char>, Span)>)
    requires
        forall|i: int| 0 <= i < fs.len() ==> no_esc(#[trigger] fs[i].0),
    ensures
        forall|i: int| 0 <= i < field_tokens(fs).len() ==> no_esc(#[trigger] field_tokens(fs)[i].0),
    decreases fs.len(),
{
    if fs.len() > 0 {
        let d = fs.drop_last();
        assert forall|i: int| 0 <= i < d.len() implies no_esc(#[trigger] d[i].0) by {
            assert(d[i] == fs[i]);
        }
        lemma_tokens_no_esc(d);
        let last = fs[fs.len() - 1];
        lemma_split_no_esc(last.0, ',');
        let pieces = split_on(last.0, ',');
        let pt = piece_tokens(pieces, last.1);
        let a = field_tokens(d);
        assert forall|i: int| 0 <= i < field_tokens(fs).len() implies no_esc(
            #[trigger] field_tokens(fs)[i].0,
        ) by {
            if i < a.len() {
                assert(field_tokens(fs)[i] == a[i]);
            } else {
                assert(field_tokens(fs)[i] == pt[i - a.len()]);
                lemma_trim_no_esc(pieces[i - a.len()]);
            }
        }
    }
}

proof fn lemma_bad_cl_notes_no_esc(toks: Seq<(Seq<char>, Span)>)
    requires
        forall|i: int| 0 <= i < toks.len() ==> no_esc(#[trigger] toks[i].0),
    ensures
        details_no_esc(bad_cl_notes(toks)),
    decreases toks.len(),
{
    broadcast use lemma_no_esc_concat;

    if toks.len() > 0 {
        let d = toks.drop_last();
        assert forall|i: int| 0 <= i < d.len() implies no_esc(#[trigger] d[i].0) by {
            assert(d[i] == toks[i]);
        }
        lemma_bad_cl_notes_no_esc(d);
        assert(no_esc(toks[toks.len() - 1].0));
        reveal_strlit("Content-Length value `");
        reveal_strlit("` is not a bare decimal integer");
        let e = if cl_value(toks.last().0) is None {
            seq![
                note(
                    10,
                    "Content-Length value `"@ + toks.last().0 + "` is not a bare decimal integer"@,
                    Some(toks.last().1),
                ),
            ]
        } else {
            Seq::<FindingView>::empty()
        };
        assert(details_no_esc(e));
        lemma_details_concat(bad_cl_notes(d), e);
    }
}

proof fn lemma_obfuscated_notes_no_esc(toks: Seq<(Seq<char>, Span)>)
    requires
        forall|i: int| 0 <= i < toks.len() ==> no_esc(#[trigger] toks[i].0),
    ensures
        details_no_esc(obfuscated_notes(toks)),
        forall|i: int| 0 <= i < te_codings(toks).len() ==> no_esc(#[trigger] te_codings(toks)[i]),
    decreases toks.len(),
{
    broadcast use lemma_no_esc_concat;

    if toks.len() > 0 {
        let d = toks.drop_last();
        assert forall|i: int| 0 <= i < d.len() implies no_esc(#[trigger] d[i].0) by {
            assert(d[i] == toks[i]);
        }
        lemma_obfuscated_notes_no_esc(d);
        let t = toks[toks.len() - 1].0;
        assert(no_esc(t));
        lemma_lower_no_esc(t);
        reveal_strlit("transfer coding `");
        reveal_strlit("` mimics chunked; strict and lenient parsers will disagree");
        let e = if toks.last().0.len() != 0 && obfuscated(toks.last().0) {
            seq![
                note(
                    6,
                    "transfer coding `"@ + toks.last().0
                        + "` mimics chunked; strict and lenient parsers will disagree"@,
                    Some(toks.last().1),
                ),
            ]
        } else {
            Seq::<FindingView>::empty()
        };
        assert(details_no_esc(e));
        lemma_details_concat(obfuscated_notes(d), e);
        let c = te_codings(d);
        assert forall|i: int| 0 <= i < te_codings(toks).len() implies no_esc(
            #[trigger] te_codings(toks)[i],
        ) by {
            if i < c.len() {
                assert(te_codings(toks)[i] == c[i]);
            }
        }
    }
}

/// The body-length findings carry no ESC when the chunk scan's do not.
proof fn lemma_body_no_esc(
    kind: MessageKind,
    body_start: usize,
    buf: Seq<u8>,
    cl: ClResolution,
    te: TeResolution,
)
    requires
        te.present && te.final_is_chunked ==> details_no_esc(scan_spec(buf, body_start as int).1),
    ensures
        details_no_esc(body_spec(kind, body_start, buf, cl, te).1),
{
    broadcast use lemma_no_esc_concat;

    let f = body_spec(kind, body_start, buf, cl, te).1;
    let start = body_start as int;
    let len = buf.len() as int;
    reveal_strlit(" byte(s) follow the chunked body (possible smuggled request prefix)");
    reveal_strlit("Content-Length is ");
    reveal_strlit(" but only ");
    reveal_strlit(" body byte(s) are present");
    reveal_strlit(" byte(s) follow the Content-Length body (possible smuggled request prefix)");
    reveal_strlit(" byte(s) follow a body-less request (possible smuggled/pipelined request)");
    if te.present && te.final_is_chunked {
        let (scan, sf) = scan_spec(buf, start);
        lemma_radix_no_esc((len - scan.end) as nat, 10);
        assert forall|i: int| 0 <= i < f.len() implies no_esc(#[trigger] f[i].detail) by {
            if i < sf.len() {
                assert(f[i] == sf[i]);
            }
        }
    } else if cl.value is Some && !(te.present || (cl.value is None && (cl.invalid || cl.present))) {
        let n = cl.value->0 as usize;
        let present = len - start;
        lemma_radix_no_esc(n as nat, 10);
        lemma_radix_no_esc(present as nat, 10);
        lemma_radix_no_esc((present - n) as nat, 10);
    } else {
        lemma_radix_no_esc((len - start) as nat, 10);
    }
}

proof fn lemma_host_no_esc(m: MessageView)
    ensures
        details_no_esc(host_findings(m)),
{
    broadcast use lemma_no_esc_concat;

    reveal_strlit("HTTP/1.1 request has no Host header");
    reveal_strlit(" Host header fields are present");
    lemma_radix_no_esc(collect_spec(m.headers, host_name()).len(), 10);
}

#[verifier::spinoff_prover]
proof fn lemma_cl_no_esc(cls: Seq<(Seq<char>, Span)>)
    requires
        forall|i: int| 0 <= i < cls.len() ==> no_esc(#[trigger] cls[i].0),
    ensures
        details_no_esc(cl_spec(cls).1),
{
    broadcast use lemma_no_esc_concat;

    let fcl = cl_spec(cls).1;
    lemma_cl_fields_tokens(cls);
    lemma_cl_fold_facts(field_tokens(cls));
    lemma_tokens_no_esc(cls);
    lemma_bad_cl_notes_no_esc(field_tokens(cls));
    reveal_strlit(" Content-Length header fields are present");
    reveal_strlit("Content-Length resolves to multiple values: ");
    lemma_radix_no_esc(cls.len(), 10);
    let vals = cl_fields(cls).values;
    let vt = vals.map_values(|v: u64| dec(v as nat));
    assert forall|i: int| 0 <= i < vt.len() implies no_esc(#[trigger] vt[i]) by {
        lemma_radix_no_esc(vals[i] as nat, 10);
    }
    lemma_join_no_esc(vt, seq![',', ' ']);
    if cls.len() > 0 {
        let k: int = if cls.len() > 1 { 1 } else { 0 };
        let b = cl_fields(cls).findings;
        assert forall|i: int| 0 <= i < fcl.len() implies no_esc(#[trigger] fcl[i].detail) by {
            if k <= i < k + b.len() {
                assert(fcl[i] == b[i - k]);
            }
        }
    }
}

#[verifier::spinoff_prover]
proof fn lemma_te_no_esc(tes: Seq<(Seq<char>, Span)>)
    requires
        forall|i: int| 0 <= i < tes.len() ==> no_esc(#[trigger] tes[i].0),
    ensures
        details_no_esc(te_spec(tes).1),
{
    broadcast use lemma_no_esc_concat;

    let fte = te_spec(tes).1;
    lemma_te_fields_tokens(tes);
    lemma_tokens_no_esc(tes);
    lemma_obfuscated_notes_no_esc(field_tokens(tes));
    reveal_strlit(" Transfer-Encoding header fields are present");
    reveal_strlit("chunked is present but is not the final transfer coding");
    reveal_strlit("final transfer coding is `");
    reveal_strlit("`, not chunked; request body length is undeterminable");
    lemma_radix_no_esc(tes.len(), 10);
    if tes.len() > 0 {
        let cs = te_fields(tes).codings;
        if cs.len() > 0 {
            assert(no_esc(cs[cs.len() - 1]));
        }
        let k: int = if tes.len() > 1 { 1 } else { 0 };
        let b = te_fields(tes).findings;
        assert forall|i: int| 0 <= i < fte.len() implies no_esc(#[trigger] fte[i].detail) by {
            if k <= i < k + b.len() {
                assert(fte[i] == b[i - k]);
            }
        }
    }
}

/// The framing findings carry no ESC when the header values and the chunk
/// scan's findings do not.
proof fn lemma_framing_no_esc(m: MessageView, buf: Seq<u8>)
    requires
        forall|i: int| 0 <= i < m.headers.len() ==> no_esc(#[trigger] m.headers[i].value),
        details_no_esc(
            body_spec(
                m.kind,
                m.body_start,
                buf,
                cl_spec(collect_spec(m.headers, content_length_name())).0,
                te_spec(collect_spec(m.headers, transfer_encoding_name())).0,
            ).1,
        ),
    ensures
        details_no_esc(framing_spec(m, buf).1),
{
    let cls = collect_spec(m.headers, content_length_name());
    let tes = collect_spec(m.headers, transfer_encoding_name());
    lemma_collect_no_esc(m.headers, content_length_name());
    lemma_collect_no_esc(m.headers, transfer_encoding_name());
    let (cl, fcl) = cl_spec(cls);
    let (te, fte) = te_spec(tes);
    lemma_host_no_esc(m);
    lemma_cl_no_esc(cls);
    lemma_te_no_esc(tes);
    let fboth = if cl.present && te.present {
        seq![
            note(
                1,
                "both Content-Length and Transfer-Encoding are present; conforming servers use chunked and ignore Content-Length"@,
                Some(combine(cls[0].1, te.span->0)),
            ),
        ]
    } else {
        Seq::<FindingView>::empty()
    };
    assert(details_no_esc(fboth)) by {
        reveal_strlit("both Content-Length and Transfer-Encoding are present; conforming servers use chunked and ignore Content-Length");
    }
    let fb = body_spec(m.kind, m.body_start, buf, cl, te).1;
    lemma_details_concat(host_findings(m), fcl);
    lemma_details_concat(host_findings(m) + fcl, fte);
    lemma_details_concat(host_findings(m) + fcl + fte, fboth);
    lemma_details_concat(host_findings(m) + fcl + fte + fboth, fb);
}

/// Transfer-Encoding whose final coding is `chunked` decides the framing, even
/// when Content-Length is present as well.
pub proof fn law_final_chunked_wins(m: MessageView, buf: Seq<u8>)
    requires
        te_spec(collect_spec(m.headers, transfer_encoding_name())).0.final_is_chunked,
    ensures
        framing_spec(m, buf).0.framing == Framing::Chunked,
{
}

// ---------------------------------------------------------------------------
// Resolution over the raw tokens
// ---------------------------------------------------------------------------

/// The comma-separated pieces of one field, trimmed, each with the field's span.
pub open spec fn piece_tokens(pieces: Seq<Seq<char>>, sp: Span) -> Seq<(Seq<char>, Span)> {
    pieces.map_values(|p: Seq<char>| (trim(p), sp))
}

/// Every comma-separated piece of every field, trimmed, in order, each with
/// the span of its field.
pub open spec fn field_tokens(fs: Seq<(Seq<char>, Span)>) -> Seq<(Seq<char>, Span)>
    decreases fs.len(),
{
    if fs.len() == 0 {
        Seq::empty()
    } else {
        field_tokens(fs.drop_last()) + piece_tokens(split_on(fs.last().0, ','), fs.last().1)
    }
}

/// Content-Length resolution as one pass over the tokens.
pub open spec fn cl_token_fold(acc: ClAcc, toks: Seq<(Seq<char>, Span)>) -> ClAcc
    decreases toks.len(),
{
    if toks.len() == 0 {
        acc
    } else {
        let a = cl_token_fold(acc, toks.drop_last());
        let token = toks.last().0;
        match cl_value(token) {
            Some(v) => if a.values.contains(v) {
                a
            } else {
                ClAcc { values: a.values.push(v), ..a }
            },
            None => ClAcc {
                invalid: true,
                findings: a.findings.push(
                    note(
                        10,
                        "Content-Length value `"@ + token + "` is not a bare decimal integer"@,
                        Some(toks.last().1),
                    ),
                ),
                ..a
            },
        }
    }
}

/// One PW010 per token that is not a bare decimal, in order.
pub open spec fn bad_cl_notes(toks: Seq<(Seq<char>, Span)>) -> Seq<FindingView>
    decreases toks.len(),
{
    if toks.len() == 0 {
        Seq::empty()
    } else {
        bad_cl_notes(toks.drop_last()) + if cl_value(toks.last().0) is None {
            seq![
                note(
                    10,
                    "Content-Length value `"@ + toks.last().0 + "` is not a bare decimal integer"@,
                    Some(toks.last().1),
                ),
            ]
        } else {
            Seq::empty()
        }
    }
}

proof fn lemma_cl_pieces_tokens(acc: ClAcc, pieces: Seq<Seq<char>>, sp: Span)
    ensures
        cl_pieces(acc, pieces, sp) == cl_token_fold(acc, piece_tokens(pieces, sp)),
    decreases pieces.len(),
{
    if pieces.len() > 0 {
        lemma_cl_pieces_tokens(acc, pieces.drop_last(), sp);
        assert(piece_tokens(pieces, sp).drop_last() =~= piece_tokens(pieces.drop_last(), sp));
    } else {
        assert(piece_tokens(pieces, sp) =~= Seq::<(Seq<char>, Span)>::empty());
    }
}

proof fn lemma_cl_fold_concat(acc: ClAcc, a: Seq<(Seq<char>, Span)>, b: Seq<(Seq<char>, Span)>)
    ensures
        cl_token_fold(acc, a + b) == cl_token_fold(cl_token_fold(acc, a), b),
    decreases b.len(),
{
    if b.len() == 0 {
        assert(a + b =~= a);
    } else {
        lemma_cl_fold_concat(acc, a, b.drop_last());
        assert((a + b).drop_last() =~= a + b.drop_last());
    }
}

spec fn empty_cl_acc() -> ClAcc {
    ClAcc { values: Seq::empty(), invalid: false, findings: Seq::empty() }
}

proof fn lemma_cl_fields_tokens(cls: Seq<(Seq<char>, Span)>)
    ensures
        cl_fields(cls) == cl_token_fold(empty_cl_acc(), field_tokens(cls)),
    decreases cls.len(),
{
    if cls.len() > 0 {
        lemma_cl_fields_tokens(cls.drop_last());
        let p = piece_tokens(split_on(cls.last().0, ','), cls.last().1);
        lemma_cl_pieces_tokens(cl_fields(cls.drop_last()), split_on(cls.last().0, ','), cls.last().1);
        lemma_cl_fold_concat(empty_cl_acc(), field_tokens(cls.drop_last()), p);
    }
}

proof fn lemma_cl_fold_facts(toks: Seq<(Seq<char>, Span)>)
    ensures
        ({
            let r = cl_token_fold(empty_cl_acc(), toks);
            &&& r.invalid <==> exists|i: int| 0 <= i < toks.len() && cl_value(#[trigger] toks[i].0) is None
            &&& r.findings == bad_cl_notes(toks)
            &&& forall|v: u64| r.values.contains(v) <==> exists|i: int|
                0 <= i < toks.len() && cl_value(#[trigger] toks[i].0) == Some(v)
            &&& forall|i: int, j: int| 0 <= i < j < r.values.len() ==> r.values[i] != r.values[j]
        }),
    decreases toks.len(),
{
    if toks.len() > 0 {
        let t = toks.drop_last();
        lemma_cl_fold_facts(t);
        let a = cl_token_fold(empty_cl_acc(), t);
        let r = cl_token_fold(empty_cl_acc(), toks);
        let last = toks.last();
        assert forall|i: int| 0 <= i < t.len() implies #[trigger] t[i] == toks[i] by {}
        if cl_value(last.0) is None {
            assert(toks[toks.len() - 1] == last);
        }
        assert forall|v: u64| r.values.contains(v) <==> exists|i: int|
            0 <= i < toks.len() && cl_value(#[trigger] toks[i].0) == Some(v) by {
            if r.values.contains(v) {
                if a.values.contains(v) {
                    let i = choose|i: int| 0 <= i < t.len() && cl_value(#[trigger] t[i].0) == Some(v);
                    assert(toks[i] == t[i]);
                } else {
                    assert(cl_value(toks[toks.len() - 1].0) == Some(v));
                }
            }
            if exists|i: int| 0 <= i < toks.len() && cl_value(#[trigger] toks[i].0) == Some(v) {
                let i = choose|i: int| 0 <= i < toks.len() && cl_value(#[trigger] toks[i].0) == Some(v);
                if i < t.len() {
                    assert(t[i] == toks[i]);
                    assert(a.values.contains(v));
                    let k = choose|k: int| 0 <= k < a.values.len() && a.values[k] == v;
                    if cl_value(last.0) is Some && !a.values.contains(cl_value(last.0)->0) {
                        assert(r.values[k] == v);
                    }
                } else {
                    if !a.values.contains(v) {
                        assert(r.values[r.values.len() - 1] == v);
                    }
                }
            }
        }
        if exists|i: int| 0 <= i < toks.len() && cl_value(#[trigger] toks[i].0) is None {
            let i = choose|i: int| 0 <= i < toks.len() && cl_value(#[trigger] toks[i].0) is None;
            if i < t.len() {
                assert(t[i] == toks[i]);
            }
        }
        if a.invalid {
            let i = choose|i: int| 0 <= i < t.len() && cl_value(#[trigger] t[i].0) is None;
            assert(toks[i] == t[i]);
        }
    } else {
        assert(bad_cl_notes(toks) =~= Seq::<FindingView>::empty());
    }
}

/// Content-Length resolution, stated over the raw tokens (every
/// comma-separated piece of every field, trimmed): it is present iff there is
/// a field; it is invalid iff some token is not a bare decimal; its values are
/// the distinct values of the valid tokens, and it settles on one only when
/// nothing is invalid and exactly one value occurs. Its findings are PW002
/// when there are several fields, then one PW010 per invalid token in order,
/// then PW003 when several distinct values occur.
pub proof fn law_content_length_resolution(cls: Seq<(Seq<char>, Span)>)
    ensures
        ({
            let toks = field_tokens(cls);
            let (r, f) = cl_spec(cls);
            let vals = cl_fields(cls).values;
            let k: int = if cls.len() > 1 { 1 } else { 0 };
            let b = bad_cl_notes(toks);
            &&& r.present == (cls.len() > 0)
            &&& r.invalid <==> exists|i: int|
                0 <= i < toks.len() && cl_value(#[trigger] toks[i].0) is None
            &&& forall|v: u64| vals.contains(v) <==> exists|i: int|
                0 <= i < toks.len() && cl_value(#[trigger] toks[i].0) == Some(v)
            &&& forall|i: int, j: int| 0 <= i < j < vals.len() ==> vals[i] != vals[j]
            &&& r.value == (if !r.invalid && vals.len() == 1 { Some(vals[0]) } else { None })
            &&& f.len() == k + b.len() + (if vals.len() > 1 { 1int } else { 0int })
            &&& k == 1 ==> f[0].code == code_lit(2)
            &&& f.subrange(k, k + b.len()) == b
            &&& vals.len() > 1 ==> f.last().code == code_lit(3)
        }),
{
    let toks = field_tokens(cls);
    lemma_cl_fields_tokens(cls);
    lemma_cl_fold_facts(toks);
    if cls.len() == 0 {
        assert(toks =~= Seq::<(Seq<char>, Span)>::empty());
        assert(bad_cl_notes(toks) =~= Seq::<FindingView>::empty());
    } else {
        let (r, f) = cl_spec(cls);
        let k: int = if cls.len() > 1 { 1 } else { 0 };
        let b = bad_cl_notes(toks);
        assert(f.subrange(k, k + b.len()) =~= b);
    }
}

/// The codings that Transfer-Encoding tokens name: every non-empty token,
/// lowercased, in order.
pub open spec fn te_codings(toks: Seq<(Seq<char>, Span)>) -> Seq<Seq<char>>
    decreases toks.len(),
{
    if toks.len() == 0 {
        Seq::empty()
    } else {
        te_codings(toks.drop_last()) + if toks.last().0.len() == 0 {
            Seq::empty()
        } else {
            seq![lower_all(toks.last().0)]
        }
    }
}

/// One PW006 per non-empty token that mimics `chunked`, in order.
pub open spec fn obfuscated_notes(toks: Seq<(Seq<char>, Span)>) -> Seq<FindingView>
    decreases toks.len(),
{
    if toks.len() == 0 {
        Seq::empty()
    } else {
        obfuscated_notes(toks.drop_last()) + if toks.last().0.len() != 0 && obfuscated(
            toks.last().0,
        ) {
            seq![
                note(
                    6,
                    "transfer coding `"@ + toks.last().0
                        + "` mimics chunked; strict and lenient parsers will disagree"@,
                    Some(toks.last().1),
                ),
            ]
        } else {
            Seq::empty()
        }
    }
}

proof fn lemma_te_lists_concat(a: Seq<(Seq<char>, Span)>, b: Seq<(Seq<char>, Span)>)
    ensures
        te_codings(a + b) == te_codings(a) + te_codings(b),
        obfuscated_notes(a + b) == obfuscated_notes(a) + obfuscated_notes(b),
    decreases b.len(),
{
    if b.len() == 0 {
        assert(a + b =~= a);
        assert(te_codings(a) + te_codings(b) =~= te_codings(a));
        assert(obfuscated_notes(a) + obfuscated_notes(b) =~= obfuscated_notes(a));
    } else {
        lemma_te_lists_concat(a, b.drop_last());
        assert((a + b).drop_last() =~= a + b.drop_last());
        assert((a + b).last() == b.last());
        assert(te_codings(a + b) =~= te_codings(a) + te_codings(b));
        assert(obfuscated_notes(a + b) =~= obfuscated_notes(a) + obfuscated_notes(b));
    }
}

proof fn lemma_te_pieces_tokens(acc: TeAcc, pieces: Seq<Seq<char>>, sp: Span)
    ensures
        te_pieces(acc, pieces, sp) == (TeAcc {
            codings: acc.codings + te_codings(piece_tokens(pieces, sp)),
            findings: acc.findings + obfuscated_notes(piece_tokens(pieces, sp)),
        }),
    decreases pieces.len(),
{
    let pt = piece_tokens(pieces, sp);
    if pieces.len() > 0 {
        lemma_te_pieces_tokens(acc, pieces.drop_last(), sp);
        assert(pt.drop_last() =~= piece_tokens(pieces.drop_last(), sp));
        assert(pt.last() == (trim(pieces.last()), sp));
        let a = te_pieces(acc, pieces.drop_last(), sp);
        let pd = piece_tokens(pieces.drop_last(), sp);
        assert(a.codings + te_codings(pt).subrange(te_codings(pd).len() as int, te_codings(pt).len() as int)
            =~= acc.codings + te_codings(pt));
        assert(te_pieces(acc, pieces, sp).codings =~= acc.codings + te_codings(pt));
        assert(te_pieces(acc, pieces, sp).findings =~= acc.findings + obfuscated_notes(pt));
    } else {
        assert(pt =~= Seq::<(Seq<char>, Span)>::empty());
        assert(acc.codings + te_codings(pt) =~= acc.codings);
        assert(acc.findings + obfuscated_notes(pt) =~= acc.findings);
    }
}

proof fn lemma_te_fields_tokens(tes: Seq<(Seq<char>, Span)>)
    ensures
        te_fields(tes) == (TeAcc {
            codings: te_codings(field_tokens(tes)),
            findings: obfuscated_notes(field_tokens(tes)),
        }),
    decreases tes.len(),
{
    if tes.len() > 0 {
        lemma_te_fields_tokens(tes.drop_last());
        let pieces = split_on(tes.last().0, ',');
        lemma_te_pieces_tokens(te_fields(tes.drop_last()), pieces, tes.last().1);
        lemma_te_lists_concat(field_tokens(tes.drop_last()), piece_tokens(pieces, tes.last().1));
    }
}

/// Transfer-Encoding resolution, stated over the raw tokens (every
/// comma-separated piece of every field, trimmed): it is present iff there is
/// a field; the final coding is chunked iff the last non-empty token is
/// `chunked` (ignoring ASCII case). Its findings are PW004 when there are
/// several fields, then one PW006 per token that mimics `chunked`, in order,
/// then PW005 when Transfer-Encoding is present without a final `chunked`.
pub proof fn law_transfer_encoding_resolution(tes: Seq<(Seq<char>, Span)>)
    ensures
        ({
            let toks = field_tokens(tes);
            let cs = te_codings(toks);
            let (r, f) = te_spec(tes);
            let k: int = if tes.len() > 1 { 1 } else { 0 };
            let o = obfuscated_notes(toks);
            &&& r.present == (tes.len() > 0)
            &&& r.final_is_chunked == (cs.len() > 0 && cs.last() == chunked_word())
            &&& f.len() == k + o.len() + (if r.present && !r.final_is_chunked { 1int } else { 0int })
            &&& k == 1 ==> f[0].code == code_lit(4)
            &&& f.subrange(k, k + o.len()) == o
            &&& (r.present && !r.final_is_chunked) ==> f.last().code == code_lit(5)
        }),
{
    lemma_te_fields_tokens(tes);
    let toks = field_tokens(tes);
    if tes.len() == 0 {
        assert(toks =~= Seq::<(Seq<char>, Span)>::empty());
        assert(obfuscated_notes(toks) =~= Seq::<FindingView>::empty());
        assert(te_codings(toks) =~= Seq::<Seq<char>>::empty());
    } else {
        let (r, f) = te_spec(tes);
        let k: int = if tes.len() > 1 { 1 } else { 0 };
        let o = obfuscated_notes(toks);
        assert(f.subrange(k, k + o.len()) =~= o);
    }
}

/// Transfer-Encoding without a final `chunked` leaves the length undeterminable:
/// the body is ambiguous and PW005 is reported.
pub proof fn law_non_chunked_final_is_ambiguous(m: MessageView, buf: Seq<u8>)
    requires
        collect_spec(m.headers, transfer_encoding_name()).len() > 0,
        !te_spec(collect_spec(m.headers, transfer_encoding_name())).0.final_is_chunked,
    ensures
        framing_spec(m, buf).0.framing == Framing::Ambiguous,
        has_code(framing_spec(m, buf).1, 5),
{
    let cls = collect_spec(m.headers, content_length_name());
    let tes = collect_spec(m.headers, transfer_encoding_name());
    let fs = framing_spec(m, buf).1;
    let fte = te_spec(tes).1;
    let i = host_findings(m).len() + cl_spec(cls).1.len() + fte.len() - 1;
    assert(fs[i] == fte[fte.len() - 1]);
    lemma_has_code_at(fs, i, 5);
}

/// More than one Content-Length field is reported as PW002.
pub proof fn law_duplicate_content_length_is_reported(m: MessageView, buf: Seq<u8>)
    requires
        collect_spec(m.headers, content_length_name()).len() > 1,
    ensures
        has_code(framing_spec(m, buf).1, 2),
{
    let fs = framing_spec(m, buf).1;
    lemma_has_code_at(fs, host_findings(m).len() as int, 2);
}

/// Content-Length values that resolve to more than one number are reported as
/// PW003, and without Transfer-Encoding the body length is undeterminable:
/// the body is ambiguous, declares no length and is not complete.
pub proof fn law_conflicting_content_length_is_reported(m: MessageView, buf: Seq<u8>)
    requires
        cl_fields(collect_spec(m.headers, content_length_name())).values.len() > 1,
    ensures
        has_code(framing_spec(m, buf).1, 3),
        collect_spec(m.headers, transfer_encoding_name()).len() == 0 ==> {
            &&& framing_spec(m, buf).0.framing == Framing::Ambiguous
            &&& framing_spec(m, buf).0.declared_len is None
            &&& !framing_spec(m, buf).0.complete
        },
{
    let cls = collect_spec(m.headers, content_length_name());
    if cls.len() == 0 {
        assert(cl_fields(cls).values.len() == 0);
    }
    let fs = framing_spec(m, buf).1;
    let fcl = cl_spec(cls).1;
    let i = host_findings(m).len() + fcl.len() - 1;
    assert(fs[i] == fcl[fcl.len() - 1]);
    lemma_has_code_at(fs, i, 3);
}

/// More than one Transfer-Encoding field is reported as PW004.
pub proof fn law_duplicate_transfer_encoding_is_reported(m: MessageView, buf: Seq<u8>)
    requires
        collect_spec(m.headers, transfer_encoding_name()).len() > 1,
    ensures
        has_code(framing_spec(m, buf).1, 4),
{
    let cls = collect_spec(m.headers, content_length_name());
    let fs = framing_spec(m, buf).1;
    lemma_has_code_at(fs, (host_findings(m).len() + cl_spec(cls).1.len()) as int, 4);
}

/// Without Content-Length or Transfer-Encoding a request has no body and a
/// response body runs until the connection closes.
pub proof fn law_no_framing_headers(m: MessageView, buf: Seq<u8>)
    requires
        collect_spec(m.headers, content_length_name()).len() == 0,
        collect_spec(m.headers, transfer_encoding_name()).len() == 0,
    ensures
        m.kind == MessageKind::Request ==> framing_spec(m, buf).0.framing == Framing::Empty,
        m.kind == MessageKind::Response ==> framing_spec(m, buf).0.framing
            == Framing::UntilClose,
{
}

/// A single valid Content-Length without Transfer-Encoding frames exactly that
/// many bytes: the body is complete iff that many bytes are present.
pub proof fn law_content_length_frames_the_body(m: MessageView, buf: Seq<u8>, n: u64)
    requires
        collect_spec(m.headers, transfer_encoding_name()).len() == 0,
        cl_spec(collect_spec(m.headers, content_length_name())).0.value == Some(n),
        m.body_start <= buf.len(),
    ensures
        framing_spec(m, buf).0.framing == Framing::ContentLength,
        framing_spec(m, buf).0.declared_len == Some(n as usize),
        framing_spec(m, buf).0.complete == (buf.len() - m.body_start >= n as usize),
{
}

/// Every comma-separated piece of every Content-Length field, trimmed, is the
/// bare decimal `n`.
pub open spec fn cl_tokens_all(cls: Seq<(Seq<char>, Span)>, n: u64) -> bool {
    forall|i: int, j: int|
        0 <= i < cls.len() && 0 <= j < split_on(cls[i].0, ',').len() ==> cl_value(
            trim(#[trigger] split_on(cls[i].0, ',')[j]),
        ) == Some(n)
}

proof fn lemma_cl_pieces_same(acc: ClAcc, pieces: Seq<Seq<char>>, span: Span, n: u64)
    requires
        forall|j: int| 0 <= j < pieces.len() ==> cl_value(trim(#[trigger] pieces[j])) == Some(n),
        acc.values.len() == 0 || acc.values == seq![n],
    ensures
        cl_pieces(acc, pieces, span).invalid == acc.invalid,
        cl_pieces(acc, pieces, span).findings == acc.findings,
        cl_pieces(acc, pieces, span).values == (if pieces.len() > 0 {
            seq![n]
        } else {
            acc.values
        }),
    decreases pieces.len(),
{
    if pieces.len() > 0 {
        let p = pieces.drop_last();
        assert forall|j: int| 0 <= j < p.len() implies cl_value(trim(#[trigger] p[j])) == Some(n) by {
            assert(p[j] == pieces[j]);
        }
        lemma_cl_pieces_same(acc, p, span, n);
        let a = cl_pieces(acc, p, span);
        assert(cl_value(trim(pieces[pieces.len() - 1])) == Some(n));
        if a.values.len() == 0 {
            assert(a.values.push(n) =~= seq![n]);
        } else {
            assert(a.values[0] == n);
            assert(a.values.contains(n));
        }
    }
}

proof fn lemma_cl_fields_same(cls: Seq<(Seq<char>, Span)>, n: u64)
    requires
        cl_tokens_all(cls, n),
    ensures
        !cl_fields(cls).invalid,
        cl_fields(cls).findings.len() == 0,
        cl_fields(cls).values == (if cls.len() > 0 {
            seq![n]
        } else {
            Seq::<u64>::empty()
        }),
    decreases cls.len(),
{
    if cls.len() > 0 {
        let c = cls.drop_last();
        assert forall|i: int, j: int|
            0 <= i < c.len() && 0 <= j < split_on(c[i].0, ',').len() implies cl_value(
            trim(#[trigger] split_on(c[i].0, ',')[j]),
        ) == Some(n) by {
            assert(c[i] == cls[i]);
            assert(split_on(cls[i].0, ',')[j] == split_on(c[i].0, ',')[j]);
        }
        lemma_cl_fields_same(c, n);
        let last = cls[cls.len() - 1];
        let pieces = split_on(last.0, ',');
        crate::text::lemma_split_nonempty(last.0, ',');
        assert forall|j: int| 0 <= j < pieces.len() implies cl_value(trim(#[trigger] pieces[j]))
            == Some(n) by {
            assert(split_on(cls[cls.len() - 1].0, ',')[j] == pieces[j]);
        }
        lemma_cl_pieces_same(cl_fields(c), pieces, last.1, n);
    }
}

/// Findings none of which carries code `n`.
proof fn lemma_no_code(fs: Seq<FindingView>, n: u8)
    requires
        forall|i: int| 0 <= i < fs.len() ==> #[trigger] fs[i].code != code_lit(n),
    ensures
        !has_code(fs, n),
{
}

/// A Content-Length body, stated over the raw field values: when there is no
/// Transfer-Encoding and every piece of every Content-Length value is the bare
/// decimal `n`, the body is `n` bytes framed by Content-Length. With `p` bytes
/// present after the head, the body holds the first `min(p, n)` of them, is
/// complete iff `p >= n`, and the findings report PW018 iff `p < n` and PW017
/// iff `p > n`.
pub proof fn law_content_length_body(m: MessageView, buf: Seq<u8>, n: u64)
    requires
        collect_spec(m.headers, transfer_encoding_name()).len() == 0,
        collect_spec(m.headers, content_length_name()).len() > 0,
        cl_tokens_all(collect_spec(m.headers, content_length_name()), n),
        m.body_start <= buf.len() <= usize::MAX,
    ensures
        ({
            let b = framing_spec(m, buf).0;
            let fs = framing_spec(m, buf).1;
            let nu = n as usize;
            let p = buf.len() - m.body_start;
            let got = if p < nu { p } else { nu as int };
            &&& b.framing == Framing::ContentLength
            &&& b.declared_len == Some(nu)
            &&& b.decoded_len == got
            &&& b.complete == (p >= nu)
            &&& b.span == span_of(m.body_start as int, m.body_start + got)
            &&& has_code(fs, 18) <==> p < nu
            &&& has_code(fs, 17) <==> p > nu
        }),
{
    let cls = collect_spec(m.headers, content_length_name());
    let tes = collect_spec(m.headers, transfer_encoding_name());
    lemma_cl_fields_same(cls, n);
    assert(cl_spec(cls).0.value == Some(n));
    let fs = framing_spec(m, buf).1;
    let hf = host_findings(m);
    let fcl = cl_spec(cls).1;
    let fbody = body_spec(m.kind, m.body_start, buf, cl_spec(cls).0, te_spec(tes).0).1;
    assert(te_spec(tes).1.len() == 0);
    assert(fs =~= hf + fcl + fbody);
    assert(forall|i: int| 0 <= i < fcl.len() ==> #[trigger] fcl[i].code == code_lit(2));
    assert(forall|i: int|
        0 <= i < hf.len() ==> #[trigger] hf[i].code == code_lit(15) || hf[i].code == code_lit(16));
    let nu = n as usize;
    let p = buf.len() - m.body_start;
    law_catalog_codes_are_distinct(2, 17);
    law_catalog_codes_are_distinct(2, 18);
    law_catalog_codes_are_distinct(15, 17);
    law_catalog_codes_are_distinct(15, 18);
    law_catalog_codes_are_distinct(16, 17);
    law_catalog_codes_are_distinct(16, 18);
    law_catalog_codes_are_distinct(17, 18);
    if p < nu {
        lemma_has_code_at(fs, fs.len() - 1, 18);
        assert forall|i: int| 0 <= i < fs.len() implies #[trigger] fs[i].code != code_lit(17) by {
            if i >= hf.len() + fcl.len() {
                assert(fs[i] == fbody[i - hf.len() - fcl.len()]);
            } else if i >= hf.len() {
                assert(fs[i] == fcl[i - hf.len()]);
            } else {
                assert(fs[i] == hf[i]);
            }
        }
        lemma_no_code(fs, 17);
    } else if p > nu {
        lemma_has_code_at(fs, fs.len() - 1, 17);
        assert forall|i: int| 0 <= i < fs.len() implies #[trigger] fs[i].code != code_lit(18) by {
            if i >= hf.len() + fcl.len() {
                assert(fs[i] == fbody[i - hf.len() - fcl.len()]);
            } else if i >= hf.len() {
                assert(fs[i] == fcl[i - hf.len()]);
            } else {
                assert(fs[i] == hf[i]);
            }
        }
        lemma_no_code(fs, 18);
    } else {
        assert(fbody.len() == 0);
        assert forall|i: int| 0 <= i < fs.len() implies #[trigger] fs[i].code != code_lit(17)
            && fs[i].code != code_lit(18) by {
            if i >= hf.len() {
                assert(fs[i] == fcl[i - hf.len()]);
            } else {
                assert(fs[i] == hf[i]);
            }
        }
        lemma_no_code(fs, 17);
        lemma_no_code(fs, 18);
    }
}

/// A request without a Host field is reported as PW015, and one with several
/// as PW016.
pub proof fn law_host_is_checked(m: MessageView, buf: Seq<u8>)
    requires
        m.kind == MessageKind::Request,
    ensures
        collect_spec(m.headers, host_name()).len() == 0 ==> has_code(framing_spec(m, buf).1, 15),
        collect_spec(m.headers, host_name()).len() > 1 ==> has_code(framing_spec(m, buf).1, 16),
{
    let fs = framing_spec(m, buf).1;
    if collect_spec(m.headers, host_name()).len() == 0 {
        lemma_has_code_at(fs, 0, 15);
    }
    if collect_spec(m.headers, host_name()).len() > 1 {
        lemma_has_code_at(fs, 0, 16);
    }
}

/// The framed body lies inside the buffer.
pub proof fn law_body_span_is_inside_the_buffer(m: MessageView, buf: Seq<u8>)
    requires
        m.body_start <= buf.len(),
        buf.len() <= usize::MAX,
    ensures
        framing_spec(m, buf).0.span.start <= framing_spec(m, buf).0.span.end <= buf.len(),
{
}

/// Bytes after the framed body are always reported as PW017: on a request
/// boundary they are the start of the next request.
pub proof fn law_bytes_after_the_body_are_reported(m: MessageView, buf: Seq<u8>)
    requires
        m.body_start <= buf.len(),
        buf.len() <= usize::MAX,
    ensures
        framing_spec(m, buf).0.span.end < buf.len() ==> has_code(framing_spec(m, buf).1, 17),
{
    let fs = framing_spec(m, buf).1;
    let fbody = body_spec(
        m.kind,
        m.body_start,
        buf,
        cl_spec(collect_spec(m.headers, content_length_name())).0,
        te_spec(collect_spec(m.headers, transfer_encoding_name())).0,
    ).1;
    if framing_spec(m, buf).0.span.end < buf.len() {
        assert(fbody.len() > 0 && fbody.last().code == code_lit(17));
        assert(fs[fs.len() - 1] == fbody.last());
        lemma_has_code_at(fs, fs.len() - 1, 17);
    }
}

/// A Content-Length body with fewer bytes present than declared is reported
/// as PW018.
pub proof fn law_short_content_length_body_is_reported(m: MessageView, buf: Seq<u8>)
    requires
        m.body_start <= buf.len(),
        buf.len() <= usize::MAX,
        framing_spec(m, buf).0.framing == Framing::ContentLength,
        !framing_spec(m, buf).0.complete,
    ensures
        has_code(framing_spec(m, buf).1, 18),
{
    let fs = framing_spec(m, buf).1;
    let fbody = body_spec(
        m.kind,
        m.body_start,
        buf,
        cl_spec(collect_spec(m.headers, content_length_name())).0,
        te_spec(collect_spec(m.headers, transfer_encoding_name())).0,
    ).1;
    assert(fbody.len() == 1 && fbody[0].code == code_lit(18));
    assert(fs[fs.len() - 1] == fbody[0]);
    lemma_has_code_at(fs, fs.len() - 1, 18);
}

/// A chunked body that never reaches its `0`-size chunk is reported as PW020.
pub proof fn law_unterminated_chunked_body_is_reported(m: MessageView, buf: Seq<u8>)
    requires
        m.body_start <= buf.len(),
        buf.len() <= usize::MAX,
        framing_spec(m, buf).0.framing == Framing::Chunked,
        !framing_spec(m, buf).0.complete,
    ensures
        has_code(framing_spec(m, buf).1, 20),
{
    let fs = framing_spec(m, buf).1;
    let (scan, sf) = scan_spec(buf, m.body_start as int);
    let fbody = body_spec(
        m.kind,
        m.body_start,
        buf,
        cl_spec(collect_spec(m.headers, content_length_name())).0,
        te_spec(collect_spec(m.headers, transfer_encoding_name())).0,
    ).1;
    assert(sf.last().code == code_lit(20));
    if scan.end < buf.len() {
        assert(fbody == sf.push(fbody.last()));
        assert(fs[fs.len() - 2] == sf.last());
        lemma_has_code_at(fs, fs.len() - 2, 20);
    } else {
        assert(fs[fs.len() - 1] == sf.last());
        lemma_has_code_at(fs, fs.len() - 1, 20);
    }
}

proof fn lemma_cl_pieces_keep(acc: ClAcc, pieces: Seq<Seq<char>>, span: Span)
    ensures
        acc.findings.len() <= cl_pieces(acc, pieces, span).findings.len(),
        forall|i: int|
            0 <= i < acc.findings.len() ==> #[trigger] cl_pieces(acc, pieces, span).findings[i]
                == acc.findings[i],
        acc.invalid ==> cl_pieces(acc, pieces, span).invalid,
    decreases pieces.len(),
{
    if pieces.len() > 0 {
        lemma_cl_pieces_keep(acc, pieces.drop_last(), span);
    }
}

proof fn lemma_cl_pieces_bad(acc: ClAcc, pieces: Seq<Seq<char>>, span: Span, j: int)
    requires
        0 <= j < pieces.len(),
        cl_value(trim(pieces[j])) is None,
    ensures
        cl_pieces(acc, pieces, span).invalid,
        has_code(cl_pieces(acc, pieces, span).findings, 10),
    decreases pieces.len(),
{
    let a = cl_pieces(acc, pieces.drop_last(), span);
    if j == pieces.len() - 1 {
        let r = cl_pieces(acc, pieces, span);
        lemma_has_code_at(r.findings, r.findings.len() - 1, 10);
    } else {
        assert(pieces.drop_last()[j] == pieces[j]);
        lemma_cl_pieces_bad(acc, pieces.drop_last(), span, j);
        let r = cl_pieces(acc, pieces, span);
        lemma_has_code_grows(a.findings, r.findings, 10);
    }
}

proof fn lemma_cl_fields_bad(cls: Seq<(Seq<char>, Span)>, i: int, j: int)
    requires
        0 <= i < cls.len(),
        0 <= j < split_on(cls[i].0, ',').len(),
        cl_value(trim(split_on(cls[i].0, ',')[j])) is None,
    ensures
        cl_fields(cls).invalid,
        has_code(cl_fields(cls).findings, 10),
    decreases cls.len(),
{
    let prev = cl_fields(cls.drop_last());
    if i == cls.len() - 1 {
        lemma_cl_pieces_bad(prev, split_on(cls.last().0, ','), cls.last().1, j);
    } else {
        assert(cls.drop_last()[i] == cls[i]);
        lemma_cl_fields_bad(cls.drop_last(), i, j);
        lemma_cl_pieces_keep(prev, split_on(cls.last().0, ','), cls.last().1);
        lemma_has_code_grows(prev.findings, cl_fields(cls).findings, 10);
    }
}

/// A Content-Length value that is not a bare decimal integer (in any field,
/// in any comma-separated position) is reported as PW010.
pub proof fn law_invalid_content_length_is_reported(m: MessageView, buf: Seq<u8>, i: int, j: int)
    requires
        0 <= i < collect_spec(m.headers, content_length_name()).len(),
        0 <= j < split_on(collect_spec(m.headers, content_length_name())[i].0, ',').len(),
        cl_value(
            trim(split_on(collect_spec(m.headers, content_length_name())[i].0, ',')[j]),
        ) is None,
    ensures
        has_code(framing_spec(m, buf).1, 10),
{
    let cls = collect_spec(m.headers, content_length_name());
    lemma_cl_fields_bad(cls, i, j);
    let acc = cl_fields(cls);
    let k = choose|k: int| 0 <= k < acc.findings.len() && #[trigger] acc.findings[k].code == code_lit(10);
    let fs = framing_spec(m, buf).1;
    let f1len: int = if cls.len() > 1 { 1 } else { 0 };
    let at = host_findings(m).len() + f1len + k;
    assert(cl_spec(cls).1[f1len + k] == acc.findings[k]);
    assert(fs[at] == acc.findings[k]);
    lemma_has_code_at(fs, at, 10);
}

proof fn lemma_te_pieces_keep(acc: TeAcc, pieces: Seq<Seq<char>>, span: Span)
    ensures
        acc.findings.len() <= te_pieces(acc, pieces, span).findings.len(),
        forall|i: int|
            0 <= i < acc.findings.len() ==> #[trigger] te_pieces(acc, pieces, span).findings[i]
                == acc.findings[i],
    decreases pieces.len(),
{
    if pieces.len() > 0 {
        lemma_te_pieces_keep(acc, pieces.drop_last(), span);
    }
}

proof fn lemma_te_pieces_obfuscated(acc: TeAcc, pieces: Seq<Seq<char>>, span: Span, j: int)
    requires
        0 <= j < pieces.len(),
        obfuscated(trim(pieces[j])),
    ensures
        has_code(te_pieces(acc, pieces, span).findings, 6),
    decreases pieces.len(),
{
    let a = te_pieces(acc, pieces.drop_last(), span);
    let r = te_pieces(acc, pieces, span);
    if j == pieces.len() - 1 {
        assert(trim(pieces.last()).len() > 0);
        lemma_has_code_at(r.findings, r.findings.len() - 1, 6);
    } else {
        assert(pieces.drop_last()[j] == pieces[j]);
        lemma_te_pieces_obfuscated(acc, pieces.drop_last(), span, j);
        lemma_has_code_grows(a.findings, r.findings, 6);
    }
}

proof fn lemma_te_fields_obfuscated(tes: Seq<(Seq<char>, Span)>, i: int, j: int)
    requires
        0 <= i < tes.len(),
        0 <= j < split_on(tes[i].0, ',').len(),
        obfuscated(trim(split_on(tes[i].0, ',')[j])),
    ensures
        has_code(te_fields(tes).findings, 6),
    decreases tes.len(),
{
    let prev = te_fields(tes.drop_last());
    if i == tes.len() - 1 {
        lemma_te_pieces_obfuscated(prev, split_on(tes.last().0, ','), tes.last().1, j);
    } else {
        assert(tes.drop_last()[i] == tes[i]);
        lemma_te_fields_obfuscated(tes.drop_last(), i, j);
        lemma_te_pieces_keep(prev, split_on(tes.last().0, ','), tes.last().1);
        lemma_has_code_grows(prev.findings, te_fields(tes).findings, 6);
    }
}

/// A transfer coding that mimics `chunked` without being it (in any field,
/// in any comma-separated position) is reported as PW006.
pub proof fn law_obfuscated_coding_is_reported(m: MessageView, buf: Seq<u8>, i: int, j: int)
    requires
        0 <= i < collect_spec(m.headers, transfer_encoding_name()).len(),
        0 <= j < split_on(collect_spec(m.headers, transfer_encoding_name())[i].0, ',').len(),
        obfuscated(trim(split_on(collect_spec(m.headers, transfer_encoding_name())[i].0, ',')[j])),
    ensures
        has_code(framing_spec(m, buf).1, 6),
{
    let cls = collect_spec(m.headers, content_length_name());
    let tes = collect_spec(m.headers, transfer_encoding_name());
    lemma_te_fields_obfuscated(tes, i, j);
    let acc = te_fields(tes);
    let k = choose|k: int| 0 <= k < acc.findings.len() && #[trigger] acc.findings[k].code == code_lit(6);
    let fs = framing_spec(m, buf).1;
    let f1len: int = if tes.len() > 1 { 1 } else { 0 };
    let at = host_findings(m).len() + cl_spec(cls).1.len() + f1len + k;
    assert(te_spec(tes).1[f1len + k] == acc.findings[k]);
    assert(fs[at] == acc.findings[k]);
    lemma_has_code_at(fs, at, 6);
}

/// Run the full framing analysis, filling `msg.body` and appending findings.
#[verifier::rlimit(50)]
pub fn analyze(msg: &mut Message, findings: &mut Vec<Finding>, buf: &[u8])
    requires
        old(msg).body_start <= buf@.len(),
    ensures
        all_wf(old(findings)@) ==> all_wf(final(findings)@),
        final(msg)@ == (MessageView { body: framing_spec(old(msg)@, buf@).0, ..old(msg)@ }),
        finding_views(final(findings)@) == finding_views(old(findings)@) + framing_spec(
            old(msg)@,
            buf@,
        ).1,
        esc_free(buf@) && (forall|i: int|
            0 <= i < old(msg)@.headers.len() ==> no_esc(#[trigger] old(msg)@.headers[i].value))
            ==> details_no_esc(framing_spec(old(msg)@, buf@).1),
{
    let ghost m0 = msg@;
    let ghost f0 = finding_views(findings@);
    let cls = collect(&msg.headers, "content-length");
    let tes = collect(&msg.headers, "transfer-encoding");
    let hosts = collect(&msg.headers, "host");
    if msg.kind == MessageKind::Request {
        if hosts.len() == 0 {
            push_finding(
                findings,
                Finding::with_text(15, "HTTP/1.1 request has no Host header", Some(msg.start_line.span)),
            );
        } else if hosts.len() > 1 {
            let mut d = String::new();
            push_dec(&mut d, hosts.len() as u64);
            push_str(&mut d, " Host header fields are present");
            let last = hosts.len() - 1;
            push_finding(
                findings,
                Finding::from_entry(16, d, Some(combine_spans(hosts[0].span, hosts[last].span))),
            );
        }
    }
    assert(finding_views(findings@) =~= f0 + host_findings(m0));
    let cl = resolve_content_length(&cls, findings);
    let te = resolve_transfer_encoding(&tes, findings);
    let ghost f3 = finding_views(findings@);
    if cl.present && te.present {
        let sp = match te.span {
            Some(s) => s,
            None => tes[tes.len() - 1].span,
        };
        push_finding(
            findings,
            Finding::with_text(
                1,
                "both Content-Length and Transfer-Encoding are present; conforming servers use chunked and ignore Content-Length",
                Some(combine_spans(cls[0].span, sp)),
            ),
        );
    }
    let ghost f4 = finding_views(findings@);
    let body = frame_body(msg.kind, msg.body_start, buf, &cl, &te, findings);
    let ghost fs = framing_spec(m0, buf@);
    proof {
        let cls_v = collect_spec(m0.headers, content_length_name());
        let tes_v = collect_spec(m0.headers, transfer_encoding_name());
        assert(ref_views(cls@) == cls_v);
        assert(ref_views(tes@) == tes_v);
        if cl.present && te.present {
            assert(cls_v[0].1 == cls@[0].span);
        }
        assert(f4 =~= f0 + host_findings(m0) + cl_spec(cls_v).1 + te_spec(tes_v).1 + (if cl.present
            && te.present {
            seq![
                note(
                    1,
                    "both Content-Length and Transfer-Encoding are present; conforming servers use chunked and ignore Content-Length"@,
                    Some(combine(cls_v[0].1, te.span->0)),
                ),
            ]
        } else {
            Seq::empty()
        }));
    }
    assert(finding_views(findings@) =~= f0 + fs.1);
    proof {
        if esc_free(buf@) && (forall|i: int|
            0 <= i < m0.headers.len() ==> no_esc(#[trigger] m0.headers[i].value)) {
            lemma_framing_no_esc(m0, buf@);
        }
    }
    msg.body = body;
}

} // verus!
