//! The write half and the read half agree: the desync gadgets that
//! [`crate::craft`] emits are reported by [`crate::analyze`] as the framing
//! ambiguities they are built to provoke, whatever host and target they carry.
use vstd::prelude::*;
use vstd::utf8::{encode_scalar, encode_utf8, is_ascii_chars};
use crate::analyze_spec;
use crate::craft::{gadget_tail, gadget_text, lemma_encode_utf8_concat, Gadget};
use crate::findings::{has_code, lemma_has_code_at, FindingView};
use crate::framing::{
    chunked_word, collect_spec, content_length_name, law_both_framing_headers_are_reported,
    law_duplicate_transfer_encoding_is_reported, obfuscated, te_fields, te_pieces, te_spec,
    transfer_encoding_name,
};
use crate::message::{Framing, HeaderView, ParseMode};
use crate::chunked::{hex_number, scan_spec};
use crate::parser::{
    header_line_spec, headers_from, kind_of, line_at, observe, parse_spec, start_line_spec,
    trim_ows, weird_none, HeadState, Line, Term,
};
use crate::span::Span;
use crate::text::{
    ascii_ieq, find, is_ascii_bytes, lemma_find_is, lower_all, split_on, text_of, trim,
};

verus! {

broadcast use vstd::string::group_string_axioms;

/// Text without a line feed: it stays on one line of the request.
pub open spec fn one_line(s: Seq<char>) -> bool {
    forall|i: int| 0 <= i < s.len() ==> s[i] != '\n'
}

proof fn lemma_scalar_has_no_lf(v: u32)
    requires
        v != 10,
        v <= 0x10FFFF,
    ensures
        forall|k: int| 0 <= k < encode_scalar(v).len() ==> encode_scalar(v)[k] != 10u8,
{
    assert(v <= 0x7F ==> ((v & 0x7F) as u8) != 10u8) by (bit_vector)
        requires
            v != 10,
    ;
    assert((0xC0u8 | ((v >> 6u32) & 0x1F) as u8) != 10u8) by (bit_vector);
    assert((0xE0u8 | ((v >> 12u32) & 0x0F) as u8) != 10u8) by (bit_vector);
    assert((0xF0u8 | ((v >> 18u32) & 0x7) as u8) != 10u8) by (bit_vector);
    assert((0x80u8 | (v & 0x3F) as u8) != 10u8) by (bit_vector);
    assert((0x80u8 | ((v >> 6u32) & 0x3F) as u8) != 10u8) by (bit_vector);
    assert((0x80u8 | ((v >> 12u32) & 0x3F) as u8) != 10u8) by (bit_vector);
}

/// The UTF-8 encoding of one-line text holds no line-feed byte.
proof fn lemma_one_line_bytes(s: Seq<char>)
    requires
        one_line(s),
    ensures
        forall|k: int| 0 <= k < encode_utf8(s).len() ==> encode_utf8(s)[k] != 10u8,
    decreases s.len(),
{
    if s.len() > 0 {
        vstd::utf8::char_is_scalar(s[0]);
        vstd::utf8::char_u32_cast(s[0], s[0] as u32);
        assert((10u32 as char) == '\n');
        lemma_scalar_has_no_lf(s[0] as u32);
        assert(one_line(s.drop_first()));
        lemma_one_line_bytes(s.drop_first());
        let a = encode_scalar(s[0] as u32);
        let b = encode_utf8(s.drop_first());
        assert forall|k: int| 0 <= k < encode_utf8(s).len() implies encode_utf8(s)[k] != 10u8 by {
            if k < a.len() {
                assert(encode_utf8(s)[k] == a[k]);
            } else {
                assert(encode_utf8(s)[k] == b[k - a.len()]);
            }
        }
    }
}

/// The line at `pos` when its content is `k` bytes long and ends in CRLF.
pub(crate) proof fn lemma_crlf_line(buf: Seq<u8>, pos: int, k: int)
    requires
        0 <= pos,
        0 <= k,
        pos + k + 1 < buf.len(),
        buf.len() <= usize::MAX,
        forall|i: int| pos <= i < pos + k ==> buf[i] != 10u8,
        buf[pos + k] == 13u8,
        buf[pos + k + 1] == 10u8,
    ensures
        line_at(buf, pos) == (Line {
            content: Span { start: pos as usize, end: (pos + k) as usize },
            full: Span { start: pos as usize, end: (pos + k + 2) as usize },
            term: Term::Crlf,
        }),
{
    let s = buf.subrange(pos, buf.len() as int);
    lemma_find_is(s, 10u8, k + 1);
}

/// The line at `pos` when its content is `k` bytes long and ends in a bare LF.
proof fn lemma_lf_line(buf: Seq<u8>, pos: int, k: int)
    requires
        0 <= pos,
        0 < k,
        pos + k < buf.len(),
        buf.len() <= usize::MAX,
        forall|i: int| pos <= i < pos + k ==> buf[i] != 10u8,
        buf[pos + k - 1] != 13u8,
        buf[pos + k] == 10u8,
    ensures
        line_at(buf, pos) == (Line {
            content: Span { start: pos as usize, end: (pos + k) as usize },
            full: Span { start: pos as usize, end: (pos + k + 1) as usize },
            term: Term::Lf,
        }),
{
    let s = buf.subrange(pos, buf.len() as int);
    lemma_find_is(s, 10u8, k);
}

/// One field line `name: value` of the header block, read at `pos` with the
/// line `line` (content `k` bytes): the loop goes on after it with the field
/// appended, named by the trimmed bytes before the first colon.
proof fn lemma_field_line(buf: Seq<u8>, pos: int, k: int, colon: int, line: Line, st: HeadState) -> (st2: HeadState)
    requires
        0 <= pos,
        0 <= colon < k,
        pos + k <= buf.len(),
        buf.len() <= usize::MAX,
        line_at(buf, pos) == line,
        line.content == (Span { start: pos as usize, end: (pos + k) as usize }),
        line.full.end > pos + k,
        buf[pos] != 32u8,
        buf[pos] != 9u8,
        forall|i: int| pos <= i < pos + colon ==> buf[i] != 58u8,
        buf[pos + colon] == 58u8,
    ensures
        headers_from(buf, pos, st) == headers_from(buf, line.full.end as int, st2),
        st2.headers == st.headers.push(st2.headers.last()),
        st2.headers.last().name == text_of(trim_ows(buf.subrange(pos, pos + colon))),
        st2.headers.last().value == text_of(trim_ows(buf.subrange(pos + colon + 1, pos + k))),
{
    let cb = line.content.clamped(buf);
    assert(cb =~= buf.subrange(pos, pos + k));
    lemma_find_is(cb, 58u8, colon);
    assert(cb.subrange(0, colon) =~= buf.subrange(pos, pos + colon));
    assert(cb.subrange(colon + 1, cb.len() as int) =~= buf.subrange(pos + colon + 1, pos + k));
    let st1 = HeadState { weird: observe(st.weird, buf, line), ..st };
    let st2 = header_line_spec(st1, line, cb);
    assert(st2.headers == st.headers.push(st2.headers.last()));
    st2
}

/// The blank line that ends the header block: the fields stay as they are.
proof fn lemma_blank_line(buf: Seq<u8>, pos: int, st: HeadState)
    requires
        0 <= pos,
        pos + 1 < buf.len(),
        buf.len() <= usize::MAX,
        buf[pos] == 13u8,
        buf[pos + 1] == 10u8,
    ensures
        headers_from(buf, pos, st).0.headers == st.headers,
        headers_from(buf, pos, st).1 == pos + 2,
{
    lemma_crlf_line(buf, pos, 0);
}

/// The gadget's bytes in five pieces: the method, the target, the rest of
/// the request line with the Host name, the host, and the fixed tail.
proof fn lemma_gadget_pieces(g: Gadget, host: Seq<char>, target: Seq<char>)
    ensures
        encode_utf8(gadget_text(g, host, target)) == encode_utf8("POST "@) + encode_utf8(target)
            + encode_utf8(" HTTP/1.1\r\nHost: "@) + encode_utf8(host) + encode_utf8(gadget_tail(g)),
{
    let a = "POST "@;
    let m = " HTTP/1.1\r\nHost: "@;
    lemma_encode_utf8_concat(a + target + m + host, gadget_tail(g));
    lemma_encode_utf8_concat(a + target + m, host);
    lemma_encode_utf8_concat(a + target, m);
    lemma_encode_utf8_concat(a, target);
}

/// The bytes of the fixed pieces of every gadget's request line.
proof fn lemma_fixed_prefix_bytes()
    ensures
        encode_utf8("POST "@) == seq![80u8, 79u8, 83u8, 84u8, 32u8],
        encode_utf8(" HTTP/1.1\r\nHost: "@) == seq![32u8, 72u8, 84u8, 84u8, 80u8, 47u8, 49u8, 46u8, 49u8, 13u8, 10u8, 72u8, 111u8, 115u8, 116u8, 58u8, 32u8],
{
    reveal_strlit("POST ");
    reveal_strlit(" HTTP/1.1\r\nHost: ");
    vstd::utf8::is_ascii_chars_encode_utf8("POST "@);
    vstd::utf8::is_ascii_chars_encode_utf8(" HTTP/1.1\r\nHost: "@);
    assert(encode_utf8("POST "@) =~= seq![80u8, 79u8, 83u8, 84u8, 32u8]);
    assert(encode_utf8(" HTTP/1.1\r\nHost: "@) =~= seq![32u8, 72u8, 84u8, 84u8, 80u8, 47u8, 49u8, 46u8, 49u8, 13u8, 10u8, 72u8, 111u8, 115u8, 116u8, 58u8, 32u8]);
}

/// `buf` is a gadget request: the method, a one-line target, the rest of the
/// request line with the Host name, a one-line host, then the tail `tl`.
pub open spec fn laid_out(buf: Seq<u8>, t: int, h: int, tl: Seq<u8>) -> bool {
    &&& 0 <= t
    &&& 0 <= h
    &&& buf.len() == 22 + t + h + tl.len()
    &&& buf.len() <= usize::MAX
    &&& forall|i: int| 0 <= i < 5 ==> #[trigger] buf[i] == seq![80u8, 79u8, 83u8, 84u8, 32u8][i]
    &&& forall|i: int| 5 <= i < 5 + t ==> #[trigger] buf[i] != 10u8
    &&& forall|i: int| 5 + t <= i < 22 + t ==> #[trigger] buf[i] == seq![32u8, 72u8, 84u8, 84u8, 80u8, 47u8, 49u8, 46u8, 49u8, 13u8, 10u8, 72u8, 111u8, 115u8, 116u8, 58u8, 32u8][i - 5 - t]
    &&& forall|i: int| 22 + t <= i < 22 + t + h ==> #[trigger] buf[i] != 10u8
    &&& forall|i: int|
        22 + t + h <= i < 22 + t + h + tl.len() ==> #[trigger] buf[i] == tl[i - 22 - t - h]
}

/// Every gadget request is laid out that way.
proof fn lemma_gadget_layout(g: Gadget, host: Seq<char>, target: Seq<char>)
    requires
        one_line(host),
        one_line(target),
        encode_utf8(gadget_text(g, host, target)).len() <= usize::MAX,
    ensures
        laid_out(
            encode_utf8(gadget_text(g, host, target)),
            encode_utf8(target).len() as int,
            encode_utf8(host).len() as int,
            encode_utf8(gadget_tail(g)),
        ),
{
    let buf = encode_utf8(gadget_text(g, host, target));
    let tb = encode_utf8(target);
    let hb = encode_utf8(host);
    let tl = encode_utf8(gadget_tail(g));
    lemma_gadget_pieces(g, host, target);
    lemma_fixed_prefix_bytes();
    lemma_one_line_bytes(host);
    lemma_one_line_bytes(target);
    let t = tb.len() as int;
    let h = hb.len() as int;
    assert forall|i: int| 5 <= i < 5 + t implies #[trigger] buf[i] != 10u8 by {
        assert(buf[i] == tb[i - 5]);
    }
    assert forall|i: int| 22 + t <= i < 22 + t + h implies #[trigger] buf[i] != 10u8 by {
        assert(buf[i] == hb[i - 22 - t]);
    }
}

/// The request line ends at the CRLF after the version; the header block
/// starts with the Host line.
proof fn lemma_request_and_host_lines(buf: Seq<u8>, t: int, h: int, tl: Seq<u8>)
    requires
        laid_out(buf, t, h, tl),
        tl.len() >= 2,
        tl[0] == 13u8,
        tl[1] == 10u8,
    ensures
        line_at(buf, 0) == (Line {
            content: Span { start: 0, end: (14 + t) as usize },
            full: Span { start: 0, end: (16 + t) as usize },
            term: Term::Crlf,
        }),
        line_at(buf, 16 + t) == (Line {
            content: Span { start: (16 + t) as usize, end: (22 + t + h) as usize },
            full: Span { start: (16 + t) as usize, end: (24 + t + h) as usize },
            term: Term::Crlf,
        }),
        buf[16 + t] == 72u8,
        forall|i: int| 16 + t <= i < 20 + t ==> buf[i] != 58u8,
        buf[20 + t] == 58u8,
        buf.subrange(16 + t, 20 + t) == seq![72u8, 111u8, 115u8, 116u8],
{
    assert(buf[14 + t] == 13u8);
    assert(buf[15 + t] == 10u8);
    assert forall|i: int| 0 <= i < 14 + t implies buf[i] != 10u8 by {
        if i < 5 {
        } else if i < 5 + t {
        } else {
            assert(buf[i] == seq![32u8, 72u8, 84u8, 84u8, 80u8, 47u8, 49u8, 46u8, 49u8, 13u8, 10u8, 72u8, 111u8, 115u8, 116u8, 58u8, 32u8][i - 5 - t]);
        }
    }
    lemma_crlf_line(buf, 0, 14 + t);
    assert(buf[22 + t + h] == 13u8);
    assert(buf[23 + t + h] == 10u8);
    assert forall|i: int| 16 + t <= i < 22 + t + h implies buf[i] != 10u8 by {
        if i < 22 + t {
            assert(buf[i] == seq![32u8, 72u8, 84u8, 84u8, 80u8, 47u8, 49u8, 46u8, 49u8, 13u8, 10u8, 72u8, 111u8, 115u8, 116u8, 58u8, 32u8][i - 5 - t]);
        }
    }
    lemma_crlf_line(buf, 16 + t, 6 + h);
    assert(buf.subrange(16 + t, 20 + t) =~= seq![72u8, 111u8, 115u8, 116u8]);
}

/// A line of the tail: `k` content bytes from `j`, ending in CRLF.
proof fn lemma_tail_crlf_line(buf: Seq<u8>, t: int, h: int, tl: Seq<u8>, j: int, k: int)
    requires
        laid_out(buf, t, h, tl),
        0 <= j,
        0 <= k,
        j + k + 1 < tl.len(),
        forall|i: int| j <= i < j + k ==> tl[i] != 10u8,
        tl[j + k] == 13u8,
        tl[j + k + 1] == 10u8,
    ensures
        line_at(buf, 22 + t + h + j) == (Line {
            content: Span { start: (22 + t + h + j) as usize, end: (22 + t + h + j + k) as usize },
            full: Span { start: (22 + t + h + j) as usize, end: (24 + t + h + j + k) as usize },
            term: Term::Crlf,
        }),
        forall|i: int| 0 <= i < k ==> #[trigger] buf[22 + t + h + j + i] == tl[j + i],
        buf.subrange(22 + t + h + j, 22 + t + h + j + k) == tl.subrange(j, j + k),
{
    let o = 22 + t + h;
    assert forall|i: int| o + j <= i < o + j + k implies buf[i] != 10u8 by {
        assert(buf[i] == tl[i - o]);
    }
    assert(buf[o + j + k] == tl[j + k]);
    assert(buf[o + j + k + 1] == tl[j + k + 1]);
    lemma_crlf_line(buf, o + j, k);
    assert forall|i: int| 0 <= i < k implies #[trigger] buf[o + j + i] == tl[j + i] by {
        assert(buf[o + j + i] == tl[o + j + i - o]);
    }
    assert(buf.subrange(o + j, o + j + k) =~= tl.subrange(j, j + k));
}

/// The header block of a parsed message starts where its first line ends,
/// with no fields yet.
proof fn lemma_parse_headers(buf: Seq<u8>, mode: ParseMode) -> (st0: HeadState)
    requires
        buf.len() > 0,
    ensures
        st0.headers == Seq::<HeaderView>::empty(),
        parse_spec(buf, mode).0.headers == headers_from(
            buf,
            line_at(buf, 0).full.end as int,
            st0,
        ).0.headers,
        parse_spec(buf, mode).0.body_start == headers_from(
            buf,
            line_at(buf, 0).full.end as int,
            st0,
        ).1 as usize,
        parse_spec(buf, mode).1 == headers_from(buf, line_at(buf, 0).full.end as int, st0).0.findings
            + crate::parser::weird_findings(
            headers_from(buf, line_at(buf, 0).full.end as int, st0).0.weird,
        ),
{
    let first = line_at(buf, 0);
    let fb = first.content.clamped(buf);
    let (sl, f0) = start_line_spec(text_of(fb), first.content, kind_of(mode, fb));
    HeadState { headers: Seq::empty(), findings: f0, weird: observe(weird_none(), buf, first) }
}

/// The three fields a collect runs over: the last names Transfer-Encoding,
/// the one before it Content-Length.
proof fn lemma_collect_both(hs: Seq<HeaderView>)
    requires
        hs.len() == 3,
        hs[1].name == text_of(trim_ows(seq![67u8, 111u8, 110u8, 116u8, 101u8, 110u8, 116u8, 45u8, 76u8, 101u8, 110u8, 103u8, 116u8, 104u8])),
        hs[2].name == text_of(trim_ows(seq![84u8, 114u8, 97u8, 110u8, 115u8, 102u8, 101u8, 114u8, 45u8, 69u8, 110u8, 99u8, 111u8, 100u8, 105u8, 110u8, 103u8])),
    ensures
        collect_spec(hs, content_length_name()).len() > 0,
        collect_spec(hs, transfer_encoding_name()).len() > 0,
{
    lemma_name_content_length();
    lemma_name_transfer_encoding();
    assert(hs.drop_last().last() == hs[1]);
    assert(collect_spec(hs.drop_last(), content_length_name()).len() > 0);
}

/// A field line of the tail: `k` content bytes from `j` ending in CRLF, the
/// first colon at `colon`.
proof fn lemma_tail_field(
    buf: Seq<u8>,
    t: int,
    h: int,
    tl: Seq<u8>,
    j: int,
    k: int,
    colon: int,
    st: HeadState,
) -> (st2: HeadState)
    requires
        laid_out(buf, t, h, tl),
        0 <= j,
        0 <= colon < k,
        j + k + 1 < tl.len(),
        forall|i: int| j <= i < j + k ==> tl[i] != 10u8,
        tl[j + k] == 13u8,
        tl[j + k + 1] == 10u8,
        tl[j] != 32u8,
        tl[j] != 9u8,
        forall|i: int| j <= i < j + colon ==> tl[i] != 58u8,
        tl[j + colon] == 58u8,
    ensures
        headers_from(buf, 22 + t + h + j, st) == headers_from(buf, 24 + t + h + j + k, st2),
        st2.headers == st.headers.push(st2.headers.last()),
        st2.headers.last().name == text_of(trim_ows(tl.subrange(j, j + colon))),
        st2.headers.last().value == text_of(trim_ows(tl.subrange(j + colon + 1, j + k))),
{
    let o = 22 + t + h;
    lemma_tail_crlf_line(buf, t, h, tl, j, k);
    assert(buf.subrange(o + j + colon + 1, o + j + k) =~= tl.subrange(j + colon + 1, j + k));
    assert(buf[o + j] == tl[j]);
    assert forall|i: int| o + j <= i < o + j + colon implies buf[i] != 58u8 by {
        assert(buf[o + j + (i - o - j)] == tl[j + (i - o - j)]);
    }
    assert(buf[o + j + colon] == tl[j + colon]);
    assert(buf.subrange(o + j, o + j + colon) =~= tl.subrange(j, j + colon));
    lemma_field_line(buf, o + j, k, colon, line_at(buf, o + j), st)
}

/// A field line of the tail ending in a bare LF: `k` content bytes from `j`,
/// the first colon at `colon`.
proof fn lemma_tail_field_lf(
    buf: Seq<u8>,
    t: int,
    h: int,
    tl: Seq<u8>,
    j: int,
    k: int,
    colon: int,
    st: HeadState,
) -> (st2: HeadState)
    requires
        laid_out(buf, t, h, tl),
        0 <= j,
        0 <= colon < k,
        j + k < tl.len(),
        forall|i: int| j <= i < j + k ==> tl[i] != 10u8,
        tl[j + k - 1] != 13u8,
        tl[j + k] == 10u8,
        tl[j] != 32u8,
        tl[j] != 9u8,
        forall|i: int| j <= i < j + colon ==> tl[i] != 58u8,
        tl[j + colon] == 58u8,
    ensures
        headers_from(buf, 22 + t + h + j, st) == headers_from(buf, 23 + t + h + j + k, st2),
        st2.headers == st.headers.push(st2.headers.last()),
        st2.headers.last().name == text_of(trim_ows(tl.subrange(j, j + colon))),
        line_at(buf, 22 + t + h + j).term == Term::Lf,
{
    let o = 22 + t + h;
    assert forall|i: int| o + j <= i < o + j + k implies buf[i] != 10u8 by {
        assert(buf[i] == tl[i - o]);
    }
    assert(buf[o + j + k - 1] == tl[j + k - 1]);
    assert(buf[o + j + k] == tl[j + k]);
    lemma_lf_line(buf, o + j, k);
    assert(buf[o + j] == tl[j]);
    assert forall|i: int| o + j <= i < o + j + colon implies buf[i] != 58u8 by {
        assert(buf[i] == tl[i - o]);
    }
    assert(buf[o + j + colon] == tl[j + colon]);
    assert(buf.subrange(o + j, o + j + colon) =~= tl.subrange(j, j + colon));
    lemma_field_line(buf, o + j, k, colon, line_at(buf, o + j), st)
}

/// The tail's blank line at `j` ends the header block.
proof fn lemma_tail_blank(buf: Seq<u8>, t: int, h: int, tl: Seq<u8>, j: int, st: HeadState)
    requires
        laid_out(buf, t, h, tl),
        0 <= j,
        j + 1 < tl.len(),
        tl[j] == 13u8,
        tl[j + 1] == 10u8,
    ensures
        headers_from(buf, 22 + t + h + j, st).0.headers == st.headers,
        headers_from(buf, 22 + t + h + j, st).1 == 24 + t + h + j,
{
    let o = 22 + t + h;
    assert(buf[o + j] == tl[j]);
    assert(buf[o + j + 1] == tl[j + 1]);
    lemma_blank_line(buf, o + j, st);
}

/// The Host line starts the header block.
proof fn lemma_host_field(buf: Seq<u8>, t: int, h: int, tl: Seq<u8>, st: HeadState) -> (st2: HeadState)
    requires
        laid_out(buf, t, h, tl),
        tl.len() >= 2,
        tl[0] == 13u8,
        tl[1] == 10u8,
    ensures
        headers_from(buf, 16 + t, st) == headers_from(buf, 24 + t + h, st2),
        st2.headers == st.headers.push(st2.headers.last()),
        st2.headers.last().name == text_of(trim_ows(seq![72u8, 111u8, 115u8, 116u8])),
{
    lemma_request_and_host_lines(buf, t, h, tl);
    lemma_field_line(buf, 16 + t, 6 + h, 4, line_at(buf, 16 + t), st)
}

/// The bytes of the CL.TE gadget's tail.
proof fn lemma_tail_bytes_clte()
    ensures
        encode_utf8(gadget_tail(Gadget::ClTe)) == seq![13u8, 10u8, 67u8, 111u8, 110u8, 116u8, 101u8, 110u8, 116u8, 45u8, 76u8, 101u8, 110u8, 103u8, 116u8, 104u8, 58u8, 32u8, 54u8, 13u8, 10u8, 84u8, 114u8, 97u8, 110u8, 115u8, 102u8, 101u8, 114u8, 45u8, 69u8, 110u8, 99u8, 111u8, 100u8, 105u8, 110u8, 103u8, 58u8, 32u8, 99u8, 104u8, 117u8, 110u8, 107u8, 101u8, 100u8, 13u8, 10u8, 13u8, 10u8, 48u8, 13u8, 10u8, 13u8, 10u8, 71u8],
{
    reveal_strlit("\r\nContent-Length: 6\r\nTransfer-Encoding: chunked\r\n\r\n0\r\n\r\nG");
    vstd::utf8::is_ascii_chars_encode_utf8(gadget_tail(Gadget::ClTe));
    assert(encode_utf8(gadget_tail(Gadget::ClTe)) =~= seq![13u8, 10u8, 67u8, 111u8, 110u8, 116u8, 101u8, 110u8, 116u8, 45u8, 76u8, 101u8, 110u8, 103u8, 116u8, 104u8, 58u8, 32u8, 54u8, 13u8, 10u8, 84u8, 114u8, 97u8, 110u8, 115u8, 102u8, 101u8, 114u8, 45u8, 69u8, 110u8, 99u8, 111u8, 100u8, 105u8, 110u8, 103u8, 58u8, 32u8, 99u8, 104u8, 117u8, 110u8, 107u8, 101u8, 100u8, 13u8, 10u8, 13u8, 10u8, 48u8, 13u8, 10u8, 13u8, 10u8, 71u8]);
}

/// The line structure of the CL.TE gadget's tail.
proof fn lemma_clte_tail_shape(tl: Seq<u8>)
    requires
        tl == encode_utf8(gadget_tail(Gadget::ClTe)),
    ensures
        tl.len() == 57,
        tl[0] == 13u8,
        tl[1] == 10u8,
        forall|i: int| 2 <= i < 19 ==> tl[i] != 10u8,
        tl[19] == 13u8,
        tl[20] == 10u8,
        tl[2] != 32u8 && tl[2] != 9u8,
        forall|i: int| 2 <= i < 16 ==> tl[i] != 58u8,
        tl[16] == 58u8,
        tl.subrange(2, 16) == seq![67u8, 111u8, 110u8, 116u8, 101u8, 110u8, 116u8, 45u8, 76u8, 101u8, 110u8, 103u8, 116u8, 104u8],
        forall|i: int| 21 <= i < 47 ==> tl[i] != 10u8,
        tl[47] == 13u8,
        tl[48] == 10u8,
        tl[21] != 32u8 && tl[21] != 9u8,
        forall|i: int| 21 <= i < 38 ==> tl[i] != 58u8,
        tl[38] == 58u8,
        tl.subrange(21, 38) == seq![84u8, 114u8, 97u8, 110u8, 115u8, 102u8, 101u8, 114u8, 45u8, 69u8, 110u8, 99u8, 111u8, 100u8, 105u8, 110u8, 103u8],
        tl[49] == 13u8,
        tl[50] == 10u8,
        tl.subrange(39, 47) == seq![32u8, 99u8, 104u8, 117u8, 110u8, 107u8, 101u8, 100u8],
        tl.subrange(51, 57) == seq![48u8, 13u8, 10u8, 13u8, 10u8, 71u8],
{
    lemma_tail_bytes_clte();
    assert(tl.subrange(51, 57) =~= seq![48u8, 13u8, 10u8, 13u8, 10u8, 71u8]);
    assert(tl.subrange(39, 47) =~= seq![32u8, 99u8, 104u8, 117u8, 110u8, 107u8, 101u8, 100u8]);
    assert(tl.subrange(2, 16) =~= seq![67u8, 111u8, 110u8, 116u8, 101u8, 110u8, 116u8, 45u8, 76u8, 101u8, 110u8, 103u8, 116u8, 104u8]);
    assert(tl.subrange(21, 38) =~= seq![84u8, 114u8, 97u8, 110u8, 115u8, 102u8, 101u8, 114u8, 45u8, 69u8, 110u8, 99u8, 111u8, 100u8, 105u8, 110u8, 103u8]);
}

/// The fields the CL.TE gadget's header block is parsed into.
#[verifier::rlimit(70)]
proof fn lemma_clte_fields(host: Seq<char>, target: Seq<char>, mode: ParseMode)
    requires
        one_line(host),
        one_line(target),
        encode_utf8(gadget_text(Gadget::ClTe, host, target)).len() <= usize::MAX,
    ensures
        ({
            let hs = parse_spec(encode_utf8(gadget_text(Gadget::ClTe, host, target)), mode).0.headers;
            &&& hs.len() == 3
            &&& hs[0].name == text_of(trim_ows(seq![72u8, 111u8, 115u8, 116u8]))
            &&& hs[1].name == text_of(trim_ows(seq![67u8, 111u8, 110u8, 116u8, 101u8, 110u8, 116u8, 45u8, 76u8, 101u8, 110u8, 103u8, 116u8, 104u8]))
            &&& hs[2].name == text_of(trim_ows(seq![84u8, 114u8, 97u8, 110u8, 115u8, 102u8, 101u8, 114u8, 45u8, 69u8, 110u8, 99u8, 111u8, 100u8, 105u8, 110u8, 103u8]))
            &&& hs[2].value == text_of(trim_ows(seq![32u8, 99u8, 104u8, 117u8, 110u8, 107u8, 101u8, 100u8]))
            &&& parse_spec(encode_utf8(gadget_text(Gadget::ClTe, host, target)), mode).0.body_start
                == encode_utf8(gadget_text(Gadget::ClTe, host, target)).len() - 6
        }),
{
    let g = Gadget::ClTe;
    let buf = encode_utf8(gadget_text(g, host, target));
    let t = encode_utf8(target).len() as int;
    let h = encode_utf8(host).len() as int;
    let tl = encode_utf8(gadget_tail(g));
    lemma_gadget_layout(g, host, target);
    lemma_clte_tail_shape(tl);
    let st0 = lemma_parse_headers(buf, mode);
    lemma_request_and_host_lines(buf, t, h, tl);
    let st1 = lemma_host_field(buf, t, h, tl, st0);
    let st2 = lemma_tail_field(buf, t, h, tl, 2, 17, 14, st1);
    let st3 = lemma_tail_field(buf, t, h, tl, 21, 26, 17, st2);
    lemma_tail_blank(buf, t, h, tl, 49, st3);
    assert(st2.headers.last() == st3.headers[1]);
    assert(st1.headers.last() == st3.headers[0]);
}

/// The bytes of the TE.CL gadget's tail.
proof fn lemma_tail_bytes_tecl()
    ensures
        encode_utf8(gadget_tail(Gadget::TeCl)) == seq![13u8, 10u8, 67u8, 111u8, 110u8, 116u8, 101u8, 110u8, 116u8, 45u8, 76u8, 101u8, 110u8, 103u8, 116u8, 104u8, 58u8, 32u8, 51u8, 13u8, 10u8, 84u8, 114u8, 97u8, 110u8, 115u8, 102u8, 101u8, 114u8, 45u8, 69u8, 110u8, 99u8, 111u8, 100u8, 105u8, 110u8, 103u8, 58u8, 32u8, 99u8, 104u8, 117u8, 110u8, 107u8, 101u8, 100u8, 13u8, 10u8, 13u8, 10u8, 56u8, 13u8, 10u8, 83u8, 77u8, 85u8, 71u8, 71u8, 76u8, 69u8, 68u8, 13u8, 10u8, 48u8, 13u8, 10u8, 13u8, 10u8],
{
    reveal_strlit("\r\nContent-Length: 3\r\nTransfer-Encoding: chunked\r\n\r\n8\r\nSMUGGLED\r\n0\r\n\r\n");
    vstd::utf8::is_ascii_chars_encode_utf8(gadget_tail(Gadget::TeCl));
    assert(encode_utf8(gadget_tail(Gadget::TeCl)) =~= seq![13u8, 10u8, 67u8, 111u8, 110u8, 116u8, 101u8, 110u8, 116u8, 45u8, 76u8, 101u8, 110u8, 103u8, 116u8, 104u8, 58u8, 32u8, 51u8, 13u8, 10u8, 84u8, 114u8, 97u8, 110u8, 115u8, 102u8, 101u8, 114u8, 45u8, 69u8, 110u8, 99u8, 111u8, 100u8, 105u8, 110u8, 103u8, 58u8, 32u8, 99u8, 104u8, 117u8, 110u8, 107u8, 101u8, 100u8, 13u8, 10u8, 13u8, 10u8, 56u8, 13u8, 10u8, 83u8, 77u8, 85u8, 71u8, 71u8, 76u8, 69u8, 68u8, 13u8, 10u8, 48u8, 13u8, 10u8, 13u8, 10u8]);
}

/// The line structure of the TE.CL gadget's tail.
proof fn lemma_tecl_tail_shape(tl: Seq<u8>)
    requires
        tl == encode_utf8(gadget_tail(Gadget::TeCl)),
    ensures
        tl.len() == 69,
        tl[0] == 13u8,
        tl[1] == 10u8,
        forall|i: int| 2 <= i < 19 ==> tl[i] != 10u8,
        tl[19] == 13u8,
        tl[20] == 10u8,
        tl[2] != 32u8 && tl[2] != 9u8,
        forall|i: int| 2 <= i < 16 ==> tl[i] != 58u8,
        tl[16] == 58u8,
        tl.subrange(2, 16) == seq![67u8, 111u8, 110u8, 116u8, 101u8, 110u8, 116u8, 45u8, 76u8, 101u8, 110u8, 103u8, 116u8, 104u8],
        forall|i: int| 21 <= i < 47 ==> tl[i] != 10u8,
        tl[47] == 13u8,
        tl[48] == 10u8,
        tl[21] != 32u8 && tl[21] != 9u8,
        forall|i: int| 21 <= i < 38 ==> tl[i] != 58u8,
        tl[38] == 58u8,
        tl.subrange(21, 38) == seq![84u8, 114u8, 97u8, 110u8, 115u8, 102u8, 101u8, 114u8, 45u8, 69u8, 110u8, 99u8, 111u8, 100u8, 105u8, 110u8, 103u8],
        tl[49] == 13u8,
        tl[50] == 10u8,
        tl.subrange(39, 47) == seq![32u8, 99u8, 104u8, 117u8, 110u8, 107u8, 101u8, 100u8],
{
    lemma_tail_bytes_tecl();
    assert(tl.subrange(39, 47) =~= seq![32u8, 99u8, 104u8, 117u8, 110u8, 107u8, 101u8, 100u8]);
    assert(tl.subrange(2, 16) =~= seq![67u8, 111u8, 110u8, 116u8, 101u8, 110u8, 116u8, 45u8, 76u8, 101u8, 110u8, 103u8, 116u8, 104u8]);
    assert(tl.subrange(21, 38) =~= seq![84u8, 114u8, 97u8, 110u8, 115u8, 102u8, 101u8, 114u8, 45u8, 69u8, 110u8, 99u8, 111u8, 100u8, 105u8, 110u8, 103u8]);
}

/// The fields the TE.CL gadget's header block is parsed into.
#[verifier::rlimit(70)]
proof fn lemma_tecl_fields(host: Seq<char>, target: Seq<char>, mode: ParseMode)
    requires
        one_line(host),
        one_line(target),
        encode_utf8(gadget_text(Gadget::TeCl, host, target)).len() <= usize::MAX,
    ensures
        ({
            let hs = parse_spec(encode_utf8(gadget_text(Gadget::TeCl, host, target)), mode).0.headers;
            &&& hs.len() == 3
            &&& hs[0].name == text_of(trim_ows(seq![72u8, 111u8, 115u8, 116u8]))
            &&& hs[1].name == text_of(trim_ows(seq![67u8, 111u8, 110u8, 116u8, 101u8, 110u8, 116u8, 45u8, 76u8, 101u8, 110u8, 103u8, 116u8, 104u8]))
            &&& hs[2].name == text_of(trim_ows(seq![84u8, 114u8, 97u8, 110u8, 115u8, 102u8, 101u8, 114u8, 45u8, 69u8, 110u8, 99u8, 111u8, 100u8, 105u8, 110u8, 103u8]))
            &&& hs[2].value == text_of(trim_ows(seq![32u8, 99u8, 104u8, 117u8, 110u8, 107u8, 101u8, 100u8]))
        }),
{
    let g = Gadget::TeCl;
    let buf = encode_utf8(gadget_text(g, host, target));
    let t = encode_utf8(target).len() as int;
    let h = encode_utf8(host).len() as int;
    let tl = encode_utf8(gadget_tail(g));
    lemma_gadget_layout(g, host, target);
    lemma_tecl_tail_shape(tl);
    let st0 = lemma_parse_headers(buf, mode);
    lemma_request_and_host_lines(buf, t, h, tl);
    let st1 = lemma_host_field(buf, t, h, tl, st0);
    let st2 = lemma_tail_field(buf, t, h, tl, 2, 17, 14, st1);
    let st3 = lemma_tail_field(buf, t, h, tl, 21, 26, 17, st2);
    lemma_tail_blank(buf, t, h, tl, 49, st3);
    assert(st2.headers.last() == st3.headers[1]);
    assert(st1.headers.last() == st3.headers[0]);
}

/// The bytes of the TE.TE gadget's tail.
proof fn lemma_tail_bytes_tete()
    ensures
        encode_utf8(gadget_tail(Gadget::TeTe)) == seq![13u8, 10u8, 84u8, 114u8, 97u8, 110u8, 115u8, 102u8, 101u8, 114u8, 45u8, 69u8, 110u8, 99u8, 111u8, 100u8, 105u8, 110u8, 103u8, 58u8, 32u8, 120u8, 99u8, 104u8, 117u8, 110u8, 107u8, 101u8, 100u8, 13u8, 10u8, 84u8, 114u8, 97u8, 110u8, 115u8, 102u8, 101u8, 114u8, 45u8, 69u8, 110u8, 99u8, 111u8, 100u8, 105u8, 110u8, 103u8, 58u8, 32u8, 99u8, 104u8, 117u8, 110u8, 107u8, 101u8, 100u8, 13u8, 10u8, 13u8, 10u8, 49u8, 13u8, 10u8, 90u8, 13u8, 10u8, 48u8, 13u8, 10u8, 13u8, 10u8],
{
    reveal_strlit("\r\nTransfer-Encoding: xchunked\r\nTransfer-Encoding: chunked\r\n\r\n1\r\nZ\r\n0\r\n\r\n");
    vstd::utf8::is_ascii_chars_encode_utf8(gadget_tail(Gadget::TeTe));
    assert(encode_utf8(gadget_tail(Gadget::TeTe)) =~= seq![13u8, 10u8, 84u8, 114u8, 97u8, 110u8, 115u8, 102u8, 101u8, 114u8, 45u8, 69u8, 110u8, 99u8, 111u8, 100u8, 105u8, 110u8, 103u8, 58u8, 32u8, 120u8, 99u8, 104u8, 117u8, 110u8, 107u8, 101u8, 100u8, 13u8, 10u8, 84u8, 114u8, 97u8, 110u8, 115u8, 102u8, 101u8, 114u8, 45u8, 69u8, 110u8, 99u8, 111u8, 100u8, 105u8, 110u8, 103u8, 58u8, 32u8, 99u8, 104u8, 117u8, 110u8, 107u8, 101u8, 100u8, 13u8, 10u8, 13u8, 10u8, 49u8, 13u8, 10u8, 90u8, 13u8, 10u8, 48u8, 13u8, 10u8, 13u8, 10u8]);
}

/// The line structure of the TE.TE gadget's tail.
proof fn lemma_tete_tail_shape(tl: Seq<u8>)
    requires
        tl == encode_utf8(gadget_tail(Gadget::TeTe)),
    ensures
        tl.len() == 72,
        tl[0] == 13u8,
        tl[1] == 10u8,
        forall|i: int| 2 <= i < 29 ==> tl[i] != 10u8,
        tl[29] == 13u8,
        tl[30] == 10u8,
        tl[2] != 32u8 && tl[2] != 9u8,
        forall|i: int| 2 <= i < 19 ==> tl[i] != 58u8,
        tl[19] == 58u8,
        tl.subrange(2, 19) == seq![84u8, 114u8, 97u8, 110u8, 115u8, 102u8, 101u8, 114u8, 45u8, 69u8, 110u8, 99u8, 111u8, 100u8, 105u8, 110u8, 103u8],
        forall|i: int| 31 <= i < 57 ==> tl[i] != 10u8,
        tl[57] == 13u8,
        tl[58] == 10u8,
        tl[31] != 32u8 && tl[31] != 9u8,
        forall|i: int| 31 <= i < 48 ==> tl[i] != 58u8,
        tl[48] == 58u8,
        tl.subrange(31, 48) == seq![84u8, 114u8, 97u8, 110u8, 115u8, 102u8, 101u8, 114u8, 45u8, 69u8, 110u8, 99u8, 111u8, 100u8, 105u8, 110u8, 103u8],
        tl[59] == 13u8,
        tl[60] == 10u8,
        tl.subrange(20, 29) == seq![32u8, 120u8, 99u8, 104u8, 117u8, 110u8, 107u8, 101u8, 100u8],
{
    lemma_tail_bytes_tete();
    assert(tl.subrange(20, 29) =~= seq![32u8, 120u8, 99u8, 104u8, 117u8, 110u8, 107u8, 101u8, 100u8]);
    assert(tl.subrange(2, 19) =~= seq![84u8, 114u8, 97u8, 110u8, 115u8, 102u8, 101u8, 114u8, 45u8, 69u8, 110u8, 99u8, 111u8, 100u8, 105u8, 110u8, 103u8]);
    assert(tl.subrange(31, 48) =~= seq![84u8, 114u8, 97u8, 110u8, 115u8, 102u8, 101u8, 114u8, 45u8, 69u8, 110u8, 99u8, 111u8, 100u8, 105u8, 110u8, 103u8]);
}

/// The fields the TE.TE gadget's header block is parsed into.
#[verifier::rlimit(70)]
proof fn lemma_tete_fields(host: Seq<char>, target: Seq<char>, mode: ParseMode)
    requires
        one_line(host),
        one_line(target),
        encode_utf8(gadget_text(Gadget::TeTe, host, target)).len() <= usize::MAX,
    ensures
        ({
            let hs = parse_spec(encode_utf8(gadget_text(Gadget::TeTe, host, target)), mode).0.headers;
            &&& hs.len() == 3
            &&& hs[0].name == text_of(trim_ows(seq![72u8, 111u8, 115u8, 116u8]))
            &&& hs[1].name == text_of(trim_ows(seq![84u8, 114u8, 97u8, 110u8, 115u8, 102u8, 101u8, 114u8, 45u8, 69u8, 110u8, 99u8, 111u8, 100u8, 105u8, 110u8, 103u8]))
            &&& hs[2].name == text_of(trim_ows(seq![84u8, 114u8, 97u8, 110u8, 115u8, 102u8, 101u8, 114u8, 45u8, 69u8, 110u8, 99u8, 111u8, 100u8, 105u8, 110u8, 103u8]))
            &&& hs[1].value == text_of(trim_ows(seq![32u8, 120u8, 99u8, 104u8, 117u8, 110u8, 107u8, 101u8, 100u8]))
        }),
{
    let g = Gadget::TeTe;
    let buf = encode_utf8(gadget_text(g, host, target));
    let t = encode_utf8(target).len() as int;
    let h = encode_utf8(host).len() as int;
    let tl = encode_utf8(gadget_tail(g));
    lemma_gadget_layout(g, host, target);
    lemma_tete_tail_shape(tl);
    let st0 = lemma_parse_headers(buf, mode);
    lemma_request_and_host_lines(buf, t, h, tl);
    let st1 = lemma_host_field(buf, t, h, tl, st0);
    let st2 = lemma_tail_field(buf, t, h, tl, 2, 27, 17, st1);
    let st3 = lemma_tail_field(buf, t, h, tl, 31, 26, 17, st2);
    lemma_tail_blank(buf, t, h, tl, 59, st3);
    assert(st2.headers.last() == st3.headers[1]);
    assert(st1.headers.last() == st3.headers[0]);
}

/// The bytes of the space-colon gadget's tail.
proof fn lemma_tail_bytes_space_colon()
    ensures
        encode_utf8(gadget_tail(Gadget::SpaceColon)) == seq![13u8, 10u8, 67u8, 111u8, 110u8, 116u8, 101u8, 110u8, 116u8, 45u8, 76u8, 101u8, 110u8, 103u8, 116u8, 104u8, 58u8, 32u8, 54u8, 13u8, 10u8, 84u8, 114u8, 97u8, 110u8, 115u8, 102u8, 101u8, 114u8, 45u8, 69u8, 110u8, 99u8, 111u8, 100u8, 105u8, 110u8, 103u8, 32u8, 58u8, 32u8, 99u8, 104u8, 117u8, 110u8, 107u8, 101u8, 100u8, 13u8, 10u8, 13u8, 10u8, 48u8, 13u8, 10u8, 13u8, 10u8, 71u8],
{
    reveal_strlit("\r\nContent-Length: 6\r\nTransfer-Encoding : chunked\r\n\r\n0\r\n\r\nG");
    vstd::utf8::is_ascii_chars_encode_utf8(gadget_tail(Gadget::SpaceColon));
    assert(encode_utf8(gadget_tail(Gadget::SpaceColon)) =~= seq![13u8, 10u8, 67u8, 111u8, 110u8, 116u8, 101u8, 110u8, 116u8, 45u8, 76u8, 101u8, 110u8, 103u8, 116u8, 104u8, 58u8, 32u8, 54u8, 13u8, 10u8, 84u8, 114u8, 97u8, 110u8, 115u8, 102u8, 101u8, 114u8, 45u8, 69u8, 110u8, 99u8, 111u8, 100u8, 105u8, 110u8, 103u8, 32u8, 58u8, 32u8, 99u8, 104u8, 117u8, 110u8, 107u8, 101u8, 100u8, 13u8, 10u8, 13u8, 10u8, 48u8, 13u8, 10u8, 13u8, 10u8, 71u8]);
}

/// The line structure of the space-colon gadget's tail.
proof fn lemma_space_colon_tail_shape(tl: Seq<u8>)
    requires
        tl == encode_utf8(gadget_tail(Gadget::SpaceColon)),
    ensures
        tl.len() == 58,
        tl[0] == 13u8,
        tl[1] == 10u8,
        forall|i: int| 2 <= i < 19 ==> tl[i] != 10u8,
        tl[19] == 13u8,
        tl[20] == 10u8,
        tl[2] != 32u8 && tl[2] != 9u8,
        forall|i: int| 2 <= i < 16 ==> tl[i] != 58u8,
        tl[16] == 58u8,
        tl.subrange(2, 16) == seq![67u8, 111u8, 110u8, 116u8, 101u8, 110u8, 116u8, 45u8, 76u8, 101u8, 110u8, 103u8, 116u8, 104u8],
        forall|i: int| 21 <= i < 48 ==> tl[i] != 10u8,
        tl[48] == 13u8,
        tl[49] == 10u8,
        tl[21] != 32u8 && tl[21] != 9u8,
        forall|i: int| 21 <= i < 39 ==> tl[i] != 58u8,
        tl[39] == 58u8,
        tl.subrange(21, 39) == seq![84u8, 114u8, 97u8, 110u8, 115u8, 102u8, 101u8, 114u8, 45u8, 69u8, 110u8, 99u8, 111u8, 100u8, 105u8, 110u8, 103u8, 32u8],
        tl[50] == 13u8,
        tl[51] == 10u8,
{
    lemma_tail_bytes_space_colon();
    assert(tl.subrange(2, 16) =~= seq![67u8, 111u8, 110u8, 116u8, 101u8, 110u8, 116u8, 45u8, 76u8, 101u8, 110u8, 103u8, 116u8, 104u8]);
    assert(tl.subrange(21, 39) =~= seq![84u8, 114u8, 97u8, 110u8, 115u8, 102u8, 101u8, 114u8, 45u8, 69u8, 110u8, 99u8, 111u8, 100u8, 105u8, 110u8, 103u8, 32u8]);
}

/// The fields the space-colon gadget's header block is parsed into.
#[verifier::rlimit(70)]
proof fn lemma_space_colon_fields(host: Seq<char>, target: Seq<char>, mode: ParseMode)
    requires
        one_line(host),
        one_line(target),
        encode_utf8(gadget_text(Gadget::SpaceColon, host, target)).len() <= usize::MAX,
    ensures
        ({
            let hs = parse_spec(encode_utf8(gadget_text(Gadget::SpaceColon, host, target)), mode).0.headers;
            &&& hs.len() == 3
            &&& hs[0].name == text_of(trim_ows(seq![72u8, 111u8, 115u8, 116u8]))
            &&& hs[1].name == text_of(trim_ows(seq![67u8, 111u8, 110u8, 116u8, 101u8, 110u8, 116u8, 45u8, 76u8, 101u8, 110u8, 103u8, 116u8, 104u8]))
            &&& hs[2].name == text_of(trim_ows(seq![84u8, 114u8, 97u8, 110u8, 115u8, 102u8, 101u8, 114u8, 45u8, 69u8, 110u8, 99u8, 111u8, 100u8, 105u8, 110u8, 103u8, 32u8]))
        }),
{
    let g = Gadget::SpaceColon;
    let buf = encode_utf8(gadget_text(g, host, target));
    let t = encode_utf8(target).len() as int;
    let h = encode_utf8(host).len() as int;
    let tl = encode_utf8(gadget_tail(g));
    lemma_gadget_layout(g, host, target);
    lemma_space_colon_tail_shape(tl);
    let st0 = lemma_parse_headers(buf, mode);
    lemma_request_and_host_lines(buf, t, h, tl);
    let st1 = lemma_host_field(buf, t, h, tl, st0);
    let st2 = lemma_tail_field(buf, t, h, tl, 2, 17, 14, st1);
    let st3 = lemma_tail_field(buf, t, h, tl, 21, 27, 18, st2);
    lemma_tail_blank(buf, t, h, tl, 50, st3);
    assert(st2.headers.last() == st3.headers[1]);
    assert(st1.headers.last() == st3.headers[0]);
}

/// The bytes of the bare-LF gadget's tail.
proof fn lemma_tail_bytes_bare_lf()
    ensures
        encode_utf8(gadget_tail(Gadget::BareLf)) == seq![13u8, 10u8, 67u8, 111u8, 110u8, 116u8, 101u8, 110u8, 116u8, 45u8, 76u8, 101u8, 110u8, 103u8, 116u8, 104u8, 58u8, 32u8, 54u8, 13u8, 10u8, 84u8, 114u8, 97u8, 110u8, 115u8, 102u8, 101u8, 114u8, 45u8, 69u8, 110u8, 99u8, 111u8, 100u8, 105u8, 110u8, 103u8, 58u8, 32u8, 99u8, 104u8, 117u8, 110u8, 107u8, 101u8, 100u8, 10u8, 13u8, 10u8, 48u8, 13u8, 10u8, 13u8, 10u8, 71u8],
{
    reveal_strlit("\r\nContent-Length: 6\r\nTransfer-Encoding: chunked\n\r\n0\r\n\r\nG");
    vstd::utf8::is_ascii_chars_encode_utf8(gadget_tail(Gadget::BareLf));
    assert(encode_utf8(gadget_tail(Gadget::BareLf)) =~= seq![13u8, 10u8, 67u8, 111u8, 110u8, 116u8, 101u8, 110u8, 116u8, 45u8, 76u8, 101u8, 110u8, 103u8, 116u8, 104u8, 58u8, 32u8, 54u8, 13u8, 10u8, 84u8, 114u8, 97u8, 110u8, 115u8, 102u8, 101u8, 114u8, 45u8, 69u8, 110u8, 99u8, 111u8, 100u8, 105u8, 110u8, 103u8, 58u8, 32u8, 99u8, 104u8, 117u8, 110u8, 107u8, 101u8, 100u8, 10u8, 13u8, 10u8, 48u8, 13u8, 10u8, 13u8, 10u8, 71u8]);
}

/// The line structure of the bare-LF gadget's tail.
proof fn lemma_bare_lf_tail_shape(tl: Seq<u8>)
    requires
        tl == encode_utf8(gadget_tail(Gadget::BareLf)),
    ensures
        tl.len() == 56,
        tl[0] == 13u8,
        tl[1] == 10u8,
        forall|i: int| 2 <= i < 19 ==> tl[i] != 10u8,
        tl[19] == 13u8,
        tl[20] == 10u8,
        tl[2] != 32u8 && tl[2] != 9u8,
        forall|i: int| 2 <= i < 16 ==> tl[i] != 58u8,
        tl[16] == 58u8,
        tl.subrange(2, 16) == seq![67u8, 111u8, 110u8, 116u8, 101u8, 110u8, 116u8, 45u8, 76u8, 101u8, 110u8, 103u8, 116u8, 104u8],
        forall|i: int| 21 <= i < 47 ==> tl[i] != 10u8,
        tl[46] != 13u8,
        tl[47] == 10u8,
        tl[21] != 32u8 && tl[21] != 9u8,
        forall|i: int| 21 <= i < 38 ==> tl[i] != 58u8,
        tl[38] == 58u8,
        tl.subrange(21, 38) == seq![84u8, 114u8, 97u8, 110u8, 115u8, 102u8, 101u8, 114u8, 45u8, 69u8, 110u8, 99u8, 111u8, 100u8, 105u8, 110u8, 103u8],
        tl[48] == 13u8,
        tl[49] == 10u8,
{
    lemma_tail_bytes_bare_lf();
    assert(tl.subrange(2, 16) =~= seq![67u8, 111u8, 110u8, 116u8, 101u8, 110u8, 116u8, 45u8, 76u8, 101u8, 110u8, 103u8, 116u8, 104u8]);
    assert(tl.subrange(21, 38) =~= seq![84u8, 114u8, 97u8, 110u8, 115u8, 102u8, 101u8, 114u8, 45u8, 69u8, 110u8, 99u8, 111u8, 100u8, 105u8, 110u8, 103u8]);
}

/// The fields the bare-LF gadget's header block is parsed into.
#[verifier::rlimit(70)]
proof fn lemma_bare_lf_fields(host: Seq<char>, target: Seq<char>, mode: ParseMode)
    requires
        one_line(host),
        one_line(target),
        encode_utf8(gadget_text(Gadget::BareLf, host, target)).len() <= usize::MAX,
    ensures
        ({
            let hs = parse_spec(encode_utf8(gadget_text(Gadget::BareLf, host, target)), mode).0.headers;
            &&& hs.len() == 3
            &&& hs[0].name == text_of(trim_ows(seq![72u8, 111u8, 115u8, 116u8]))
            &&& hs[1].name == text_of(trim_ows(seq![67u8, 111u8, 110u8, 116u8, 101u8, 110u8, 116u8, 45u8, 76u8, 101u8, 110u8, 103u8, 116u8, 104u8]))
            &&& hs[2].name == text_of(trim_ows(seq![84u8, 114u8, 97u8, 110u8, 115u8, 102u8, 101u8, 114u8, 45u8, 69u8, 110u8, 99u8, 111u8, 100u8, 105u8, 110u8, 103u8]))
        }),
{
    let g = Gadget::BareLf;
    let buf = encode_utf8(gadget_text(g, host, target));
    let t = encode_utf8(target).len() as int;
    let h = encode_utf8(host).len() as int;
    let tl = encode_utf8(gadget_tail(g));
    lemma_gadget_layout(g, host, target);
    lemma_bare_lf_tail_shape(tl);
    let st0 = lemma_parse_headers(buf, mode);
    lemma_request_and_host_lines(buf, t, h, tl);
    let st1 = lemma_host_field(buf, t, h, tl, st0);
    let st2 = lemma_tail_field(buf, t, h, tl, 2, 17, 14, st1);
    let st3 = lemma_tail_field_lf(buf, t, h, tl, 21, 26, 17, st2);
    lemma_tail_blank(buf, t, h, tl, 48, st3);
    assert(st2.headers.last() == st3.headers[1]);
    assert(st1.headers.last() == st3.headers[0]);
}

/// `Host` names no framing field.
proof fn lemma_name_host()
    ensures
        !ascii_ieq(text_of(trim_ows(seq![72u8, 111u8, 115u8, 116u8])), content_length_name()),
        !ascii_ieq(text_of(trim_ows(seq![72u8, 111u8, 115u8, 116u8])), transfer_encoding_name()),
{
    let x = seq![72u8, 111u8, 115u8, 116u8];
    assert(trim_ows(x) == x);
    assert(is_ascii_bytes(x));
    crate::text::lemma_ascii_decodes(x);
    reveal_strlit("content-length");
    reveal_strlit("transfer-encoding");
    assert(lower_all(text_of(x)).len() == 4);
}

/// The Content-Length field name.
proof fn lemma_name_content_length()
    ensures
        ascii_ieq(text_of(trim_ows(seq![67u8, 111u8, 110u8, 116u8, 101u8, 110u8, 116u8, 45u8, 76u8, 101u8, 110u8, 103u8, 116u8, 104u8])), content_length_name()),
        !ascii_ieq(text_of(trim_ows(seq![67u8, 111u8, 110u8, 116u8, 101u8, 110u8, 116u8, 45u8, 76u8, 101u8, 110u8, 103u8, 116u8, 104u8])), transfer_encoding_name()),
{
    let x = seq![67u8, 111u8, 110u8, 116u8, 101u8, 110u8, 116u8, 45u8, 76u8, 101u8, 110u8, 103u8, 116u8, 104u8];
    assert(trim_ows(x) == x);
    assert(is_ascii_bytes(x));
    crate::text::lemma_ascii_decodes(x);
    reveal_strlit("content-length");
    reveal_strlit("transfer-encoding");
    assert(lower_all(text_of(x)) =~= lower_all(content_length_name()));
    assert(lower_all(text_of(x)).len() == 14);
}

/// The Transfer-Encoding field name.
proof fn lemma_name_transfer_encoding()
    ensures
        ascii_ieq(text_of(trim_ows(seq![84u8, 114u8, 97u8, 110u8, 115u8, 102u8, 101u8, 114u8, 45u8, 69u8, 110u8, 99u8, 111u8, 100u8, 105u8, 110u8, 103u8])), transfer_encoding_name()),
        !ascii_ieq(text_of(trim_ows(seq![84u8, 114u8, 97u8, 110u8, 115u8, 102u8, 101u8, 114u8, 45u8, 69u8, 110u8, 99u8, 111u8, 100u8, 105u8, 110u8, 103u8])), content_length_name()),
{
    let x = seq![84u8, 114u8, 97u8, 110u8, 115u8, 102u8, 101u8, 114u8, 45u8, 69u8, 110u8, 99u8, 111u8, 100u8, 105u8, 110u8, 103u8];
    assert(trim_ows(x) == x);
    assert(is_ascii_bytes(x));
    crate::text::lemma_ascii_decodes(x);
    reveal_strlit("content-length");
    reveal_strlit("transfer-encoding");
    assert(lower_all(text_of(x)) =~= lower_all(transfer_encoding_name()));
    assert(lower_all(text_of(x)).len() == 17);
}

/// `Transfer-Encoding ` (before the colon of the space-colon gadget) trims to
/// the field name.
proof fn lemma_trim_spaced_name()
    ensures
        trim_ows(seq![84u8, 114u8, 97u8, 110u8, 115u8, 102u8, 101u8, 114u8, 45u8, 69u8, 110u8, 99u8, 111u8, 100u8, 105u8, 110u8, 103u8, 32u8]) == trim_ows(seq![84u8, 114u8, 97u8, 110u8, 115u8, 102u8, 101u8, 114u8, 45u8, 69u8, 110u8, 99u8, 111u8, 100u8, 105u8, 110u8, 103u8]),
{
    let x = seq![84u8, 114u8, 97u8, 110u8, 115u8, 102u8, 101u8, 114u8, 45u8, 69u8, 110u8, 99u8, 111u8, 100u8, 105u8, 110u8, 103u8, 32u8];
    let y = seq![84u8, 114u8, 97u8, 110u8, 115u8, 102u8, 101u8, 114u8, 45u8, 69u8, 110u8, 99u8, 111u8, 100u8, 105u8, 110u8, 103u8];
    assert(x.drop_last() =~= y);
    assert(crate::parser::ows_front(x) == x);
    assert(crate::parser::ows_back(x) == crate::parser::ows_back(y));
    assert(crate::parser::ows_back(y) == y);
    assert(crate::parser::ows_front(y) == y);
}

/// Two Transfer-Encoding fields after the Host field are collected twice.
proof fn lemma_collect_two_te(hs: Seq<HeaderView>)
    requires
        hs.len() == 3,
        hs[0].name == text_of(trim_ows(seq![72u8, 111u8, 115u8, 116u8])),
        hs[1].name == text_of(trim_ows(seq![84u8, 114u8, 97u8, 110u8, 115u8, 102u8, 101u8, 114u8, 45u8, 69u8, 110u8, 99u8, 111u8, 100u8, 105u8, 110u8, 103u8])),
        hs[2].name == text_of(trim_ows(seq![84u8, 114u8, 97u8, 110u8, 115u8, 102u8, 101u8, 114u8, 45u8, 69u8, 110u8, 99u8, 111u8, 100u8, 105u8, 110u8, 103u8])),
    ensures
        collect_spec(hs, transfer_encoding_name()).len() > 1,
        collect_spec(hs, transfer_encoding_name())[0].0 == hs[1].value,
{
    lemma_name_host();
    lemma_name_transfer_encoding();
    let a = hs.drop_last();
    assert(a.last() == hs[1]);
    assert(a.drop_last().last() == hs[0]);
    assert(a.drop_last().drop_last() =~= Seq::<HeaderView>::empty());
    assert(collect_spec(a.drop_last().drop_last(), transfer_encoding_name()) == Seq::<(Seq<char>, Span)>::empty());
    assert(collect_spec(a.drop_last(), transfer_encoding_name()).len() == 0);
    assert(collect_spec(a, transfer_encoding_name()).len() == 1);
}

/// After the Host and Content-Length fields, the one Transfer-Encoding field
/// is all that is collected under that name.
proof fn lemma_collect_one_te(hs: Seq<HeaderView>)
    requires
        hs.len() == 3,
        hs[0].name == text_of(trim_ows(seq![72u8, 111u8, 115u8, 116u8])),
        hs[1].name == text_of(trim_ows(seq![67u8, 111u8, 110u8, 116u8, 101u8, 110u8, 116u8, 45u8, 76u8, 101u8, 110u8, 103u8, 116u8, 104u8])),
        hs[2].name == text_of(trim_ows(seq![84u8, 114u8, 97u8, 110u8, 115u8, 102u8, 101u8, 114u8, 45u8, 69u8, 110u8, 99u8, 111u8, 100u8, 105u8, 110u8, 103u8])),
    ensures
        collect_spec(hs, transfer_encoding_name()) == seq![(hs[2].value, hs[2].line_span)],
{
    lemma_name_host();
    lemma_name_content_length();
    lemma_name_transfer_encoding();
    let a = hs.drop_last();
    assert(a.last() == hs[1]);
    assert(a.drop_last().last() == hs[0]);
    assert(a.drop_last().drop_last() =~= Seq::<HeaderView>::empty());
    assert(collect_spec(a.drop_last().drop_last(), transfer_encoding_name()) == Seq::<(Seq<char>, Span)>::empty());
    assert(collect_spec(a.drop_last(), transfer_encoding_name()) == Seq::<(Seq<char>, Span)>::empty());
    assert(collect_spec(a, transfer_encoding_name()) == Seq::<(Seq<char>, Span)>::empty());
    assert(collect_spec(hs, transfer_encoding_name()) =~= seq![(hs[2].value, hs[2].line_span)]);
}

/// A code among the framing findings is among the analysis's findings, which
/// put the structural ones first.
proof fn lemma_has_code_after(a: Seq<FindingView>, b: Seq<FindingView>, n: u8)
    requires
        has_code(b, n),
    ensures
        has_code(a + b, n),
{
    let i = choose|i: int| 0 <= i < b.len() && #[trigger] b[i].code == crate::findings::code_lit(n);
    assert((a + b)[a.len() + i] == b[i]);
    lemma_has_code_at(a + b, a.len() + i, n);
}

/// The space-colon gadget's Transfer-Encoding line, as the parser sees it: a
/// field line whose name has whitespace before the colon.
proof fn lemma_space_colon_te_line(buf: Seq<u8>, t: int, h: int, tl: Seq<u8>)
    requires
        laid_out(buf, t, h, tl),
        tl == encode_utf8(gadget_tail(Gadget::SpaceColon)),
    ensures
        ({
            let pos = 22 + t + h + 21;
            let cb = line_at(buf, pos).content.clamped(buf);
            &&& 0 <= pos < buf.len()
            &&& line_at(buf, pos).content.start != line_at(buf, pos).content.end
            &&& cb[0] != 32u8
            &&& cb[0] != 9u8
            &&& find(cb, 58u8) < cb.len()
            &&& trim_ows(cb.subrange(0, find(cb, 58u8))).len() != find(cb, 58u8)
        }),
{
    lemma_space_colon_tail_shape(tl);
    let o = 22 + t + h;
    lemma_tail_crlf_line(buf, t, h, tl, 21, 27);
    let cb = line_at(buf, o + 21).content.clamped(buf);
    assert(cb =~= buf.subrange(o + 21, o + 48));
    assert forall|j: int| 0 <= j < 18 implies cb[j] != 58u8 by {
        assert(cb[j] == tl[21 + j]);
    }
    assert(cb[18] == tl[39]);
    lemma_find_is(cb, 58u8, 18);
    assert(cb.subrange(0, 18) =~= tl.subrange(21, 39));
    lemma_trim_spaced_name();
    assert(trim_ows(seq![84u8, 114u8, 97u8, 110u8, 115u8, 102u8, 101u8, 114u8, 45u8, 69u8, 110u8, 99u8, 111u8, 100u8, 105u8, 110u8, 103u8]) == seq![84u8, 114u8, 97u8, 110u8, 115u8, 102u8, 101u8, 114u8, 45u8, 69u8, 110u8, 99u8, 111u8, 100u8, 105u8, 110u8, 103u8]);
    assert(cb[0] == tl[21]);
}

/// The space-colon gadget's Transfer-Encoding line has whitespace before its
/// colon, which the parser reports as PW007.
#[verifier::spinoff_prover]
#[verifier::rlimit(80)]
proof fn lemma_space_colon_pw007(host: Seq<char>, target: Seq<char>, mode: ParseMode)
    requires
        one_line(host),
        one_line(target),
        encode_utf8(gadget_text(Gadget::SpaceColon, host, target)).len() <= usize::MAX,
    ensures
        has_code(parse_spec(encode_utf8(gadget_text(Gadget::SpaceColon, host, target)), mode).1, 7),
{
    let g = Gadget::SpaceColon;
    let buf = encode_utf8(gadget_text(g, host, target));
    let t = encode_utf8(target).len() as int;
    let h = encode_utf8(host).len() as int;
    let tl = encode_utf8(gadget_tail(g));
    lemma_gadget_layout(g, host, target);
    lemma_space_colon_tail_shape(tl);
    let st0 = lemma_parse_headers(buf, mode);
    lemma_request_and_host_lines(buf, t, h, tl);
    let st1 = lemma_host_field(buf, t, h, tl, st0);
    let st2 = lemma_tail_field(buf, t, h, tl, 2, 17, 14, st1);
    let o = 22 + t + h;
    lemma_space_colon_te_line(buf, t, h, tl);
    crate::parser::law_space_before_colon_is_reported(buf, o + 21, st2);
    let fin = headers_from(buf, o + 21, st2).0;
    crate::findings::lemma_has_code_grows(
        fin.findings,
        fin.findings + crate::parser::weird_findings(fin.weird),
        7,
    );
}

/// The bare-LF gadget's Transfer-Encoding line ends in a bare LF, which the
/// parser reports as PW008.
#[verifier::spinoff_prover]
#[verifier::rlimit(80)]
proof fn lemma_bare_lf_pw008(host: Seq<char>, target: Seq<char>, mode: ParseMode)
    requires
        one_line(host),
        one_line(target),
        encode_utf8(gadget_text(Gadget::BareLf, host, target)).len() <= usize::MAX,
    ensures
        has_code(parse_spec(encode_utf8(gadget_text(Gadget::BareLf, host, target)), mode).1, 8),
{
    let g = Gadget::BareLf;
    let buf = encode_utf8(gadget_text(g, host, target));
    let t = encode_utf8(target).len() as int;
    let h = encode_utf8(host).len() as int;
    let tl = encode_utf8(gadget_tail(g));
    lemma_gadget_layout(g, host, target);
    lemma_bare_lf_tail_shape(tl);
    let st0 = lemma_parse_headers(buf, mode);
    lemma_request_and_host_lines(buf, t, h, tl);
    let st1 = lemma_host_field(buf, t, h, tl, st0);
    let st2 = lemma_tail_field(buf, t, h, tl, 2, 17, 14, st1);
    let o = 22 + t + h;
    let st3 = lemma_tail_field_lf(buf, t, h, tl, 21, 26, 17, st2);
    crate::parser::law_bad_line_endings_are_reported(buf, o + 21, st2);
    let fin = headers_from(buf, o + 21, st2).0;
    lemma_has_code_after(fin.findings, crate::parser::weird_findings(fin.weird), 8);
}

/// No blank line `CR LF CR LF` starts in `buf` before `k - 4`, and one ends at `k`.
pub open spec fn head_ends_at(buf: Seq<u8>, k: int) -> bool {
    &&& 4 <= k <= buf.len()
    &&& buf.subrange(k - 4, k) == seq![13u8, 10u8, 13u8, 10u8]
    &&& forall|i: int| 0 <= i < k - 4 ==> #[trigger] buf.subrange(i, i + 4) != seq![13u8, 10u8, 13u8, 10u8]
}

/// The head of a CL.TE or TE.CL gadget ends at the first blank line.
proof fn lemma_gadget_head_end(buf: Seq<u8>, t: int, h: int, tl: Seq<u8>)
    requires
        laid_out(buf, t, h, tl),
        tl.len() >= 51,
        tl[0] == 13u8,
        tl[1] == 10u8,
        forall|i: int| 2 <= i < 19 ==> tl[i] != 10u8,
        tl[19] == 13u8,
        tl[20] == 10u8,
        forall|i: int| 21 <= i < 47 ==> tl[i] != 10u8,
        tl[47] == 13u8,
        tl[48] == 10u8,
        tl[49] == 13u8,
        tl[50] == 10u8,
    ensures
        head_ends_at(buf, 22 + t + h + 51),
{
    let k = 22 + t + h + 51;
    let o = 22 + t + h;
    let w = seq![13u8, 10u8, 13u8, 10u8];
    assert(buf.subrange(k - 4, k) =~= w) by {
        assert(buf[o + 47] == tl[47]);
        assert(buf[o + 48] == tl[48]);
        assert(buf[o + 49] == tl[49]);
        assert(buf[o + 50] == tl[50]);
    }
    assert forall|i: int| 0 <= i < k - 4 implies #[trigger] buf.subrange(i, i + 4) != w by {
        if buf.subrange(i, i + 4) == w {
            assert(buf.subrange(i, i + 4)[1] == buf[i + 1]);
            assert(buf.subrange(i, i + 4)[3] == buf[i + 3]);
            assert(buf[i + 1] == 10u8);
            assert(buf[i + 3] == 10u8);
            if i + 1 < 5 {
            } else if i + 1 < 5 + t {
            } else if i + 1 < 22 + t {
                assert(i + 1 == 15 + t);
                assert(buf[17 + t] == 111u8);
            } else if i + 1 < o {
            } else {
                let j = i + 1 - o;
                assert(buf[i + 1] == tl[j]);
                assert(j == 1 || j == 20);
                assert(buf[i + 3] == tl[j + 2]);
            }
        }
    }
}

/// The bodies of the two Content-Length / Transfer-Encoding gadgets, as a
/// Content-Length reader sees them: the head ends at the first blank line,
/// which follows the Host value after 51 bytes of the fixed tail. The CL.TE
/// body is exactly `0\r\n\r\nG`, as many bytes as its `Content-Length: 6`
/// declares; the TE.CL body starts with `8\r\n`, the 3 bytes its
/// `Content-Length: 3` declares.
pub proof fn law_gadget_bodies(g: Gadget, host: Seq<char>, target: Seq<char>)
    requires
        one_line(host),
        one_line(target),
        encode_utf8(gadget_text(g, host, target)).len() <= usize::MAX,
    ensures
        ({
            let out = encode_utf8(gadget_text(g, host, target));
            let pre = encode_utf8("POST "@ + target + " HTTP/1.1\r\nHost: "@ + host).len() as int;
            let k = pre + 51;
            &&& (g == Gadget::ClTe || g == Gadget::TeCl) ==> head_ends_at(out, k)
            &&& (g == Gadget::ClTe || g == Gadget::TeCl) ==> out.subrange(pre + 2, pre + 18)
                == seq![67u8, 111u8, 110u8, 116u8, 101u8, 110u8, 116u8, 45u8, 76u8, 101u8, 110u8, 103u8, 116u8, 104u8, 58u8, 32u8]
            &&& g == Gadget::ClTe ==> out.subrange(k, out.len() as int) == seq![48u8, 13u8, 10u8, 13u8, 10u8, 71u8]
                && out[pre + 18] == 48 + (out.len() - k)
            &&& g == Gadget::TeCl ==> out.subrange(k, k + 3) == seq![56u8, 13u8, 10u8]
                && out[pre + 18] == 48 + 3
        }),
{
    let out = encode_utf8(gadget_text(g, host, target));
    let t = encode_utf8(target).len() as int;
    let h = encode_utf8(host).len() as int;
    let tl = encode_utf8(gadget_tail(g));
    let pstr = "POST "@ + target + " HTTP/1.1\r\nHost: "@ + host;
    crate::craft::law_gadget_payload_is_fixed(g, host, target);
    lemma_gadget_layout(g, host, target);
    let pre = encode_utf8(pstr).len() as int;
    assert(pre == 22 + t + h);
    let o = pre;
    if g == Gadget::ClTe {
        lemma_clte_tail_shape(tl);
        lemma_tail_bytes_clte();
        lemma_gadget_head_end(out, t, h, tl);
        assert(out.subrange(pre + 2, pre + 18) =~= tl.subrange(2, 18));
        assert(out.subrange(o + 51, out.len() as int) =~= tl.subrange(51, 57));
        assert(out[pre + 18] == tl[18]);
    } else if g == Gadget::TeCl {
        lemma_tecl_tail_shape(tl);
        lemma_tail_bytes_tecl();
        lemma_gadget_head_end(out, t, h, tl);
        assert(out.subrange(pre + 2, pre + 18) =~= tl.subrange(2, 18));
        assert(out.subrange(o + 51, o + 54) =~= tl.subrange(51, 54));
        assert(out[pre + 18] == tl[18]);
    }
}

/// Text without a comma is a single comma-separated piece.
proof fn lemma_split_without_comma(s: Seq<char>)
    requires
        forall|i: int| 0 <= i < s.len() ==> s[i] != ',',
    ensures
        split_on(s, ',') == seq![s],
    decreases s.len(),
{
    if s.len() > 0 {
        lemma_split_without_comma(s.drop_last());
        let p = split_on(s.drop_last(), ',');
        assert(s.drop_last().push(s.last()) =~= s);
        assert(p.update(p.len() - 1, p.last().push(s.last())) =~= seq![s]);
    } else {
        assert(s =~= Seq::<char>::empty());
    }
}

/// The value ` chunked` reads as the coding `chunked`.
pub(crate) proof fn lemma_value_chunked()
    ensures
        text_of(trim_ows(seq![32u8, 99u8, 104u8, 117u8, 110u8, 107u8, 101u8, 100u8])) == chunked_word(),
{
    let x = seq![32u8, 99u8, 104u8, 117u8, 110u8, 107u8, 101u8, 100u8];
    let y = seq![99u8, 104u8, 117u8, 110u8, 107u8, 101u8, 100u8];
    assert(x.drop_first() =~= y);
    assert(crate::parser::ows_front(x) == crate::parser::ows_front(y));
    assert(crate::parser::ows_front(y) == y);
    assert(crate::parser::ows_back(y) == y);
    assert(is_ascii_bytes(y));
    crate::text::lemma_ascii_decodes(y);
    assert(text_of(y) =~= chunked_word());
}

/// The value ` xchunked` reads as the coding `xchunked`.
proof fn lemma_value_xchunked()
    ensures
        text_of(trim_ows(seq![32u8, 120u8, 99u8, 104u8, 117u8, 110u8, 107u8, 101u8, 100u8])) == seq!['x', 'c', 'h', 'u', 'n', 'k', 'e', 'd'],
{
    let x = seq![32u8, 120u8, 99u8, 104u8, 117u8, 110u8, 107u8, 101u8, 100u8];
    let y = seq![120u8, 99u8, 104u8, 117u8, 110u8, 107u8, 101u8, 100u8];
    assert(x.drop_first() =~= y);
    assert(crate::parser::ows_front(x) == crate::parser::ows_front(y));
    assert(crate::parser::ows_front(y) == y);
    assert(crate::parser::ows_back(y) == y);
    assert(is_ascii_bytes(y));
    crate::text::lemma_ascii_decodes(y);
    assert(text_of(y) =~= seq!['x', 'c', 'h', 'u', 'n', 'k', 'e', 'd']);
}

/// `xchunked` is a coding that mimics `chunked`.
proof fn lemma_xchunked_is_obfuscated()
    ensures
        obfuscated(trim(split_on(seq!['x', 'c', 'h', 'u', 'n', 'k', 'e', 'd'], ',')[0])),
        split_on(seq!['x', 'c', 'h', 'u', 'n', 'k', 'e', 'd'], ',').len() == 1,
{
    let v = seq!['x', 'c', 'h', 'u', 'n', 'k', 'e', 'd'];
    lemma_split_without_comma(v);
    assert(crate::text::trim_start(v) == v);
    assert(crate::text::trim_end(v) == v);
    assert(lower_all(v) =~= v);
    let tok = trim(split_on(v, ',')[0]);
    assert(tok == v);
    assert(lower_all(tok).subrange(1, 1 + chunked_word().len() as int) =~= chunked_word());
    assert(lower_all(tok).len() != chunked_word().len());
}

/// The single coding `chunked` is a final `chunked`.
proof fn lemma_chunked_is_final(span: Span)
    ensures
        te_spec(seq![(chunked_word(), span)]).0.final_is_chunked,
{
    let v = chunked_word();
    let tes = seq![(v, span)];
    lemma_split_without_comma(v);
    assert(crate::text::trim_start(v) == v);
    assert(crate::text::trim_end(v) == v);
    assert(lower_all(v) =~= v);
    assert(tes.drop_last() =~= Seq::<(Seq<char>, Span)>::empty());
    let acc0 = te_fields(tes.drop_last());
    assert(split_on(v, ',').drop_last() =~= Seq::<Seq<char>>::empty());
    assert(te_pieces(acc0, split_on(v, ',').drop_last(), span) == acc0);
    assert(te_fields(tes).codings =~= seq![v]);
}

/// The analysis of a gadget's bytes.
pub open spec fn analysis_of(g: Gadget, host: Seq<char>, target: Seq<char>, mode: ParseMode) -> (
    crate::message::MessageView,
    Seq<FindingView>,
) {
    analyze_spec(encode_utf8(gadget_text(g, host, target)), mode)
}

/// The gadget request's preconditions: a one-line host and target, and a
/// request that fits in memory.
pub open spec fn gadget_input(g: Gadget, host: Seq<char>, target: Seq<char>) -> bool {
    &&& one_line(host)
    &&& one_line(target)
    &&& encode_utf8(gadget_text(g, host, target)).len() <= usize::MAX
}

proof fn lemma_both_reported(g: Gadget, host: Seq<char>, target: Seq<char>, mode: ParseMode)
    requires
        gadget_input(g, host, target),
        g != Gadget::TeTe,
    ensures
        has_code(analysis_of(g, host, target, mode).1, 1),
{
    let buf = encode_utf8(gadget_text(g, host, target));
    let (m, f) = parse_spec(buf, mode);
    let hs = m.headers;
    match g {
        Gadget::ClTe => lemma_clte_fields(host, target, mode),
        Gadget::TeCl => lemma_tecl_fields(host, target, mode),
        Gadget::SpaceColon => {
            lemma_space_colon_fields(host, target, mode);
            lemma_trim_spaced_name();
        },
        _ => lemma_bare_lf_fields(host, target, mode),
    }
    lemma_collect_both(hs);
    law_both_framing_headers_are_reported(m, buf);
    lemma_has_code_after(f, crate::framing::framing_spec(m, buf).1, 1);
}

proof fn lemma_tete_reported(host: Seq<char>, target: Seq<char>, mode: ParseMode)
    requires
        gadget_input(Gadget::TeTe, host, target),
    ensures
        has_code(analysis_of(Gadget::TeTe, host, target, mode).1, 4),
        has_code(analysis_of(Gadget::TeTe, host, target, mode).1, 6),
{
    let buf = encode_utf8(gadget_text(Gadget::TeTe, host, target));
    let (m, f) = parse_spec(buf, mode);
    let hs = m.headers;
    lemma_tete_fields(host, target, mode);
    lemma_collect_two_te(hs);
    law_duplicate_transfer_encoding_is_reported(m, buf);
    lemma_value_xchunked();
    lemma_xchunked_is_obfuscated();
    crate::framing::law_obfuscated_coding_is_reported(m, buf, 0, 0);
    let fb = crate::framing::framing_spec(m, buf).1;
    lemma_has_code_after(f, fb, 4);
    lemma_has_code_after(f, fb, 6);
}

proof fn lemma_tecl_chunked(host: Seq<char>, target: Seq<char>, mode: ParseMode)
    requires
        gadget_input(Gadget::TeCl, host, target),
    ensures
        analysis_of(Gadget::TeCl, host, target, mode).0.body.framing == Framing::Chunked,
{
    let buf = encode_utf8(gadget_text(Gadget::TeCl, host, target));
    let (m, f) = parse_spec(buf, mode);
    let hs = m.headers;
    lemma_tecl_fields(host, target, mode);
    lemma_collect_one_te(hs);
    lemma_value_chunked();
    lemma_chunked_is_final(hs[2].line_span);
    crate::framing::law_final_chunked_wins(m, buf);
}

proof fn lemma_line_findings_reported(g: Gadget, host: Seq<char>, target: Seq<char>, mode: ParseMode)
    requires
        gadget_input(g, host, target),
    ensures
        g == Gadget::SpaceColon ==> has_code(analysis_of(g, host, target, mode).1, 7),
        g == Gadget::BareLf ==> has_code(analysis_of(g, host, target, mode).1, 8),
{
    let buf = encode_utf8(gadget_text(g, host, target));
    let (m, f) = parse_spec(buf, mode);
    let fb = crate::framing::framing_spec(m, buf).1;
    if g == Gadget::SpaceColon {
        lemma_space_colon_pw007(host, target, mode);
        crate::findings::lemma_has_code_grows(f, f + fb, 7);
    }
    if g == Gadget::BareLf {
        lemma_bare_lf_pw008(host, target, mode);
        crate::findings::lemma_has_code_grows(f, f + fb, 8);
    }
}

/// A chunked body `0`, CRLF, CRLF followed by one more byte: the scan
/// completes one byte before the end of the buffer.
proof fn lemma_zero_chunk_then_one_byte(buf: Seq<u8>)
    requires
        buf.len() >= 6,
        buf.len() <= usize::MAX,
        buf[buf.len() - 6] == 48u8,
        buf[buf.len() - 5] == 13u8,
        buf[buf.len() - 4] == 10u8,
        buf[buf.len() - 3] == 13u8,
        buf[buf.len() - 2] == 10u8,
        buf[buf.len() - 1] != 10u8,
    ensures
        scan_spec(buf, buf.len() - 6).0.end == buf.len() - 1,
{
    let n = buf.len() as int;
    lemma_crlf_line(buf, n - 6, 1);
    lemma_crlf_line(buf, n - 3, 0);
    let sl = line_at(buf, n - 6);
    let cb = sl.content.clamped(buf);
    assert(cb =~= seq![48u8]);
    lemma_find_is(cb, 59u8, 1);
    assert(trim_ows(cb) == cb);
    assert(hex_number(cb) == 0) by {
        assert(cb.drop_last() =~= Seq::<u8>::empty());
        assert(hex_number(cb.drop_last()) == 0);
        assert(crate::chunked::hex_val(48u8) == 0);
    }
    assert(crate::chunked::hex_size(trim_ows(cb)) == Some(0usize));
    assert(crate::chunked::trailers_from(buf, n - 3, 0) == (n - 1, 0nat));
}

/// The CL.TE gadget's chunked body ends before its last byte, `G`, which is
/// reported as PW017.
proof fn lemma_clte_trailing(host: Seq<char>, target: Seq<char>, mode: ParseMode)
    requires
        gadget_input(Gadget::ClTe, host, target),
    ensures
        has_code(analysis_of(Gadget::ClTe, host, target, mode).1, 17),
{
    let g = Gadget::ClTe;
    let buf = encode_utf8(gadget_text(g, host, target));
    let (m, f) = parse_spec(buf, mode);
    let hs = m.headers;
    lemma_clte_fields(host, target, mode);
    lemma_collect_one_te(hs);
    lemma_value_chunked();
    lemma_chunked_is_final(hs[2].line_span);
    let t = encode_utf8(target).len() as int;
    let h = encode_utf8(host).len() as int;
    let tl = encode_utf8(gadget_tail(g));
    lemma_gadget_layout(g, host, target);
    lemma_clte_tail_shape(tl);
    let n = buf.len() as int;
    assert forall|k: int| 1 <= k <= 6 implies #[trigger] buf[n - k] == tl[57 - k] by {
        assert(buf[n - k] == tl[n - k - 22 - t - h]);
    }
    assert(tl[51] == tl.subrange(51, 57)[0]);
    assert(tl[52] == tl.subrange(51, 57)[1]);
    assert(tl[53] == tl.subrange(51, 57)[2]);
    assert(tl[54] == tl.subrange(51, 57)[3]);
    assert(tl[55] == tl.subrange(51, 57)[4]);
    assert(tl[56] == tl.subrange(51, 57)[5]);
    assert(buf[n - 6] == 48u8);
    assert(buf[n - 1] == 71u8);
    lemma_zero_chunk_then_one_byte(buf);
    crate::framing::law_bytes_after_the_body_are_reported(m, buf);
    lemma_has_code_after(f, crate::framing::framing_spec(m, buf).1, 17);
}

/// Whatever one-line host and target it carries, each desync gadget is
/// reported as the ambiguity it is built to provoke: Content-Length and
/// Transfer-Encoding together (PW001) for CL.TE, TE.CL, space-colon and
/// bare-LF; the smuggled byte after CL.TE's chunked body (PW017); a
/// duplicated (PW004) and an obfuscated (PW006) Transfer-Encoding for TE.TE;
/// whitespace before the colon (PW007) for space-colon; a bare LF (PW008) for
/// bare-LF; and TE.CL's body is framed as chunked.
pub proof fn law_gadgets_are_reported(
    g: Gadget,
    host: Seq<char>,
    target: Seq<char>,
    mode: ParseMode,
)
    requires
        gadget_input(g, host, target),
    ensures
        g != Gadget::TeTe ==> has_code(analysis_of(g, host, target, mode).1, 1),
        g == Gadget::TeTe ==> has_code(analysis_of(g, host, target, mode).1, 4),
        g == Gadget::TeTe ==> has_code(analysis_of(g, host, target, mode).1, 6),
        g == Gadget::SpaceColon ==> has_code(analysis_of(g, host, target, mode).1, 7),
        g == Gadget::BareLf ==> has_code(analysis_of(g, host, target, mode).1, 8),
        g == Gadget::ClTe ==> has_code(analysis_of(g, host, target, mode).1, 17),
        g == Gadget::TeCl ==> analysis_of(g, host, target, mode).0.body.framing
            == Framing::Chunked,
{
    if g == Gadget::TeTe {
        lemma_tete_reported(host, target, mode);
    } else {
        lemma_both_reported(g, host, target, mode);
    }
    if g == Gadget::TeCl {
        lemma_tecl_chunked(host, target, mode);
    }
    if g == Gadget::ClTe {
        lemma_clte_trailing(host, target, mode);
    }
    lemma_line_findings_reported(g, host, target, mode);
}

} // verus!
