//! A well-formed request assembled by [`crate::craft::build`] inspects clean:
//! [`crate::analyze`] finds nothing to report in it.
use vstd::prelude::*;
use vstd::utf8::{encode_scalar, encode_utf8};
use crate::craft::{
    build_spec, crlf, framing_text, has_host, head_text, headers_text, host_text,
    lemma_encode_utf8_concat, ClMode, CraftView,
};
use crate::framing::{
    body_spec, chunked_word, combine, obfuscated, te_fields, te_pieces, te_spec, TeResolution,
    cl_fields, cl_pieces, cl_spec, cl_value, collect_spec, content_length_name, dec_number,
    framing_spec, host_findings, host_name, is_digit, transfer_encoding_name, ClAcc, ClResolution,
};
use crate::analyze_spec;
use crate::findings::FindingView;
use crate::message::{Framing, HeaderView, MessageKind, MessageView, ParseMode};
use crate::parser::{
    all_token, header_line_spec, headers_from, is_ows, is_token, kind_of, line_at, observe,
    ows_back, ows_front, parse_spec, request_irregular, scan_cr, start_line_spec, trim_ows,
    weird_findings, weird_none, HeadState, Line, Term, WeirdView,
};
use crate::span::Span;
use crate::agreement::lemma_crlf_line;
use crate::chunked::{hex_number, hex_size, is_hex, scan_loop, scan_spec, scan_step, trailers_from, ScanState};
use crate::text::{
    ascii_ieq, dec, digit_char, find, hex, is_ws, lemma_find_is, lower_all, radix, split_on, text_of, trim,
    trim_end, trim_start,
};

verus! {

proof fn lemma_scalar_free(v: u32, x: u8)
    requires
        v != x as u32,
        v <= 0x10FFFF,
        x < 0x80,
    ensures
        forall|k: int| 0 <= k < encode_scalar(v).len() ==> encode_scalar(v)[k] != x,
{
    assert(v <= 0x7F ==> ((v & 0x7F) as u8) != x) by (bit_vector)
        requires
            v != x as u32,
            x < 0x80,
    ;
    assert((0xC0u8 | ((v >> 6u32) & 0x1F) as u8) != x) by (bit_vector)
        requires
            x < 0x80,
    ;
    assert((0xE0u8 | ((v >> 12u32) & 0x0F) as u8) != x) by (bit_vector)
        requires
            x < 0x80,
    ;
    assert((0xF0u8 | ((v >> 18u32) & 0x7) as u8) != x) by (bit_vector)
        requires
            x < 0x80,
    ;
    assert((0x80u8 | (v & 0x3F) as u8) != x) by (bit_vector)
        requires
            x < 0x80,
    ;
    assert((0x80u8 | ((v >> 6u32) & 0x3F) as u8) != x) by (bit_vector)
        requires
            x < 0x80,
    ;
    assert((0x80u8 | ((v >> 12u32) & 0x3F) as u8) != x) by (bit_vector)
        requires
            x < 0x80,
    ;
}

/// Text without the ASCII character `c` encodes to bytes without its byte.
pub proof fn lemma_char_free_bytes(s: Seq<char>, c: char)
    requires
        (c as u32) < 0x80,
        forall|i: int| 0 <= i < s.len() ==> s[i] != c,
    ensures
        forall|k: int| 0 <= k < encode_utf8(s).len() ==> encode_utf8(s)[k] != (c as u32) as u8,
    decreases s.len(),
{
    if s.len() > 0 {
        vstd::utf8::char_is_scalar(s[0]);
        vstd::utf8::char_u32_cast(s[0], s[0] as u32);
        vstd::utf8::char_u32_cast(c, c as u32);
        let x = (c as u32) as u8;
        assert(x as u32 == c as u32);
        lemma_scalar_free(s[0] as u32, x);
        lemma_char_free_bytes(s.drop_first(), c);
        let a = encode_scalar(s[0] as u32);
        let b = encode_utf8(s.drop_first());
        assert forall|k: int| 0 <= k < encode_utf8(s).len() implies encode_utf8(s)[k] != x by {
            if k < a.len() {
                assert(encode_utf8(s)[k] == a[k]);
            } else {
                assert(encode_utf8(s)[k] == b[k - a.len()]);
            }
        }
    }
}

/// Encoded text decodes back to itself.
pub proof fn lemma_text_of_encoded(s: Seq<char>)
    ensures
        text_of(encode_utf8(s)) == s,
{
    vstd::utf8::encode_utf8_valid_utf8(s);
    vstd::utf8::encode_utf8_decode_utf8(s);
}

/// Text without `c` is one `c`-separated piece.
pub proof fn lemma_split_plain(s: Seq<char>, c: char)
    requires
        forall|i: int| 0 <= i < s.len() ==> s[i] != c,
    ensures
        split_on(s, c) == seq![s],
    decreases s.len(),
{
    if s.len() > 0 {
        lemma_split_plain(s.drop_last(), c);
        let p = split_on(s.drop_last(), c);
        assert(s.drop_last().push(s.last()) =~= s);
        assert(p.update(p.len() - 1, p.last().push(s.last())) =~= seq![s]);
    } else {
        assert(s =~= Seq::<char>::empty());
    }
}

/// Appending `c`-free text extends the last piece.
proof fn lemma_split_extend(p: Seq<char>, d: Seq<char>, c: char)
    requires
        forall|i: int| 0 <= i < d.len() ==> d[i] != c,
    ensures
        split_on(p + d, c) == split_on(p, c).update(
            split_on(p, c).len() - 1,
            split_on(p, c).last() + d,
        ),
        split_on(p + d, c).len() == split_on(p, c).len(),
    decreases d.len(),
{
    crate::text::lemma_split_nonempty(p, c);
    if d.len() == 0 {
        assert(p + d =~= p);
        assert(split_on(p, c).last() + d =~= split_on(p, c).last());
        assert(split_on(p, c).update(split_on(p, c).len() - 1, split_on(p, c).last())
            =~= split_on(p, c));
    } else {
        lemma_split_extend(p, d.drop_last(), c);
        assert((p + d).drop_last() =~= p + d.drop_last());
        assert((p + d).last() == d.last());
        let q = split_on(p, c);
        let r = split_on(p + d.drop_last(), c);
        assert(d[d.len() - 1] != c);
        assert(split_on(p + d, c) == r.update(r.len() - 1, r.last().push(d.last())));
        assert(r.last() == q.last() + d.drop_last());
        assert((q.last() + d.drop_last()).push(d.last()) =~= q.last() + d);
        assert(split_on(p + d, c) =~= q.update(q.len() - 1, q.last() + d));
    }
}

/// Three `c`-free parts joined by `c` split back into those parts.
pub proof fn lemma_split_three(a: Seq<char>, b: Seq<char>, d: Seq<char>, c: char)
    requires
        forall|i: int| 0 <= i < a.len() ==> a[i] != c,
        forall|i: int| 0 <= i < b.len() ==> b[i] != c,
        forall|i: int| 0 <= i < d.len() ==> d[i] != c,
    ensures
        split_on(a + seq![c] + b + seq![c] + d, c) == seq![a, b, d],
{
    lemma_split_plain(a, c);
    let ac = a + seq![c];
    assert(ac.drop_last() =~= a);
    assert(split_on(ac, c) =~= seq![a, Seq::<char>::empty()]);
    lemma_split_extend(ac, b, c);
    assert(Seq::<char>::empty() + b =~= b);
    assert(split_on(ac + b, c) =~= seq![a, b]);
    let acbc = ac + b + seq![c];
    assert(acbc.drop_last() =~= ac + b);
    assert(split_on(acbc, c) =~= seq![a, b, Seq::<char>::empty()]);
    lemma_split_extend(acbc, d, c);
    assert(Seq::<char>::empty() + d =~= d);
    assert(split_on(acbc + d, c) =~= seq![a, b, d]);
}

/// The decimal text of `n` is all digits and reads back as `n`.
pub proof fn lemma_dec_reads_back(n: nat)
    ensures
        dec(n).len() > 0,
        forall|i: int| 0 <= i < dec(n).len() ==> is_digit(#[trigger] dec(n)[i]),
        dec_number(dec(n)) == n,
    decreases n,
{
    if n < 10 {
        assert(dec(n) == seq![digit_char(n)]);
        assert(dec(n).drop_last() =~= Seq::<char>::empty());
        assert(dec_number(Seq::<char>::empty()) == 0);
        assert(dec(n).last() as nat == n + 48);
    } else {
        assert(n / 10 < n);
        lemma_dec_reads_back(n / 10);
        let r = radix(n / 10, 10);
        assert(dec(n) == r.push(digit_char(n % 10)));
        assert(dec(n).drop_last() =~= r);
        assert((n / 10) * 10 + n % 10 == n) by (nonlinear_arith);
        assert(n % 10 < 10) by (nonlinear_arith);
        assert(digit_char(n % 10) as nat == n % 10 + 48);
        assert(dec_number(dec(n)) == dec_number(r) * 10 + (n % 10));
        assert forall|i: int| 0 <= i < dec(n).len() implies is_digit(#[trigger] dec(n)[i]) by {
            if i < r.len() {
                assert(dec(n)[i] == r[i]);
            }
        }
    }
}

/// A length written in decimal is a valid Content-Length value for it.
pub proof fn lemma_cl_value_of_dec(n: u64)
    ensures
        cl_value(dec(n as nat)) == Some(n),
        split_on(dec(n as nat), ',') == seq![dec(n as nat)],
        trim(dec(n as nat)) == dec(n as nat),
{
    lemma_dec_reads_back(n as nat);
    let s = dec(n as nat);
    assert forall|i: int| 0 <= i < s.len() implies s[i] != ',' by {
        assert(is_digit(s[i]));
    }
    lemma_split_plain(s, ',');
    assert(!is_ws(s[0]));
    assert(!is_ws(s.last()));
    assert(trim_start(s) == s);
    assert(trim_end(s) == s);
}

/// Text that stays on one line: no CR, no LF.
pub open spec fn line_text(s: Seq<char>) -> bool {
    forall|i: int| 0 <= i < s.len() ==> s[i] != '\r' && s[i] != '\n'
}

/// A field name: one or more ASCII token characters.
pub open spec fn token_name(s: Seq<char>) -> bool {
    &&& s.len() > 0
    &&& forall|i: int|
        #![trigger s[i]]
        0 <= i < s.len() ==> '\0' <= s[i] <= '\u{7f}' && is_token(s[i] as u8)
}

/// One header line as text: `name: value` and CRLF.
pub open spec fn field_line(name: Seq<char>, value: Seq<char>) -> Seq<char> {
    name + seq![':', ' '] + value + crlf()
}

/// Bytes without a CR leave the bare-CR count alone.
proof fn lemma_scan_cr_none(w: WeirdView, bytes: Seq<u8>, base: int)
    requires
        forall|i: int| 0 <= i < bytes.len() ==> bytes[i] != 13u8,
    ensures
        scan_cr(w, bytes, base) == w,
    decreases bytes.len(),
{
    if bytes.len() > 0 {
        lemma_scan_cr_none(w, bytes.drop_last(), base);
        assert(bytes[bytes.len() - 1] != 13u8);
    }
}

/// The bytes of an ASCII token name.
proof fn lemma_token_bytes(name: Seq<char>)
    requires
        token_name(name),
    ensures
        encode_utf8(name).len() == name.len(),
        forall|i: int| 0 <= i < name.len() ==> #[trigger] encode_utf8(name)[i] == name[i] as u8,
        forall|i: int| 0 <= i < name.len() ==> is_token(#[trigger] encode_utf8(name)[i]),
{
    assert(vstd::utf8::is_ascii_chars(name)) by {
        assert forall|i: int| 0 <= i < name.len() implies '\0' <= #[trigger] name[i] <= '\u{7f}' by {
            assert('\0' <= name[i] <= '\u{7f}');
        }
    }
    vstd::utf8::is_ascii_chars_encode_utf8(name);
    assert forall|i: int| 0 <= i < name.len() implies is_token(#[trigger] encode_utf8(name)[i]) by {
        assert(is_token(name[i] as u8));
    }
}

/// The bytes of a field line: the name's, a colon and a space, the value's,
/// and CRLF.
proof fn lemma_field_line_bytes(name: Seq<char>, value: Seq<char>)
    requires
        token_name(name),
        line_text(value),
    ensures
        ({
            let nb = encode_utf8(name);
            let vb = encode_utf8(value);
            let lb = encode_utf8(field_line(name, value));
            &&& lb == nb + seq![58u8, 32u8] + vb + seq![13u8, 10u8]
            &&& nb.len() == name.len()
            &&& forall|i: int| 0 <= i < nb.len() ==> is_token(#[trigger] nb[i])
            &&& forall|i: int| 0 <= i < vb.len() ==> #[trigger] vb[i] != 10u8 && vb[i] != 13u8
            &&& encode_utf8(seq![' '] + value) == seq![32u8] + vb
        }),
{
    let sep = seq![':', ' '];
    lemma_encode_utf8_concat(name + sep + value, crlf());
    lemma_encode_utf8_concat(name + sep, value);
    lemma_encode_utf8_concat(name, sep);
    assert(encode_utf8(sep) =~= seq![58u8, 32u8]) by {
        vstd::utf8::is_ascii_chars_encode_utf8(sep);
    }
    assert(encode_utf8(crlf()) =~= seq![13u8, 10u8]) by {
        vstd::utf8::is_ascii_chars_encode_utf8(crlf());
    }
    lemma_token_bytes(name);
    lemma_char_free_bytes(value, '\n');
    lemma_char_free_bytes(value, '\r');
    lemma_encode_utf8_concat(seq![' '], value);
    assert(encode_utf8(seq![' ']) =~= seq![32u8]) by {
        vstd::utf8::is_ascii_chars_encode_utf8(seq![' ']);
    }
}

/// Where a field line lies in the buffer, the parser reads it as one CRLF
/// line whose content is the line without its CRLF.
proof fn lemma_field_line_read(buf: Seq<u8>, pos: int, nb: Seq<u8>, vb: Seq<u8>)
    requires
        0 <= pos,
        pos + nb.len() + vb.len() + 4 <= buf.len(),
        buf.len() <= usize::MAX,
        buf.subrange(pos, pos + nb.len() + vb.len() + 4) == nb + seq![58u8, 32u8] + vb + seq![
            13u8,
            10u8,
        ],
        nb.len() > 0,
        forall|i: int| 0 <= i < nb.len() ==> is_token(#[trigger] nb[i]),
        forall|i: int| 0 <= i < vb.len() ==> #[trigger] vb[i] != 10u8 && vb[i] != 13u8,
    ensures
        line_at(buf, pos) == (Line {
            content: Span { start: pos as usize, end: (pos + nb.len() + vb.len() + 2) as usize },
            full: Span { start: pos as usize, end: (pos + nb.len() + vb.len() + 4) as usize },
            term: Term::Crlf,
        }),
        line_at(buf, pos).content.clamped(buf) == nb + seq![58u8, 32u8] + vb,
{
    let lb = nb + seq![58u8, 32u8] + vb + seq![13u8, 10u8];
    let n = nb.len() as int;
    let k = n + 2 + vb.len();
    assert forall|i: int| 0 <= i < lb.len() implies #[trigger] buf[pos + i] == lb[i] by {
        assert(buf.subrange(pos, pos + lb.len())[i] == lb[i]);
    }
    assert forall|i: int| pos <= i < pos + k implies buf[i] != 10u8 by {
        let j = i - pos;
        assert(buf[pos + j] == lb[j]);
        if j < n {
            assert(lb[j] == nb[j]);
            assert(is_token(nb[j]));
        } else if j >= n + 2 {
            assert(lb[j] == vb[j - n - 2]);
        }
    }
    assert(buf[pos + k] == lb[k]);
    assert(buf[pos + k + 1] == lb[k + 1]);
    let s = buf.subrange(pos, buf.len() as int);
    lemma_find_is(s, 10u8, k + 1);
    let line = line_at(buf, pos);
    assert(line.content.clamped(buf) =~= nb + seq![58u8, 32u8] + vb);
}

/// A clean field line read by the header loop: the field is appended, and
/// neither a finding nor a bad line ending is recorded.
pub proof fn lemma_clean_line(
    buf: Seq<u8>,
    pos: int,
    name: Seq<char>,
    value: Seq<char>,
    st: HeadState,
) -> (st2: HeadState)
    requires
        0 <= pos,
        pos + encode_utf8(field_line(name, value)).len() <= buf.len(),
        buf.len() <= usize::MAX,
        buf.subrange(pos, pos + encode_utf8(field_line(name, value)).len()) == encode_utf8(
            field_line(name, value),
        ),
        token_name(name),
        line_text(value),
    ensures
        headers_from(buf, pos, st) == headers_from(
            buf,
            pos + encode_utf8(field_line(name, value)).len(),
            st2,
        ),
        st2.findings == st.findings,
        st2.weird == st.weird,
        st2.headers == st.headers.push(st2.headers.last()),
        st2.headers.last().name == name,
        st2.headers.last().value == text_of(trim_ows(encode_utf8(seq![' '] + value))),
{
    let nb = encode_utf8(name);
    let vb = encode_utf8(value);
    lemma_field_line_bytes(name, value);
    lemma_field_line_read(buf, pos, nb, vb);
    let line = line_at(buf, pos);
    let cb = line.content.clamped(buf);
    let n = nb.len() as int;
    assert forall|i: int| 0 <= i < cb.len() implies cb[i] != 13u8 by {
        if i < n {
            assert(cb[i] == nb[i]);
            assert(is_token(nb[i]));
        } else if i >= n + 2 {
            assert(cb[i] == vb[i - n - 2]);
        }
    }
    lemma_scan_cr_none(st.weird, cb, pos);
    let st1 = HeadState { weird: observe(st.weird, buf, line), ..st };
    assert(st1 == st);
    assert(is_token(nb[0]));
    assert forall|j: int| 0 <= j < n implies cb[j] != 58u8 by {
        assert(cb[j] == nb[j]);
        assert(is_token(nb[j]));
    }
    lemma_find_is(cb, 58u8, n);
    assert(cb.subrange(0, n) =~= nb);
    assert(is_token(nb[n - 1]));
    assert(ows_front(nb) == nb);
    assert(ows_back(nb) == nb);
    lemma_text_of_encoded(name);
    assert(cb.subrange(n + 1, cb.len() as int) =~= seq![32u8] + vb);
    let st2 = header_line_spec(st1, line, cb);
    assert(st2.headers == st.headers.push(st2.headers.last()));
    st2
}

/// Every field has a token name and a one-line value.
pub open spec fn clean_fields(fs: Seq<(Seq<char>, Seq<char>)>) -> bool {
    forall|i: int| 0 <= i < fs.len() ==> token_name(#[trigger] fs[i].0) && line_text(fs[i].1)
}

proof fn lemma_headers_text_step(fs: Seq<(Seq<char>, Seq<char>)>)
    requires
        fs.len() > 0,
    ensures
        encode_utf8(headers_text(fs)) == encode_utf8(headers_text(fs.drop_last())) + encode_utf8(
            field_line(fs.last().0, fs.last().1),
        ),
{
    assert(headers_text(fs) =~= headers_text(fs.drop_last()) + field_line(fs.last().0, fs.last().1));
    lemma_encode_utf8_concat(headers_text(fs.drop_last()), field_line(fs.last().0, fs.last().1));
}

/// A run of clean field lines read by the header loop: each field is
/// appended in order, and nothing is reported.
pub proof fn lemma_clean_lines(
    buf: Seq<u8>,
    pos: int,
    fs: Seq<(Seq<char>, Seq<char>)>,
    st: HeadState,
) -> (st2: HeadState)
    requires
        0 <= pos,
        pos + encode_utf8(headers_text(fs)).len() <= buf.len(),
        buf.len() <= usize::MAX,
        buf.subrange(pos, pos + encode_utf8(headers_text(fs)).len()) == encode_utf8(
            headers_text(fs),
        ),
        clean_fields(fs),
    ensures
        headers_from(buf, pos, st) == headers_from(
            buf,
            pos + encode_utf8(headers_text(fs)).len(),
            st2,
        ),
        st2.findings == st.findings,
        st2.weird == st.weird,
        st2.headers.len() == st.headers.len() + fs.len(),
        forall|i: int| 0 <= i < st.headers.len() ==> #[trigger] st2.headers[i] == st.headers[i],
        forall|i: int|
            0 <= i < fs.len() ==> (#[trigger] st2.headers[st.headers.len() + i]).name == fs[i].0,
        forall|i: int|
            0 <= i < fs.len() ==> (#[trigger] st2.headers[st.headers.len() + i]).value == text_of(
                trim_ows(encode_utf8(seq![' '] + fs[i].1)),
            ),
    decreases fs.len(),
{
    if fs.len() == 0 {
        assert(encode_utf8(headers_text(fs)) =~= Seq::<u8>::empty());
        st
    } else {
        let p = fs.drop_last();
        let last = fs.last();
        lemma_headers_text_step(fs);
        let a = encode_utf8(headers_text(p));
        let b = encode_utf8(field_line(last.0, last.1));
        assert(clean_fields(p)) by {
            assert forall|i: int| 0 <= i < p.len() implies token_name(#[trigger] p[i].0) && line_text(
                p[i].1,
            ) by {
                assert(p[i] == fs[i]);
            }
        }
        assert(buf.subrange(pos, pos + a.len()) =~= a) by {
            assert forall|i: int| 0 <= i < a.len() implies buf.subrange(pos, pos + a.len())[i]
                == a[i] by {
                assert(buf.subrange(pos, pos + (a + b).len())[i] == (a + b)[i]);
            }
        }
        let st1 = lemma_clean_lines(buf, pos, p, st);
        let q = pos + a.len();
        assert(buf.subrange(q, q + b.len()) =~= b) by {
            assert forall|i: int| 0 <= i < b.len() implies buf.subrange(q, q + b.len())[i]
                == b[i] by {
                assert(buf.subrange(pos, pos + (a + b).len())[a.len() + i] == (a + b)[a.len()
                    + i]);
            }
        }
        assert(token_name(fs[fs.len() - 1].0));
        let st2 = lemma_clean_line(buf, q, last.0, last.1, st1);
        assert forall|i: int| 0 <= i < fs.len() implies (#[trigger] st2.headers[st.headers.len()
            + i]).name == fs[i].0 && st2.headers[st.headers.len() + i].value == text_of(
            trim_ows(encode_utf8(seq![' '] + fs[i].1)),
        ) by {
            if i < p.len() {
                assert(st2.headers[st.headers.len() + i] == st1.headers[st.headers.len() + i]);
                assert(p[i] == fs[i]);
            }
        }
        st2
    }
}

/// A request-line field: non-empty, with no space, tab, CR or LF.
pub open spec fn plain_field(s: Seq<char>) -> bool {
    &&& s.len() > 0
    &&& forall|i: int|
        0 <= i < s.len() ==> s[i] != ' ' && s[i] != '\t' && s[i] != '\r' && s[i] != '\n'
}

/// `method SP target SP version`.
pub open spec fn request_line_chars(m: Seq<char>, t: Seq<char>, v: Seq<char>) -> Seq<char> {
    m + seq![' '] + t + seq![' '] + v
}

/// A request line of three plain fields is read without a finding.
proof fn lemma_plain_request_line(m: Seq<char>, t: Seq<char>, v: Seq<char>, span: Span)
    requires
        plain_field(m),
        plain_field(t),
        plain_field(v),
    ensures
        start_line_spec(request_line_chars(m, t, v), span, MessageKind::Request).1.len() == 0,
        line_text(request_line_chars(m, t, v)),
{
    let s = request_line_chars(m, t, v);
    lemma_split_three(m, t, v, ' ');
    let raw = split_on(s, ' ');
    assert(raw == seq![m, t, v]);
    assert forall|i: int| 0 <= i < raw.len() implies (#[trigger] raw[i]).len() != 0 by {}
    let n1 = m.len() as int;
    let n2 = n1 + 1 + t.len();
    assert forall|i: int| 0 <= i < s.len() implies s[i] != '\t' && s[i] != '\r' && s[i] != '\n' by {
        if i < n1 {
            assert(s[i] == m[i]);
        } else if i == n1 {
        } else if i < n2 {
            assert(s[i] == t[i - n1 - 1]);
        } else if i == n2 {
        } else {
            assert(s[i] == v[i - n2 - 1]);
        }
    }
    assert(!request_irregular(s));
}

/// What the parser makes of a request whose head is a plain request line
/// and clean fields: no finding, the fields in order, and the body right after
/// the blank line.
pub proof fn lemma_clean_head(
    buf: Seq<u8>,
    m: Seq<char>,
    t: Seq<char>,
    v: Seq<char>,
    fs: Seq<(Seq<char>, Seq<char>)>,
    body: Seq<u8>,
    mode: ParseMode,
)
    requires
        buf == encode_utf8(request_line_chars(m, t, v)) + seq![13u8, 10u8] + encode_utf8(
            headers_text(fs),
        ) + seq![13u8, 10u8] + body,
        buf.len() <= usize::MAX,
        plain_field(m),
        plain_field(t),
        plain_field(v),
        clean_fields(fs),
        kind_of(mode, encode_utf8(request_line_chars(m, t, v))) == MessageKind::Request,
    ensures
        parse_spec(buf, mode).1.len() == 0,
        parse_spec(buf, mode).0.kind == MessageKind::Request,
        parse_spec(buf, mode).0.body_start == buf.len() - body.len(),
        parse_spec(buf, mode).0.headers.len() == fs.len(),
        forall|i: int|
            0 <= i < fs.len() ==> (#[trigger] parse_spec(buf, mode).0.headers[i]).name == fs[i].0,
        forall|i: int|
            0 <= i < fs.len() ==> (#[trigger] parse_spec(buf, mode).0.headers[i]).value
                == text_of(trim_ows(encode_utf8(seq![' '] + fs[i].1))),
{
    let rl = request_line_chars(m, t, v);
    let rb = encode_utf8(rl);
    let hb = encode_utf8(headers_text(fs));
    let r = rb.len() as int;
    lemma_plain_request_line(m, t, v, Span { start: 0, end: r as usize });
    lemma_char_free_bytes(rl, '\n');
    lemma_char_free_bytes(rl, '\r');
    // The request line.
    assert forall|i: int| 0 <= i < r implies buf[i] != 10u8 by {
        assert(buf[i] == rb[i]);
    }
    assert(buf[r] == 13u8);
    assert(buf[r + 1] == 10u8);
    lemma_find_is(buf.subrange(0, buf.len() as int), 10u8, r + 1);
    assert(buf.subrange(0, buf.len() as int) =~= buf);
    let first = line_at(buf, 0);
    assert(first.content == (Span { start: 0, end: r as usize }));
    assert(first.full.end == r + 2);
    let fb = first.content.clamped(buf);
    assert(fb =~= rb);
    lemma_text_of_encoded(rl);
    assert forall|i: int| 0 <= i < fb.len() implies fb[i] != 13u8 by {
        assert(fb[i] == rb[i]);
    }
    lemma_scan_cr_none(weird_none(), fb, 0);
    let (sl, f0) = start_line_spec(rl, first.content, MessageKind::Request);
    let st0 = HeadState { headers: Seq::empty(), findings: f0, weird: weird_none() };
    assert(observe(weird_none(), buf, first) == weird_none());
    // The fields.
    let p = r + 2;
    assert(buf.subrange(p, p + hb.len()) =~= hb) by {
        assert forall|i: int| 0 <= i < hb.len() implies buf.subrange(p, p + hb.len())[i]
            == hb[i] by {
            assert(buf[p + i] == hb[i]);
        }
    }
    let st1 = lemma_clean_lines(buf, p, fs, st0);
    // The blank line.
    let q = p + hb.len();
    assert(buf[q] == 13u8);
    assert(buf[q + 1] == 10u8);
    lemma_find_is(buf.subrange(q, buf.len() as int), 10u8, 1);
    let blank = line_at(buf, q);
    assert(blank.content.start == blank.content.end);
    assert(blank.content.clamped(buf) =~= Seq::<u8>::empty());
    lemma_scan_cr_none(st1.weird, blank.content.clamped(buf), q);
    assert(headers_from(buf, q, st1).0 == st1);
    assert(headers_from(buf, q, st1).1 == q + 2);
    assert(st1.headers =~= parse_spec(buf, mode).0.headers);
    assert forall|i: int| 0 <= i < fs.len() implies (#[trigger] st1.headers[i]).name == fs[i].0
        && st1.headers[i].value == text_of(trim_ows(encode_utf8(seq![' '] + fs[i].1))) by {
        assert(st1.headers[st0.headers.len() + i] == st1.headers[i]);
    }
    assert(weird_findings(weird_none()) =~= Seq::<FindingView>::empty());
    assert(parse_spec(buf, mode).1 =~= Seq::<FindingView>::empty());
}

/// A collect over a concatenation collects each part in turn.
proof fn lemma_collect_concat(a: Seq<HeaderView>, b: Seq<HeaderView>, name: Seq<char>)
    ensures
        collect_spec(a + b, name) == collect_spec(a, name) + collect_spec(b, name),
    decreases b.len(),
{
    if b.len() == 0 {
        assert(a + b =~= a);
        assert(collect_spec(b, name) =~= Seq::<(Seq<char>, Span)>::empty());
        assert(collect_spec(a, name) + collect_spec(b, name) =~= collect_spec(a, name));
    } else {
        lemma_collect_concat(a, b.drop_last(), name);
        assert((a + b).drop_last() =~= a + b.drop_last());
        assert((a + b).last() == b.last());
        let pa = collect_spec(a, name);
        let pb = collect_spec(b.drop_last(), name);
        if ascii_ieq(b.last().name, name) {
            assert((pa + pb).push((b.last().value, b.last().line_span)) =~= pa + pb.push(
                (b.last().value, b.last().line_span),
            ));
        }
    }
}

/// Fields none of which is named `name` collect nothing.
proof fn lemma_collect_none(a: Seq<HeaderView>, name: Seq<char>)
    requires
        forall|i: int| 0 <= i < a.len() ==> !ascii_ieq(#[trigger] a[i].name, name),
    ensures
        collect_spec(a, name) == Seq::<(Seq<char>, Span)>::empty(),
    decreases a.len(),
{
    if a.len() > 0 {
        assert(!ascii_ieq(a[a.len() - 1].name, name));
        lemma_collect_none(a.drop_last(), name);
    }
}

/// The names `Host` and `Content-Length`, against the three framing names.
proof fn lemma_framing_names()
    ensures
        ascii_ieq("Host"@, host_name()),
        !ascii_ieq("Host"@, content_length_name()),
        !ascii_ieq("Host"@, transfer_encoding_name()),
        ascii_ieq("Content-Length"@, content_length_name()),
        !ascii_ieq("Content-Length"@, host_name()),
        !ascii_ieq("Content-Length"@, transfer_encoding_name()),
{
    reveal_strlit("Host");
    reveal_strlit("host");
    reveal_strlit("Content-Length");
    reveal_strlit("content-length");
    reveal_strlit("transfer-encoding");
    assert(lower_all("Host"@) =~= lower_all(host_name()));
    assert(lower_all("Content-Length"@) =~= lower_all(content_length_name()));
    assert(lower_all("Host"@).len() == 4);
    assert(lower_all("Content-Length"@).len() == 14);
    assert(lower_all(transfer_encoding_name()).len() == 17);
}

/// One Content-Length field whose value is a length in decimal resolves to
/// that length, silently.
proof fn lemma_single_cl(n: u64, sp: Span)
    ensures
        cl_spec(seq![(dec(n as nat), sp)]).0 == (ClResolution {
            value: Some(n),
            present: true,
            invalid: false,
        }),
        cl_spec(seq![(dec(n as nat), sp)]).1.len() == 0,
{
    lemma_cl_value_of_dec(n);
    let cls = seq![(dec(n as nat), sp)];
    let acc0 = ClAcc { values: Seq::empty(), invalid: false, findings: Seq::empty() };
    assert(cls.drop_last() =~= Seq::<(Seq<char>, Span)>::empty());
    assert(cl_fields(cls.drop_last()) == acc0);
    let pieces = split_on(dec(n as nat), ',');
    assert(pieces.drop_last() =~= Seq::<Seq<char>>::empty());
    assert(cl_pieces(acc0, pieces.drop_last(), sp) == acc0);
    assert(cl_fields(cls).values =~= seq![n]);
    assert(cl_fields(cls).findings =~= Seq::<FindingView>::empty());
    assert(cl_spec(cls).1 =~= Seq::<FindingView>::empty());
}

/// Fields before index `np` name no framing header, and exactly one of them,
/// at `hp`, is named Host: they collect one Host value and no Content-Length
/// or Transfer-Encoding value.
proof fn lemma_collect_head_fields(hs: Seq<HeaderView>, hp: int, np: int)
    requires
        0 <= hp < np <= hs.len(),
        ascii_ieq(hs[hp].name, host_name()),
        !ascii_ieq(hs[hp].name, content_length_name()),
        !ascii_ieq(hs[hp].name, transfer_encoding_name()),
        forall|i: int|
            0 <= i < np && i != hp ==> !ascii_ieq(#[trigger] hs[i].name, host_name())
                && !ascii_ieq(hs[i].name, content_length_name()) && !ascii_ieq(
                hs[i].name,
                transfer_encoding_name(),
            ),
    ensures
        collect_spec(hs.take(np), host_name()).len() == 1,
        collect_spec(hs.take(np), content_length_name()) == Seq::<(Seq<char>, Span)>::empty(),
        collect_spec(hs.take(np), transfer_encoding_name()) == Seq::<(Seq<char>, Span)>::empty(),
{
    let a = hs.take(hp);
    let h = seq![hs[hp]];
    let b = hs.subrange(hp + 1, np);
    assert(hs.take(np) =~= a + h + b);
    assert forall|i: int| 0 <= i < a.len() implies !ascii_ieq(#[trigger] a[i].name, host_name())
        && !ascii_ieq(a[i].name, content_length_name()) && !ascii_ieq(
        a[i].name,
        transfer_encoding_name(),
    ) by {
        assert(a[i] == hs[i]);
    }
    assert forall|i: int| 0 <= i < b.len() implies !ascii_ieq(#[trigger] b[i].name, host_name())
        && !ascii_ieq(b[i].name, content_length_name()) && !ascii_ieq(
        b[i].name,
        transfer_encoding_name(),
    ) by {
        assert(b[i] == hs[hp + 1 + i]);
    }
    lemma_collect_none(a, host_name());
    lemma_collect_none(a, content_length_name());
    lemma_collect_none(a, transfer_encoding_name());
    lemma_collect_none(b, host_name());
    lemma_collect_none(b, content_length_name());
    lemma_collect_none(b, transfer_encoding_name());
    lemma_collect_concat(a + h, b, host_name());
    lemma_collect_concat(a, h, host_name());
    lemma_collect_concat(a + h, b, content_length_name());
    lemma_collect_concat(a, h, content_length_name());
    lemma_collect_concat(a + h, b, transfer_encoding_name());
    lemma_collect_concat(a, h, transfer_encoding_name());
    assert(h.drop_last() =~= Seq::<HeaderView>::empty());
    assert(h.last() == hs[hp]);
    assert(collect_spec(h.drop_last(), host_name()) =~= Seq::<(Seq<char>, Span)>::empty());
    assert(collect_spec(h.drop_last(), content_length_name()) =~= Seq::<(Seq<char>, Span)>::empty());
    assert(collect_spec(h.drop_last(), transfer_encoding_name()) =~= Seq::<(Seq<char>, Span)>::empty());
    assert(collect_spec(h, host_name()).len() == 1);
    assert(collect_spec(h, content_length_name()) =~= Seq::<(Seq<char>, Span)>::empty());
    assert(collect_spec(h, transfer_encoding_name()) =~= Seq::<(Seq<char>, Span)>::empty());
    assert(collect_spec(a + h + b, content_length_name()) =~= Seq::<(Seq<char>, Span)>::empty());
    assert(collect_spec(a + h + b, transfer_encoding_name()) =~= Seq::<(Seq<char>, Span)>::empty());
}

/// Fields before index `np` of which exactly one, at `hp`, is named Host and
/// none names Content-Length or Transfer-Encoding.
pub open spec fn head_fields(hs: Seq<HeaderView>, hp: int, np: int) -> bool {
    &&& 0 <= hp < np <= hs.len()
    &&& ascii_ieq(hs[hp].name, host_name())
    &&& !ascii_ieq(hs[hp].name, content_length_name())
    &&& !ascii_ieq(hs[hp].name, transfer_encoding_name())
    &&& forall|i: int|
        0 <= i < np && i != hp ==> !ascii_ieq(#[trigger] hs[i].name, host_name())
            && !ascii_ieq(hs[i].name, content_length_name()) && !ascii_ieq(
            hs[i].name,
            transfer_encoding_name(),
        )
}

/// The framing of a request whose first `np` fields hold one Host and no
/// framing header, followed optionally by one Content-Length that matches the
/// body exactly: nothing to report, and the body is the rest of the buffer,
/// framed by Content-Length when there is one and empty when there is none.
pub proof fn lemma_clean_framing(m: MessageView, buf: Seq<u8>, hp: int, np: int, cl: Option<u64>)
    requires
        m.kind == MessageKind::Request,
        m.body_start <= buf.len() <= usize::MAX,
        head_fields(m.headers, hp, np),
        m.headers.len() == np + (if cl is Some { 1int } else { 0int }),
        cl matches Some(n) ==> m.headers[np].name == "Content-Length"@
            && m.headers[np].value == dec(n as nat) && buf.len() - m.body_start == n,
        cl is None ==> buf.len() == m.body_start,
    ensures
        framing_spec(m, buf).1.len() == 0,
        framing_spec(m, buf).0.framing == (if cl is Some {
            Framing::ContentLength
        } else {
            Framing::Empty
        }),
        framing_spec(m, buf).0.decoded_len == buf.len() - m.body_start,
{
    lemma_framing_names();
    let hs = m.headers;
    let a = hs.take(np);
    let c = hs.subrange(np, hs.len() as int);
    assert(hs =~= a + c);
    lemma_collect_head_fields(hs, hp, np);
    lemma_collect_concat(a, c, host_name());
    lemma_collect_concat(a, c, content_length_name());
    lemma_collect_concat(a, c, transfer_encoding_name());
    if let Some(n) = cl {
        assert(c =~= seq![hs[np]]);
        assert(c.drop_last() =~= Seq::<HeaderView>::empty());
        assert(c.last() == hs[np]);
        assert(collect_spec(c.drop_last(), host_name()) =~= Seq::<(Seq<char>, Span)>::empty());
        assert(collect_spec(c.drop_last(), content_length_name()) =~= Seq::<(Seq<char>, Span)>::empty());
        assert(collect_spec(c.drop_last(), transfer_encoding_name()) =~= Seq::<(Seq<char>, Span)>::empty());
        assert(collect_spec(c, host_name()) =~= Seq::<(Seq<char>, Span)>::empty());
        assert(collect_spec(c, transfer_encoding_name()) =~= Seq::<(Seq<char>, Span)>::empty());
        assert(collect_spec(c, content_length_name()) =~= seq![
            (dec(n as nat), hs[np].line_span),
        ]);
        let cls = collect_spec(hs, content_length_name());
        assert(cls =~= seq![(dec(n as nat), hs[np].line_span)]);
        lemma_single_cl(n, hs[np].line_span);
    } else {
        assert(c =~= Seq::<HeaderView>::empty());
        assert(collect_spec(hs, content_length_name()) =~= Seq::<(Seq<char>, Span)>::empty());
    }
    assert(collect_spec(hs, transfer_encoding_name()) =~= Seq::<(Seq<char>, Span)>::empty());
    assert(collect_spec(hs, host_name()).len() == 1);
    assert(host_findings(m) =~= Seq::<FindingView>::empty());
    assert(framing_spec(m, buf).1 =~= Seq::<FindingView>::empty());
}

/// The header text of a concatenation is the texts of its parts.
proof fn lemma_headers_text_concat(a: Seq<(Seq<char>, Seq<char>)>, b: Seq<(Seq<char>, Seq<char>)>)
    ensures
        headers_text(a + b) == headers_text(a) + headers_text(b),
    decreases b.len(),
{
    if b.len() == 0 {
        assert(a + b =~= a);
        assert(headers_text(a) + headers_text(b) =~= headers_text(a));
    } else {
        lemma_headers_text_concat(a, b.drop_last());
        assert((a + b).drop_last() =~= a + b.drop_last());
        assert((a + b).last() == b.last());
        assert(headers_text(a + b) =~= headers_text(a) + headers_text(b));
    }
}

/// An extra header that leaves the framing alone: a token name other than
/// Host, Content-Length and Transfer-Encoding, and a one-line value.
pub open spec fn plain_header(p: (Seq<char>, Seq<char>)) -> bool {
    &&& token_name(p.0)
    &&& line_text(p.1)
    &&& !ascii_ieq(p.0, host_name())
    &&& !ascii_ieq(p.0, content_length_name())
    &&& !ascii_ieq(p.0, transfer_encoding_name())
}

/// An extra header that leaves the body framing alone: a token name other
/// than Content-Length and Transfer-Encoding, and a one-line value.
pub open spec fn framing_free(p: (Seq<char>, Seq<char>)) -> bool {
    &&& token_name(p.0)
    &&& line_text(p.1)
    &&& !ascii_ieq(p.0, content_length_name())
    &&& !ascii_ieq(p.0, transfer_encoding_name())
}

/// Among the extra headers, the one at `j` and no other is named Host.
pub open spec fn host_header_at(hs: Seq<(Seq<char>, Seq<char>)>, j: int) -> bool {
    &&& 0 <= j < hs.len()
    &&& ascii_ieq(hs[j].0, host_name())
    &&& forall|i: int| 0 <= i < hs.len() && i != j ==> !ascii_ieq(#[trigger] hs[i].0, host_name())
}

/// A well-formed request: request-line fields without whitespace or line
/// breaks; extra headers that leave the framing alone; exactly one Host,
/// either among the extra headers or, when none of them is named Host, the
/// one-line non-empty host that craft adds; and, unless the body is chunked,
/// a Content-Length (if any) that matches the body. (A chunked request
/// carries no Content-Length, whatever its Content-Length mode.)
pub open spec fn well_formed(v: CraftView) -> bool {
    &&& plain_field(v.method)
    &&& plain_field(v.target)
    &&& plain_field(v.version)
    &&& forall|i: int| 0 <= i < v.headers.len() ==> framing_free(#[trigger] v.headers[i])
    &&& {
        ||| exists|j: int| host_header_at(v.headers, j)
        ||| {
            &&& forall|i: int|
                0 <= i < v.headers.len() ==> !ascii_ieq(#[trigger] v.headers[i].0, host_name())
            &&& line_text(v.host)
            &&& v.host.len() > 0
        }
    }
    &&& !v.chunked ==> match v.content_length {
        ClMode::Auto => true,
        ClMode::Explicit(n) => n == v.body.len(),
        ClMode::Omit => v.body.len() == 0,
    }
}

/// The Content-Length a request declares, if it declares one.
pub open spec fn declared_len(v: CraftView) -> Option<u64> {
    if v.chunked {
        None
    } else {
        match v.content_length {
            ClMode::Auto => if v.body.len() > 0 {
                Some(v.body.len() as u64)
            } else {
                None
            },
            ClMode::Explicit(n) => Some(n as u64),
            ClMode::Omit => None,
        }
    }
}

/// The field that frames the body: `Transfer-Encoding: chunked`, or the
/// declared Content-Length, or none.
pub open spec fn framing_fields(v: CraftView) -> Seq<(Seq<char>, Seq<char>)> {
    if v.chunked {
        seq![("Transfer-Encoding"@, chunked_word())]
    } else {
        match declared_len(v) {
            Some(n) => seq![("Content-Length"@, dec(n as nat))],
            None => Seq::empty(),
        }
    }
}

/// The fields of a well-formed request, in wire order.
pub open spec fn fields_of(v: CraftView) -> Seq<(Seq<char>, Seq<char>)> {
    host_field(v) + v.headers + framing_fields(v)
}

/// The Host field that craft adds: none when an extra header is named Host.
pub open spec fn host_field(v: CraftView) -> Seq<(Seq<char>, Seq<char>)> {
    if has_host(v.headers) {
        Seq::empty()
    } else {
        seq![("Host"@, v.host)]
    }
}

/// The size line of a chunked request's one chunk, which ends its head text.
pub open spec fn size_line(v: CraftView) -> Seq<char> {
    if v.chunked && v.body.len() > 0 {
        hex(v.body.len()) + crlf()
    } else {
        Seq::empty()
    }
}

/// The head text of a well-formed request: its request line, its fields, the
/// blank line, and for a chunked body the size line of its chunk.
proof fn lemma_well_formed_head(v: CraftView)
    requires
        well_formed(v),
        v.body.len() <= u64::MAX,
    ensures
        head_text(v) == request_line_chars(v.method, v.target, v.version) + crlf()
            + headers_text(fields_of(v)) + crlf() + size_line(v),
        clean_fields(fields_of(v)),
{
    reveal_strlit("Host: ");
    reveal_strlit("Host");
    reveal_strlit("Content-Length: ");
    reveal_strlit("Content-Length");
    reveal_strlit("Transfer-Encoding: chunked");
    reveal_strlit("Transfer-Encoding");
    let hostf = host_field(v);
    let clf = framing_fields(v);
    lemma_headers_text_concat(hostf + v.headers, clf);
    lemma_headers_text_concat(hostf, v.headers);
    if has_host(v.headers) {
        assert(headers_text(hostf) =~= Seq::<char>::empty());
        assert(headers_text(hostf) =~= host_text(v));
    } else {
        assert(v.host.len() > 0) by {
            if exists|j: int| host_header_at(v.headers, j) {
                let j = choose|j: int| host_header_at(v.headers, j);
                assert(ascii_ieq(v.headers[j].0, "host"@));
            }
        }
        assert(hostf.drop_last() =~= Seq::<(Seq<char>, Seq<char>)>::empty());
        assert(headers_text(hostf.drop_last()) =~= Seq::<char>::empty());
        assert(hostf.last() == ("Host"@, v.host));
        assert("Host: "@ =~= "Host"@ + seq![':', ' ']);
        assert(headers_text(hostf) =~= host_text(v));
    }
    if v.chunked {
        assert(clf.drop_last() =~= Seq::<(Seq<char>, Seq<char>)>::empty());
        assert(headers_text(clf.drop_last()) =~= Seq::<char>::empty());
        assert("Transfer-Encoding: chunked"@ =~= "Transfer-Encoding"@ + seq![':', ' ']
            + chunked_word());
        assert(headers_text(clf) + crlf() + size_line(v) =~= framing_text(v));
    } else {
        match declared_len(v) {
            Some(n) => {
                assert(clf.drop_last() =~= Seq::<(Seq<char>, Seq<char>)>::empty());
                assert(headers_text(clf.drop_last()) =~= Seq::<char>::empty());
                assert("Content-Length: "@ =~= "Content-Length"@ + seq![':', ' ']);
                assert(dec(n as nat) == dec(v.body.len()) || v.content_length != ClMode::Auto);
                assert(headers_text(clf) + crlf() + size_line(v) =~= framing_text(v));
            },
            None => {
                assert(headers_text(clf) =~= Seq::<char>::empty());
                assert(headers_text(clf) + crlf() + size_line(v) =~= framing_text(v));
            },
        }
    }
    assert(head_text(v) =~= request_line_chars(v.method, v.target, v.version) + crlf()
        + headers_text(fields_of(v)) + crlf() + size_line(v));
    let fs = fields_of(v);
    assert(token_name("Host"@));
    assert(token_name("Content-Length"@));
    assert(token_name("Transfer-Encoding"@));
    assert forall|i: int| 0 <= i < fs.len() implies token_name(#[trigger] fs[i].0) && line_text(
        fs[i].1,
    ) by {
        let hl = hostf.len() as int;
        if i < hl {
            assert(fs[i] == ("Host"@, v.host));
            assert(v.host.len() > 0) by {
                if exists|j: int| host_header_at(v.headers, j) {
                    let j = choose|j: int| host_header_at(v.headers, j);
                    assert(ascii_ieq(v.headers[j].0, "host"@));
                }
            }
        } else if i < hl + v.headers.len() {
            assert(fs[i] == v.headers[i - hl]);
            assert(framing_free(v.headers[i - hl]));
        } else if v.chunked {
            assert(fs[i] == ("Transfer-Encoding"@, chunked_word()));
        } else {
            let n = declared_len(v)->0;
            lemma_dec_reads_back(n as nat);
            let d = dec(n as nat);
            assert forall|j: int| 0 <= j < d.len() implies d[j] != '\r' && d[j] != '\n' by {
                assert(is_digit(d[j]));
            }
        }
    }
}

/// The value ` <digits>` of a Content-Length line reads as the digits.
proof fn lemma_dec_value(n: u64)
    ensures
        text_of(trim_ows(encode_utf8(seq![' '] + dec(n as nat)))) == dec(n as nat),
{
    let d = dec(n as nat);
    lemma_dec_reads_back(n as nat);
    lemma_encode_utf8_concat(seq![' '], d);
    assert(encode_utf8(seq![' ']) =~= seq![32u8]) by {
        vstd::utf8::is_ascii_chars_encode_utf8(seq![' ']);
    }
    assert(vstd::utf8::is_ascii_chars(d)) by {
        assert forall|i: int| 0 <= i < d.len() implies '\0' <= #[trigger] d[i] <= '\u{7f}' by {
            assert(is_digit(d[i]));
        }
    }
    vstd::utf8::is_ascii_chars_encode_utf8(d);
    let db = encode_utf8(d);
    let x = seq![32u8] + db;
    assert(x.drop_first() =~= db);
    assert(is_digit(d[0]));
    assert(is_digit(d[d.len() - 1]));
    assert(db[0] == d[0] as u8);
    assert(db[db.len() - 1] == d[d.len() - 1] as u8);
    assert(ows_front(x) == ows_front(db));
    assert(ows_front(db) == db);
    assert(ows_back(db) == db);
    lemma_text_of_encoded(d);
}

/// The value ` chunked` of a Transfer-Encoding line reads as `chunked`.
proof fn lemma_chunked_value()
    ensures
        text_of(trim_ows(encode_utf8(seq![' '] + chunked_word()))) == chunked_word(),
{
    let t = seq![' '] + chunked_word();
    assert(vstd::utf8::is_ascii_chars(t));
    vstd::utf8::is_ascii_chars_encode_utf8(t);
    assert(encode_utf8(t) =~= seq![32u8, 99u8, 104u8, 117u8, 110u8, 107u8, 101u8, 100u8]);
    crate::agreement::lemma_value_chunked();
}

/// What follows the head of a well-formed request: its chunked body, or its
/// body as it is.
pub open spec fn body_bytes(v: CraftView) -> Seq<u8> {
    if v.chunked {
        chunk_bytes(v.body)
    } else {
        v.body
    }
}

/// The bytes of a well-formed request: request line, fields, blank line, and
/// its body bytes.
proof fn lemma_well_formed_bytes(v: CraftView)
    requires
        well_formed(v),
        v.body.len() <= u64::MAX,
    ensures
        build_spec(v) == encode_utf8(request_line_chars(v.method, v.target, v.version)) + seq![
            13u8,
            10u8,
        ] + encode_utf8(headers_text(fields_of(v))) + seq![13u8, 10u8] + body_bytes(v),
        clean_fields(fields_of(v)),
{
    let rl = request_line_chars(v.method, v.target, v.version);
    let fs = fields_of(v);
    let a = rl + crlf() + headers_text(fs) + crlf();
    lemma_well_formed_head(v);
    lemma_encode_utf8_concat(a, size_line(v));
    lemma_encode_utf8_concat(rl + crlf() + headers_text(fs), crlf());
    lemma_encode_utf8_concat(rl + crlf(), headers_text(fs));
    lemma_encode_utf8_concat(rl, crlf());
    assert(encode_utf8(crlf()) =~= seq![13u8, 10u8]) by {
        vstd::utf8::is_ascii_chars_encode_utf8(crlf());
    }
    if v.chunked && v.body.len() > 0 {
        let n = v.body.len();
        lemma_hex_bytes(n);
        lemma_encode_utf8_concat(hex(n), crlf());
    } else {
        assert(encode_utf8(size_line(v)) =~= Seq::<u8>::empty()) by {
            vstd::utf8::is_ascii_chars_encode_utf8(size_line(v));
        }
    }
    assert(build_spec(v) =~= encode_utf8(rl) + seq![13u8, 10u8] + encode_utf8(headers_text(fs))
        + seq![13u8, 10u8] + body_bytes(v));
}

/// Where the Host field stands among the fields of a well-formed request, and
/// how many fields come before the framing field.
proof fn lemma_host_position(v: CraftView) -> (r: (int, int))
    requires
        well_formed(v),
    ensures
        r.1 == host_field(v).len() + v.headers.len(),
        0 <= r.0 < r.1,
        ascii_ieq(fields_of(v)[r.0].0, host_name()),
        !ascii_ieq(fields_of(v)[r.0].0, content_length_name()),
        !ascii_ieq(fields_of(v)[r.0].0, transfer_encoding_name()),
        forall|i: int|
            0 <= i < r.1 && i != r.0 ==> !ascii_ieq(#[trigger] fields_of(v)[i].0, host_name())
                && !ascii_ieq(fields_of(v)[i].0, content_length_name()) && !ascii_ieq(
                fields_of(v)[i].0,
                transfer_encoding_name(),
            ),
{
    lemma_framing_names();
    let fs = fields_of(v);
    let hf = host_field(v);
    let np: int = (hf.len() + v.headers.len()) as int;
    if has_host(v.headers) {
        let j = if exists|j: int| host_header_at(v.headers, j) {
            choose|j: int| host_header_at(v.headers, j)
        } else {
            0
        };
        assert(host_header_at(v.headers, j)) by {
            if !(exists|j: int| host_header_at(v.headers, j)) {
                let i = choose|i: int| 0 <= i < v.headers.len() && ascii_ieq(#[trigger] v.headers[i].0, "host"@);
                assert(!ascii_ieq(v.headers[i].0, host_name()));
            }
        }
        assert(hf.len() == 0);
        assert(fs[j] == v.headers[j]);
        assert(framing_free(v.headers[j]));
        assert forall|i: int| 0 <= i < np && i != j implies !ascii_ieq(#[trigger] fs[i].0, host_name())
            && !ascii_ieq(fs[i].0, content_length_name()) && !ascii_ieq(
            fs[i].0,
            transfer_encoding_name(),
        ) by {
            assert(fs[i] == v.headers[i]);
            assert(framing_free(v.headers[i]));
        }
        (j, np)
    } else {
        assert(fs[0] == ("Host"@, v.host));
        assert forall|i: int| 0 <= i < np && i != 0 implies !ascii_ieq(#[trigger] fs[i].0, host_name())
            && !ascii_ieq(fs[i].0, content_length_name()) && !ascii_ieq(
            fs[i].0,
            transfer_encoding_name(),
        ) by {
            assert(fs[i] == v.headers[i - 1]);
            assert(framing_free(v.headers[i - 1]));
            if ascii_ieq(v.headers[i - 1].0, host_name()) {
                assert(has_host(v.headers));
            }
        }
        (0, np)
    }
}

/// A well-formed request that [`crate::craft::build`] assembles inspects
/// clean: [`crate::analyze`] reports no finding for it, whether its Host comes
/// from the host setting or from an extra header, and whether its body is
/// framed by Content-Length or chunked (under any parse mode that reads its
/// request line as a request). Its body is chunked, framed by the declared
/// Content-Length, or empty when it declares none, and decodes to exactly the
/// body that was crafted.
#[verifier::spinoff_prover]
#[verifier::rlimit(80)]
pub proof fn law_well_formed_request_inspects_clean(v: CraftView, mode: ParseMode)
    requires
        well_formed(v),
        kind_of(mode, encode_utf8(request_line_chars(v.method, v.target, v.version)))
            == MessageKind::Request,
        build_spec(v).len() <= usize::MAX,
    ensures
        analyze_spec(build_spec(v), mode).1.len() == 0,
        analyze_spec(build_spec(v), mode).0.body.framing == (if v.chunked {
            Framing::Chunked
        } else if declared_len(v) is Some {
            Framing::ContentLength
        } else {
            Framing::Empty
        }),
        analyze_spec(build_spec(v), mode).0.body.decoded_len == v.body.len(),
{
    let buf = build_spec(v);
    let fs = fields_of(v);
    let rest = body_bytes(v);
    lemma_well_formed_bytes(v);
    lemma_clean_head(buf, v.method, v.target, v.version, fs, rest, mode);
    let m = parse_spec(buf, mode).0;
    let (hp, np) = lemma_host_position(v);
    assert(head_fields(m.headers, hp, np)) by {
        assert(m.headers[hp].name == fs[hp].0);
        assert forall|i: int| 0 <= i < np && i != hp implies !ascii_ieq(
            #[trigger] m.headers[i].name,
            host_name(),
        ) && !ascii_ieq(m.headers[i].name, content_length_name()) && !ascii_ieq(
            m.headers[i].name,
            transfer_encoding_name(),
        ) by {
            assert(m.headers[i].name == fs[i].0);
        }
    }
    assert(buf.subrange(m.body_start as int, buf.len() as int) =~= rest);
    if v.chunked {
        lemma_chunked_value();
        assert(fs[np] == ("Transfer-Encoding"@, chunked_word()));
        lemma_clean_chunked_framing(m, buf, hp, np, v.body);
    } else {
        match declared_len(v) {
            Some(n) => {
                lemma_dec_value(n);
                assert(fs[np] == ("Content-Length"@, dec(n as nat)));
            },
            None => {},
        }
        lemma_clean_framing(m, buf, hp, np, declared_len(v));
    }
    assert(analyze_spec(buf, mode).1 =~= Seq::<FindingView>::empty());
}

// ---------------------------------------------------------------------------
// Chunked requests
// ---------------------------------------------------------------------------

/// The bytes of ASCII text, one per character.
pub open spec fn ascii_bytes(s: Seq<char>) -> Seq<u8> {
    Seq::new(s.len(), |i: int| s[i] as u8)
}

/// The lowercase hex text of `n` is ASCII, and its bytes are hex digits that
/// read back as `n`.
pub proof fn lemma_hex_reads_back(n: nat)
    ensures
        hex(n).len() > 0,
        vstd::utf8::is_ascii_chars(hex(n)),
        forall|i: int| 0 <= i < hex(n).len() ==> is_hex(#[trigger] ascii_bytes(hex(n))[i]),
        hex_number(ascii_bytes(hex(n))) == n,
    decreases n,
{
    if n < 16 {
        assert(hex(n) == seq![digit_char(n)]);
        let b = ascii_bytes(hex(n));
        assert(b.drop_last() =~= Seq::<u8>::empty());
        assert(hex_number(Seq::<u8>::empty()) == 0);
        if n < 10 {
            assert(digit_char(n) as nat == n + 48);
        } else {
            assert(digit_char(n) as nat == n + 87);
        }
        assert(b[0] == digit_char(n) as u8);
    } else {
        assert(n / 16 < n);
        lemma_hex_reads_back(n / 16);
        let r = radix(n / 16, 16);
        let d = n % 16;
        assert(n % 16 < 16) by (nonlinear_arith);
        assert((n / 16) * 16 + n % 16 == n) by (nonlinear_arith);
        assert(hex(n) == r.push(digit_char(d)));
        let b = ascii_bytes(hex(n));
        assert(b.drop_last() =~= ascii_bytes(r));
        if d < 10 {
            assert(digit_char(d) as nat == d + 48);
        } else {
            assert(digit_char(d) as nat == d + 87);
        }
        assert(b.last() == digit_char(d) as u8);
        assert(hex_number(b) == hex_number(ascii_bytes(r)) * 16 + d);
        assert forall|i: int| 0 <= i < hex(n).len() implies is_hex(#[trigger] b[i]) by {
            if i < r.len() {
                assert(b[i] == ascii_bytes(r)[i]);
            }
        }
        assert forall|i: int| 0 <= i < hex(n).len() implies '\0' <= #[trigger] hex(n)[i]
            <= '\u{7f}' by {
            if i < r.len() {
                assert(hex(n)[i] == r[i]);
            }
        }
    }
}

/// The UTF-8 bytes of the hex text of `n` are its ASCII bytes.
proof fn lemma_hex_bytes(n: nat)
    ensures
        encode_utf8(hex(n)) == ascii_bytes(hex(n)),
{
    lemma_hex_reads_back(n);
    vstd::utf8::is_ascii_chars_encode_utf8(hex(n));
    assert(encode_utf8(hex(n)) =~= ascii_bytes(hex(n)));
}

/// A chunk-size line `hex(n)` CRLF at `st.pos`, then `n` data bytes and CRLF:
/// the scan takes the chunk and goes on after its CRLF, with nothing to report.
proof fn lemma_data_chunk(buf: Seq<u8>, n: nat, st: ScanState)
    requires
        buf.len() <= usize::MAX,
        0 < n,
        !st.stop,
        0 <= st.pos,
        st.pos + hex(n).len() + 2 + n + 2 < buf.len(),
        buf.subrange(st.pos, st.pos + hex(n).len()) == ascii_bytes(hex(n)),
        buf[st.pos + hex(n).len()] == 13u8,
        buf[st.pos + hex(n).len() + 1] == 10u8,
        buf[st.pos + hex(n).len() + 2 + n] == 13u8,
        buf[st.pos + hex(n).len() + 2 + n + 1] == 10u8,
    ensures
        !scan_step(buf, st).stop,
        scan_step(buf, st).pos == st.pos + hex(n).len() + 2 + n + 2,
        scan_step(buf, st).findings == st.findings,
        scan_step(buf, st).decoded == st.decoded + n,
{
    let p = st.pos;
    let k = hex(n).len() as int;
    let hb = ascii_bytes(hex(n));
    lemma_hex_reads_back(n);
    assert forall|i: int| p <= i < p + k implies buf[i] != 10u8 by {
        assert(buf[i] == hb[i - p]);
        assert(is_hex(hb[i - p]));
    }
    lemma_crlf_line(buf, p, k);
    let sl = line_at(buf, p);
    let cb = sl.content.clamped(buf);
    assert(cb =~= hb);
    assert forall|j: int| 0 <= j < k implies cb[j] != 59u8 by {
        assert(is_hex(hb[j]));
    }
    lemma_find_is(cb, 59u8, k);
    assert(is_hex(cb[0]));
    assert(is_hex(cb[k - 1]));
    assert(cb.last() == cb[k - 1]);
    assert(ows_front(cb) == cb);
    assert(ows_back(cb) == cb);
    assert(trim_ows(cb) == cb);
    assert(hex_size(cb) == Some(n as usize));
    let ds = p + k + 2;
    let de = ds + n;
    lemma_crlf_line(buf, de, 0);
    assert(sl.full.end == ds);
    assert(cb.len() == k);
    assert(find(cb, 59u8) == cb.len());
    assert(n <= buf.len() - ds);
    assert((n as usize) as nat == n);
    let after = line_at(buf, de);
    assert(after.content.start == after.content.end);
    assert(after.full.end == de + 2);
    assert(hex_size(trim_ows(cb)) == Some(n as usize));
    assert((n as usize) != 0);
    assert(!((n as usize) > buf.len() as int - ds));
}

/// The last chunk `0` CRLF CRLF, ending the buffer: the scan completes at the
/// end of the buffer, with nothing to report.
proof fn lemma_last_chunk(buf: Seq<u8>, st: ScanState)
    requires
        buf.len() <= usize::MAX,
        st.pos == buf.len() - 5,
        0 <= st.pos,
        buf.subrange(st.pos, buf.len() as int) == seq![48u8, 13u8, 10u8, 13u8, 10u8],
    ensures
        scan_step(buf, st).stop,
        scan_step(buf, st).complete,
        scan_step(buf, st).pos == buf.len(),
        scan_step(buf, st).findings == st.findings,
        scan_step(buf, st).decoded == st.decoded,
{
    let n = buf.len() as int;
    let tail = buf.subrange(st.pos, n);
    assert(buf[n - 5] == tail[0]);
    assert(buf[n - 4] == tail[1]);
    assert(buf[n - 3] == tail[2]);
    assert(buf[n - 2] == tail[3]);
    assert(buf[n - 1] == tail[4]);
    lemma_crlf_line(buf, n - 5, 1);
    lemma_crlf_line(buf, n - 2, 0);
    let sl = line_at(buf, n - 5);
    let cb = sl.content.clamped(buf);
    assert(cb =~= seq![48u8]);
    lemma_find_is(cb, 59u8, 1);
    assert(trim_ows(cb) == cb);
    assert(hex_number(cb) == 0) by {
        assert(cb.drop_last() =~= Seq::<u8>::empty());
        assert(hex_number(cb.drop_last()) == 0);
    }
    assert(hex_size(trim_ows(cb)) == Some(0usize));
    assert(trailers_from(buf, n - 2, st.trailers) == (n, st.trailers));
}

/// The chunked body that craft writes for `body`: one chunk holding it (none
/// when it is empty), then the last chunk.
pub open spec fn chunk_bytes(body: Seq<u8>) -> Seq<u8> {
    (if body.len() > 0 {
        ascii_bytes(hex(body.len())) + seq![13u8, 10u8] + body + seq![13u8, 10u8]
    } else {
        Seq::empty()
    }) + seq![48u8, 13u8, 10u8, 13u8, 10u8]
}

/// The scan reads a crafted chunked body to the end of the buffer, complete,
/// with nothing to report.
pub proof fn lemma_crafted_chunks(buf: Seq<u8>, start: int, body: Seq<u8>)
    requires
        0 <= start <= buf.len() <= usize::MAX,
        buf.subrange(start, buf.len() as int) == chunk_bytes(body),
    ensures
        scan_spec(buf, start).1.len() == 0,
        scan_spec(buf, start).0.end == buf.len(),
        scan_spec(buf, start).0.complete,
        scan_spec(buf, start).0.decoded_len == body.len(),
{
    let len = buf.len() as int;
    let st0 = ScanState {
        chunks: Seq::empty(),
        decoded: 0,
        complete: false,
        trailers: 0,
        findings: Seq::empty(),
        pos: start,
        stop: false,
    };
    let cbs = chunk_bytes(body);
    let last = seq![48u8, 13u8, 10u8, 13u8, 10u8];
    let pre = if body.len() > 0 {
        ascii_bytes(hex(body.len())) + seq![13u8, 10u8] + body + seq![13u8, 10u8]
    } else {
        Seq::<u8>::empty()
    };
    assert(cbs == pre + last);
    assert(cbs.len() == len - start);
    assert(buf.subrange(len - 5, len) =~= last) by {
        assert forall|i: int| 0 <= i < 5 implies buf.subrange(len - 5, len)[i] == last[i] by {
            assert((pre + last)[pre.len() + i] == last[i]);
            assert(buf.subrange(start, len)[len - 5 + i - start] == buf[len - 5 + i]);
        }
    }
    if body.len() > 0 {
        let n = body.len();
        let k = hex(n).len() as int;
        let hb = ascii_bytes(hex(n));
        assert(cbs.len() == k + 2 + n + 2 + 5);
        assert(buf.subrange(start, start + k) =~= hb) by {
            assert forall|i: int| 0 <= i < k implies buf.subrange(start, start + k)[i] == hb[i] by {
                assert(buf[start + i] == cbs[i]);
            }
        }
        assert(buf[start + k] == cbs[k]);
        assert(buf[start + k + 1] == cbs[k + 1]);
        assert(buf[start + k + 2 + n] == cbs[k + 2 + n]);
        assert(buf[start + k + 2 + n + 1] == cbs[k + 2 + n + 1]);
        lemma_data_chunk(buf, n, st0);
        let s1 = scan_step(buf, st0);
        lemma_last_chunk(buf, s1);
        let s2 = scan_step(buf, s1);
        assert(scan_loop(buf, s1) == s2);
        assert(scan_loop(buf, st0) == s2);
    } else {
        assert(cbs =~= last);
        lemma_last_chunk(buf, st0);
        assert(scan_loop(buf, st0) == scan_step(buf, st0));
    }
}

/// One Transfer-Encoding field whose value is `chunked` resolves to a final
/// `chunked`, silently.
proof fn lemma_single_chunked(sp: Span)
    ensures
        te_spec(seq![(chunked_word(), sp)]).0 == (TeResolution {
            present: true,
            final_is_chunked: true,
            span: Some(combine(sp, sp)),
        }),
        te_spec(seq![(chunked_word(), sp)]).1.len() == 0,
{
    let v = chunked_word();
    let tes = seq![(v, sp)];
    lemma_split_plain(v, ',');
    assert(trim_start(v) == v);
    assert(trim_end(v) == v);
    assert(lower_all(v) =~= v);
    assert(!obfuscated(v));
    assert(tes.drop_last() =~= Seq::<(Seq<char>, Span)>::empty());
    let acc0 = te_fields(tes.drop_last());
    assert(split_on(v, ',').drop_last() =~= Seq::<Seq<char>>::empty());
    assert(te_pieces(acc0, split_on(v, ',').drop_last(), sp) == acc0);
    assert(te_fields(tes).codings =~= seq![v]);
    assert(te_fields(tes).findings =~= Seq::<FindingView>::empty());
    assert(te_spec(tes).1 =~= Seq::<FindingView>::empty());
}

/// The name `Transfer-Encoding` against the three framing names.
proof fn lemma_te_name()
    ensures
        ascii_ieq("Transfer-Encoding"@, transfer_encoding_name()),
        !ascii_ieq("Transfer-Encoding"@, host_name()),
        !ascii_ieq("Transfer-Encoding"@, content_length_name()),
{
    reveal_strlit("Transfer-Encoding");
    reveal_strlit("transfer-encoding");
    reveal_strlit("host");
    reveal_strlit("content-length");
    assert(lower_all("Transfer-Encoding"@) =~= lower_all(transfer_encoding_name()));
    assert(lower_all("Transfer-Encoding"@).len() == 17);
    assert(lower_all(host_name()).len() == 4);
    assert(lower_all(content_length_name()).len() == 14);
}

/// The framing of a request whose first `np` fields hold one Host and no
/// framing header, then `Transfer-Encoding: chunked`, followed by a crafted
/// chunked body: nothing to report, and the body is chunked and decodes to
/// all of `body`.
pub proof fn lemma_clean_chunked_framing(
    m: MessageView,
    buf: Seq<u8>,
    hp: int,
    np: int,
    body: Seq<u8>,
)
    requires
        m.kind == MessageKind::Request,
        m.body_start <= buf.len() <= usize::MAX,
        head_fields(m.headers, hp, np),
        m.headers.len() == np + 1,
        m.headers[np].name == "Transfer-Encoding"@,
        m.headers[np].value == chunked_word(),
        buf.subrange(m.body_start as int, buf.len() as int) == chunk_bytes(body),
    ensures
        framing_spec(m, buf).1.len() == 0,
        framing_spec(m, buf).0.framing == Framing::Chunked,
        framing_spec(m, buf).0.decoded_len == body.len(),
{
    lemma_framing_names();
    lemma_te_name();
    let hs = m.headers;
    let a = hs.take(np);
    let c = hs.subrange(np, hs.len() as int);
    assert(hs =~= a + c);
    lemma_collect_head_fields(hs, hp, np);
    lemma_collect_concat(a, c, host_name());
    lemma_collect_concat(a, c, content_length_name());
    lemma_collect_concat(a, c, transfer_encoding_name());
    assert(c =~= seq![hs[np]]);
    assert(c.drop_last() =~= Seq::<HeaderView>::empty());
    assert(c.last() == hs[np]);
    assert(collect_spec(c.drop_last(), host_name()) =~= Seq::<(Seq<char>, Span)>::empty());
    assert(collect_spec(c.drop_last(), content_length_name()) =~= Seq::<(Seq<char>, Span)>::empty());
    assert(collect_spec(c.drop_last(), transfer_encoding_name()) =~= Seq::<(Seq<char>, Span)>::empty());
    assert(collect_spec(c, host_name()) =~= Seq::<(Seq<char>, Span)>::empty());
    assert(collect_spec(c, content_length_name()) =~= Seq::<(Seq<char>, Span)>::empty());
    let sp = hs[np].line_span;
    assert(collect_spec(c, transfer_encoding_name()) =~= seq![(chunked_word(), sp)]);
    let tes = collect_spec(hs, transfer_encoding_name());
    assert(tes =~= seq![(chunked_word(), sp)]);
    lemma_single_chunked(sp);
    let cls = collect_spec(hs, content_length_name());
    assert(cls =~= Seq::<(Seq<char>, Span)>::empty());
    assert(cl_spec(cls).1 =~= Seq::<FindingView>::empty());
    assert(!cl_spec(cls).0.present);
    assert(collect_spec(hs, host_name()).len() == 1);
    assert(host_findings(m) =~= Seq::<FindingView>::empty());
    lemma_crafted_chunks(buf, m.body_start as int, body);
    let (cl, fcl) = cl_spec(cls);
    let (te, fte) = te_spec(tes);
    assert(body_spec(m.kind, m.body_start, buf, cl, te).1 =~= Seq::<FindingView>::empty());
    assert(framing_spec(m, buf).1 =~= Seq::<FindingView>::empty());
}

} // verus!
