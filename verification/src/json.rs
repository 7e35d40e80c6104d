//! JSON output for `plainwire inspect --json` and `plainwire lint --json`.
//!
//! A small pretty-printer over a tagged value tree, with a fixed field order
//! for stable, diff-friendly output. [`JV`] is the tree's model; the printer's
//! contract is the spec function [`json_text`].
use vstd::prelude::*;
use crate::findings::{severity_label, Finding};
use crate::message::{
    chunk_views, framing_label, header_views, kind_label, opt_view, Analysis, Body, BodyView,
    Chunk, ChunkView, Header, HeaderView, Message, MessageView, StartLine, StartLineView,
};
use crate::span::Span;
use crate::text::{
    chars_of, dec, digit_char, hex, radix, join, lemma_join_step, push_char, push_dec, push_str,
    push_zero_padded, radix_chars, zero_pad,
};

verus! {

/// A minimal JSON value tree.
pub enum J {
    Null,
    Bool(bool),
    Num(u64),
    Str(String),
    Arr(Vec<J>),
    Obj(Vec<(&'static str, J)>),
}

/// The model of a JSON value: strings as characters, sequences as `Seq`.
pub enum JV {
    Null,
    Bool(bool),
    Num(u64),
    Str(Seq<char>),
    Arr(Seq<JV>),
    Obj(Seq<(Seq<char>, JV)>),
}

/// The model of a value.
pub open spec fn jv(j: J) -> JV
    decreases j, 0int,
{
    match j {
        J::Null => JV::Null,
        J::Bool(b) => JV::Bool(b),
        J::Num(n) => JV::Num(n),
        J::Str(s) => JV::Str(s@),
        J::Arr(items) => JV::Arr(jvs(items@, 0)),
        J::Obj(fields) => JV::Obj(fvs(fields@, 0)),
    }
}

/// The models of `items[k..]`.
pub open spec fn jvs(items: Seq<J>, k: int) -> Seq<JV>
    decreases items, items.len() - k,
{
    if k < 0 || k >= items.len() {
        Seq::empty()
    } else {
        seq![jv(items[k])] + jvs(items, k + 1)
    }
}

/// The models of `fields[k..]`.
pub open spec fn fvs(fields: Seq<(&'static str, J)>, k: int) -> Seq<(Seq<char>, JV)>
    decreases fields, fields.len() - k,
{
    if k < 0 || k >= fields.len() {
        Seq::empty()
    } else {
        seq![(fields[k].0@, jv(fields[k].1))] + fvs(fields, k + 1)
    }
}

// ---------------------------------------------------------------------------
// Printing
// ---------------------------------------------------------------------------

/// How one character appears inside a JSON string.
pub open spec fn escape_char(c: char) -> Seq<char> {
    if c == '"' {
        seq!['\\', '"']
    } else if c == '\\' {
        seq!['\\', '\\']
    } else if c == '\n' {
        seq!['\\', 'n']
    } else if c == '\r' {
        seq!['\\', 'r']
    } else if c == '\t' {
        seq!['\\', 't']
    } else if c == '\u{08}' {
        seq!['\\', 'b']
    } else if c == '\u{0c}' {
        seq!['\\', 'f']
    } else if (c as u32) < 0x20 {
        seq!['\\', 'u'] + zero_pad(hex(c as u32 as nat), 4)
    } else {
        seq![c]
    }
}

/// The characters of `s`, escaped.
pub open spec fn escape_chars(s: Seq<char>) -> Seq<char>
    decreases s.len(),
{
    if s.len() == 0 {
        Seq::empty()
    } else {
        escape_chars(s.drop_last()) + escape_char(s.last())
    }
}

/// No character of `s` is a control character (below U+0020), which JSON
/// forbids inside strings.
pub open spec fn no_control(s: Seq<char>) -> bool {
    forall|i: int| 0 <= i < s.len() ==> (#[trigger] s[i] as u32) >= 0x20
}

pub(crate) proof fn lemma_radix_no_control(n: nat, b: nat)
    requires
        2 <= b <= 16,
    ensures
        no_control(radix(n, b)),
    decreases n,
{
    if n < b {
        assert(radix(n, b) == seq![digit_char(n)]);
    } else {
        assert(n / b < n) by (nonlinear_arith)
            requires
                n >= b,
                b >= 2,
        ;
        lemma_radix_no_control(n / b, b);
        assert(n % b < b) by (nonlinear_arith)
            requires
                b >= 2,
        ;
        let r = radix(n, b);
        assert forall|i: int| 0 <= i < r.len() implies (#[trigger] r[i] as u32) >= 0x20 by {
            if i < r.len() - 1 {
                assert(r[i] == radix(n / b, b)[i]);
            }
        }
    }
}

proof fn lemma_escape_char_no_control(c: char)
    ensures
        no_control(escape_char(c)),
{
    if !(c == '"' || c == '\\' || c == '\n' || c == '\r' || c == '\t' || c == '\u{08}' || c
        == '\u{0c}') && (c as u32) < 0x20 {
        let h = hex(c as u32 as nat);
        lemma_radix_no_control(c as u32 as nat, 16);
        let z = zero_pad(h, 4);
        assert(no_control(z)) by {
            if h.len() < 4 {
                let p = Seq::new((4 - h.len()) as nat, |i: int| '0');
                assert forall|i: int| 0 <= i < z.len() implies (#[trigger] z[i] as u32) >= 0x20 by {
                    if i < p.len() {
                        assert(z[i] == p[i]);
                    } else {
                        assert(z[i] == h[i - p.len()]);
                    }
                }
            }
        }
        let e = escape_char(c);
        assert forall|i: int| 0 <= i < e.len() implies (#[trigger] e[i] as u32) >= 0x20 by {
            if i >= 2 {
                assert(e[i] == z[i - 2]);
            }
        }
    }
}

/// The value of an ASCII hex digit character (`0`-`9`, `a`-`f`, `A`-`F`).
pub open spec fn hex_char_val(c: char) -> nat {
    if '0' <= c <= '9' {
        (c as nat - 48) as nat
    } else if 'a' <= c <= 'f' {
        (c as nat - 87) as nat
    } else {
        (c as nat - 55) as nat
    }
}

/// The character a two-character escape `\c` stands for.
pub open spec fn unescape_one(c: char) -> char {
    if c == 'n' {
        '\n'
    } else if c == 'r' {
        '\r'
    } else if c == 't' {
        '\t'
    } else if c == 'b' {
        '\u{08}'
    } else if c == 'f' {
        '\u{0c}'
    } else {
        c
    }
}

/// How a JSON reader decodes the inside of a string literal: `\uXXXX`
/// escapes, two-character escapes, and every other character as itself.
pub open spec fn unescape(t: Seq<char>) -> Seq<char>
    decreases t.len(),
{
    if t.len() == 0 {
        Seq::empty()
    } else if t[0] == '\\' && t.len() >= 2 {
        if t[1] == 'u' && t.len() >= 6 {
            let v = ((hex_char_val(t[2]) * 16 + hex_char_val(t[3])) * 16 + hex_char_val(t[4])) * 16
                + hex_char_val(t[5]);
            seq![v as char] + unescape(t.subrange(6, t.len() as int))
        } else {
            seq![unescape_one(t[1])] + unescape(t.subrange(2, t.len() as int))
        }
    } else {
        seq![t[0]] + unescape(t.drop_first())
    }
}

proof fn lemma_escape_chars_front(c: char, s: Seq<char>)
    ensures
        escape_chars(seq![c] + s) == escape_char(c) + escape_chars(s),
    decreases s.len(),
{
    if s.len() == 0 {
        assert(seq![c] + s =~= seq![c]);
        let one = seq![c];
        assert(one.drop_last() =~= Seq::<char>::empty());
        assert(escape_chars(one.drop_last()) =~= Seq::<char>::empty());
        assert(one.last() == c);
        assert(escape_chars(one) =~= escape_char(c));
        assert(escape_char(c) + escape_chars(s) =~= escape_char(c));
    } else {
        lemma_escape_chars_front(c, s.drop_last());
        assert((seq![c] + s).drop_last() =~= seq![c] + s.drop_last());
        assert((seq![c] + s).last() == s.last());
        assert(escape_chars(seq![c] + s) =~= escape_char(c) + escape_chars(s));
    }
}

proof fn lemma_unescape_char(c: char, r: Seq<char>)
    ensures
        unescape(escape_char(c) + r) == seq![c] + unescape(r),
{
    let e = escape_char(c);
    let t = e + r;
    if c == '"' || c == '\\' || c == '\n' || c == '\r' || c == '\t' || c == '\u{08}' || c == '\u{0c}' {
        assert(t.subrange(2, t.len() as int) =~= r);
        assert(t[0] == '\\');
        assert(t[1] != 'u');
    } else if (c as u32) < 0x20 {
        let v = c as u32 as nat;
        let h = hex(v);
        if v < 16 {
            assert(h == seq![digit_char(v)]);
        } else {
            assert(v / 16 == 1) by (nonlinear_arith)
                requires
                    16 <= v < 32,
            ;
            assert(v % 16 == v - 16) by (nonlinear_arith)
                requires
                    16 <= v < 32,
            ;
            assert(radix(1, 16) == seq![digit_char(1)]);
            assert(h == seq![digit_char(1)].push(digit_char((v - 16) as nat)));
        }
        let z = zero_pad(h, 4);
        assert(e == seq!['\\', 'u'] + z);
        assert(z.len() == 4);
        assert(t[0] == '\\');
        assert(t[1] == 'u');
        assert(t[2] == z[0] && t[3] == z[1] && t[4] == z[2] && t[5] == z[3]);
        if v < 16 {
            assert(z =~= seq!['0', '0', '0', digit_char(v)]);
        } else {
            assert(z =~= seq!['0', '0', '1', digit_char((v - 16) as nat)]);
        }
        assert(((hex_char_val(t[2]) * 16 + hex_char_val(t[3])) * 16 + hex_char_val(t[4])) * 16
            + hex_char_val(t[5]) == v);
        assert((v as char) == c);
        assert(t.subrange(6, t.len() as int) =~= r);
    } else {
        assert(e == seq![c]);
        assert(t.drop_first() =~= r);
    }
}

/// A string escaped for JSON reads back as itself: decoding the inside of
/// the literal that [`quoted`] writes gives the original text.
pub proof fn law_escaped_string_reads_back(s: Seq<char>)
    ensures
        unescape(escape_chars(s)) == s,
        quoted(s) == seq!['"'] + escape_chars(s) + seq!['"'],
    decreases s.len(),
{
    if s.len() > 0 {
        let rest = s.drop_first();
        assert(seq![s[0]] + rest =~= s);
        lemma_escape_chars_front(s[0], rest);
        law_escaped_string_reads_back(rest);
        lemma_unescape_char(s[0], escape_chars(rest));
    } else {
        assert(escape_chars(s) =~= Seq::<char>::empty());
        assert(unescape(Seq::<char>::empty()) =~= Seq::<char>::empty());
    }
}

/// Escaping never leaves a raw control character in a JSON string.
pub proof fn law_escaped_text_has_no_control_characters(s: Seq<char>)
    ensures
        no_control(escape_chars(s)),
        no_control(quoted(s)),
    decreases s.len(),
{
    if s.len() > 0 {
        law_escaped_text_has_no_control_characters(s.drop_last());
        lemma_escape_char_no_control(s.last());
        let a = escape_chars(s.drop_last());
        let b = escape_char(s.last());
        let e = escape_chars(s);
        assert forall|i: int| 0 <= i < e.len() implies (#[trigger] e[i] as u32) >= 0x20 by {
            if i < a.len() {
                assert(e[i] == a[i]);
            } else {
                assert(e[i] == b[i - a.len()]);
            }
        }
    }
    let e = escape_chars(s);
    let q = quoted(s);
    assert forall|i: int| 0 <= i < q.len() implies (#[trigger] q[i] as u32) >= 0x20 by {
        if 1 <= i < q.len() - 1 {
            assert(q[i] == e[i - 1]);
        }
    }
}

/// `s` as a quoted JSON string.
pub open spec fn quoted(s: Seq<char>) -> Seq<char> {
    seq!['"'] + escape_chars(s) + seq!['"']
}

/// Two spaces per indentation level.
pub open spec fn pad(n: nat) -> Seq<char>
    decreases n,
{
    if n == 0 {
        Seq::empty()
    } else {
        pad((n - 1) as nat) + seq![' ', ' ']
    }
}

/// Whether every item is a number (such arrays print on one line).
pub open spec fn all_nums(items: Seq<JV>) -> bool {
    forall|i: int| 0 <= i < items.len() ==> #[trigger] items[i] is Num
}

/// The numbers of an all-number array, as text.
pub open spec fn num_texts(items: Seq<JV>) -> Seq<Seq<char>> {
    items.map_values(|v: JV| match v {
        JV::Num(n) => dec(n as nat),
        _ => Seq::empty(),
    })
}

/// The printed form of a value at indentation `indent`.
pub open spec fn json_text(v: JV, indent: nat) -> Seq<char>
    decreases v, 0int,
{
    match v {
        JV::Null => seq!['n', 'u', 'l', 'l'],
        JV::Bool(b) => if b {
            seq!['t', 'r', 'u', 'e']
        } else {
            seq!['f', 'a', 'l', 's', 'e']
        },
        JV::Num(n) => dec(n as nat),
        JV::Str(s) => quoted(s),
        JV::Arr(items) => if items.len() == 0 {
            seq!['[', ']']
        } else if all_nums(items) {
            seq!['['] + join(num_texts(items), seq![',', ' ']) + seq![']']
        } else {
            seq!['[', '\n'] + items_text(items, 0, indent) + pad(indent) + seq![']']
        },
        JV::Obj(fields) => if fields.len() == 0 {
            seq!['{', '}']
        } else {
            seq!['{', '\n'] + fields_text(fields, 0, indent) + pad(indent) + seq!['}']
        },
    }
}

/// The lines of `items[k..]` inside an array at indentation `indent`.
pub open spec fn items_text(items: Seq<JV>, k: int, indent: nat) -> Seq<char>
    decreases items, items.len() - k,
{
    if k < 0 || k >= items.len() {
        Seq::empty()
    } else {
        pad(indent + 1) + json_text(items[k], indent + 1) + (if k + 1 < items.len() {
            seq![',']
        } else {
            Seq::empty()
        }) + seq!['\n'] + items_text(items, k + 1, indent)
    }
}

/// The lines of `fields[k..]` inside an object at indentation `indent`.
pub open spec fn fields_text(fields: Seq<(Seq<char>, JV)>, k: int, indent: nat) -> Seq<char>
    decreases fields, fields.len() - k,
{
    if k < 0 || k >= fields.len() {
        Seq::empty()
    } else {
        pad(indent + 1) + quoted(fields[k].0) + seq![':', ' '] + json_text(
            fields[k].1,
            indent + 1,
        ) + (if k + 1 < fields.len() {
            seq![',']
        } else {
            Seq::empty()
        }) + seq!['\n'] + fields_text(fields, k + 1, indent)
    }
}

fn escape_one(c: char, out: &mut String)
    ensures
        final(out)@ == old(out)@ + escape_char(c),
{
    let ghost start = out@;
    if c == '"' {
        push_char(out, '\\');
        push_char(out, '"');
    } else if c == '\\' {
        push_char(out, '\\');
        push_char(out, '\\');
    } else if c == '\n' {
        push_char(out, '\\');
        push_char(out, 'n');
    } else if c == '\r' {
        push_char(out, '\\');
        push_char(out, 'r');
    } else if c == '\t' {
        push_char(out, '\\');
        push_char(out, 't');
    } else if c == '\u{08}' {
        push_char(out, '\\');
        push_char(out, 'b');
    } else if c == '\u{0c}' {
        push_char(out, '\\');
        push_char(out, 'f');
    } else if (c as u32) < 0x20 {
        push_char(out, '\\');
        push_char(out, 'u');
        let h = radix_chars(c as u32 as u64, 16);
        push_zero_padded(out, h.as_slice(), 4);
    } else {
        push_char(out, c);
    }
    assert(out@ =~= start + escape_char(c));
}

/// Append `s` as a quoted, escaped JSON string.
pub fn escape(s: &str, out: &mut String)
    ensures
        final(out)@ == old(out)@ + quoted(s@),
{
    let ghost start = out@;
    push_char(out, '"');
    let cs = chars_of(s);
    let mut i: usize = 0;
    while i < cs.len()
        invariant
            i <= cs@.len(),
            out@ == start + seq!['"'] + escape_chars(cs@.take(i as int)),
        decreases cs@.len() - i,
    {
        escape_one(cs[i], out);
        assert(cs@.take(i + 1).drop_last() =~= cs@.take(i as int));
        i += 1;
    }
    assert(cs@.take(cs@.len() as int) =~= cs@);
    push_char(out, '"');
    assert(out@ =~= start + quoted(s@));
}

/// The nesting depth of a value.
pub open spec fn depth(v: JV) -> nat
    decreases v, 0int,
{
    match v {
        JV::Arr(items) => 1 + items_depth(items, 0),
        JV::Obj(fields) => 1 + fields_depth(fields, 0),
        _ => 0,
    }
}

pub open spec fn items_depth(items: Seq<JV>, k: int) -> nat
    decreases items, items.len() - k,
{
    if k < 0 || k >= items.len() {
        0
    } else {
        let a = depth(items[k]);
        let b = items_depth(items, k + 1);
        if a > b {
            a
        } else {
            b
        }
    }
}

pub open spec fn fields_depth(fields: Seq<(Seq<char>, JV)>, k: int) -> nat
    decreases fields, fields.len() - k,
{
    if k < 0 || k >= fields.len() {
        0
    } else {
        let a = depth(fields[k].1);
        let b = fields_depth(fields, k + 1);
        if a > b {
            a
        } else {
            b
        }
    }
}

proof fn lemma_jvs_index(items: Seq<J>, k: int, i: int)
    requires
        0 <= k <= i < items.len(),
    ensures
        jvs(items, k).len() == items.len() - k,
        jvs(items, k)[i - k] == jv(items[i]),
    decreases i - k,
{
    lemma_jvs_len(items, k);
    if k < i {
        lemma_jvs_index(items, k + 1, i);
    }
}

proof fn lemma_jvs_len(items: Seq<J>, k: int)
    requires
        0 <= k <= items.len(),
    ensures
        jvs(items, k).len() == items.len() - k,
    decreases items.len() - k,
{
    if k < items.len() {
        lemma_jvs_len(items, k + 1);
    }
}

proof fn lemma_fvs_index(fields: Seq<(&'static str, J)>, k: int, i: int)
    requires
        0 <= k <= i < fields.len(),
    ensures
        fvs(fields, k).len() == fields.len() - k,
        fvs(fields, k)[i - k] == (fields[i].0@, jv(fields[i].1)),
    decreases i - k,
{
    lemma_fvs_len(fields, k);
    if k < i {
        lemma_fvs_index(fields, k + 1, i);
    }
}

proof fn lemma_fvs_len(fields: Seq<(&'static str, J)>, k: int)
    requires
        0 <= k <= fields.len(),
    ensures
        fvs(fields, k).len() == fields.len() - k,
    decreases fields.len() - k,
{
    if k < fields.len() {
        lemma_fvs_len(fields, k + 1);
    }
}

proof fn lemma_items_depth(items: Seq<JV>, k: int, i: int)
    requires
        0 <= k <= i < items.len(),
    ensures
        depth(items[i]) <= items_depth(items, k),
    decreases i - k,
{
    if k < i {
        lemma_items_depth(items, k + 1, i);
    }
}

proof fn lemma_fields_depth(fields: Seq<(Seq<char>, JV)>, k: int, i: int)
    requires
        0 <= k <= i < fields.len(),
    ensures
        depth(fields[i].1) <= fields_depth(fields, k),
    decreases i - k,
{
    if k < i {
        lemma_fields_depth(fields, k + 1, i);
    }
}

proof fn lemma_items_depth_bound(items: Seq<JV>, k: int, b: nat)
    requires
        0 <= k,
        forall|i: int| k <= i < items.len() ==> depth(#[trigger] items[i]) <= b,
    ensures
        items_depth(items, k) <= b,
    decreases items.len() - k,
{
    if k < items.len() {
        lemma_items_depth_bound(items, k + 1, b);
    }
}

proof fn lemma_fields_depth_bound(fields: Seq<(Seq<char>, JV)>, k: int, b: nat)
    requires
        0 <= k,
        forall|i: int| k <= i < fields.len() ==> depth(#[trigger] fields[i].1) <= b,
    ensures
        fields_depth(fields, k) <= b,
    decreases fields.len() - k,
{
    if k < fields.len() {
        lemma_fields_depth_bound(fields, k + 1, b);
    }
}

/// The lines of `items[..i]` (each followed by a comma, since more follow).
pub open spec fn items_prefix(items: Seq<JV>, i: int, indent: nat) -> Seq<char>
    decreases i,
{
    if i <= 0 {
        Seq::empty()
    } else {
        items_prefix(items, i - 1, indent) + pad(indent + 1) + json_text(items[i - 1], indent + 1)
            + (if i < items.len() {
            seq![',']
        } else {
            Seq::empty()
        }) + seq!['\n']
    }
}

/// The lines of `fields[..i]`.
pub open spec fn fields_prefix(fields: Seq<(Seq<char>, JV)>, i: int, indent: nat) -> Seq<char>
    decreases i,
{
    if i <= 0 {
        Seq::empty()
    } else {
        fields_prefix(fields, i - 1, indent) + pad(indent + 1) + quoted(fields[i - 1].0) + seq![
            ':',
            ' ',
        ] + json_text(fields[i - 1].1, indent + 1) + (if i < fields.len() {
            seq![',']
        } else {
            Seq::empty()
        }) + seq!['\n']
    }
}

proof fn lemma_items_prefix(items: Seq<JV>, i: int, indent: nat)
    requires
        0 <= i <= items.len(),
    ensures
        items_text(items, 0, indent) == items_prefix(items, i, indent) + items_text(
            items,
            i,
            indent,
        ),
    decreases i,
{
    if i > 0 {
        lemma_items_prefix(items, i - 1, indent);
    }
}

proof fn lemma_fields_prefix(fields: Seq<(Seq<char>, JV)>, i: int, indent: nat)
    requires
        0 <= i <= fields.len(),
    ensures
        fields_text(fields, 0, indent) == fields_prefix(fields, i, indent) + fields_text(
            fields,
            i,
            indent,
        ),
    decreases i,
{
    if i > 0 {
        lemma_fields_prefix(fields, i - 1, indent);
    }
}

fn push_pad(out: &mut String, n: usize)
    ensures
        final(out)@ == old(out)@ + pad(n as nat),
{
    let ghost start = out@;
    let mut k: usize = 0;
    while k < n
        invariant
            k <= n,
            out@ == start + pad(k as nat),
        decreases n - k,
    {
        push_char(out, ' ');
        push_char(out, ' ');
        k += 1;
        assert(out@ =~= start + pad(k as nat));
    }
}

fn is_num(j: &J) -> (r: bool)
    ensures
        r == (jv(*j) is Num),
{
    match j {
        J::Num(_) => true,
        _ => false,
    }
}

/// Append the printed form of `value` at indentation `indent`.
#[verifier::rlimit(60)]
fn write(value: &J, indent: usize, out: &mut String)
    requires
        indent + depth(jv(*value)) <= usize::MAX,
    ensures
        final(out)@ == old(out)@ + json_text(jv(*value), indent as nat),
    decreases depth(jv(*value)),
{
    let ghost start = out@;
    match value {
        J::Null => {
            push_str(out, "null");
            proof {
                reveal_strlit("null");
            }
            assert(out@ =~= start + json_text(jv(*value), indent as nat));
        },
        J::Bool(b) => {
            if *b {
                push_str(out, "true");
                proof {
                    reveal_strlit("true");
                }
            } else {
                push_str(out, "false");
                proof {
                    reveal_strlit("false");
                }
            }
            assert(out@ =~= start + json_text(jv(*value), indent as nat));
        },
        J::Num(n) => {
            push_dec(out, *n);
        },
        J::Str(s) => {
            escape(s.as_str(), out);
        },
        J::Arr(items) => {
            let ghost iv = jvs(items@, 0);
            proof {
                lemma_jvs_len(items@, 0);
            }
            if items.len() == 0 {
                push_char(out, '[');
                push_char(out, ']');
                assert(out@ =~= start + json_text(jv(*value), indent as nat));
                return;
            }
            let mut all = true;
            let mut k: usize = 0;
            while k < items.len()
                invariant
                    k <= items@.len(),
                    iv == jvs(items@, 0),
                    iv.len() == items@.len(),
                    all == (forall|i: int| 0 <= i < k ==> #[trigger] iv[i] is Num),
                decreases items@.len() - k,
            {
                proof {
                    lemma_jvs_index(items@, 0, k as int);
                }
                if !is_num(&items[k]) {
                    all = false;
                }
                k += 1;
            }
            if all {
                push_char(out, '[');
                let ghost nt = num_texts(iv);
                let ghost s0 = out@;
                let mut k: usize = 0;
                while k < items.len()
                    invariant
                        k <= items@.len(),
                        iv == jvs(items@, 0),
                        iv.len() == items@.len(),
                        all_nums(iv),
                        nt == num_texts(iv),
                        out@ == s0 + join(nt.take(k as int), seq![',', ' ']),
                    decreases items@.len() - k,
                {
                    proof {
                        lemma_jvs_index(items@, 0, k as int);
                    }
                    if k > 0 {
                        proof {
                            lemma_join_step(nt, k as int, seq![',', ' ']);
                        }
                        push_char(out, ',');
                        push_char(out, ' ');
                    } else {
                        assert(nt.take(1) =~= seq![nt[0]]);
                    }
                    match &items[k] {
                        J::Num(n) => push_dec(out, *n),
                        _ => {},
                    }
                    k += 1;
                    assert(out@ =~= s0 + join(nt.take(k as int), seq![',', ' ']));
                }
                assert(nt.take(items@.len() as int) =~= nt);
                push_char(out, ']');
                assert(out@ =~= start + json_text(jv(*value), indent as nat));
                return;
            }
            push_char(out, '[');
            push_char(out, '\n');
            let ghost s0 = out@;
            assert(items_prefix(iv, 0, indent as nat) =~= Seq::<char>::empty());
            let mut k: usize = 0;
            while k < items.len()
                invariant
                    k <= items@.len(),
                    iv == jvs(items@, 0),
                    iv.len() == items@.len(),
                    indent + depth(JV::Arr(iv)) <= usize::MAX,
                    jv(*value) == JV::Arr(iv),
                    out@ == s0 + items_prefix(iv, k as int, indent as nat),
                decreases items@.len() - k,
            {
                proof {
                    lemma_jvs_index(items@, 0, k as int);
                    lemma_items_depth(iv, 0, k as int);
                }
                push_pad(out, indent + 1);
                write(&items[k], indent + 1, out);
                if k + 1 < items.len() {
                    push_char(out, ',');
                }
                push_char(out, '\n');
                k += 1;
                assert(out@ =~= s0 + items_prefix(iv, k as int, indent as nat));
            }
            proof {
                lemma_items_prefix(iv, iv.len() as int, indent as nat);
            }
            push_pad(out, indent);
            push_char(out, ']');
            assert(out@ =~= start + json_text(jv(*value), indent as nat));
        },
        J::Obj(fields) => {
            let ghost fv = fvs(fields@, 0);
            proof {
                lemma_fvs_len(fields@, 0);
            }
            if fields.len() == 0 {
                push_char(out, '{');
                push_char(out, '}');
                assert(out@ =~= start + json_text(jv(*value), indent as nat));
                return;
            }
            push_char(out, '{');
            push_char(out, '\n');
            let ghost s0 = out@;
            assert(fields_prefix(fv, 0, indent as nat) =~= Seq::<char>::empty());
            let mut k: usize = 0;
            while k < fields.len()
                invariant
                    k <= fields@.len(),
                    fv == fvs(fields@, 0),
                    fv.len() == fields@.len(),
                    indent + depth(JV::Obj(fv)) <= usize::MAX,
                    jv(*value) == JV::Obj(fv),
                    out@ == s0 + fields_prefix(fv, k as int, indent as nat),
                decreases fields@.len() - k,
            {
                proof {
                    lemma_fvs_index(fields@, 0, k as int);
                    lemma_fields_depth(fv, 0, k as int);
                }
                push_pad(out, indent + 1);
                let (key, val) = &fields[k];
                escape(key, out);
                push_char(out, ':');
                push_char(out, ' ');
                write(val, indent + 1, out);
                if k + 1 < fields.len() {
                    push_char(out, ',');
                }
                push_char(out, '\n');
                k += 1;
                assert(out@ =~= s0 + fields_prefix(fv, k as int, indent as nat));
            }
            proof {
                lemma_fields_prefix(fv, fv.len() as int, indent as nat);
            }
            push_pad(out, indent);
            push_char(out, '}');
            assert(out@ =~= start + json_text(jv(*value), indent as nat));
        },
    }
}

// ---------------------------------------------------------------------------
// Building the tree
// ---------------------------------------------------------------------------

proof fn lemma_jvs_map(items: Seq<J>)
    ensures
        jvs(items, 0) == items.map_values(|j: J| jv(j)),
{
    lemma_jvs_len(items, 0);
    assert forall|i: int| 0 <= i < items.len() implies #[trigger] jvs(items, 0)[i] == jv(
        items[i],
    ) by {
        lemma_jvs_index(items, 0, i);
    }
    assert(jvs(items, 0) =~= items.map_values(|j: J| jv(j)));
}

proof fn lemma_fvs_map(fields: Seq<(&'static str, J)>)
    ensures
        fvs(fields, 0) == fields.map_values(|f: (&'static str, J)| (f.0@, jv(f.1))),
{
    lemma_fvs_len(fields, 0);
    assert forall|i: int| 0 <= i < fields.len() implies #[trigger] fvs(fields, 0)[i] == (
        fields[i].0@,
        jv(fields[i].1),
    ) by {
        lemma_fvs_index(fields, 0, i);
    }
    assert(fvs(fields, 0) =~= fields.map_values(|f: (&'static str, J)| (f.0@, jv(f.1))));
}

/// An object from its fields, in order.
fn obj(fields: Vec<(&'static str, J)>) -> (j: J)
    ensures
        jv(j) == JV::Obj(fields@.map_values(|f: (&'static str, J)| (f.0@, jv(f.1)))),
{
    proof {
        lemma_fvs_map(fields@);
    }
    J::Obj(fields)
}

/// An array from its items, in order.
fn arr(items: Vec<J>) -> (j: J)
    ensures
        jv(j) == JV::Arr(items@.map_values(|x: J| jv(x))),
{
    proof {
        lemma_jvs_map(items@);
    }
    J::Arr(items)
}

/// A span as a two-number array.
pub open spec fn span_jv(s: Span) -> JV {
    JV::Arr(seq![JV::Num(s.start as u64), JV::Num(s.end as u64)])
}

/// An optional length as a number or `null`.
pub open spec fn opt_num_jv(v: Option<usize>) -> JV {
    match v {
        Some(n) => JV::Num(n as u64),
        None => JV::Null,
    }
}

impl J {
    fn span(s: Span) -> (j: J)
        ensures
            jv(j) == span_jv(s),
    {
        let mut v = Vec::new();
        v.push(J::Num(s.start as u64));
        v.push(J::Num(s.end as u64));
        let j = arr(v);
        assert(v@.map_values(|x: J| jv(x)) =~= seq![JV::Num(s.start as u64), JV::Num(s.end as u64)]);
        j
    }

    fn str(s: &str) -> (j: J)
        ensures
            jv(j) == JV::Str(s@),
    {
        let mut t = String::new();
        push_str(&mut t, s);
        assert(t@ =~= s@);
        J::Str(t)
    }

    fn opt_num(v: Option<usize>) -> (j: J)
        ensures
            jv(j) == opt_num_jv(v),
    {
        match v {
            Some(n) => J::Num(n as u64),
            None => J::Null,
        }
    }
}

/// The JSON model of a start-line.
pub open spec fn start_line_jv(sl: StartLineView) -> JV {
    JV::Obj(
        seq![
            ("span"@, span_jv(sl.span)),
            (
                "fields"@,
                JV::Arr(seq![JV::Str(sl.fields[0]), JV::Str(sl.fields[1]), JV::Str(sl.fields[2])]),
            ),
        ],
    )
}

fn start_line_json(sl: &StartLine) -> (j: J)
    ensures
        jv(j) == start_line_jv(sl@),
{
    let mut fs = Vec::new();
    fs.push(J::str(sl.fields[0].as_str()));
    fs.push(J::str(sl.fields[1].as_str()));
    fs.push(J::str(sl.fields[2].as_str()));
    let fa = arr(fs);
    assert(fs@.map_values(|x: J| jv(x)) =~= seq![
        JV::Str(sl.fields[0]@),
        JV::Str(sl.fields[1]@),
        JV::Str(sl.fields[2]@),
    ]);
    let mut o = Vec::new();
    o.push(("span", J::span(sl.span)));
    o.push(("fields", fa));
    let j = obj(o);
    assert(o@.map_values(|f: (&'static str, J)| (f.0@, jv(f.1))) =~= seq![
        ("span"@, span_jv(sl.span)),
        ("fields"@, jv(fa)),
    ]);
    j
}

/// The JSON model of a chunk.
pub open spec fn chunk_jv(c: ChunkView) -> JV {
    JV::Obj(
        seq![
            ("size"@, JV::Num(c.size as u64)),
            ("size_span"@, span_jv(c.size_span)),
            ("data_span"@, span_jv(c.data_span)),
            ("extension"@, opt_str_jv(c.extension)),
        ],
    )
}

/// The JSON model of a body.
pub open spec fn body_jv(b: BodyView) -> JV {
    JV::Obj(
        seq![
            ("framing"@, JV::Str(framing_label(b.framing)@)),
            ("span"@, span_jv(b.span)),
            ("declared_len"@, opt_num_jv(b.declared_len)),
            ("decoded_len"@, JV::Num(b.decoded_len as u64)),
            ("complete"@, JV::Bool(b.complete)),
            ("chunks"@, JV::Arr(b.chunks.map_values(|c: ChunkView| chunk_jv(c)))),
        ],
    )
}

/// An optional string as a string or `null`.
pub open spec fn opt_str_jv(o: Option<Seq<char>>) -> JV {
    match o {
        Some(e) => JV::Str(e),
        None => JV::Null,
    }
}

/// An optional span as a two-number array or `null`.
pub open spec fn opt_span_jv(o: Option<Span>) -> JV {
    match o {
        Some(s) => span_jv(s),
        None => JV::Null,
    }
}

fn opt_str(o: &Option<String>) -> (j: J)
    ensures
        jv(j) == opt_str_jv(opt_view(*o)),
{
    match o {
        Some(e) => J::str(e.as_str()),
        None => J::Null,
    }
}

fn opt_span(o: Option<Span>) -> (j: J)
    ensures
        jv(j) == opt_span_jv(o),
{
    match o {
        Some(s) => J::span(s),
        None => J::Null,
    }
}

fn chunk_json(c: &Chunk) -> (j: J)
    ensures
        jv(j) == chunk_jv(c@),
{
    let ext = opt_str(&c.extension);
    let mut o = Vec::new();
    o.push(("size", J::Num(c.size as u64)));
    o.push(("size_span", J::span(c.size_span)));
    o.push(("data_span", J::span(c.data_span)));
    o.push(("extension", ext));
    let j = obj(o);
    assert(o@.map_values(|f: (&'static str, J)| (f.0@, jv(f.1))) =~= seq![
        ("size"@, JV::Num(c.size as u64)),
        ("size_span"@, span_jv(c.size_span)),
        ("data_span"@, span_jv(c.data_span)),
        ("extension"@, jv(ext)),
    ]);
    j
}

fn body_json(b: &Body) -> (j: J)
    ensures
        jv(j) == body_jv(b@),
{
    let mut chunks: Vec<J> = Vec::new();
    let mut i: usize = 0;
    while i < b.chunks.len()
        invariant
            i <= b.chunks@.len(),
            chunks@.len() == i,
            forall|k: int| 0 <= k < i ==> #[trigger] jv(chunks@[k]) == chunk_jv(b.chunks@[k]@),
        decreases b.chunks@.len() - i,
    {
        let c = chunk_json(&b.chunks[i]);
        chunks.push(c);
        i += 1;
    }
    assert(chunks@.map_values(|x: J| jv(x)) =~= chunk_views(b.chunks@).map_values(
        |c: ChunkView| chunk_jv(c),
    ));
    let ca = arr(chunks);
    let mut o = Vec::new();
    o.push(("framing", J::str(b.framing.label())));
    o.push(("span", J::span(b.span)));
    o.push(("declared_len", J::opt_num(b.declared_len)));
    o.push(("decoded_len", J::Num(b.decoded_len as u64)));
    o.push(("complete", J::Bool(b.complete)));
    o.push(("chunks", ca));
    let j = obj(o);
    assert(o@.map_values(|f: (&'static str, J)| (f.0@, jv(f.1))) =~= seq![
        ("framing"@, JV::Str(framing_label(b.framing)@)),
        ("span"@, span_jv(b.span)),
        ("declared_len"@, opt_num_jv(b.declared_len)),
        ("decoded_len"@, JV::Num(b.decoded_len as u64)),
        ("complete"@, JV::Bool(b.complete)),
        ("chunks"@, jv(ca)),
    ]);
    j
}

/// The JSON model of a finding.
pub open spec fn finding_jv(f: Finding) -> JV {
    JV::Obj(
        seq![
            ("code"@, JV::Str(f.code@)),
            ("slug"@, JV::Str(f.slug@)),
            ("severity"@, JV::Str(severity_label(f.severity)@)),
            ("title"@, JV::Str(f.title@)),
            ("detail"@, JV::Str(f.detail@)),
            ("span"@, opt_span_jv(f.span)),
        ],
    )
}

fn finding_json(f: &Finding) -> (j: J)
    ensures
        jv(j) == finding_jv(*f),
{
    let sp = opt_span(f.span);
    let mut o = Vec::new();
    o.push(("code", J::str(f.code)));
    o.push(("slug", J::str(f.slug)));
    o.push(("severity", J::str(f.severity.label())));
    o.push(("title", J::str(f.title)));
    o.push(("detail", J::str(f.detail.as_str())));
    o.push(("span", sp));
    let j = obj(o);
    assert(o@.map_values(|f: (&'static str, J)| (f.0@, jv(f.1))) =~= seq![
        ("code"@, JV::Str(f.code@)),
        ("slug"@, JV::Str(f.slug@)),
        ("severity"@, JV::Str(severity_label(f.severity)@)),
        ("title"@, JV::Str(f.title@)),
        ("detail"@, JV::Str(f.detail@)),
        ("span"@, jv(sp)),
    ]);
    j
}

/// The JSON model of a header.
pub open spec fn header_jv(h: HeaderView) -> JV {
    JV::Obj(
        seq![
            ("name"@, JV::Str(h.name)),
            ("value"@, JV::Str(h.value)),
            ("line_span"@, span_jv(h.line_span)),
            ("name_span"@, span_jv(h.name_span)),
            ("value_span"@, span_jv(h.value_span)),
        ],
    )
}

fn header_json(h: &Header) -> (j: J)
    ensures
        jv(j) == header_jv(h@),
{
    let mut o = Vec::new();
    o.push(("name", J::str(h.name.as_str())));
    o.push(("value", J::str(h.value.as_str())));
    o.push(("line_span", J::span(h.line_span)));
    o.push(("name_span", J::span(h.name_span)));
    o.push(("value_span", J::span(h.value_span)));
    let j = obj(o);
    assert(o@.map_values(|f: (&'static str, J)| (f.0@, jv(f.1))) =~= seq![
        ("name"@, JV::Str(h.name@)),
        ("value"@, JV::Str(h.value@)),
        ("line_span"@, span_jv(h.line_span)),
        ("name_span"@, span_jv(h.name_span)),
        ("value_span"@, span_jv(h.value_span)),
    ]);
    j
}

/// The JSON model of a message.
pub open spec fn message_jv(m: MessageView) -> JV {
    JV::Obj(
        seq![
            ("kind"@, JV::Str(kind_label(m.kind)@)),
            ("raw_len"@, JV::Num(m.raw_len as u64)),
            ("body_start"@, JV::Num(m.body_start as u64)),
            ("start_line"@, start_line_jv(m.start_line)),
            ("headers"@, JV::Arr(m.headers.map_values(|h: HeaderView| header_jv(h)))),
            ("body"@, body_jv(m.body)),
        ],
    )
}

fn message_json(m: &Message) -> (j: J)
    ensures
        jv(j) == message_jv(m@),
{
    let mut hs: Vec<J> = Vec::new();
    let mut i: usize = 0;
    while i < m.headers.len()
        invariant
            i <= m.headers@.len(),
            hs@.len() == i,
            forall|k: int| 0 <= k < i ==> #[trigger] jv(hs@[k]) == header_jv(m.headers@[k]@),
        decreases m.headers@.len() - i,
    {
        let h = header_json(&m.headers[i]);
        hs.push(h);
        i += 1;
    }
    assert(hs@.map_values(|x: J| jv(x)) =~= header_views(m.headers@).map_values(
        |h: HeaderView| header_jv(h),
    ));
    let ha = arr(hs);
    let sl = start_line_json(&m.start_line);
    let bj = body_json(&m.body);
    let mut o = Vec::new();
    o.push(("kind", J::str(m.kind.label())));
    o.push(("raw_len", J::Num(m.raw_len as u64)));
    o.push(("body_start", J::Num(m.body_start as u64)));
    o.push(("start_line", sl));
    o.push(("headers", ha));
    o.push(("body", bj));
    let j = obj(o);
    assert(o@.map_values(|f: (&'static str, J)| (f.0@, jv(f.1))) =~= seq![
        ("kind"@, JV::Str(kind_label(m.kind)@)),
        ("raw_len"@, JV::Num(m.raw_len as u64)),
        ("body_start"@, JV::Num(m.body_start as u64)),
        ("start_line"@, jv(sl)),
        ("headers"@, jv(ha)),
        ("body"@, jv(bj)),
    ]);
    j
}

/// The JSON model of a list of findings.
pub open spec fn findings_jv(fs: Seq<Finding>) -> JV {
    JV::Arr(fs.map_values(|f: Finding| finding_jv(f)))
}

fn findings_array(fs: &[Finding]) -> (j: J)
    ensures
        jv(j) == findings_jv(fs@),
{
    let mut v: Vec<J> = Vec::new();
    let mut i: usize = 0;
    while i < fs.len()
        invariant
            i <= fs@.len(),
            v@.len() == i,
            forall|k: int| 0 <= k < i ==> #[trigger] jv(v@[k]) == finding_jv(fs@[k]),
        decreases fs@.len() - i,
    {
        let f = finding_json(&fs[i]);
        v.push(f);
        i += 1;
    }
    assert(v@.map_values(|x: J| jv(x)) =~= fs@.map_values(|f: Finding| finding_jv(f)));
    arr(v)
}

/// The JSON model of a full analysis.
pub open spec fn analysis_jv(m: MessageView, fs: Seq<Finding>) -> JV {
    JV::Obj(seq![("message"@, message_jv(m)), ("findings"@, findings_jv(fs))])
}

proof fn lemma_span_depth(s: Span)
    ensures
        depth(span_jv(s)) <= 1,
{
    let items = seq![JV::Num(s.start as u64), JV::Num(s.end as u64)];
    lemma_items_depth_bound(items, 0, 0);
}

proof fn lemma_finding_depth(f: Finding)
    ensures
        depth(finding_jv(f)) <= 2,
{
    match f.span {
        Some(s) => lemma_span_depth(s),
        None => {},
    }
    if let JV::Obj(fs) = finding_jv(f) {
        lemma_fields_depth_bound(fs, 0, 1);
    }
}

proof fn lemma_findings_depth(fs: Seq<Finding>)
    ensures
        depth(findings_jv(fs)) <= 3,
{
    let items = fs.map_values(|f: Finding| finding_jv(f));
    assert forall|i: int| 0 <= i < items.len() implies depth(#[trigger] items[i]) <= 2 by {
        lemma_finding_depth(fs[i]);
    }
    lemma_items_depth_bound(items, 0, 2);
}

proof fn lemma_message_depth(m: MessageView)
    ensures
        depth(message_jv(m)) <= 5,
{
    let sl = start_line_jv(m.start_line);
    lemma_span_depth(m.start_line.span);
    let sfs = seq![JV::Str(m.start_line.fields[0]), JV::Str(m.start_line.fields[1]), JV::Str(m.start_line.fields[2])];
    lemma_items_depth_bound(sfs, 0, 0);
    if let JV::Obj(slf) = sl {
        lemma_fields_depth_bound(slf, 0, 1);
    }
    let hs = m.headers.map_values(|h: HeaderView| header_jv(h));
    assert forall|i: int| 0 <= i < hs.len() implies depth(#[trigger] hs[i]) <= 2 by {
        let h = m.headers[i];
        lemma_span_depth(h.line_span);
        lemma_span_depth(h.name_span);
        lemma_span_depth(h.value_span);
        if let JV::Obj(hf) = header_jv(h) {
            lemma_fields_depth_bound(hf, 0, 1);
        }
    }
    lemma_items_depth_bound(hs, 0, 2);
    let b = m.body;
    let cs = b.chunks.map_values(|c: ChunkView| chunk_jv(c));
    assert forall|i: int| 0 <= i < cs.len() implies depth(#[trigger] cs[i]) <= 2 by {
        let c = b.chunks[i];
        lemma_span_depth(c.size_span);
        lemma_span_depth(c.data_span);
        if let JV::Obj(cf) = chunk_jv(c) {
            lemma_fields_depth_bound(cf, 0, 1);
        }
    }
    lemma_items_depth_bound(cs, 0, 2);
    lemma_span_depth(b.span);
    if let JV::Obj(bf) = body_jv(b) {
        lemma_fields_depth_bound(bf, 0, 3);
    }
    if let JV::Obj(mf) = message_jv(m) {
        lemma_fields_depth_bound(mf, 0, 4);
    }
}

/// Serialize a full analysis to pretty-printed JSON.
pub fn to_json(analysis: &Analysis) -> (s: String)
    ensures
        s@ == json_text(analysis_jv(analysis.message@, analysis.findings@), 0) + seq!['\n'],
{
    let mj = message_json(&analysis.message);
    let fj = findings_array(analysis.findings.as_slice());
    let mut o = Vec::new();
    o.push(("message", mj));
    o.push(("findings", fj));
    let value = obj(o);
    assert(o@.map_values(|f: (&'static str, J)| (f.0@, jv(f.1))) =~= seq![
        ("message"@, jv(mj)),
        ("findings"@, jv(fj)),
    ]);
    proof {
        lemma_message_depth(analysis.message@);
        lemma_findings_depth(analysis.findings@);
        if let JV::Obj(af) = analysis_jv(analysis.message@, analysis.findings@) {
            lemma_fields_depth_bound(af, 0, 5);
        }
    }
    let mut out = String::new();
    write(&value, 0, &mut out);
    push_char(&mut out, '\n');
    out
}

/// Serialize only the findings (used by `plainwire lint --json`).
pub fn findings_to_json(findings: &[Finding]) -> (s: String)
    ensures
        s@ == json_text(findings_jv(findings@), 0) + seq!['\n'],
{
    let value = findings_array(findings);
    proof {
        lemma_findings_depth(findings@);
    }
    let mut out = String::new();
    write(&value, 0, &mut out);
    push_char(&mut out, '\n');
    out
}

/// The value of the first field named `key`, if any.
pub open spec fn field_of(fields: Seq<(Seq<char>, JV)>, key: Seq<char>) -> Option<JV>
    decreases fields.len(),
{
    if fields.len() == 0 {
        None
    } else if fields[0].0 == key {
        Some(fields[0].1)
    } else {
        field_of(fields.drop_first(), key)
    }
}

/// The member `key` of a JSON object, if the value is an object holding it.
pub open spec fn member(v: Option<JV>, key: Seq<char>) -> Option<JV> {
    match v {
        Some(JV::Obj(fields)) => field_of(fields, key),
        _ => None,
    }
}

/// The JSON for `[start, end]`.
pub open spec fn span_pair(start: usize, end: usize) -> JV {
    JV::Arr(seq![JV::Num(start as u64), JV::Num(end as u64)])
}

proof fn lemma_field_of_at(fields: Seq<(Seq<char>, JV)>, key: Seq<char>, k: int)
    requires
        0 <= k < fields.len(),
        fields[k].0 == key,
        forall|j: int| 0 <= j < k ==> fields[j].0 != key,
    ensures
        field_of(fields, key) == Some(fields[k].1),
    decreases k,
{
    if k > 0 {
        let d = fields.drop_first();
        assert forall|j: int| 0 <= j < k - 1 implies d[j].0 != key by {
            assert(d[j] == fields[j + 1]);
        }
        assert(fields[0].0 != key);
        lemma_field_of_at(d, key, k - 1);
        assert(d[k - 1] == fields[k]);
    }
}

proof fn lemma_chunk_members(c: ChunkView)
    ensures
        member(Some(chunk_jv(c)), "size"@) == Some(JV::Num(c.size as u64)),
        member(Some(chunk_jv(c)), "size_span"@) == Some(span_pair(c.size_span.start, c.size_span.end)),
        member(Some(chunk_jv(c)), "data_span"@) == Some(span_pair(c.data_span.start, c.data_span.end)),
{
    reveal_strlit("size");
    reveal_strlit("size_span");
    reveal_strlit("data_span");
    reveal_strlit("extension");
    let f = seq![
        ("size"@, JV::Num(c.size as u64)),
        ("size_span"@, span_jv(c.size_span)),
        ("data_span"@, span_jv(c.data_span)),
        ("extension"@, opt_str_jv(c.extension)),
    ];
    assert(chunk_jv(c) == JV::Obj(f));
    assert("size_span"@ != "data_span"@) by {
        assert("size_span"@[0] != "data_span"@[0]);
    }
    lemma_field_of_at(f, "size"@, 0);
    assert forall|j: int| 0 <= j < 1 implies f[j].0 != "size_span"@ by {
        if j == 0 { assert(f[0].0 == "size"@); assert("size"@.len() != "size_span"@.len() || "size"@[0] != "size_span"@[0]); }
    }
    lemma_field_of_at(f, "size_span"@, 1);
    assert forall|j: int| 0 <= j < 2 implies f[j].0 != "data_span"@ by {
        if j == 0 { assert(f[0].0 == "size"@); assert("size"@.len() != "data_span"@.len() || "size"@[0] != "data_span"@[0]); }
        if j == 1 { assert(f[1].0 == "size_span"@); assert("size_span"@.len() != "data_span"@.len() || "size_span"@[0] != "data_span"@[0]); }
    }
    lemma_field_of_at(f, "data_span"@, 2);
}

proof fn lemma_body_members(b: BodyView)
    ensures
        ({
            let o = Some(body_jv(b));
            &&& member(o, "framing"@) == Some(JV::Str(framing_label(b.framing)@))
            &&& member(o, "span"@) == Some(span_pair(b.span.start, b.span.end))
            &&& member(o, "declared_len"@) == Some(
                match b.declared_len {
                    Some(n) => JV::Num(n as u64),
                    None => JV::Null,
                },
            )
            &&& member(o, "decoded_len"@) == Some(JV::Num(b.decoded_len as u64))
            &&& member(o, "complete"@) == Some(JV::Bool(b.complete))
            &&& member(o, "chunks"@) == Some(JV::Arr(b.chunks.map_values(|c: ChunkView| chunk_jv(c))))
        }),
{
    reveal_strlit("framing");
    reveal_strlit("span");
    reveal_strlit("declared_len");
    reveal_strlit("decoded_len");
    reveal_strlit("complete");
    reveal_strlit("chunks");
    let f = seq![
        ("framing"@, JV::Str(framing_label(b.framing)@)),
        ("span"@, span_jv(b.span)),
        ("declared_len"@, opt_num_jv(b.declared_len)),
        ("decoded_len"@, JV::Num(b.decoded_len as u64)),
        ("complete"@, JV::Bool(b.complete)),
        ("chunks"@, JV::Arr(b.chunks.map_values(|c: ChunkView| chunk_jv(c)))),
    ];
    assert(body_jv(b) == JV::Obj(f));
    lemma_field_of_at(f, "framing"@, 0);
    assert forall|j: int| 0 <= j < 1 implies f[j].0 != "span"@ by {
        if j == 0 { assert(f[0].0 == "framing"@); assert("framing"@.len() != "span"@.len() || "framing"@[0] != "span"@[0]); }
    }
    lemma_field_of_at(f, "span"@, 1);
    assert forall|j: int| 0 <= j < 2 implies f[j].0 != "declared_len"@ by {
        if j == 0 { assert(f[0].0 == "framing"@); assert("framing"@.len() != "declared_len"@.len() || "framing"@[0] != "declared_len"@[0]); }
        if j == 1 { assert(f[1].0 == "span"@); assert("span"@.len() != "declared_len"@.len() || "span"@[0] != "declared_len"@[0]); }
    }
    lemma_field_of_at(f, "declared_len"@, 2);
    assert forall|j: int| 0 <= j < 3 implies f[j].0 != "decoded_len"@ by {
        if j == 0 { assert(f[0].0 == "framing"@); assert("framing"@.len() != "decoded_len"@.len() || "framing"@[0] != "decoded_len"@[0]); }
        if j == 1 { assert(f[1].0 == "span"@); assert("span"@.len() != "decoded_len"@.len() || "span"@[0] != "decoded_len"@[0]); }
        if j == 2 { assert(f[2].0 == "declared_len"@); assert("declared_len"@.len() != "decoded_len"@.len() || "declared_len"@[0] != "decoded_len"@[0]); }
    }
    lemma_field_of_at(f, "decoded_len"@, 3);
    assert forall|j: int| 0 <= j < 4 implies f[j].0 != "complete"@ by {
        if j == 0 { assert(f[0].0 == "framing"@); assert("framing"@.len() != "complete"@.len() || "framing"@[0] != "complete"@[0]); }
        if j == 1 { assert(f[1].0 == "span"@); assert("span"@.len() != "complete"@.len() || "span"@[0] != "complete"@[0]); }
        if j == 2 { assert(f[2].0 == "declared_len"@); assert("declared_len"@.len() != "complete"@.len() || "declared_len"@[0] != "complete"@[0]); }
        if j == 3 { assert(f[3].0 == "decoded_len"@); assert("decoded_len"@.len() != "complete"@.len() || "decoded_len"@[0] != "complete"@[0]); }
    }
    lemma_field_of_at(f, "complete"@, 4);
    assert forall|j: int| 0 <= j < 5 implies f[j].0 != "chunks"@ by {
        if j == 0 { assert(f[0].0 == "framing"@); assert("framing"@.len() != "chunks"@.len() || "framing"@[0] != "chunks"@[0]); }
        if j == 1 { assert(f[1].0 == "span"@); assert("span"@.len() != "chunks"@.len() || "span"@[0] != "chunks"@[0]); }
        if j == 2 { assert(f[2].0 == "declared_len"@); assert("declared_len"@.len() != "chunks"@.len() || "declared_len"@[0] != "chunks"@[0]); }
        if j == 3 { assert(f[3].0 == "decoded_len"@); assert("decoded_len"@.len() != "chunks"@.len() || "decoded_len"@[0] != "chunks"@[0]); }
        if j == 4 { assert(f[4].0 == "complete"@); assert("complete"@.len() != "chunks"@.len() || "complete"@[0] != "chunks"@[0]); }
    }
    lemma_field_of_at(f, "chunks"@, 5);
}

/// What the JSON of an analysis says of the message and its body: the value
/// of `to_json` holds, under `message`, the kind, the raw length, the body
/// start and, under `body`, the framing, the span as `[start, end]`, the
/// declared length (or null), the decoded length, whether the body is
/// complete, and one object per chunk with its size and both spans, all equal
/// to the analysis it serializes.
pub proof fn law_json_reports_the_analysis(m: MessageView, fs: Seq<Finding>)
    ensures
        ({
            let msg = member(Some(analysis_jv(m, fs)), "message"@);
            let body = member(msg, "body"@);
            &&& member(msg, "kind"@) == Some(JV::Str(kind_label(m.kind)@))
            &&& member(msg, "raw_len"@) == Some(JV::Num(m.raw_len as u64))
            &&& member(msg, "body_start"@) == Some(JV::Num(m.body_start as u64))
            &&& member(body, "framing"@) == Some(JV::Str(framing_label(m.body.framing)@))
            &&& member(body, "span"@) == Some(span_pair(m.body.span.start, m.body.span.end))
            &&& member(body, "declared_len"@) == Some(
                match m.body.declared_len {
                    Some(n) => JV::Num(n as u64),
                    None => JV::Null,
                },
            )
            &&& member(body, "decoded_len"@) == Some(JV::Num(m.body.decoded_len as u64))
            &&& member(body, "complete"@) == Some(JV::Bool(m.body.complete))
            &&& member(body, "chunks"@) is Some
            &&& member(body, "chunks"@)->0 is Arr
            &&& member(body, "chunks"@)->0->Arr_0.len() == m.body.chunks.len()
            &&& forall|i: int|
                0 <= i < m.body.chunks.len() ==> {
                    let c = Some(#[trigger] member(body, "chunks"@)->0->Arr_0[i]);
                    &&& member(c, "size"@) == Some(JV::Num(m.body.chunks[i].size as u64))
                    &&& member(c, "size_span"@) == Some(
                        span_pair(m.body.chunks[i].size_span.start, m.body.chunks[i].size_span.end),
                    )
                    &&& member(c, "data_span"@) == Some(
                        span_pair(m.body.chunks[i].data_span.start, m.body.chunks[i].data_span.end),
                    )
                }
        }),
{
    reveal_strlit("message");
    reveal_strlit("findings");
    reveal_strlit("kind");
    reveal_strlit("raw_len");
    reveal_strlit("body_start");
    reveal_strlit("start_line");
    reveal_strlit("headers");
    reveal_strlit("body");
    let top = seq![("message"@, message_jv(m)), ("findings"@, findings_jv(fs))];
    assert(analysis_jv(m, fs) == JV::Obj(top));
    lemma_field_of_at(top, "message"@, 0);
    let f = seq![
        ("kind"@, JV::Str(kind_label(m.kind)@)),
        ("raw_len"@, JV::Num(m.raw_len as u64)),
        ("body_start"@, JV::Num(m.body_start as u64)),
        ("start_line"@, start_line_jv(m.start_line)),
        ("headers"@, JV::Arr(m.headers.map_values(|h: HeaderView| header_jv(h)))),
        ("body"@, body_jv(m.body)),
    ];
    assert(message_jv(m) == JV::Obj(f));
    lemma_field_of_at(f, "kind"@, 0);
    assert forall|j: int| 0 <= j < 1 implies f[j].0 != "raw_len"@ by {
        if j == 0 { assert(f[0].0 == "kind"@); assert("kind"@.len() != "raw_len"@.len() || "kind"@[0] != "raw_len"@[0]); }
    }
    lemma_field_of_at(f, "raw_len"@, 1);
    assert forall|j: int| 0 <= j < 2 implies f[j].0 != "body_start"@ by {
        if j == 0 { assert(f[0].0 == "kind"@); assert("kind"@.len() != "body_start"@.len() || "kind"@[0] != "body_start"@[0]); }
        if j == 1 { assert(f[1].0 == "raw_len"@); assert("raw_len"@.len() != "body_start"@.len() || "raw_len"@[0] != "body_start"@[0]); }
    }
    lemma_field_of_at(f, "body_start"@, 2);
    assert forall|j: int| 0 <= j < 5 implies f[j].0 != "body"@ by {
        if j == 0 { assert(f[0].0 == "kind"@); assert("kind"@.len() != "body"@.len() || "kind"@[0] != "body"@[0]); }
        if j == 1 { assert(f[1].0 == "raw_len"@); assert("raw_len"@.len() != "body"@.len() || "raw_len"@[0] != "body"@[0]); }
        if j == 2 { assert(f[2].0 == "body_start"@); assert("body_start"@.len() != "body"@.len() || "body_start"@[0] != "body"@[0]); }
        if j == 3 { assert(f[3].0 == "start_line"@); assert("start_line"@.len() != "body"@.len() || "start_line"@[0] != "body"@[0]); }
        if j == 4 { assert(f[4].0 == "headers"@); assert("headers"@.len() != "body"@.len() || "headers"@[0] != "body"@[0]); }
    }
    lemma_field_of_at(f, "body"@, 5);
    lemma_body_members(m.body);
    let cs = m.body.chunks.map_values(|c: ChunkView| chunk_jv(c));
    assert forall|i: int| 0 <= i < m.body.chunks.len() implies ({
        let c = Some(#[trigger] member(member(member(Some(analysis_jv(m, fs)), "message"@), "body"@), "chunks"@)->0->Arr_0[i]);
        &&& member(c, "size"@) == Some(JV::Num(m.body.chunks[i].size as u64))
        &&& member(c, "size_span"@) == Some(
            span_pair(m.body.chunks[i].size_span.start, m.body.chunks[i].size_span.end),
        )
        &&& member(c, "data_span"@) == Some(
            span_pair(m.body.chunks[i].data_span.start, m.body.chunks[i].data_span.end),
        )
    }) by {
        assert(cs[i] == chunk_jv(m.body.chunks[i]));
        lemma_chunk_members(m.body.chunks[i]);
    }
}

proof fn lemma_header_members(h: HeaderView)
    ensures
        member(Some(header_jv(h)), "name"@) == Some(JV::Str(h.name)),
        member(Some(header_jv(h)), "value"@) == Some(JV::Str(h.value)),
        member(Some(header_jv(h)), "line_span"@) == Some(span_pair(h.line_span.start, h.line_span.end)),
        member(Some(header_jv(h)), "name_span"@) == Some(span_pair(h.name_span.start, h.name_span.end)),
        member(Some(header_jv(h)), "value_span"@) == Some(
            span_pair(h.value_span.start, h.value_span.end),
        ),
{
    reveal_strlit("name");
    reveal_strlit("value");
    reveal_strlit("line_span");
    reveal_strlit("name_span");
    reveal_strlit("value_span");
    let f = seq![
        ("name"@, JV::Str(h.name)),
        ("value"@, JV::Str(h.value)),
        ("line_span"@, span_jv(h.line_span)),
        ("name_span"@, span_jv(h.name_span)),
        ("value_span"@, span_jv(h.value_span)),
    ];
    assert(header_jv(h) == JV::Obj(f));
    lemma_field_of_at(f, "name"@, 0);
    assert forall|j: int| 0 <= j < 1 implies f[j].0 != "value"@ by {
        if j == 0 { assert(f[0].0 == "name"@); assert("name"@.len() != "value"@.len() || "name"@[0] != "value"@[0]); }
    }
    lemma_field_of_at(f, "value"@, 1);
    assert forall|j: int| 0 <= j < 2 implies f[j].0 != "line_span"@ by {
        if j == 0 { assert(f[0].0 == "name"@); assert("name"@.len() != "line_span"@.len() || "name"@[0] != "line_span"@[0]); }
        if j == 1 { assert(f[1].0 == "value"@); assert("value"@.len() != "line_span"@.len() || "value"@[0] != "line_span"@[0]); }
    }
    lemma_field_of_at(f, "line_span"@, 2);
    assert forall|j: int| 0 <= j < 3 implies f[j].0 != "name_span"@ by {
        if j == 0 { assert(f[0].0 == "name"@); assert("name"@.len() != "name_span"@.len() || "name"@[0] != "name_span"@[0]); }
        if j == 1 { assert(f[1].0 == "value"@); assert("value"@.len() != "name_span"@.len() || "value"@[0] != "name_span"@[0]); }
        if j == 2 { assert(f[2].0 == "line_span"@); assert("line_span"@.len() != "name_span"@.len() || "line_span"@[0] != "name_span"@[0]); }
    }
    lemma_field_of_at(f, "name_span"@, 3);
    assert forall|j: int| 0 <= j < 4 implies f[j].0 != "value_span"@ by {
        if j == 0 { assert(f[0].0 == "name"@); assert("name"@.len() != "value_span"@.len() || "name"@[0] != "value_span"@[0]); }
        if j == 1 { assert(f[1].0 == "value"@); assert("value"@.len() != "value_span"@.len() || "value"@[0] != "value_span"@[0]); }
        if j == 2 { assert(f[2].0 == "line_span"@); assert("line_span"@.len() != "value_span"@.len() || "line_span"@[0] != "value_span"@[0]); }
        if j == 3 { assert(f[3].0 == "name_span"@); assert("name_span"@.len() != "value_span"@.len() || "name_span"@[0] != "value_span"@[0]); }
    }
    lemma_field_of_at(f, "value_span"@, 4);
}

/// The JSON of an analysis lists the message's headers in order, each with
/// its name, its value and its line, name and value spans as in the analysis.
pub proof fn law_json_reports_the_headers(m: MessageView, fs: Seq<Finding>)
    ensures
        ({
            let msg = member(Some(analysis_jv(m, fs)), "message"@);
            let hs = member(msg, "headers"@);
            &&& hs is Some
            &&& hs->0 is Arr
            &&& hs->0->Arr_0.len() == m.headers.len()
            &&& forall|i: int|
                0 <= i < m.headers.len() ==> {
                    let h = Some(#[trigger] hs->0->Arr_0[i]);
                    &&& member(h, "name"@) == Some(JV::Str(m.headers[i].name))
                    &&& member(h, "value"@) == Some(JV::Str(m.headers[i].value))
                    &&& member(h, "line_span"@) == Some(
                        span_pair(m.headers[i].line_span.start, m.headers[i].line_span.end),
                    )
                    &&& member(h, "name_span"@) == Some(
                        span_pair(m.headers[i].name_span.start, m.headers[i].name_span.end),
                    )
                    &&& member(h, "value_span"@) == Some(
                        span_pair(m.headers[i].value_span.start, m.headers[i].value_span.end),
                    )
                }
        }),
{
    reveal_strlit("message");
    reveal_strlit("findings");
    reveal_strlit("kind");
    reveal_strlit("raw_len");
    reveal_strlit("body_start");
    reveal_strlit("start_line");
    reveal_strlit("headers");
    reveal_strlit("body");
    let top = seq![("message"@, message_jv(m)), ("findings"@, findings_jv(fs))];
    assert(analysis_jv(m, fs) == JV::Obj(top));
    lemma_field_of_at(top, "message"@, 0);
    let f = seq![
        ("kind"@, JV::Str(kind_label(m.kind)@)),
        ("raw_len"@, JV::Num(m.raw_len as u64)),
        ("body_start"@, JV::Num(m.body_start as u64)),
        ("start_line"@, start_line_jv(m.start_line)),
        ("headers"@, JV::Arr(m.headers.map_values(|h: HeaderView| header_jv(h)))),
        ("body"@, body_jv(m.body)),
    ];
    assert(message_jv(m) == JV::Obj(f));
    assert forall|j: int| 0 <= j < 4 implies f[j].0 != "headers"@ by {
        if j == 0 { assert(f[0].0 == "kind"@); assert("kind"@.len() != "headers"@.len() || "kind"@[0] != "headers"@[0]); }
        if j == 1 { assert(f[1].0 == "raw_len"@); assert("raw_len"@.len() != "headers"@.len() || "raw_len"@[0] != "headers"@[0]); }
        if j == 2 { assert(f[2].0 == "body_start"@); assert("body_start"@.len() != "headers"@.len() || "body_start"@[0] != "headers"@[0]); }
        if j == 3 { assert(f[3].0 == "start_line"@); assert("start_line"@.len() != "headers"@.len() || "start_line"@[0] != "headers"@[0]); }
    }
    lemma_field_of_at(f, "headers"@, 4);
    let arr = m.headers.map_values(|h: HeaderView| header_jv(h));
    assert forall|i: int| 0 <= i < m.headers.len() implies ({
        let h = Some(#[trigger] member(member(Some(analysis_jv(m, fs)), "message"@), "headers"@)->0->Arr_0[i]);
        &&& member(h, "name"@) == Some(JV::Str(m.headers[i].name))
        &&& member(h, "value"@) == Some(JV::Str(m.headers[i].value))
        &&& member(h, "line_span"@) == Some(
            span_pair(m.headers[i].line_span.start, m.headers[i].line_span.end),
        )
        &&& member(h, "name_span"@) == Some(
            span_pair(m.headers[i].name_span.start, m.headers[i].name_span.end),
        )
        &&& member(h, "value_span"@) == Some(
            span_pair(m.headers[i].value_span.start, m.headers[i].value_span.end),
        )
    }) by {
        assert(arr[i] == header_jv(m.headers[i]));
        lemma_header_members(m.headers[i]);
    }
}

/// The layout of [`findings_to_json`]: an empty list prints as `[]`; otherwise
/// the value is an array with one object per finding, in order, each the
/// [`finding_jv`] of that finding: exactly the keys `code`, `slug`,
/// `severity`, `title`, `detail` and `span`, in that order, holding the
/// finding's fields (the span as `[start, end]` or null).
pub proof fn law_findings_json_layout(fs: Seq<Finding>)
    ensures
        fs.len() == 0 ==> json_text(findings_jv(fs), 0) + seq!['\n'] == seq!['[', ']', '\n'],
        findings_jv(fs) is Arr,
        findings_jv(fs)->Arr_0.len() == fs.len(),
        forall|i: int|
            0 <= i < fs.len() ==> #[trigger] findings_jv(fs)->Arr_0[i] == finding_jv(fs[i]),
        forall|i: int|
            0 <= i < fs.len() ==> (#[trigger] finding_jv(fs[i]))->Obj_0.len() == 6
                && finding_jv(fs[i])->Obj_0[0].0 == "code"@
                && finding_jv(fs[i])->Obj_0[1].0 == "slug"@
                && finding_jv(fs[i])->Obj_0[2].0 == "severity"@
                && finding_jv(fs[i])->Obj_0[3].0 == "title"@
                && finding_jv(fs[i])->Obj_0[4].0 == "detail"@
                && finding_jv(fs[i])->Obj_0[5].0 == "span"@
                && finding_jv(fs[i])->Obj_0[0].1 == JV::Str(fs[i].code@)
                && finding_jv(fs[i])->Obj_0[1].1 == JV::Str(fs[i].slug@)
                && finding_jv(fs[i])->Obj_0[2].1 == JV::Str(severity_label(fs[i].severity)@)
                && finding_jv(fs[i])->Obj_0[3].1 == JV::Str(fs[i].title@)
                && finding_jv(fs[i])->Obj_0[4].1 == JV::Str(fs[i].detail@)
                && finding_jv(fs[i])->Obj_0[5].1 == match fs[i].span {
                    Some(sp) => span_pair(sp.start, sp.end),
                    None => JV::Null,
                },
{
    if fs.len() == 0 {
        assert(findings_jv(fs)->Arr_0.len() == 0);
        assert(json_text(findings_jv(fs), 0) + seq!['\n'] =~= seq!['[', ']', '\n']);
    }
}

} // verus!
