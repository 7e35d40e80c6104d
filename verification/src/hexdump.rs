//! Annotated hex dump: the raw bytes in the classic `offset | hex | ascii`
//! layout, with a fourth column naming the structural region each row starts
//! in (start-line, a specific header, a chunk size or its data, the body).
use vstd::prelude::*;
use crate::message::{header_views, Chunk, ChunkView, Header, HeaderView, Message, MessageView};
use crate::text::{
    chars_of, dec, hex, pad_right, push_char, push_dec, push_padded_right,
    push_str, push_zero_padded, radix_chars, zero_pad,
};

verus! {

/// Bytes per row.
pub const WIDTH: usize = 16;

/// The index of the first header whose line contains `off`, or `hs.len()`.
pub open spec fn header_at(hs: Seq<HeaderView>, off: int) -> int
    decreases hs.len(),
{
    if hs.len() == 0 {
        0
    } else if hs[0].line_span.start <= off < hs[0].line_span.end {
        0
    } else {
        1 + header_at(hs.drop_first(), off)
    }
}

/// The label of the first chunk (from index `i` on) whose size line or data
/// contains `off`.
pub open spec fn chunk_at(cs: Seq<ChunkView>, off: int, i: int) -> Option<Seq<char>>
    decreases cs.len() - i,
{
    if i < 0 || i >= cs.len() {
        None
    } else if cs[i].size_span.start <= off < cs[i].size_span.end {
        Some("chunk["@ + dec(i as nat) + "].size"@)
    } else if cs[i].data_span.start <= off < cs[i].data_span.end {
        Some("chunk["@ + dec(i as nat) + "].data"@)
    } else {
        chunk_at(cs, off, i + 1)
    }
}

/// The structural region that byte `off` belongs to.
pub open spec fn region_of(m: MessageView, off: int) -> Seq<char> {
    if off < m.body_start {
        if m.start_line.span.start <= off < m.start_line.span.end {
            "start-line"@
        } else if header_at(m.headers, off) < m.headers.len() {
            "header["@ + dec(header_at(m.headers, off) as nat) + "]"@
        } else {
            "crlf"@
        }
    } else {
        match chunk_at(m.body.chunks, off, 0) {
            Some(label) => label,
            None => if off < m.body.span.end {
                "body"@
            } else {
                "trailing"@
            },
        }
    }
}

/// Byte `off` lies in chunk `c`'s size line or in its data.
pub open spec fn in_chunk(c: ChunkView, off: int) -> bool {
    (c.size_span.start <= off < c.size_span.end) || (c.data_span.start <= off < c.data_span.end)
}

/// No chunk from index `i` on holds `off` exactly when the chunk lookup finds none.
proof fn lemma_chunk_at_none(cs: Seq<ChunkView>, off: int, i: int)
    requires
        0 <= i,
    ensures
        (chunk_at(cs, off, i) is None) == (forall|j: int|
            i <= j < cs.len() ==> !in_chunk(#[trigger] cs[j], off)),
    decreases cs.len() - i,
{
    if i < cs.len() {
        lemma_chunk_at_none(cs, off, i + 1);
        if chunk_at(cs, off, i) is None {
            assert forall|j: int| i <= j < cs.len() implies !in_chunk(#[trigger] cs[j], off) by {
                if j > i {
                    assert(chunk_at(cs, off, i + 1) is None);
                }
            }
        } else {
            if !in_chunk(cs[i], off) {
                assert(chunk_at(cs, off, i) == chunk_at(cs, off, i + 1));
                let j = choose|j: int| i + 1 <= j < cs.len() && in_chunk(#[trigger] cs[j], off);
                assert(i <= j < cs.len() && in_chunk(cs[j], off));
            }
        }
    }
}

/// The chunk labels start with `c`.
proof fn lemma_chunk_label_shape(cs: Seq<ChunkView>, off: int, i: int)
    requires
        0 <= i,
    ensures
        chunk_at(cs, off, i) matches Some(l) ==> l.len() > 0 && l[0] == 'c',
    decreases cs.len() - i,
{
    reveal_strlit("chunk[");
    if i < cs.len() {
        lemma_chunk_label_shape(cs, off, i + 1);
        assert(("chunk["@ + dec(i as nat) + "].size"@)[0] == 'c');
        assert(("chunk["@ + dec(i as nat) + "].data"@)[0] == 'c');
    }
}

/// The regions of the bytes after the head: a byte in no chunk's size line
/// or data is `body` while it lies inside the framed body and `trailing` once
/// it is at or past the body's end (the bytes a smuggled request would start
/// with). Conversely a byte is labelled `body` only inside the body span and
/// after the head, and `trailing` only after the head and past the body's end.
pub proof fn law_body_and_trailing_regions(m: MessageView, off: int)
    requires
        0 <= off,
    ensures
        (off >= m.body_start && forall|j: int|
            0 <= j < m.body.chunks.len() ==> !in_chunk(#[trigger] m.body.chunks[j], off))
            ==> region_of(m, off) == (if off < m.body.span.end {
            "body"@
        } else {
            "trailing"@
        }),
        region_of(m, off) == "body"@ ==> m.body_start <= off < m.body.span.end,
        region_of(m, off) == "trailing"@ ==> m.body_start <= off && m.body.span.end <= off,
{
    reveal_strlit("body");
    reveal_strlit("trailing");
    reveal_strlit("start-line");
    reveal_strlit("header[");
    reveal_strlit("crlf");
    lemma_chunk_at_none(m.body.chunks, off, 0);
    lemma_chunk_label_shape(m.body.chunks, off, 0);
    let r = region_of(m, off);
    assert("body"@[0] == 'b' && "trailing"@[0] == 't');
    if off < m.body_start {
        let k = header_at(m.headers, off);
        assert(("header["@ + dec(k as nat) + "]"@)[0] == 'h');
        assert("start-line"@[0] == 's' && "crlf"@[0] == 'c');
        assert(r[0] != 'b' && r[0] != 't');
    } else {
        match chunk_at(m.body.chunks, off, 0) {
            Some(l) => {
                assert(r[0] == 'c');
            },
            None => {},
        }
    }
}

/// Byte `off` lies in header `h`'s line.
pub open spec fn in_line(h: HeaderView, off: int) -> bool {
    h.line_span.start <= off < h.line_span.end
}

proof fn lemma_header_at_first(hs: Seq<HeaderView>, off: int, k: int)
    requires
        0 <= k < hs.len(),
        in_line(hs[k], off),
        forall|j: int| 0 <= j < k ==> !in_line(#[trigger] hs[j], off),
    ensures
        header_at(hs, off) == k,
    decreases k,
{
    if k > 0 {
        let d = hs.drop_first();
        assert(!in_line(hs[0], off));
        assert forall|j: int| 0 <= j < k - 1 implies !in_line(#[trigger] d[j], off) by {
            assert(d[j] == hs[j + 1]);
        }
        assert(d[k - 1] == hs[k]);
        lemma_header_at_first(d, off, k - 1);
    }
}

proof fn lemma_chunk_at_first(cs: Seq<ChunkView>, off: int, i: int, k: int)
    requires
        0 <= i <= k < cs.len(),
        in_chunk(cs[k], off),
        forall|j: int| i <= j < k ==> !in_chunk(#[trigger] cs[j], off),
    ensures
        chunk_at(cs, off, i) == Some(
            if cs[k].size_span.start <= off < cs[k].size_span.end {
                "chunk["@ + dec(k as nat) + "].size"@
            } else {
                "chunk["@ + dec(k as nat) + "].data"@
            },
        ),
    decreases k - i,
{
    if i < k {
        assert(!in_chunk(cs[i], off));
        lemma_chunk_at_first(cs, off, i + 1, k);
    }
}

/// The regions of the head and of the chunks: before the body starts, a byte
/// of the start line is `start-line`, and otherwise a byte of the first
/// header line holding it, header `k`, is `header[k]`; after the head, a byte
/// of the first chunk holding it, chunk `k`, is `chunk[k].size` in its size
/// line and `chunk[k].data` in its data.
pub proof fn law_head_and_chunk_regions(m: MessageView, off: int, k: int)
    requires
        0 <= off,
    ensures
        off < m.body_start && m.start_line.span.start <= off < m.start_line.span.end
            ==> region_of(m, off) == "start-line"@,
        off < m.body_start && !(m.start_line.span.start <= off < m.start_line.span.end) && 0 <= k
            < m.headers.len() && in_line(m.headers[k], off) && (forall|j: int|
            0 <= j < k ==> !in_line(#[trigger] m.headers[j], off)) ==> region_of(m, off) == "header["@
            + dec(k as nat) + "]"@,
        off >= m.body_start && 0 <= k < m.body.chunks.len() && (forall|j: int|
            0 <= j < k ==> !in_chunk(#[trigger] m.body.chunks[j], off)) ==> {
            &&& m.body.chunks[k].size_span.start <= off < m.body.chunks[k].size_span.end
                ==> region_of(m, off) == "chunk["@ + dec(k as nat) + "].size"@
            &&& !(m.body.chunks[k].size_span.start <= off < m.body.chunks[k].size_span.end)
                && m.body.chunks[k].data_span.start <= off < m.body.chunks[k].data_span.end
                ==> region_of(m, off) == "chunk["@ + dec(k as nat) + "].data"@
        },
{
    if off < m.body_start && 0 <= k < m.headers.len() && in_line(m.headers[k], off) && (forall|
        j: int,
    |
        0 <= j < k ==> !in_line(#[trigger] m.headers[j], off)) {
        lemma_header_at_first(m.headers, off, k);
    }
    if off >= m.body_start && 0 <= k < m.body.chunks.len() && in_chunk(m.body.chunks[k], off) && (
    forall|j: int| 0 <= j < k ==> !in_chunk(#[trigger] m.body.chunks[j], off)) {
        lemma_chunk_at_first(m.body.chunks, off, 0, k);
    }
}

fn header_index(hs: &Vec<Header>, off: usize) -> (r: usize)
    ensures
        r == header_at(header_views(hs@), off as int),
{
    let ghost hv = header_views(hs@);
    let mut i: usize = 0;
    assert(hv.subrange(0, hv.len() as int) =~= hv);
    while i < hs.len()
        invariant
            i <= hs@.len(),
            hv == header_views(hs@),
            header_at(hv, off as int) == i + header_at(hv.subrange(i as int, hv.len() as int), off as int),
        decreases hs@.len() - i,
    {
        let ghost rest = hv.subrange(i as int, hv.len() as int);
        assert(rest[0] == hs@[i as int]@);
        if hs[i].line_span.contains(off) {
            return i;
        }
        assert(rest.drop_first() =~= hv.subrange(i + 1, hv.len() as int));
        i += 1;
    }
    assert(hv.subrange(i as int, hv.len() as int) =~= Seq::<HeaderView>::empty());
    i
}

fn chunk_label(cs: &Vec<Chunk>, off: usize) -> (r: Option<String>)
    ensures
        match chunk_at(crate::message::chunk_views(cs@), off as int, 0) {
            Some(l) => r is Some && r->0@ == l,
            None => r is None,
        },
{
    let ghost cv = crate::message::chunk_views(cs@);
    let mut i: usize = 0;
    while i < cs.len()
        invariant
            i <= cs@.len(),
            cv == crate::message::chunk_views(cs@),
            chunk_at(cv, off as int, 0) == chunk_at(cv, off as int, i as int),
        decreases cs@.len() - i,
    {
        assert(cv[i as int] == cs@[i as int]@);
        if cs[i].size_span.contains(off) {
            let mut s = String::new();
            push_str(&mut s, "chunk[");
            push_dec(&mut s, i as u64);
            push_str(&mut s, "].size");
            return Some(s);
        }
        if cs[i].data_span.contains(off) {
            let mut s = String::new();
            push_str(&mut s, "chunk[");
            push_dec(&mut s, i as u64);
            push_str(&mut s, "].data");
            return Some(s);
        }
        i += 1;
    }
    None
}

/// Name the structural region that byte `offset` belongs to.
fn region_at(m: &Message, offset: usize) -> (s: String)
    ensures
        s@ == region_of(m@, offset as int),
{
    let mut s = String::new();
    if offset < m.body_start {
        if m.start_line.span.contains(offset) {
            push_str(&mut s, "start-line");
            return s;
        }
        let i = header_index(&m.headers, offset);
        if i < m.headers.len() {
            push_str(&mut s, "header[");
            push_dec(&mut s, i as u64);
            push_str(&mut s, "]");
            return s;
        }
        push_str(&mut s, "crlf");
        return s;
    }
    match chunk_label(&m.body.chunks, offset) {
        Some(label) => label,
        None => {
            if offset < m.body.span.end {
                push_str(&mut s, "body");
            } else {
                push_str(&mut s, "trailing");
            }
            s
        },
    }
}

/// How one byte shows in the ascii column.
pub open spec fn ascii_of(b: u8) -> char {
    if 0x20 <= b <= 0x7e {
        b as char
    } else {
        '.'
    }
}

/// The hex column of a row: two lowercase digits and a space per byte.
pub open spec fn hex_column(row: Seq<u8>) -> Seq<char>
    decreases row.len(),
{
    if row.len() == 0 {
        Seq::empty()
    } else {
        hex_column(row.drop_last()) + zero_pad(hex(row.last() as nat), 2) + seq![' ']
    }
}

/// The ascii column of a row.
pub open spec fn ascii_column(row: Seq<u8>) -> Seq<char> {
    row.map_values(|b: u8| ascii_of(b))
}

/// The bytes of the row at `off`.
pub open spec fn row_bytes(buf: Seq<u8>, off: int) -> Seq<u8> {
    buf.subrange(off, if off + 16 < buf.len() { off + 16 } else { buf.len() as int })
}

/// One dump row: offset, hex, ascii and region.
pub open spec fn row_text(m: MessageView, buf: Seq<u8>, off: int) -> Seq<char> {
    zero_pad(hex(off as nat), 8) + seq![' ', ' '] + pad_right(hex_column(row_bytes(buf, off)), 48)
        + seq![' '] + pad_right(ascii_column(row_bytes(buf, off)), 16) + seq![' ', ' ']
        + region_of(m, off) + seq!['\n']
}

/// The rows from offset `off` on (offsets are multiples of 16).
pub open spec fn rows_from(m: MessageView, buf: Seq<u8>, off: int) -> Seq<char>
    decreases buf.len() - off,
{
    if off < 0 || off >= buf.len() {
        Seq::empty()
    } else if off + 16 >= buf.len() {
        row_text(m, buf, off)
    } else {
        row_text(m, buf, off) + rows_from(m, buf, off + 16)
    }
}

/// The column header line of the dump.
pub open spec fn dump_header() -> Seq<char> {
    "offset    hex                                              ascii             region\n"@
}

/// The whole dump of `buf` against the structure of `m`.
pub open spec fn dump_text(m: MessageView, buf: Seq<u8>) -> Seq<char> {
    dump_header() + if buf.len() == 0 {
        "(empty input)\n"@
    } else {
        rows_from(m, buf, 0)
    }
}

fn push_row(out: &mut String, m: &Message, buf: &[u8], off: usize)
    requires
        off < buf@.len(),
    ensures
        final(out)@ == old(out)@ + row_text(m@, buf@, off as int),
{
    let ghost start = out@;
    let end = if buf.len() - off > 16 { off + 16 } else { buf.len() };
    let row = &buf[off..end];
    assert(row@ == row_bytes(buf@, off as int));
    let mut hexs = String::new();
    let mut ascii: Vec<char> = Vec::new();
    let mut i: usize = 0;
    while i < row.len()
        invariant
            i <= row@.len(),
            hexs@ == hex_column(row@.take(i as int)),
            ascii@ == ascii_column(row@.take(i as int)),
        decreases row@.len() - i,
    {
        let b = row[i];
        let h = radix_chars(b as u64, 16);
        push_zero_padded(&mut hexs, h.as_slice(), 2);
        push_char(&mut hexs, ' ');
        ascii.push(if 0x20 <= b && b <= 0x7e { b as char } else { '.' });
        assert(row@.take(i + 1).drop_last() =~= row@.take(i as int));
        i += 1;
        assert(ascii@ =~= ascii_column(row@.take(i as int)));
    }
    assert(row@.take(row@.len() as int) =~= row@);
    let o = radix_chars(off as u64, 16);
    push_zero_padded(out, o.as_slice(), 8);
    push_char(out, ' ');
    push_char(out, ' ');
    let hc = chars_of(hexs.as_str());
    push_padded_right(out, hc.as_slice(), 48);
    push_char(out, ' ');
    push_padded_right(out, ascii.as_slice(), 16);
    push_char(out, ' ');
    push_char(out, ' ');
    let region = region_at(m, off);
    push_str(out, region.as_str());
    push_char(out, '\n');
    assert(out@ =~= start + row_text(m@, buf@, off as int));
}

/// Render `buf` as an annotated hex dump against the structure of `m`.
pub fn render(m: &Message, buf: &[u8]) -> (s: String)
    ensures
        s@ == dump_text(m@, buf@),
{
    let mut out = String::new();
    push_str(&mut out, "offset    hex                                              ascii             region\n");
    if buf.len() == 0 {
        push_str(&mut out, "(empty input)\n");
        assert(out@ =~= dump_text(m@, buf@));
        return out;
    }
    let ghost head = out@;
    let mut off: usize = 0;
    while off < buf.len()
        invariant
            off <= buf@.len() + 15,
            head + rows_from(m@, buf@, 0) == out@ + rows_from(m@, buf@, off as int),
        decreases buf@.len() - off,
    {
        push_row(&mut out, m, buf, off);
        if buf.len() - off <= 16 {
            off = buf.len();
        } else {
            off += 16;
        }
        assert(out@ + rows_from(m@, buf@, off as int) =~= head + rows_from(m@, buf@, 0)) by {
            if off == buf@.len() {
                assert(rows_from(m@, buf@, off as int) =~= Seq::<char>::empty());
            }
        }
    }
    assert(rows_from(m@, buf@, off as int) =~= Seq::<char>::empty());
    assert(out@ =~= dump_text(m@, buf@));
    out
}

} // verus!
