//! Chunked transfer-coding analysis.
//!
//! [`scan_chunks`] walks a chunked body from `start`, parsing each
//! `chunk-size [ ";" ext ] CRLF chunk-data CRLF` up to the terminating
//! `0 CRLF ... CRLF`. It records each [`Chunk`]'s spans and reports malformed
//! sizes (`PW011`), chunk extensions (`PW012`), a truncated body (`PW018`) and
//! a missing terminator (`PW020`). It reuses the parser's line reader, so bare
//! LF terminators inside the body are handled as in the header block.
use vstd::prelude::*;
use crate::findings::{
    all_wf, code_count, code_lit, law_catalog_codes_are_distinct, lemma_code_count_push, finding_views, has_code, lemma_has_code_at, lemma_has_code_grows, note,
    push_finding, Finding, FindingView,
};
use crate::message::{chunk_views, Chunk, ChunkView};
use crate::parser::{lemma_line_at, line_at, read_line, trim_ows, trim_ows_bytes};
use crate::span::{span_of, Span};
use crate::text::{
    dec, esc_free, find, find_byte, lemma_find, lemma_no_esc_concat, lemma_radix_no_esc, no_esc,
    decode_text, text_of, push_dec, push_str,
};

verus! {

/// The outcome of scanning a chunked body.
#[derive(Debug, Clone)]
pub struct ChunkScan {
    pub chunks: Vec<Chunk>,
    /// Sum of decoded chunk sizes.
    pub decoded_len: usize,
    /// Whether the terminating 0-size chunk was seen.
    pub complete: bool,
    /// Offset just past the terminator (and any trailer section).
    pub end: usize,
    /// Number of trailer header lines after the final chunk.
    pub trailer_count: usize,
}

/// The model of a chunk scan.
pub struct ScanView {
    pub chunks: Seq<ChunkView>,
    pub decoded_len: nat,
    pub complete: bool,
    pub end: int,
    pub trailer_count: nat,
}

impl View for ChunkScan {
    type V = ScanView;

    open spec fn view(&self) -> ScanView {
        ScanView {
            chunks: chunk_views(self.chunks@),
            decoded_len: self.decoded_len as nat,
            complete: self.complete,
            end: self.end as int,
            trailer_count: self.trailer_count as nat,
        }
    }
}

// ---------------------------------------------------------------------------
// Hex chunk sizes
// ---------------------------------------------------------------------------

/// Whether a byte is an ASCII hex digit.
pub open spec fn is_hex(b: u8) -> bool {
    (48 <= b <= 57) || (65 <= b <= 70) || (97 <= b <= 102)
}

/// The value of an ASCII hex digit.
pub open spec fn hex_val(b: u8) -> nat {
    if 48 <= b <= 57 {
        (b - 48) as nat
    } else if 65 <= b <= 70 {
        (b - 55) as nat
    } else {
        (b - 87) as nat
    }
}

/// The number that a run of hex digits spells.
pub open spec fn hex_number(s: Seq<u8>) -> nat
    decreases s.len(),
{
    if s.len() == 0 {
        0
    } else {
        hex_number(s.drop_last()) * 16 + hex_val(s.last())
    }
}

/// A chunk size: a non-empty run of hex digits whose value fits in `usize`
/// (`usize::from_str_radix(s, 16)` after checking every byte is a hex digit).
pub open spec fn hex_size(s: Seq<u8>) -> Option<usize> {
    if s.len() > 0 && (forall|i: int| 0 <= i < s.len() ==> is_hex(#[trigger] s[i]))
        && hex_number(s) <= usize::MAX {
        Some(hex_number(s) as usize)
    } else {
        None
    }
}

proof fn lemma_hex_number_grows(s: Seq<u8>, i: int)
    requires
        0 <= i <= s.len(),
    ensures
        hex_number(s.take(i)) <= hex_number(s),
    decreases s.len() - i,
{
    if i < s.len() {
        lemma_hex_number_grows(s, i + 1);
        assert(s.take(i + 1).drop_last() =~= s.take(i));
    } else {
        assert(s.take(i) =~= s);
    }
}

fn parse_hex_size(bytes: &[u8]) -> (r: Option<usize>)
    ensures
        r == hex_size(bytes@),
{
    let n = bytes.len();
    if n == 0 {
        return None;
    }
    let mut i: usize = 0;
    while i < n
        invariant
            i <= n == bytes@.len(),
            forall|j: int| 0 <= j < i ==> is_hex(#[trigger] bytes@[j]),
        decreases n - i,
    {
        let b = bytes[i];
        if !((48 <= b && b <= 57) || (65 <= b && b <= 70) || (97 <= b && b <= 102)) {
            assert(!is_hex(bytes@[i as int]));
            return None;
        }
        i += 1;
    }
    let mut acc: usize = 0;
    let mut k: usize = 0;
    while k < n
        invariant
            k <= n == bytes@.len(),
            forall|j: int| 0 <= j < n ==> is_hex(#[trigger] bytes@[j]),
            acc == hex_number(bytes@.take(k as int)),
        decreases n - k,
    {
        let b = bytes[k];
        let d: usize = if 48 <= b && b <= 57 {
            (b - 48) as usize
        } else if 65 <= b && b <= 70 {
            (b - 55) as usize
        } else {
            (b - 87) as usize
        };
        assert(is_hex(bytes@[k as int]));
        assert(d == hex_val(b));
        assert(bytes@.take(k + 1).drop_last() =~= bytes@.take(k as int));
        if acc > (usize::MAX - d) / 16 {
            proof {
                lemma_hex_number_grows(bytes@, k + 1);
                assert(acc * 16 + d > usize::MAX) by (nonlinear_arith)
                    requires
                        acc > (usize::MAX - d) / 16,
                        d <= 15,
                ;
            }
            return None;
        }
        assert(acc * 16 + d <= usize::MAX) by (nonlinear_arith)
            requires
                acc <= (usize::MAX - d) / 16,
                d <= 15,
        ;
        acc = acc * 16 + d;
        k += 1;
    }
    assert(bytes@.take(n as int) =~= bytes@);
    Some(acc)
}

// ---------------------------------------------------------------------------
// The scan, as a state machine over lines
// ---------------------------------------------------------------------------

/// What the scan has built so far, and whether it has stopped.
pub struct ScanState {
    pub chunks: Seq<ChunkView>,
    pub decoded: nat,
    pub complete: bool,
    pub trailers: nat,
    pub findings: Seq<FindingView>,
    pub pos: int,
    pub stop: bool,
}

/// Trailer lines from `pos` up to and including the blank line: the position
/// after them and the updated count.
pub open spec fn trailers_from(buf: Seq<u8>, pos: int, count: nat) -> (int, nat)
    decreases buf.len() - pos,
{
    if pos < 0 || pos >= buf.len() || buf.len() > usize::MAX {
        (pos, count)
    } else {
        let tl = line_at(buf, pos);
        proof {
            lemma_line_at(buf, pos);
        }
        if tl.content.start == tl.content.end {
            (tl.full.end as int, count)
        } else {
            trailers_from(buf, tl.full.end as int, count + 1)
        }
    }
}

/// One chunk (or the terminator) read at `st.pos`.
pub open spec fn scan_step(buf: Seq<u8>, st: ScanState) -> ScanState {
    let n = buf.len() as int;
    let sl = line_at(buf, st.pos);
    let cb = sl.content.clamped(buf);
    if cb.len() == 0 {
        ScanState {
            findings: st.findings.push(
                note(11, "expected a chunk size but found a blank line"@, Some(sl.content)),
            ),
            pos: sl.full.end as int,
            stop: true,
            ..st
        }
    } else {
        let semi = find(cb, 59u8);
        let size_part = if semi < cb.len() {
            cb.subrange(0, semi)
        } else {
            cb
        };
        let ext = if semi < cb.len() {
            Some(text_of(trim_ows(cb.subrange(semi + 1, cb.len() as int))))
        } else {
            None
        };
        match hex_size(trim_ows(size_part)) {
            None => ScanState {
                findings: st.findings.push(
                    note(
                        11,
                        "chunk size `"@ + text_of(trim_ows(size_part))
                            + "` is not a hexadecimal number"@,
                        Some(sl.content),
                    ),
                ),
                pos: sl.full.end as int,
                stop: true,
                ..st
            },
            Some(size) => {
                let f1 = match ext {
                    Some(e) => st.findings.push(
                        note(12, "chunk carries an extension `;"@ + e + "`"@, Some(sl.content)),
                    ),
                    None => st.findings,
                };
                let ds = sl.full.end as int;
                if size == 0 {
                    let (p, t) = trailers_from(buf, ds, st.trailers);
                    ScanState {
                        findings: f1,
                        complete: true,
                        pos: p,
                        trailers: t,
                        stop: true,
                        ..st
                    }
                } else if size > n - ds {
                    let avail = n - ds;
                    let c = ChunkView {
                        size,
                        size_span: sl.content,
                        data_span: span_of(ds, n),
                        extension: ext,
                    };
                    ScanState {
                        chunks: st.chunks.push(c),
                        decoded: st.decoded + avail as nat,
                        findings: f1.push(
                            note(
                                18,
                                "chunk declares "@ + dec(size as nat) + " byte(s) but only "@
                                    + dec(avail as nat) + " are present"@,
                                Some(sl.content),
                            ),
                        ),
                        stop: true,
                        ..st
                    }
                } else {
                    let de = ds + size;
                    let c = ChunkView {
                        size,
                        size_span: sl.content,
                        data_span: span_of(ds, de),
                        extension: ext,
                    };
                    let after = line_at(buf, de);
                    if after.content.start != after.content.end {
                        ScanState {
                            chunks: st.chunks.push(c),
                            decoded: st.decoded + size as nat,
                            findings: f1.push(
                                note(
                                    11,
                                    "chunk data is not followed by CRLF (declared size is misaligned)"@,
                                    Some(span_of(de, after.content.end as int)),
                                ),
                            ),
                            stop: true,
                            ..st
                        }
                    } else {
                        ScanState {
                            chunks: st.chunks.push(c),
                            decoded: st.decoded + size as nat,
                            findings: f1,
                            pos: after.full.end as int,
                            ..st
                        }
                    }
                }
            },
        }
    }
}

pub proof fn lemma_scan_step_progress(buf: Seq<u8>, st: ScanState)
    requires
        0 <= st.pos < buf.len(),
        buf.len() <= usize::MAX,
    ensures
        !scan_step(buf, st).stop ==> scan_step(buf, st).pos > st.pos,
        !scan_step(buf, st).stop ==> scan_step(buf, st).pos <= buf.len(),
{
    let sl = line_at(buf, st.pos);
    lemma_line_at(buf, st.pos);
    let ds = sl.full.end as int;
    let cb = sl.content.clamped(buf);
    if cb.len() > 0 {
        let semi = find(cb, 59u8);
        let size_part = if semi < cb.len() {
            cb.subrange(0, semi)
        } else {
            cb
        };
        if let Some(size) = hex_size(trim_ows(size_part)) {
            if size != 0 && size <= buf.len() - ds {
                lemma_line_at(buf, ds + size);
            }
        }
    }
}

/// Chunks from `st.pos` until the scan stops or the buffer ends.
pub open spec fn scan_loop(buf: Seq<u8>, st: ScanState) -> ScanState
    decreases buf.len() - st.pos,
{
    if st.pos < 0 || st.pos >= buf.len() || buf.len() > usize::MAX {
        st
    } else {
        let s2 = scan_step(buf, st);
        if s2.stop {
            s2
        } else {
            proof {
                lemma_scan_step_progress(buf, st);
            }
            scan_loop(buf, s2)
        }
    }
}

/// The scan's result for a chunked body at `start`, and the findings it adds.
pub open spec fn scan_spec(buf: Seq<u8>, start: int) -> (ScanView, Seq<FindingView>) {
    let n = buf.len() as int;
    let st = scan_loop(
        buf,
        ScanState {
            chunks: Seq::empty(),
            decoded: 0,
            complete: false,
            trailers: 0,
            findings: Seq::empty(),
            pos: start,
            stop: false,
        },
    );
    let f = if !st.complete {
        st.findings.push(
            note(
                20,
                "chunked body never reached the terminating 0-size chunk"@,
                Some(span_of(if start < n { start } else { n }, n)),
            ),
        )
    } else {
        st.findings
    };
    (
        ScanView {
            chunks: st.chunks,
            decoded_len: st.decoded,
            complete: st.complete,
            end: st.pos,
            trailer_count: st.trailers,
        },
        f,
    )
}

proof fn lemma_step_keeps_findings(buf: Seq<u8>, st: ScanState)
    ensures
        st.findings.len() <= scan_step(buf, st).findings.len(),
        forall|i: int|
            0 <= i < st.findings.len() ==> #[trigger] scan_step(buf, st).findings[i]
                == st.findings[i],
{
}

/// The chunk scanner never drops a finding: what was found before a chunk
/// stays in front of what the whole scan finds.
pub proof fn law_scan_keeps_findings(buf: Seq<u8>, st: ScanState)
    ensures
        st.findings.len() <= scan_loop(buf, st).findings.len(),
        forall|i: int|
            0 <= i < st.findings.len() ==> #[trigger] scan_loop(buf, st).findings[i]
                == st.findings[i],
    decreases buf.len() - st.pos,
{
    if 0 <= st.pos < buf.len() && buf.len() <= usize::MAX {
        let s2 = scan_step(buf, st);
        lemma_step_keeps_findings(buf, st);
        if !s2.stop {
            lemma_scan_step_progress(buf, st);
            law_scan_keeps_findings(buf, s2);
        }
    }
}

/// A chunk-size line that is blank, or whose size is not a hexadecimal
/// number, is reported as PW011.
pub proof fn law_bad_chunk_size_is_reported(buf: Seq<u8>, st: ScanState)
    requires
        0 <= st.pos < buf.len(),
        buf.len() <= usize::MAX,
        ({
            let cb = line_at(buf, st.pos).content.clamped(buf);
            let semi = find(cb, 59u8);
            cb.len() == 0 || hex_size(
                trim_ows(
                    if semi < cb.len() {
                        cb.subrange(0, semi)
                    } else {
                        cb
                    },
                ),
            ) is None
        }),
    ensures
        has_code(scan_loop(buf, st).findings, 11),
{
    let s2 = scan_step(buf, st);
    lemma_has_code_at(s2.findings, s2.findings.len() - 1, 11);
}

/// Chunk data that is not followed by its CRLF (the declared size does not
/// line up with the data) is reported as PW011.
pub proof fn law_misaligned_chunk_is_reported(buf: Seq<u8>, st: ScanState, size: usize)
    requires
        0 <= st.pos < buf.len(),
        buf.len() <= usize::MAX,
        ({
            let sl = line_at(buf, st.pos);
            let cb = sl.content.clamped(buf);
            let semi = find(cb, 59u8);
            let ds = sl.full.end as int;
            &&& cb.len() > 0
            &&& hex_size(
                trim_ows(
                    if semi < cb.len() {
                        cb.subrange(0, semi)
                    } else {
                        cb
                    },
                ),
            ) == Some(size)
            &&& 0 < size <= buf.len() - ds
            &&& line_at(buf, ds + size).content.start != line_at(buf, ds + size).content.end
        }),
    ensures
        has_code(scan_loop(buf, st).findings, 11),
{
    let s2 = scan_step(buf, st);
    lemma_has_code_at(s2.findings, s2.findings.len() - 1, 11);
}

/// A chunk that declares more bytes than the buffer still holds is reported
/// as PW018 (truncated body).
pub proof fn law_truncated_chunk_is_reported(buf: Seq<u8>, st: ScanState, size: usize)
    requires
        0 <= st.pos < buf.len(),
        buf.len() <= usize::MAX,
        ({
            let sl = line_at(buf, st.pos);
            let cb = sl.content.clamped(buf);
            let semi = find(cb, 59u8);
            &&& cb.len() > 0
            &&& hex_size(
                trim_ows(
                    if semi < cb.len() {
                        cb.subrange(0, semi)
                    } else {
                        cb
                    },
                ),
            ) == Some(size)
            &&& size > buf.len() - sl.full.end
        }),
    ensures
        has_code(scan_loop(buf, st).findings, 18),
{
    lemma_line_at(buf, st.pos);
    let s2 = scan_step(buf, st);
    lemma_has_code_at(s2.findings, s2.findings.len() - 1, 18);
}

/// A chunk-size line that carries a `;` extension is reported as PW012.
pub proof fn law_chunk_extension_is_reported(buf: Seq<u8>, st: ScanState)
    requires
        0 <= st.pos < buf.len(),
        buf.len() <= usize::MAX,
        ({
            let cb = line_at(buf, st.pos).content.clamped(buf);
            let semi = find(cb, 59u8);
            cb.len() > 0 && semi < cb.len() && hex_size(trim_ows(cb.subrange(0, semi))) is Some
        }),
    ensures
        has_code(scan_loop(buf, st).findings, 12),
{
    let s2 = scan_step(buf, st);
    let k = st.findings.len() as int;
    lemma_find(line_at(buf, st.pos).content.clamped(buf), 59u8);
    assert(s2.findings[k].code == code_lit(12));
    lemma_has_code_at(s2.findings, k, 12);
    if !s2.stop {
        lemma_scan_step_progress(buf, st);
        law_scan_keeps_findings(buf, s2);
        lemma_has_code_grows(s2.findings, scan_loop(buf, st).findings, 12);
    }
}

/// The total declared size of a run of chunks.
pub open spec fn sum_sizes(cs: Seq<ChunkView>) -> nat
    decreases cs.len(),
{
    if cs.len() == 0 {
        0
    } else {
        sum_sizes(cs.drop_last()) + cs.last().size as nat
    }
}

proof fn lemma_loop_keeps_sum(buf: Seq<u8>, st: ScanState)
    requires
        !st.complete,
        st.decoded == sum_sizes(st.chunks),
    ensures
        scan_loop(buf, st).complete ==> scan_loop(buf, st).decoded == sum_sizes(
            scan_loop(buf, st).chunks,
        ),
    decreases buf.len() - st.pos,
{
    if 0 <= st.pos < buf.len() && buf.len() <= usize::MAX {
        let s2 = scan_step(buf, st);
        if !s2.stop {
            lemma_scan_step_progress(buf, st);
            assert(s2.chunks.drop_last() =~= st.chunks);
            lemma_loop_keeps_sum(buf, s2);
        }
    }
}

/// A chunked body that reached its terminator decodes to exactly the sum of
/// its chunks' declared sizes.
pub proof fn law_complete_body_decodes_every_chunk(buf: Seq<u8>, start: int)
    ensures
        scan_spec(buf, start).0.complete ==> scan_spec(buf, start).0.decoded_len == sum_sizes(
            scan_spec(buf, start).0.chunks,
        ),
{
    let init = ScanState {
        chunks: Seq::empty(),
        decoded: 0,
        complete: false,
        trailers: 0,
        findings: Seq::empty(),
        pos: start,
        stop: false,
    };
    lemma_loop_keeps_sum(buf, init);
}

/// The exec state as a `ScanState`.
pub open spec fn state_of(
    chunks: Seq<Chunk>,
    decoded: usize,
    complete: bool,
    trailers: usize,
    findings: Seq<FindingView>,
    pos: usize,
) -> ScanState {
    ScanState {
        chunks: chunk_views(chunks),
        decoded: decoded as nat,
        complete,
        trailers: trailers as nat,
        findings,
        pos: pos as int,
        stop: false,
    }
}

/// Two states agree on everything but the stop flag.
pub open spec fn same_result(a: ScanState, b: ScanState) -> bool {
    a.chunks == b.chunks && a.decoded == b.decoded && a.complete == b.complete && a.trailers
        == b.trailers && a.findings == b.findings && a.pos == b.pos
}

fn skip_trailers(buf: &[u8], pos: usize, count: usize) -> (r: (usize, usize))
    requires
        count <= pos,
    ensures
        (r.0 as int, r.1 as nat) == trailers_from(buf@, pos as int, count as nat),
        r.1 <= r.0,
        pos <= r.0,
        r.0 <= buf@.len() || r.0 == pos,
{
    let n = buf.len();
    let mut p = pos;
    let mut c = count;
    loop
        invariant_except_break
            pos <= p,
            c <= p,
            p <= n || p == pos,
            n == buf@.len(),
            trailers_from(buf@, p as int, c as nat) == trailers_from(
                buf@,
                pos as int,
                count as nat,
            ),
        ensures
            (p as int, c as nat) == trailers_from(buf@, pos as int, count as nat),
            c <= p,
            pos <= p,
            p <= n || p == pos,
        decreases n - p,
    {
        if p >= n {
            break;
        }
        let tl = read_line(buf, p);
        proof {
            lemma_line_at(buf@, p as int);
        }
        p = tl.full.end;
        if tl.content.is_empty() {
            break;
        }
        c += 1;
    }
    (p, c)
}

fn trim_string(bytes: &[u8]) -> (s: String)
    ensures
        s@ == text_of(trim_ows(bytes@)),
        esc_free(bytes@) ==> no_esc(s@),
{
    proof {
        if esc_free(bytes@) {
            crate::parser::lemma_esc_free_trim_ows(bytes@);
        }
    }
    decode_text(trim_ows_bytes(bytes))
}

/// The sum of the chunks' data-span lengths.
pub open spec fn sum_data(cs: Seq<ChunkView>) -> nat
    decreases cs.len(),
{
    if cs.len() == 0 {
        0
    } else {
        sum_data(cs.drop_last()) + (cs.last().data_span.end - cs.last().data_span.start) as nat
    }
}

/// Each chunk's size line comes before its data, every span lies in
/// `[start, n]`, and each chunk ends before the next begins.
pub open spec fn chunks_laid_out(cs: Seq<ChunkView>, start: int, n: int) -> bool {
    &&& forall|i: int|
        0 <= i < cs.len() ==> start <= (#[trigger] cs[i]).size_span.start <= cs[i].size_span.end
            <= cs[i].data_span.start <= cs[i].data_span.end <= n
    &&& forall|i: int, j: int|
        0 <= i < j < cs.len() ==> (#[trigger] cs[i]).data_span.end <= (#[trigger] cs[j]).size_span.start
}

/// What holds of every state the scan passes through.
spec fn scan_inv(buf: Seq<u8>, start: int, st: ScanState) -> bool {
    &&& start <= st.pos <= buf.len()
    &&& chunks_laid_out(st.chunks, start, buf.len() as int)
    &&& st.decoded == sum_data(st.chunks)
    &&& code_count(st.findings, 20) == 0
    &&& code_count(st.findings, 1) == 0
    &&& !st.stop ==> forall|i: int| 0 <= i < st.chunks.len() ==> (#[trigger] st.chunks[i]).data_span.end <= st.pos
}

proof fn lemma_trailers_bound(buf: Seq<u8>, pos: int, count: nat)
    requires
        0 <= pos <= buf.len(),
        buf.len() <= usize::MAX,
    ensures
        pos <= trailers_from(buf, pos, count).0 <= buf.len(),
    decreases buf.len() - pos,
{
    if pos < buf.len() {
        lemma_line_at(buf, pos);
        let tl = line_at(buf, pos);
        if tl.content.start != tl.content.end {
            lemma_trailers_bound(buf, tl.full.end as int, count + 1);
        }
    }
}

proof fn lemma_push_chunk(cs: Seq<ChunkView>, c: ChunkView, start: int, n: int, pos: int)
    requires
        chunks_laid_out(cs, start, n),
        forall|i: int| 0 <= i < cs.len() ==> (#[trigger] cs[i]).data_span.end <= pos,
        start <= pos <= c.size_span.start,
        c.size_span.start <= c.size_span.end <= c.data_span.start <= c.data_span.end <= n,
    ensures
        chunks_laid_out(cs.push(c), start, n),
        sum_data(cs.push(c)) == sum_data(cs) + (c.data_span.end - c.data_span.start),
{
    let cs2 = cs.push(c);
    assert(cs2.drop_last() =~= cs);
    assert forall|i: int| 0 <= i < cs2.len() implies start <= (#[trigger] cs2[i]).size_span.start
        <= cs2[i].size_span.end <= cs2[i].data_span.start <= cs2[i].data_span.end <= n by {
        if i < cs.len() {
            assert(cs2[i] == cs[i]);
        }
    }
    assert forall|i: int, j: int| 0 <= i < j < cs2.len() implies (#[trigger] cs2[i]).data_span.end
        <= (#[trigger] cs2[j]).size_span.start by {
        assert(cs2[i] == cs[i]);
        if j < cs.len() {
            assert(cs2[j] == cs[j]);
        }
    }
}

proof fn lemma_scan_step_inv(buf: Seq<u8>, start: int, st: ScanState)
    requires
        scan_inv(buf, start, st),
        !st.stop,
        0 <= st.pos < buf.len(),
        buf.len() <= usize::MAX,
    ensures
        scan_inv(buf, start, scan_step(buf, st)),
{
    let n = buf.len() as int;
    let sl = line_at(buf, st.pos);
    lemma_line_at(buf, st.pos);
    let cb = sl.content.clamped(buf);
    let ds = sl.full.end as int;
    law_catalog_codes_are_distinct(11, 20);
    law_catalog_codes_are_distinct(12, 20);
    law_catalog_codes_are_distinct(18, 20);
    law_catalog_codes_are_distinct(1, 11);
    law_catalog_codes_are_distinct(1, 12);
    law_catalog_codes_are_distinct(1, 18);
    let st2 = scan_step(buf, st);
    if cb.len() == 0 {
        lemma_code_count_push(st.findings, st2.findings.last(), 20);
        lemma_code_count_push(st.findings, st2.findings.last(), 1);
        assert(st.findings.push(st2.findings.last()) == st2.findings);
    } else {
        let semi = find(cb, 59u8);
        let size_part = if semi < cb.len() {
            cb.subrange(0, semi)
        } else {
            cb
        };
        let ext = if semi < cb.len() {
            Some(text_of(trim_ows(cb.subrange(semi + 1, cb.len() as int))))
        } else {
            None
        };
        match hex_size(trim_ows(size_part)) {
            None => {
                lemma_code_count_push(st.findings, st2.findings.last(), 20);
        lemma_code_count_push(st.findings, st2.findings.last(), 1);
                assert(st.findings.push(st2.findings.last()) == st2.findings);
            },
            Some(size) => {
                let f1 = match ext {
                    Some(e) => st.findings.push(
                        note(12, "chunk carries an extension `;"@ + e + "`"@, Some(sl.content)),
                    ),
                    None => st.findings,
                };
                if ext is Some {
                    lemma_code_count_push(st.findings, f1.last(), 20);
                    lemma_code_count_push(st.findings, f1.last(), 1);
                    assert(st.findings.push(f1.last()) == f1);
                }
                assert(code_count(f1, 20) == 0);
                assert(code_count(f1, 1) == 0);
                if size == 0 {
                    lemma_trailers_bound(buf, ds, st.trailers);
                } else if size > n - ds {
                    let c = ChunkView {
                        size,
                        size_span: sl.content,
                        data_span: span_of(ds, n),
                        extension: ext,
                    };
                    lemma_push_chunk(st.chunks, c, start, n, st.pos);
                    lemma_code_count_push(f1, st2.findings.last(), 20);
                    lemma_code_count_push(f1, st2.findings.last(), 1);
                    assert(f1.push(st2.findings.last()) == st2.findings);
                } else {
                    let de = ds + size;
                    let c = ChunkView {
                        size,
                        size_span: sl.content,
                        data_span: span_of(ds, de),
                        extension: ext,
                    };
                    lemma_push_chunk(st.chunks, c, start, n, st.pos);
                    lemma_line_at(buf, de);
                    let after = line_at(buf, de);
                    if after.content.start != after.content.end {
                        lemma_code_count_push(f1, st2.findings.last(), 20);
                    lemma_code_count_push(f1, st2.findings.last(), 1);
                        assert(f1.push(st2.findings.last()) == st2.findings);
                    } else {
                        let cs2 = st.chunks.push(c);
                        assert forall|i: int| 0 <= i < cs2.len() implies (#[trigger] cs2[i]).data_span.end
                            <= st2.pos by {
                            if i < st.chunks.len() {
                                assert(cs2[i] == st.chunks[i]);
                            }
                        }
                    }
                }
            },
        }
    }
}

proof fn lemma_scan_loop_inv(buf: Seq<u8>, start: int, st: ScanState)
    requires
        scan_inv(buf, start, st),
        !st.stop,
        buf.len() <= usize::MAX,
    ensures
        scan_inv(buf, start, scan_loop(buf, st)),
    decreases buf.len() - st.pos,
{
    if 0 <= st.pos < buf.len() {
        lemma_scan_step_inv(buf, start, st);
        let s2 = scan_step(buf, st);
        if !s2.stop {
            lemma_scan_step_progress(buf, st);
            lemma_scan_loop_inv(buf, start, s2);
        }
    }
}

/// What a scan from `start` (inside the buffer) yields: it ends between
/// `start` and the end of the buffer; each chunk's size line comes before its
/// data, all spans lie in `[start, buf.len()]` and each chunk ends before the
/// next begins; the decoded length is the total length of the data spans; and
/// the scan reports PW020 exactly once if the body is incomplete, and never
/// otherwise.
pub proof fn law_scan_layout(buf: Seq<u8>, start: int)
    requires
        0 <= start <= buf.len() <= usize::MAX,
    ensures
        start <= scan_spec(buf, start).0.end <= buf.len(),
        chunks_laid_out(scan_spec(buf, start).0.chunks, start, buf.len() as int),
        scan_spec(buf, start).0.decoded_len == sum_data(scan_spec(buf, start).0.chunks),
        code_count(scan_spec(buf, start).1, 20) == (if scan_spec(buf, start).0.complete {
            0nat
        } else {
            1nat
        }),
        code_count(scan_spec(buf, start).1, 1) == 0,
{
    let init = ScanState {
        chunks: Seq::empty(),
        decoded: 0,
        complete: false,
        trailers: 0,
        findings: Seq::empty(),
        pos: start,
        stop: false,
    };
    assert(code_count(init.findings, 20) == 0);
    assert(code_count(init.findings, 1) == 0);
    assert(sum_data(init.chunks) == 0);
    lemma_scan_loop_inv(buf, start, init);
    let st = scan_loop(buf, init);
    if !st.complete {
        let n = buf.len() as int;
        let f = note(
            20,
            "chunked body never reached the terminating 0-size chunk"@,
            Some(span_of(if start < n { start } else { n }, n)),
        );
        lemma_code_count_push(st.findings, f, 20);
        lemma_code_count_push(st.findings, f, 1);
        law_catalog_codes_are_distinct(1, 20);
    }
}


/// The findings from index `k` on carry no ESC in their details.
pub open spec fn details_ok(fs: Seq<FindingView>, k: int) -> bool {
    forall|i: int| k <= i < fs.len() ==> no_esc(#[trigger] fs[i].detail)
}

proof fn lemma_details_push(fs: Seq<FindingView>, f: FindingView, k: int)
    requires
        0 <= k,
        details_ok(fs, k),
        no_esc(f.detail),
    ensures
        details_ok(fs.push(f), k),
{
    assert forall|i: int| k <= i < fs.push(f).len() implies no_esc(#[trigger] fs.push(f)[i].detail) by {
        if i < fs.len() {
            assert(fs.push(f)[i] == fs[i]);
        }
    }
}

/// Scan a chunked body beginning at byte `start`, appending its findings.
#[verifier::rlimit(100)]
pub fn scan_chunks(buf: &[u8], start: usize, findings: &mut Vec<Finding>) -> (scan: ChunkScan)
    ensures
        all_wf(old(findings)@) ==> all_wf(final(findings)@),
        scan@ == scan_spec(buf@, start as int).0,
        finding_views(final(findings)@) == finding_views(old(findings)@) + scan_spec(
            buf@,
            start as int,
        ).1,
        scan.end <= buf@.len() || scan.end == start,
        start <= scan.end,
        esc_free(buf@) ==> forall|i: int|
            0 <= i < scan_spec(buf@, start as int).1.len() ==> no_esc(
                #[trigger] scan_spec(buf@, start as int).1[i].detail,
            ),
{
    broadcast use lemma_no_esc_concat;

    let n = buf.len();
    let mut chunks: Vec<Chunk> = Vec::new();
    let mut decoded: usize = 0;
    let mut complete = false;
    let mut trailer_count: usize = 0;
    let mut pos = start;
    let ghost f0 = finding_views(findings@);
    let ghost w0 = all_wf(findings@);
    let ghost init = ScanState {
        chunks: Seq::empty(),
        decoded: 0,
        complete: false,
        trailers: 0,
        findings: Seq::empty(),
        pos: start as int,
        stop: false,
    };
    let ghost target = scan_loop(buf@, init);
    assert(chunk_views(chunks@) =~= Seq::<ChunkView>::empty());
    assert(finding_views(findings@).subrange(f0.len() as int, f0.len() as int) =~= Seq::<
        FindingView,
    >::empty());
    loop
        invariant_except_break
            n == buf@.len(),
            start <= pos,
            pos <= n || pos == start,
            decoded <= pos - start,
            trailer_count <= pos,
            w0 ==> all_wf(findings@),
            esc_free(buf@) ==> details_ok(finding_views(findings@), f0.len() as int),
            f0.len() <= finding_views(findings@).len(),
            finding_views(findings@).subrange(0, f0.len() as int) == f0,
            scan_loop(
                buf@,
                state_of(
                    chunks@,
                    decoded,
                    complete,
                    trailer_count,
                    finding_views(findings@).subrange(
                        f0.len() as int,
                        finding_views(findings@).len() as int,
                    ),
                    pos,
                ),
            ) == target,
        ensures
            start <= pos,
            pos <= n || pos == start,
            w0 ==> all_wf(findings@),
            esc_free(buf@) ==> details_ok(finding_views(findings@), f0.len() as int),
            f0.len() <= finding_views(findings@).len(),
            finding_views(findings@).subrange(0, f0.len() as int) == f0,
            same_result(
                target,
                state_of(
                    chunks@,
                    decoded,
                    complete,
                    trailer_count,
                    finding_views(findings@).subrange(
                        f0.len() as int,
                        finding_views(findings@).len() as int,
                    ),
                    pos,
                ),
            ),
        decreases n - pos,
    {
        let ghost fv = finding_views(findings@);
        let ghost cur = state_of(
            chunks@,
            decoded,
            complete,
            trailer_count,
            fv.subrange(f0.len() as int, fv.len() as int),
            pos,
        );
        if pos >= n {
            break;
        }
        let ghost step = scan_step(buf@, cur);
        let size_line = read_line(buf, pos);
        proof {
            lemma_line_at(buf@, pos as int);
        }
        let cbytes = size_line.content.slice(buf);
        proof {
            if esc_free(buf@) {
                let c = size_line.content;
                crate::parser::lemma_esc_free_subrange(buf@, c.start as int, c.end as int);
                assert(cbytes@ =~= buf@.subrange(c.start as int, c.end as int));
            }
        }
        if cbytes.len() == 0 {
            let ghost fb = finding_views(findings@);
            push_finding(
                findings,
                Finding::with_text(
                    11,
                    "expected a chunk size but found a blank line",
                    Some(size_line.content),
                ),
            );
            proof {
                if esc_free(buf@) {
                    assert(no_esc(finding_views(findings@).last().detail)) by {
                        reveal_strlit("expected a chunk size but found a blank line");
                        reveal_strlit("chunk data is not followed by CRLF (declared size is misaligned)");
                    }
                    lemma_details_push(fb, finding_views(findings@).last(), f0.len() as int);
                    assert(finding_views(findings@) =~= fb.push(finding_views(findings@).last()));
                }
            }
            pos = size_line.full.end;
            assert(finding_views(findings@).subrange(0, f0.len() as int) =~= f0);
            assert(finding_views(findings@).subrange(
                f0.len() as int,
                finding_views(findings@).len() as int,
            ) =~= step.findings);
            break;
        }
        let semi = find_byte(cbytes, 59u8);
        proof {
            lemma_find(cbytes@, 59u8);
        }
        let size_part: &[u8] = if semi < cbytes.len() {
            &cbytes[0..semi]
        } else {
            cbytes
        };
        proof {
            if esc_free(cbytes@) && semi < cbytes.len() {
                crate::parser::lemma_esc_free_subrange(cbytes@, semi + 1, cbytes@.len() as int);
                assert(cbytes@.subrange(semi + 1, cbytes@.len() as int) =~= cbytes@.subrange(
                    semi + 1,
                    cbytes@.len() as int,
                ));
            }
            if esc_free(cbytes@) {
                crate::parser::lemma_esc_free_subrange(cbytes@, 0, semi as int);
            }
        }
        let extension: Option<String> = if semi < cbytes.len() {
            Some(trim_string(&cbytes[semi + 1..cbytes.len()]))
        } else {
            None
        };
        let trimmed = trim_ows_bytes(size_part);
        let parsed = parse_hex_size(trimmed);
        if parsed.is_none() {
            let mut d = String::new();
            push_str(&mut d, "chunk size `");
            let t = trim_string(size_part);
            d.append(t.as_str());
            push_str(&mut d, "` is not a hexadecimal number");
            let ghost fb = finding_views(findings@);
            proof {
                if esc_free(buf@) {
                    assert(size_part@ =~= (if semi < cbytes.len() { cbytes@.subrange(0, semi as int) } else { cbytes@ }));
                    assert(no_esc(d@)) by {
                        reveal_strlit("chunk size `");
                        reveal_strlit("` is not a hexadecimal number");
                    }
                }
            }
            push_finding(findings, Finding::from_entry(11, d, Some(size_line.content)));
            proof {
                if esc_free(buf@) {
                    lemma_details_push(fb, finding_views(findings@).last(), f0.len() as int);
                    assert(finding_views(findings@) =~= fb.push(finding_views(findings@).last()));
                }
            }
            pos = size_line.full.end;
            assert(finding_views(findings@).subrange(0, f0.len() as int) =~= f0);
            assert(finding_views(findings@).subrange(
                f0.len() as int,
                finding_views(findings@).len() as int,
            ) =~= step.findings);
            break;
        }
        let size = parsed.unwrap();
        match &extension {
            Some(ext) => {
                let mut d = String::new();
                push_str(&mut d, "chunk carries an extension `;");
                d.append(ext.as_str());
                push_str(&mut d, "`");
                let ghost fb = finding_views(findings@);
                proof {
                    if esc_free(buf@) {
                        assert(no_esc(d@)) by {
                            reveal_strlit("chunk carries an extension `;");
                            reveal_strlit("`");
                        }
                    }
                }
                push_finding(findings, Finding::from_entry(12, d, Some(size_line.content)));
                proof {
                    if esc_free(buf@) {
                        lemma_details_push(fb, finding_views(findings@).last(), f0.len() as int);
                        assert(finding_views(findings@) =~= fb.push(finding_views(findings@).last()));
                    }
                }
            },
            None => {},
        }
        let ghost fv1 = finding_views(findings@);
        assert(fv1.subrange(0, f0.len() as int) =~= f0);
        if size == 0 {
            complete = true;
            let (p, t) = skip_trailers(buf, size_line.full.end, trailer_count);
            pos = p;
            trailer_count = t;
            assert(fv1.subrange(f0.len() as int, fv1.len() as int) =~= step.findings);
            break;
        }
        let data_start = size_line.full.end;
        if size > n - data_start {
            let avail = n - data_start;
            let mut d = String::new();
            push_str(&mut d, "chunk declares ");
            push_dec(&mut d, size as u64);
            push_str(&mut d, " byte(s) but only ");
            push_dec(&mut d, avail as u64);
            push_str(&mut d, " are present");
            let ghost fb = finding_views(findings@);
            proof {
                assert(no_esc(d@)) by {
                    lemma_radix_no_esc(size as nat, 10);
                    lemma_radix_no_esc(avail as nat, 10);
                    reveal_strlit("chunk declares ");
                    reveal_strlit(" byte(s) but only ");
                    reveal_strlit(" are present");
                }
            }
            push_finding(findings, Finding::from_entry(18, d, Some(size_line.content)));
            proof {
                if esc_free(buf@) {
                    lemma_details_push(fb, finding_views(findings@).last(), f0.len() as int);
                    assert(finding_views(findings@) =~= fb.push(finding_views(findings@).last()));
                }
            }
            let c = Chunk {
                size,
                size_span: size_line.content,
                data_span: Span::new(data_start, n),
                extension,
            };
            let ghost cv = chunk_views(chunks@);
            chunks.push(c);
            assert(chunk_views(chunks@) =~= cv.push(c@));
            decoded += avail;
            assert(finding_views(findings@).subrange(0, f0.len() as int) =~= f0);
            assert(finding_views(findings@).subrange(
                f0.len() as int,
                finding_views(findings@).len() as int,
            ) =~= step.findings);
            break;
        }
        let data_end = data_start + size;
        let c = Chunk {
            size,
            size_span: size_line.content,
            data_span: Span::new(data_start, data_end),
            extension,
        };
        let ghost cv = chunk_views(chunks@);
        chunks.push(c);
        assert(chunk_views(chunks@) =~= cv.push(c@));
        decoded += size;
        let after = read_line(buf, data_end);
        proof {
            lemma_line_at(buf@, data_end as int);
        }
        if !after.content.is_empty() {
            let ghost fb = finding_views(findings@);
            push_finding(
                findings,
                Finding::with_text(
                    11,
                    "chunk data is not followed by CRLF (declared size is misaligned)",
                    Some(Span::new(data_end, after.content.end)),
                ),
            );
            proof {
                if esc_free(buf@) {
                    assert(no_esc(finding_views(findings@).last().detail)) by {
                        reveal_strlit("expected a chunk size but found a blank line");
                        reveal_strlit("chunk data is not followed by CRLF (declared size is misaligned)");
                    }
                    lemma_details_push(fb, finding_views(findings@).last(), f0.len() as int);
                    assert(finding_views(findings@) =~= fb.push(finding_views(findings@).last()));
                }
            }
            assert(finding_views(findings@).subrange(0, f0.len() as int) =~= f0);
            assert(finding_views(findings@).subrange(
                f0.len() as int,
                finding_views(findings@).len() as int,
            ) =~= step.findings);
            break;
        }
        pos = after.full.end;
        assert(fv1.subrange(f0.len() as int, fv1.len() as int) =~= step.findings);
        proof {
            lemma_scan_step_progress(buf@, cur);
        }
    }
    let ghost fv = finding_views(findings@);
    if !complete {
        push_finding(
            findings,
            Finding::with_text(
                20,
                "chunked body never reached the terminating 0-size chunk",
                Some(Span::new(if start < n { start } else { n }, n)),
            ),
        );
    }
    proof {
        if esc_free(buf@) && !complete {
            assert(no_esc(finding_views(findings@).last().detail)) by {
                reveal_strlit("chunked body never reached the terminating 0-size chunk");
            }
            lemma_details_push(fv, finding_views(findings@).last(), f0.len() as int);
            assert(finding_views(findings@) =~= fv.push(finding_views(findings@).last()));
        }
    }
    assert(finding_views(findings@) =~= f0 + scan_spec(buf@, start as int).1) by {
        assert(fv =~= f0 + fv.subrange(f0.len() as int, fv.len() as int));
    }
    proof {
        if esc_free(buf@) {
            let sf = scan_spec(buf@, start as int).1;
            assert forall|i: int| 0 <= i < sf.len() implies no_esc(#[trigger] sf[i].detail) by {
                assert(finding_views(findings@)[f0.len() + i] == sf[i]);
            }
        }
    }
    ChunkScan { chunks, decoded_len: decoded, complete, end: pos, trailer_count }
}

} // verus!
