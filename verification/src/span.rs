//! Byte ranges into the raw message buffer.
//!
//! Offsets are absolute into the whole input; `start` is inclusive and
//! `end` exclusive.
use vstd::prelude::*;
use crate::text::{dec, push_char, push_dec};

verus! {

/// A half-open byte range `[start, end)` into the raw message buffer.
#[derive(Debug, Clone, Copy, PartialEq, Eq, Structural)]
pub struct Span {
    pub start: usize,
    pub end: usize,
}

/// The span that `Span::new(start, end)` produces: `end` raised to `start`.
pub open spec fn span_of(start: int, end: int) -> Span
    recommends
        0 <= start <= usize::MAX,
        0 <= end <= usize::MAX,
{
    Span { start: start as usize, end: (if end < start { start } else { end }) as usize }
}

impl Span {
    /// Whether the span is ordered (`start <= end`); every constructor keeps this.
    pub open spec fn wf(self) -> bool {
        self.start <= self.end
    }

    /// The bytes that `slice` returns from `buf`: the span clamped to the buffer.
    pub open spec fn clamped(self, buf: Seq<u8>) -> Seq<u8> {
        let end = if self.end < buf.len() { self.end as int } else { buf.len() as int };
        let start = if self.start < end { self.start as int } else { end };
        buf.subrange(start, end)
    }

    /// Construct a span. `end` is clamped to be at least `start`.
    pub fn new(start: usize, end: usize) -> (s: Span)
        ensures
            s == span_of(start as int, end as int),
            s.wf(),
    {
        Span { start, end: if end < start { start } else { end } }
    }

    /// An empty span anchored at `at`.
    pub fn empty(at: usize) -> (s: Span)
        ensures
            s == (Span { start: at, end: at }),
    {
        Span { start: at, end: at }
    }

    /// Number of bytes covered.
    pub fn len(&self) -> (n: usize)
        requires
            self.wf(),
        ensures
            n == self.end - self.start,
    {
        self.end - self.start
    }

    /// Whether the span covers zero bytes.
    pub fn is_empty(&self) -> (b: bool)
        ensures
            b == (self.end == self.start),
    {
        self.end == self.start
    }

    /// Whether `offset` falls inside the half-open range.
    pub fn contains(&self, offset: usize) -> (b: bool)
        ensures
            b == (self.start <= offset && offset < self.end),
    {
        offset >= self.start && offset < self.end
    }

    /// The text of the span, `start..end` (what `{}` shows of a span).
    pub open spec fn text_spec(self) -> Seq<char> {
        dec(self.start as nat) + seq!['.', '.'] + dec(self.end as nat)
    }

    /// The span as `start..end`.
    pub fn text(&self) -> (s: String)
        ensures
            s@ == self.text_spec(),
    {
        let mut s = String::new();
        push_dec(&mut s, self.start as u64);
        push_char(&mut s, '.');
        push_char(&mut s, '.');
        push_dec(&mut s, self.end as u64);
        assert(s@ =~= self.text_spec());
        s
    }

    /// Slice the given buffer with this span, clamped to the buffer length.
    pub fn slice<'a>(&self, buf: &'a [u8]) -> (out: &'a [u8])
        ensures
            out@ == self.clamped(buf@),
    {
        let end = if self.end < buf.len() { self.end } else { buf.len() };
        let start = if self.start < end { self.start } else { end };
        &buf[start..end]
    }
}

} // verus!
