//! The parsed message model.
//!
//! [`Message`] is the structural result of parsing a raw HTTP/1.1 byte buffer:
//! a start-line, an ordered list of [`Header`]s, and a framed [`Body`]. Every
//! part keeps the [`Span`] it came from. Each type has a view that replaces its
//! strings by their characters; the contracts of the parser and the framing
//! analysis are stated over those views.
use vstd::prelude::*;
use crate::findings::Finding;
use crate::span::Span;
use crate::text::{hex, push_char, push_zero_padded, radix_chars, zero_pad};

verus! {

/// Whether the message is a request or a response.
#[derive(Debug, Clone, Copy, PartialEq, Eq, Structural)]
pub enum MessageKind {
    Request,
    Response,
}

/// The label of a message kind.
pub open spec fn kind_label(k: MessageKind) -> &'static str {
    match k {
        MessageKind::Request => "request",
        MessageKind::Response => "response",
    }
}

impl MessageKind {
    pub fn label(self) -> (r: &'static str)
        ensures
            r == kind_label(self),
    {
        match self {
            MessageKind::Request => "request",
            MessageKind::Response => "response",
        }
    }
}

/// How the caller wants the start-line interpreted.
#[derive(Debug, Clone, Copy, PartialEq, Eq, Structural)]
pub enum ParseMode {
    /// Force request parsing.
    Request,
    /// Force response parsing.
    Response,
    /// Guess: a first token of `HTTP/x` means a response, else a request.
    Auto,
}

/// The first line of the message, split into its three fields.
#[derive(Debug, Clone, PartialEq, Eq)]
pub struct StartLine {
    /// method + target + version (request) or version + status + reason (response).
    pub fields: [String; 3],
    pub span: Span,
}

/// The model of a start-line: the characters of its three fields.
pub struct StartLineView {
    pub fields: Seq<Seq<char>>,
    pub span: Span,
}

impl View for StartLine {
    type V = StartLineView;

    open spec fn view(&self) -> StartLineView {
        StartLineView {
            fields: seq![self.fields[0]@, self.fields[1]@, self.fields[2]@],
            span: self.span,
        }
    }
}

impl StartLine {
    /// The method (request form, first field).
    pub fn method(&self) -> (r: &str)
        ensures
            r@ == self.fields[0]@,
    {
        self.fields[0].as_str()
    }

    /// The request target (request form, second field).
    pub fn target(&self) -> (r: &str)
        ensures
            r@ == self.fields[1]@,
    {
        self.fields[1].as_str()
    }

    /// The version (request form, third field).
    pub fn version(&self) -> (r: &str)
        ensures
            r@ == self.fields[2]@,
    {
        self.fields[2].as_str()
    }

    /// The version (response form, first field).
    pub fn resp_version(&self) -> (r: &str)
        ensures
            r@ == self.fields[0]@,
    {
        self.fields[0].as_str()
    }

    /// The status code (response form, second field).
    pub fn status(&self) -> (r: &str)
        ensures
            r@ == self.fields[1]@,
    {
        self.fields[1].as_str()
    }

    /// The reason phrase (response form, third field).
    pub fn reason(&self) -> (r: &str)
        ensures
            r@ == self.fields[2]@,
    {
        self.fields[2].as_str()
    }
}

/// One header field.
#[derive(Debug, Clone, PartialEq, Eq)]
pub struct Header {
    /// The field name with surrounding whitespace removed.
    pub name: String,
    /// The field value with leading/trailing optional whitespace removed.
    pub value: String,
    /// Span of the whole header line (excluding the line terminator).
    pub line_span: Span,
    /// Span of the field-name bytes.
    pub name_span: Span,
    /// Span of the field-value bytes (after the colon, OWS included).
    pub value_span: Span,
}

/// The model of a header: its name and value characters and its spans.
pub struct HeaderView {
    pub name: Seq<char>,
    pub value: Seq<char>,
    pub line_span: Span,
    pub name_span: Span,
    pub value_span: Span,
}

impl View for Header {
    type V = HeaderView;

    open spec fn view(&self) -> HeaderView {
        HeaderView {
            name: self.name@,
            value: self.value@,
            line_span: self.line_span,
            name_span: self.name_span,
            value_span: self.value_span,
        }
    }
}

/// The views of a sequence of headers.
pub open spec fn header_views(hs: Seq<Header>) -> Seq<HeaderView> {
    hs.map_values(|h: Header| h@)
}

impl Header {
    /// Case-insensitive name comparison, per RFC field-name semantics.
    pub fn is(&self, name: &str) -> (b: bool)
        ensures
            b == crate::text::ascii_ieq(self.name@, name@),
    {
        crate::text::str_ieq(self.name.as_str(), name)
    }
}

/// The framing decision plainwire reached for the body.
#[derive(Debug, Clone, Copy, PartialEq, Eq, Structural)]
pub enum Framing {
    /// No body (a request with neither Content-Length nor Transfer-Encoding).
    Empty,
    /// Fixed length from Content-Length.
    ContentLength,
    /// Chunked transfer coding.
    Chunked,
    /// Response body that runs until the connection closes.
    UntilClose,
    /// The framing headers contradict each other; length is undeterminable.
    Ambiguous,
}

/// The label of a framing decision.
pub open spec fn framing_label(f: Framing) -> &'static str {
    match f {
        Framing::Empty => "empty",
        Framing::ContentLength => "content-length",
        Framing::Chunked => "chunked",
        Framing::UntilClose => "until-close",
        Framing::Ambiguous => "ambiguous",
    }
}

impl Framing {
    pub fn label(self) -> (r: &'static str)
        ensures
            r == framing_label(self),
    {
        match self {
            Framing::Empty => "empty",
            Framing::ContentLength => "content-length",
            Framing::Chunked => "chunked",
            Framing::UntilClose => "until-close",
            Framing::Ambiguous => "ambiguous",
        }
    }
}

/// One decoded chunk of a chunked body.
#[derive(Debug, Clone, PartialEq, Eq)]
pub struct Chunk {
    /// Declared size in bytes.
    pub size: usize,
    /// Span of the chunk-size line (size + optional extension).
    pub size_span: Span,
    /// Span of the chunk data bytes.
    pub data_span: Span,
    /// Raw chunk extension text (everything after `;` on the size line), if any.
    pub extension: Option<String>,
}

/// The model of a chunk.
pub struct ChunkView {
    pub size: usize,
    pub size_span: Span,
    pub data_span: Span,
    pub extension: Option<Seq<char>>,
}

/// The characters of an optional string.
pub open spec fn opt_view(s: Option<String>) -> Option<Seq<char>> {
    match s {
        Some(t) => Some(t@),
        None => None,
    }
}

impl View for Chunk {
    type V = ChunkView;

    open spec fn view(&self) -> ChunkView {
        ChunkView {
            size: self.size,
            size_span: self.size_span,
            data_span: self.data_span,
            extension: opt_view(self.extension),
        }
    }
}

/// The views of a sequence of chunks.
pub open spec fn chunk_views(cs: Seq<Chunk>) -> Seq<ChunkView> {
    cs.map_values(|c: Chunk| c@)
}

/// The body region and how it was framed.
#[derive(Debug, Clone, PartialEq, Eq)]
pub struct Body {
    pub framing: Framing,
    /// Span of the body bytes actually present in the buffer.
    pub span: Span,
    /// For Content-Length framing, the declared length.
    pub declared_len: Option<usize>,
    /// Decoded length: Content-Length bytes present, or sum of chunk sizes.
    pub decoded_len: usize,
    /// Parsed chunks (chunked framing only).
    pub chunks: Vec<Chunk>,
    /// Whether the body is fully present (chunked terminator seen / CL satisfied).
    pub complete: bool,
}

/// The model of a body.
pub struct BodyView {
    pub framing: Framing,
    pub span: Span,
    pub declared_len: Option<usize>,
    pub decoded_len: usize,
    pub chunks: Seq<ChunkView>,
    pub complete: bool,
}

impl View for Body {
    type V = BodyView;

    open spec fn view(&self) -> BodyView {
        BodyView {
            framing: self.framing,
            span: self.span,
            declared_len: self.declared_len,
            decoded_len: self.decoded_len,
            chunks: chunk_views(self.chunks@),
            complete: self.complete,
        }
    }
}

/// The empty body anchored at `at`.
pub open spec fn empty_body(at: usize) -> BodyView {
    BodyView {
        framing: Framing::Empty,
        span: Span { start: at, end: at },
        declared_len: None,
        decoded_len: 0,
        chunks: Seq::empty(),
        complete: true,
    }
}

impl Body {
    pub fn empty(at: usize) -> (b: Body)
        ensures
            b@ == empty_body(at),
    {
        let b = Body {
            framing: Framing::Empty,
            span: Span::empty(at),
            declared_len: None,
            decoded_len: 0,
            chunks: Vec::new(),
            complete: true,
        };
        assert(b@.chunks =~= Seq::<ChunkView>::empty());
        b
    }
}

/// A fully parsed and analyzed message.
#[derive(Debug, Clone)]
pub struct Message {
    pub kind: MessageKind,
    pub start_line: StartLine,
    pub headers: Vec<Header>,
    pub body: Body,
    /// Byte offset where the body begins (after the blank line).
    pub body_start: usize,
    /// Total length of the raw input.
    pub raw_len: usize,
}

/// The model of a message.
pub struct MessageView {
    pub kind: MessageKind,
    pub start_line: StartLineView,
    pub headers: Seq<HeaderView>,
    pub body: BodyView,
    pub body_start: usize,
    pub raw_len: usize,
}

impl View for Message {
    type V = MessageView;

    open spec fn view(&self) -> MessageView {
        MessageView {
            kind: self.kind,
            start_line: self.start_line@,
            headers: header_views(self.headers@),
            body: self.body@,
            body_start: self.body_start,
            raw_len: self.raw_len,
        }
    }
}

/// The result of [`crate::analyze`]: the message plus every finding, in the
/// order they were produced (structural first, then framing).
#[derive(Debug, Clone)]
pub struct Analysis {
    pub message: Message,
    pub findings: Vec<Finding>,
}

/// How one byte is shown by [`escape_bytes`].
pub open spec fn escape_byte(b: u8) -> Seq<char> {
    if b == 13 {
        seq!['\\', 'r']
    } else if b == 10 {
        seq!['\\', 'n']
    } else if b == 9 {
        seq!['\\', 't']
    } else if b == 0 {
        seq!['\\', '0']
    } else if 0x20 <= b <= 0x7e {
        seq![b as char]
    } else {
        seq!['\\', 'x'] + zero_pad(hex(b as nat), 2)
    }
}

/// The text [`escape_bytes`] produces.
pub open spec fn escaped(bytes: Seq<u8>) -> Seq<char>
    decreases bytes.len(),
{
    if bytes.len() == 0 {
        Seq::empty()
    } else {
        escaped(bytes.drop_last()) + escape_byte(bytes.last())
    }
}

/// Append the escaped form of one byte.
pub fn push_escaped_byte(out: &mut String, b: u8)
    ensures
        final(out)@ == old(out)@ + escape_byte(b),
{
    let ghost start = out@;
    if b == 13 {
        push_char(out, '\\');
        push_char(out, 'r');
    } else if b == 10 {
        push_char(out, '\\');
        push_char(out, 'n');
    } else if b == 9 {
        push_char(out, '\\');
        push_char(out, 't');
    } else if b == 0 {
        push_char(out, '\\');
        push_char(out, '0');
    } else if 0x20 <= b && b <= 0x7e {
        push_char(out, b as char);
    } else {
        push_char(out, '\\');
        push_char(out, 'x');
        let h = radix_chars(b as u64, 16);
        push_zero_padded(out, h.as_slice(), 2);
    }
    assert(out@ =~= start + escape_byte(b));
}

/// Render a byte slice as a single printable line: printable ASCII is kept,
/// control bytes become the C-style escapes `\r \n \t \0`, everything else
/// becomes `\xHH`.
pub fn escape_bytes(bytes: &[u8]) -> (s: String)
    ensures
        s@ == escaped(bytes@),
{
    let mut out = String::new();
    let mut i: usize = 0;
    while i < bytes.len()
        invariant
            i <= bytes@.len(),
            out@ == escaped(bytes@.take(i as int)),
        decreases bytes@.len() - i,
    {
        push_escaped_byte(&mut out, bytes[i]);
        i += 1;
        assert(bytes@.take(i as int).drop_last() =~= bytes@.take(i - 1));
    }
    assert(bytes@.take(bytes@.len() as int) =~= bytes@);
    out
}

} // verus!
