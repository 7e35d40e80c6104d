# plainwire

Craft and inspect raw HTTP/1.1 exchanges byte by byte, flagging the
Content-Length / Transfer-Encoding ambiguities behind request smuggling.

The library in `src/` is written in Verus. Every function carries a contract
over a mathematical model (`Seq<u8>` for wire bytes, `Seq<char>` for text, a
view struct for each data type), and Verus proves the code against it:

- `parser`: start-line and header block, with exact spans and the structural
  findings (bare LF / bare CR, whitespace before a colon, obsolete folding).
- `framing` and `chunked`: the RFC 9112 body-length precedence, Content-Length
  and Transfer-Encoding resolution, and the chunked-body scanner.
- `findings`: the finding catalog and severity counts.
- `annotate`, `hexdump`, `json`: the three renderings of an analysis.
- `craft`: request assembly and the desync gadgets.
- `cli`: what each subcommand reads from its arguments, prints and exits with.
- `text`, `span`, `message`: shared text helpers and the data model.
- `agreement` and `roundtrip`: how the write half and the read half fit
  together: every gadget is reported as the ambiguity it provokes, and every
  well-formed crafted request, Content-Length or chunked, inspects clean.

Proof functions named `law_*` state properties that span several functions
(for example that a message carrying both framing headers is always reported).

`app/main.rs` is the command-line program: it reads files and stdin, writes
stdout and sets the exit code, delegating every decision to `plainwire::cli`.
