//! plainwire: craft and inspect raw HTTP/1.1 exchanges byte by byte, flagging
//! the Content-Length / Transfer-Encoding ambiguities behind request
//! smuggling.
//!
//! - [`parser`] turns raw bytes into a structural [`message::Message`] and the
//!   line-level findings (bad endings, whitespace before a colon, obs-fold).
//! - [`framing`] applies the RFC 9112 body-length precedence and reports the
//!   CL/TE ambiguities, delegating chunk parsing to [`chunked`].
//! - [`annotate`], [`hexdump`] and [`json`] render the result.
//! - [`craft`] builds raw requests, including known desync gadgets.
//! - [`cli`] holds what each subcommand decides: how it reads its arguments,
//!   what it prints and which exit code it ends with.
//!
//! [`analyze`] ties parsing and framing together into a [`message::Analysis`].
#![allow(unused_imports)]

pub mod agreement;
pub mod annotate;
pub mod chunked;
pub mod cli;
pub mod craft;
pub mod findings;
pub mod framing;
pub mod hexdump;
pub mod json;
pub mod message;
pub mod parser;
pub mod roundtrip;
pub mod span;
pub mod text;

use vstd::prelude::*;
use crate::findings::{all_wf, finding_views, FindingView};
use crate::message::{Analysis, MessageView, ParseMode};

verus! {

/// What [`analyze`] computes: the parsed message with its framed body, and
/// every finding (structural first, then framing).
pub open spec fn analyze_spec(bytes: Seq<u8>, mode: ParseMode) -> (MessageView, Seq<FindingView>) {
    let (m, f) = parser::parse_spec(bytes, mode);
    let (body, fb) = framing::framing_spec(m, bytes);
    (MessageView { body, ..m }, f + fb)
}

/// Parse and framing-analyze a raw HTTP/1.1 message.
///
/// This never fails: any input produces an [`Analysis`]. Malformed input is
/// reported through findings rather than an error. Input without an ESC byte
/// renders without colour as text without an ESC character.
pub fn analyze(bytes: &[u8], mode: ParseMode) -> (a: Analysis)
    ensures
        a.message@ == analyze_spec(bytes@, mode).0,
        finding_views(a.findings@) == analyze_spec(bytes@, mode).1,
        all_wf(a.findings@),
        text::esc_free(bytes@) ==> text::no_esc(
            annotate::render_text(a.message@, a.findings@, false),
        ),
{
    let (mut message, mut findings) = parser::parse(bytes, mode);
    let ghost m0 = message@;
    let ghost f0 = finding_views(findings@);
    framing::analyze(&mut message, &mut findings, bytes);
    proof {
        if text::esc_free(bytes@) {
            let fs = findings@;
            let fv = finding_views(fs);
            let ff = framing::framing_spec(m0, bytes@).1;
            assert(fv == f0 + ff);
            assert(fv.len() == fs.len());
            assert(forall|i: int| 0 <= i < m0.headers.len() ==> text::no_esc(#[trigger] m0.headers[i].value));
            assert(framing::details_no_esc(ff));
            assert forall|i: int| 0 <= i < fs.len() implies text::no_esc(
                (#[trigger] fs[i]).detail@,
            ) by {
                assert(fv[i] == fs[i]@);
                if i < f0.len() {
                    assert(fv[i] == f0[i]);
                    assert(text::no_esc(f0[i].detail));
                } else {
                    assert(fv[i] == ff[i - f0.len()]);
                    assert(text::no_esc(ff[i - f0.len()].detail));
                }
                assert(fv[i].detail == fs[i].detail@);
            }
            assert forall|i: int| 0 <= i < message@.headers.len() implies text::no_esc(
                (#[trigger] message@.headers[i]).name,
            ) by {
                assert(message@.headers[i] == m0.headers[i]);
            }
            annotate::law_plain_render_has_no_escape(message@, fs);
        }
    }
    Analysis { message, findings }
}

} // verus!
