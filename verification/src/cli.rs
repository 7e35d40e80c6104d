//! The decisions behind the command line: how each subcommand's arguments are
//! read, what text it prints, and which exit code it ends with. Reading files,
//! writing to the terminal and the process itself are the program's business;
//! everything here is a function of the arguments and the analysed input.
use vstd::prelude::*;
use vstd::utf8::encode_utf8;
use crate::annotate::{findings_text, render, render_findings, render_text, Palette};
use crate::craft::{
    build, build_spec, default_view, gadget, gadget_list, gadget_named, gadget_text,
    header_pairs, string_from, ClMode, CraftSpec, CraftView, Gadget,
};
use crate::findings::{
    catalog, count_sev, entry_spec, severity_label, severity_rank, Counts, Finding, FindingSpec,
    Severity,
};
use crate::hexdump;
use crate::json::{analysis_jv, findings_jv, findings_to_json, json_text, to_json};
use crate::message::{Analysis, ParseMode};
use crate::text::{
    chars_of, copy_range, find, find_char, lower_all, lower_chars, pad_right, push_char,
    push_padded_right, push_str, str_eq, string_of, trim, trim_chars,
};

verus! {

broadcast use vstd::string::group_string_axioms;

// ---------------------------------------------------------------------------
// Errors
// ---------------------------------------------------------------------------

/// Error carrying the intended process exit code.
pub struct CliError {
    pub message: String,
    pub code: i32,
}

/// The model of a [`CliError`].
pub struct ErrorView {
    pub message: Seq<char>,
    pub code: i32,
}

impl View for CliError {
    type V = ErrorView;

    open spec fn view(&self) -> ErrorView {
        ErrorView { message: self.message@, code: self.code }
    }
}

/// The message for an argument a subcommand does not accept.
pub open spec fn unknown_option(a: Seq<char>, name: Seq<char>) -> ErrorView {
    usage("unknown option '"@ + a + "' for "@ + name)
}

/// A usage error: bad arguments, exit code 2.
pub open spec fn usage(message: Seq<char>) -> ErrorView {
    ErrorView { message, code: 2 }
}

/// A usage error (exit code 2).
pub fn usage_err(message: String) -> (e: CliError)
    ensures
        e@ == usage(message@),
{
    CliError { message, code: 2 }
}

/// A run-time error such as an unreadable input (exit code 1).
pub fn run_err(message: String) -> (e: CliError)
    ensures
        e@ == (ErrorView { message: message@, code: 1 }),
{
    CliError { message, code: 1 }
}

/// A `Result` with its error taken by its model.
pub open spec fn result_view<T>(r: Result<T, CliError>) -> Result<T, ErrorView> {
    match r {
        Ok(t) => Ok(t),
        Err(e) => Err(e@),
    }
}

/// `"<before>" + s + "<after>"` as a new string.
fn wrapped(before: &str, s: &str, after: &str) -> (t: String)
    ensures
        t@ == before@ + s@ + after@,
{
    let mut t = String::new();
    push_str(&mut t, before);
    push_str(&mut t, s);
    push_str(&mut t, after);
    t
}

fn unknown_option_err(a: &str, name: &str) -> (e: CliError)
    ensures
        e@ == unknown_option(a@, name@),
{
    let mut t = wrapped("unknown option '", a, "' for ");
    push_str(&mut t, name);
    usage_err(t)
}

// ---------------------------------------------------------------------------
// lint: --fail-on and the exit code
// ---------------------------------------------------------------------------

/// The threshold a lowercased `--fail-on` value names (`None` inside: never
/// fail), or `None` when it names none.
pub open spec fn fail_on_named(n: Seq<char>) -> Option<Option<Severity>> {
    if n == "error"@ {
        Some(Some(Severity::Error))
    } else if n == "warn"@ {
        Some(Some(Severity::Warn))
    } else if n == "info"@ {
        Some(Some(Severity::Info))
    } else if n == "never"@ {
        Some(None)
    } else {
        None
    }
}

/// What `--fail-on <v>` means, or the usage error it earns.
pub open spec fn fail_on_spec(v: Seq<char>) -> Result<Option<Severity>, ErrorView> {
    match fail_on_named(lower_all(v)) {
        Some(t) => Ok(t),
        None => Err(
            usage("--fail-on expects error|warn|info|never, got '"@ + lower_all(v) + "'"@),
        ),
    }
}

/// Parse a `--fail-on` value, ignoring ASCII case.
pub fn parse_fail_on(v: &str) -> (r: Result<Option<Severity>, CliError>)
    ensures
        result_view(r) == fail_on_spec(v@),
{
    let cs = chars_of(v);
    let low = lower_chars(cs.as_slice());
    let n = string_of(low.as_slice());
    let s = n.as_str();
    if str_eq(s, "error") {
        Ok(Some(Severity::Error))
    } else if str_eq(s, "warn") {
        Ok(Some(Severity::Warn))
    } else if str_eq(s, "info") {
        Ok(Some(Severity::Info))
    } else if str_eq(s, "never") {
        Ok(None)
    } else {
        Err(usage_err(wrapped("--fail-on expects error|warn|info|never, got '", s, "'")))
    }
}

/// Whether `lint` fails: some finding is at least as severe as the threshold.
pub open spec fn lint_fails(fs: Seq<Finding>, fail_on: Option<Severity>) -> bool {
    match fail_on {
        Some(t) => exists|i: int|
            0 <= i < fs.len() && severity_rank(#[trigger] fs[i].severity) >= severity_rank(t),
        None => false,
    }
}

proof fn lemma_count_positive(fs: Seq<Finding>, s: Severity)
    ensures
        count_sev(fs, s) > 0 <==> exists|i: int| 0 <= i < fs.len() && #[trigger] fs[i].severity == s,
    decreases fs.len(),
{
    if fs.len() > 0 {
        let init = fs.drop_last();
        lemma_count_positive(init, s);
        if exists|i: int| 0 <= i < init.len() && #[trigger] init[i].severity == s {
            let i = choose|i: int| 0 <= i < init.len() && #[trigger] init[i].severity == s;
            assert(fs[i].severity == s);
        }
        if exists|i: int| 0 <= i < fs.len() && #[trigger] fs[i].severity == s {
            let i = choose|i: int| 0 <= i < fs.len() && #[trigger] fs[i].severity == s;
            if i < fs.len() - 1 {
                assert(init[i].severity == s);
            }
        }
    }
}

/// The exit code of `lint`: 1 when a finding reaches the threshold, else 0.
pub fn lint_exit_code(findings: &[Finding], fail_on: Option<Severity>) -> (code: i32)
    ensures
        code == if lint_fails(findings@, fail_on) {
            1i32
        } else {
            0i32
        },
{
    let counts = Counts::of(findings);
    let failed = match fail_on {
        Some(threshold) => counts.any_at_least(threshold),
        None => false,
    };
    proof {
        let fs = findings@;
        lemma_count_positive(fs, Severity::Error);
        lemma_count_positive(fs, Severity::Warn);
        lemma_count_positive(fs, Severity::Info);
        if let Some(t) = fail_on {
            if lint_fails(fs, fail_on) {
                let i = choose|i: int|
                    0 <= i < fs.len() && severity_rank(#[trigger] fs[i].severity) >= severity_rank(
                        t,
                    );
                assert(fs[i].severity == Severity::Error || fs[i].severity == Severity::Warn
                    || fs[i].severity == Severity::Info);
            }
            if failed {
                if counts.error > 0 && severity_rank(t) <= 3 {
                    let i = choose|i: int|
                        0 <= i < fs.len() && #[trigger] fs[i].severity == Severity::Error;
                    assert(severity_rank(fs[i].severity) >= severity_rank(t));
                } else if counts.warn > 0 && severity_rank(t) <= 2 {
                    let i = choose|i: int|
                        0 <= i < fs.len() && #[trigger] fs[i].severity == Severity::Warn;
                    assert(severity_rank(fs[i].severity) >= severity_rank(t));
                } else {
                    let i = choose|i: int|
                        0 <= i < fs.len() && #[trigger] fs[i].severity == Severity::Info;
                    assert(severity_rank(fs[i].severity) >= severity_rank(t));
                }
            }
        }
    }
    if failed {
        1
    } else {
        0
    }
}

// ---------------------------------------------------------------------------
// inspect / lint / hexdump: reading the options
// ---------------------------------------------------------------------------

/// The subcommands that read a message.
#[derive(Debug, Clone, Copy, PartialEq, Eq, Structural)]
pub enum ReadCommand {
    Inspect,
    Lint,
    Hexdump,
}

pub open spec fn command_name(c: ReadCommand) -> Seq<char> {
    match c {
        ReadCommand::Inspect => "inspect"@,
        ReadCommand::Lint => "lint"@,
        ReadCommand::Hexdump => "hexdump"@,
    }
}

fn command_str(c: ReadCommand) -> (s: &'static str)
    ensures
        s@ == command_name(c),
{
    match c {
        ReadCommand::Inspect => "inspect",
        ReadCommand::Lint => "lint",
        ReadCommand::Hexdump => "hexdump",
    }
}

/// The options of a read-side subcommand.
pub struct ReadOpts {
    /// The input file; `None` or `-` means stdin.
    pub path: Option<String>,
    pub mode: ParseMode,
    pub json: bool,
    pub hex: bool,
    /// `Some` when colour was forced on or off.
    pub color: Option<bool>,
    pub fail_on: Option<Severity>,
}

/// The model of [`ReadOpts`].
pub struct ReadOptsView {
    pub path: Option<Seq<char>>,
    pub mode: ParseMode,
    pub json: bool,
    pub hex: bool,
    pub color: Option<bool>,
    pub fail_on: Option<Severity>,
}

impl View for ReadOpts {
    type V = ReadOptsView;

    open spec fn view(&self) -> ReadOptsView {
        ReadOptsView {
            path: match self.path {
                Some(p) => Some(p@),
                None => None,
            },
            mode: self.mode,
            json: self.json,
            hex: self.hex,
            color: self.color,
            fail_on: self.fail_on,
        }
    }
}

/// The options before any argument is read.
pub open spec fn initial_read_opts() -> ReadOptsView {
    ReadOptsView {
        path: None,
        mode: ParseMode::Auto,
        json: false,
        hex: false,
        color: None,
        fail_on: Some(Severity::Error),
    }
}

/// The characters of each argument.
pub open spec fn arg_views(args: Seq<String>) -> Seq<Seq<char>> {
    args.map_values(|a: String| a@)
}

/// An argument that can name the input: anything not starting with `-`, or
/// `-` itself.
pub open spec fn is_positional(a: Seq<char>) -> bool {
    a.len() == 0 || a[0] != '-' || a == "-"@
}

/// Reading the arguments of `cmd` from `args[i..]` with options `st` so far:
/// the options, `None` when help was asked for, or a usage error.
pub open spec fn read_args_from(
    cmd: ReadCommand,
    args: Seq<Seq<char>>,
    i: int,
    st: ReadOptsView,
) -> Result<Option<ReadOptsView>, ErrorView>
    decreases args.len() - i,
{
    if i < 0 || i >= args.len() {
        Ok(Some(st))
    } else {
        let a = args[i];
        if a == "--request"@ {
            read_args_from(cmd, args, i + 1, ReadOptsView { mode: ParseMode::Request, ..st })
        } else if a == "--response"@ {
            read_args_from(cmd, args, i + 1, ReadOptsView { mode: ParseMode::Response, ..st })
        } else if a == "--json"@ && cmd != ReadCommand::Hexdump {
            read_args_from(cmd, args, i + 1, ReadOptsView { json: true, ..st })
        } else if a == "--hex"@ && cmd == ReadCommand::Inspect {
            read_args_from(cmd, args, i + 1, ReadOptsView { hex: true, ..st })
        } else if a == "--color"@ && cmd == ReadCommand::Inspect {
            read_args_from(cmd, args, i + 1, ReadOptsView { color: Some(true), ..st })
        } else if a == "--no-color"@ && cmd == ReadCommand::Inspect {
            read_args_from(cmd, args, i + 1, ReadOptsView { color: Some(false), ..st })
        } else if a == "--fail-on"@ && cmd == ReadCommand::Lint {
            if i + 1 >= args.len() {
                Err(usage("--fail-on requires a value"@))
            } else {
                match fail_on_spec(args[i + 1]) {
                    Ok(t) => read_args_from(cmd, args, i + 2, ReadOptsView { fail_on: t, ..st }),
                    Err(e) => Err(e),
                }
            }
        } else if a == "-h"@ || a == "--help"@ {
            Ok(None)
        } else if st.path is None && is_positional(a) {
            read_args_from(cmd, args, i + 1, ReadOptsView { path: Some(a), ..st })
        } else {
            Err(unknown_option(a, command_name(cmd)))
        }
    }
}

/// The model of what reading a read-side command's arguments returns.
pub open spec fn read_result_view(r: Result<Option<ReadOpts>, CliError>) -> Result<
    Option<ReadOptsView>,
    ErrorView,
> {
    match r {
        Ok(Some(o)) => Ok(Some(o@)),
        Ok(None) => Ok(None),
        Err(e) => Err(e@),
    }
}

fn is_positional_arg(a: &str) -> (r: bool)
    ensures
        r == is_positional(a@),
{
    let cs = chars_of(a);
    cs.len() == 0 || cs[0] != '-' || str_eq(a, "-")
}

/// Read the options of `inspect`, `lint` or `hexdump`. `Ok(None)` means help
/// was asked for.
pub fn parse_read_args(cmd: ReadCommand, args: &[String]) -> (r: Result<
    Option<ReadOpts>,
    CliError,
>)
    ensures
        read_result_view(r) == read_args_from(cmd, arg_views(args@), 0, initial_read_opts()),
{
    let ghost av = arg_views(args@);
    let mut st = ReadOpts {
        path: None,
        mode: ParseMode::Auto,
        json: false,
        hex: false,
        color: None,
        fail_on: Some(Severity::Error),
    };
    let mut i: usize = 0;
    while i < args.len()
        invariant
            i <= args@.len(),
            av == arg_views(args@),
            av.len() == args@.len(),
            read_args_from(cmd, av, 0, initial_read_opts()) == read_args_from(cmd, av, i as int, st@),
        decreases args@.len() - i,
    {
        let a = args[i].as_str();
        assert(av[i as int] == a@);
        if str_eq(a, "--request") {
            st.mode = ParseMode::Request;
        } else if str_eq(a, "--response") {
            st.mode = ParseMode::Response;
        } else if str_eq(a, "--json") && cmd != ReadCommand::Hexdump {
            st.json = true;
        } else if str_eq(a, "--hex") && cmd == ReadCommand::Inspect {
            st.hex = true;
        } else if str_eq(a, "--color") && cmd == ReadCommand::Inspect {
            st.color = Some(true);
        } else if str_eq(a, "--no-color") && cmd == ReadCommand::Inspect {
            st.color = Some(false);
        } else if str_eq(a, "--fail-on") && cmd == ReadCommand::Lint {
            if i + 1 >= args.len() {
                return Err(usage_err(string_from("--fail-on requires a value")));
            }
            assert(av[i + 1] == args@[i + 1]@);
            match parse_fail_on(args[i + 1].as_str()) {
                Ok(t) => {
                    st.fail_on = t;
                    i += 1;
                },
                Err(e) => {
                    return Err(e);
                },
            }
        } else if str_eq(a, "-h") || str_eq(a, "--help") {
            return Ok(None);
        } else if st.path.is_none() && is_positional_arg(a) {
            st.path = Some(args[i].clone());
        } else {
            return Err(unknown_option_err(a, command_str(cmd)));
        }
        i += 1;
    }
    Ok(Some(st))
}

// ---------------------------------------------------------------------------
// craft: reading the options
// ---------------------------------------------------------------------------

/// What `craft` has read so far.
pub struct CraftState {
    pub v: CraftView,
    /// Whether `-X`/`--method` was given (a body then keeps the method).
    pub method_set: bool,
    pub gadget: Option<Gadget>,
}

/// The usage error of a flag given without its value.
pub open spec fn missing_value(flag: Seq<char>) -> ErrorView {
    usage(flag + " requires a value"@)
}

/// `-H 'K: V'`: split at the first colon, both halves trimmed; `None`
/// without a colon.
pub open spec fn split_header(raw: Seq<char>) -> Option<(Seq<char>, Seq<char>)> {
    let k = find(raw, ':');
    if k >= raw.len() {
        None
    } else {
        Some((trim(raw.subrange(0, k)), trim(raw.subrange(k + 1, raw.len() as int))))
    }
}

/// The flags of `craft` that take a value.
pub open spec fn takes_value(a: Seq<char>) -> bool {
    a == "-X"@ || a == "--method"@ || a == "--target"@ || a == "--host"@ || a == "--http"@ || a
        == "-H"@ || a == "--header"@ || a == "--body"@ || a == "--smuggle"@
}

/// The long name of a value flag, as error messages give it.
pub open spec fn long_flag(a: Seq<char>) -> Seq<char> {
    if a == "-X"@ {
        "--method"@
    } else if a == "-H"@ {
        "--header"@
    } else {
        a
    }
}

/// The effect of a value flag `a` with value `x`.
pub open spec fn craft_value_step(a: Seq<char>, x: Seq<char>, st: CraftState) -> Result<
    CraftState,
    ErrorView,
> {
    if a == "-X"@ || a == "--method"@ {
        Ok(CraftState { v: CraftView { method: x, ..st.v }, method_set: true, ..st })
    } else if a == "--target"@ {
        Ok(CraftState { v: CraftView { target: x, ..st.v }, ..st })
    } else if a == "--host"@ {
        Ok(CraftState { v: CraftView { host: x, ..st.v }, ..st })
    } else if a == "--http"@ {
        Ok(CraftState { v: CraftView { version: x, ..st.v }, ..st })
    } else if a == "-H"@ || a == "--header"@ {
        match split_header(x) {
            Some(kv) => Ok(CraftState { v: CraftView { headers: st.v.headers.push(kv), ..st.v }, ..st }),
            None => Err(usage("--header expects 'Key: Value', got '"@ + x + "'"@)),
        }
    } else if a == "--body"@ {
        Ok(
            CraftState {
                v: CraftView {
                    body: encode_utf8(x),
                    method: if st.method_set {
                        st.v.method
                    } else {
                        "POST"@
                    },
                    ..st.v
                },
                ..st
            },
        )
    } else {
        match gadget_named(lower_all(x)) {
            Some(g) => Ok(CraftState { gadget: Some(g), ..st }),
            None => Err(usage("unknown gadget '"@ + x + "'"@)),
        }
    }
}

/// Reading `craft`'s arguments from `args[i..]`: the request and the gadget
/// chosen, `None` when help was asked for, or a usage error.
pub open spec fn craft_args_from(args: Seq<Seq<char>>, i: int, st: CraftState) -> Result<
    Option<(CraftView, Option<Gadget>)>,
    ErrorView,
>
    decreases args.len() - i,
{
    if i < 0 || i >= args.len() {
        Ok(Some((st.v, st.gadget)))
    } else {
        let a = args[i];
        if takes_value(a) {
            if i + 1 >= args.len() {
                Err(missing_value(long_flag(a)))
            } else {
                match craft_value_step(a, args[i + 1], st) {
                    Ok(next) => craft_args_from(args, i + 2, next),
                    Err(e) => Err(e),
                }
            }
        } else if a == "--chunked"@ {
            craft_args_from(args, i + 1, CraftState { v: CraftView { chunked: true, ..st.v }, ..st })
        } else if a == "--no-content-length"@ {
            craft_args_from(
                args,
                i + 1,
                CraftState { v: CraftView { content_length: ClMode::Omit, ..st.v }, ..st },
            )
        } else if a == "-h"@ || a == "--help"@ {
            Ok(None)
        } else {
            Err(unknown_option(a, "craft"@))
        }
    }
}

/// What `craft` was asked for: a request, and a gadget to emit instead.
pub struct CraftArgs {
    pub spec: CraftSpec,
    pub gadget: Option<Gadget>,
}

/// The model of what reading `craft`'s arguments returns.
pub open spec fn craft_result_view(r: Result<Option<CraftArgs>, CliError>) -> Result<
    Option<(CraftView, Option<Gadget>)>,
    ErrorView,
> {
    match r {
        Ok(Some(c)) => Ok(Some((c.spec@, c.gadget))),
        Ok(None) => Ok(None),
        Err(e) => Err(e@),
    }
}

/// The state before any argument: the default request.
pub open spec fn initial_craft_state(d: CraftView) -> CraftState {
    CraftState { v: d, method_set: false, gadget: None }
}

fn split_header_exec(raw: &str) -> (r: Option<(String, String)>)
    ensures
        match r {
            Some(kv) => split_header(raw@) == Some((kv.0@, kv.1@)),
            None => split_header(raw@) is None,
        },
{
    let cs = chars_of(raw);
    let k = find_char(cs.as_slice(), ':');
    if k >= cs.len() {
        return None;
    }
    let key = copy_range(cs.as_slice(), 0, k);
    let val = copy_range(cs.as_slice(), k + 1, cs.len());
    let key = trim_chars(key.as_slice());
    let val = trim_chars(val.as_slice());
    Some((string_of(key.as_slice()), string_of(val.as_slice())))
}

/// Apply the value flag `a` with value `x` to the request being read.
fn craft_value(
    a: &str,
    x: &String,
    spec: &mut CraftSpec,
    method_set: &mut bool,
    g: &mut Option<Gadget>,
) -> (r: Result<(), CliError>)
    requires
        takes_value(a@),
    ensures
        match craft_value_step(
            a@,
            x@,
            CraftState { v: old(spec)@, method_set: *old(method_set), gadget: *old(g) },
        ) {
            Ok(next) => r is Ok && final(spec)@ == next.v && *final(method_set) == next.method_set
                && *final(g) == next.gadget,
            Err(e) => r matches Err(err) && err@ == e,
        },
{
    if str_eq(a, "-X") || str_eq(a, "--method") {
        spec.method = x.clone();
        *method_set = true;
    } else if str_eq(a, "--target") {
        spec.target = x.clone();
    } else if str_eq(a, "--host") {
        spec.host = x.clone();
    } else if str_eq(a, "--http") {
        spec.version = x.clone();
    } else if str_eq(a, "-H") || str_eq(a, "--header") {
        match split_header_exec(x.as_str()) {
            Some(kv) => {
                let ghost before = spec.headers@;
                spec.headers.push(kv);
                assert(header_pairs(spec.headers@) =~= header_pairs(before).push((kv.0@, kv.1@)));
            },
            None => {
                return Err(
                    usage_err(wrapped("--header expects 'Key: Value', got '", x.as_str(), "'")),
                );
            },
        }
    } else if str_eq(a, "--body") {
        spec.body = crate::craft::bytes_of(x.as_str());
        if !*method_set {
            spec.method = string_from("POST");
        }
    } else {
        match Gadget::parse(x.as_str()) {
            Some(found) => {
                *g = Some(found);
            },
            None => {
                return Err(usage_err(wrapped("unknown gadget '", x.as_str(), "'")));
            },
        }
    }
    Ok(())
}

fn takes_value_arg(a: &str) -> (r: bool)
    ensures
        r == takes_value(a@),
{
    str_eq(a, "-X") || str_eq(a, "--method") || str_eq(a, "--target") || str_eq(a, "--host")
        || str_eq(a, "--http") || str_eq(a, "-H") || str_eq(a, "--header") || str_eq(a, "--body")
        || str_eq(a, "--smuggle")
}

fn missing_value_err(a: &str) -> (e: CliError)
    ensures
        e@ == missing_value(long_flag(a@)),
{
    let flag = if str_eq(a, "-X") {
        "--method"
    } else if str_eq(a, "-H") {
        "--header"
    } else {
        a
    };
    let mut t = string_from(flag);
    push_str(&mut t, " requires a value");
    usage_err(t)
}

/// Read the options of `craft`. `Ok(None)` means help was asked for.
pub fn parse_craft_args(args: &[String]) -> (r: Result<Option<CraftArgs>, CliError>)
    ensures
        craft_result_view(r) == craft_args_from(
            arg_views(args@),
            0,
            initial_craft_state(default_view()),
        ),
{
    let ghost av = arg_views(args@);
    let mut spec = CraftSpec::default();
    let ghost d = spec@;
    let mut method_set = false;
    let mut g: Option<Gadget> = None;
    let mut i: usize = 0;
    while i < args.len()
        invariant
            i <= args@.len(),
            av == arg_views(args@),
            av.len() == args@.len(),
            d == default_view(),
            craft_args_from(av, 0, initial_craft_state(d)) == craft_args_from(
                av,
                i as int,
                CraftState { v: spec@, method_set, gadget: g },
            ),
        decreases args@.len() - i,
    {
        let a = args[i].as_str();
        assert(av[i as int] == a@);
        if takes_value_arg(a) {
            if i + 1 >= args.len() {
                return Err(missing_value_err(a));
            }
            assert(av[i + 1] == args@[i + 1]@);
            match craft_value(a, &args[i + 1], &mut spec, &mut method_set, &mut g) {
                Ok(()) => {},
                Err(e) => {
                    return Err(e);
                },
            }
            i += 1;
        } else if str_eq(a, "--chunked") {
            spec.chunked = true;
        } else if str_eq(a, "--no-content-length") {
            spec.content_length = ClMode::Omit;
        } else if str_eq(a, "-h") || str_eq(a, "--help") {
            return Ok(None);
        } else {
            return Err(unknown_option_err(a, "craft"));
        }
        i += 1;
    }
    Ok(Some(CraftArgs { spec, gadget: g }))
}

/// The bytes `craft` writes: the gadget when one was chosen (with the
/// request's host and target), else the assembled request.
pub open spec fn craft_output_spec(v: CraftView, g: Option<Gadget>) -> Seq<u8> {
    match g {
        Some(g) => encode_utf8(gadget_text(g, v.host, v.target)),
        None => build_spec(v),
    }
}

/// The raw bytes `craft` writes for what was read.
pub fn craft_output(c: &CraftArgs) -> (out: Vec<u8>)
    ensures
        out@ == craft_output_spec(c.spec@, c.gadget),
{
    match c.gadget {
        Some(g) => gadget(g, c.spec.host.as_str(), c.spec.target.as_str()),
        None => build(&c.spec),
    }
}

// ---------------------------------------------------------------------------
// What the read-side commands print
// ---------------------------------------------------------------------------

/// What `inspect` prints: the JSON document, or the annotated breakdown
/// followed, with `--hex`, by a blank line and the hex dump.
pub open spec fn inspect_text(
    m: crate::message::MessageView,
    fs: Seq<Finding>,
    buf: Seq<u8>,
    json: bool,
    hex: bool,
    color: bool,
) -> Seq<char> {
    if json {
        json_text(analysis_jv(m, fs), 0) + seq!['\n']
    } else {
        render_text(m, fs, color) + if hex {
            seq!['\n'] + hexdump::dump_text(m, buf)
        } else {
            Seq::empty()
        }
    }
}

/// The text `inspect` writes for `analysis` of `buf`.
pub fn inspect_output(
    analysis: &Analysis,
    buf: &[u8],
    json: bool,
    hex: bool,
    color: bool,
) -> (s: String)
    ensures
        s@ == inspect_text(analysis.message@, analysis.findings@, buf@, json, hex, color),
{
    if json {
        return to_json(analysis);
    }
    let pal = Palette::new(color);
    let mut out = render(analysis, &pal);
    if hex {
        push_char(&mut out, '\n');
        let d = hexdump::render(&analysis.message, buf);
        push_str(&mut out, d.as_str());
    }
    out
}

/// What `lint` prints: the findings as a JSON array, or as the grouped list.
pub open spec fn lint_text(fs: Seq<Finding>, json: bool, color: bool) -> Seq<char> {
    if json {
        json_text(findings_jv(fs), 0) + seq!['\n']
    } else {
        findings_text(fs, color)
    }
}

/// The text `lint` writes for `findings`.
pub fn lint_output(findings: &[Finding], json: bool, color: bool) -> (s: String)
    ensures
        s@ == lint_text(findings@, json, color),
{
    if json {
        findings_to_json(findings)
    } else {
        let pal = Palette::new(color);
        render_findings(findings, &pal)
    }
}

// ---------------------------------------------------------------------------
// The read-side commands as wholes
// ---------------------------------------------------------------------------

/// What `lint` does with the input `buf` its options point to: it analyses
/// the input in the options' parse mode, prints the findings (as JSON when
/// asked, coloured when `color`), and exits with 1 exactly when a finding
/// reaches the `--fail-on` threshold, else 0.
pub fn lint_run(opts: &ReadOpts, buf: &[u8], color: bool) -> (r: (Analysis, String, i32))
    ensures
        r.0.message@ == crate::analyze_spec(buf@, opts.mode).0,
        crate::findings::finding_views(r.0.findings@) == crate::analyze_spec(buf@, opts.mode).1,
        crate::findings::all_wf(r.0.findings@),
        r.1@ == lint_text(r.0.findings@, opts.json, color),
        r.2 == if lint_fails(r.0.findings@, opts.fail_on) {
            1i32
        } else {
            0i32
        },
{
    let a = crate::analyze(buf, opts.mode);
    let text = lint_output(&a.findings, opts.json, color);
    let code = lint_exit_code(&a.findings, opts.fail_on);
    (a, text, code)
}

/// What `inspect` does with the input `buf` its options point to: it
/// analyses the input in the options' parse mode and prints the analysis as
/// JSON when asked, otherwise as the annotated breakdown (coloured as forced
/// by the options, else as `tty` says), followed by the hex dump when asked.
pub fn inspect_run(opts: &ReadOpts, buf: &[u8], tty: bool) -> (r: (Analysis, String))
    ensures
        r.0.message@ == crate::analyze_spec(buf@, opts.mode).0,
        crate::findings::finding_views(r.0.findings@) == crate::analyze_spec(buf@, opts.mode).1,
        crate::findings::all_wf(r.0.findings@),
        r.1@ == inspect_text(
            r.0.message@,
            r.0.findings@,
            buf@,
            opts.json,
            opts.hex,
            match opts.color {
                Some(c) => c,
                None => tty,
            },
        ),
{
    let a = crate::analyze(buf, opts.mode);
    let color = match opts.color {
        Some(c) => c,
        None => tty,
    };
    let text = inspect_output(&a, buf, opts.json, opts.hex, color);
    (a, text)
}

// ---------------------------------------------------------------------------
// codes
// ---------------------------------------------------------------------------

/// One catalog entry as `codes` lists it.
pub open spec fn catalog_entry_text(e: FindingSpec) -> Seq<char> {
    e.code@ + "  "@ + pad_right(severity_label(e.severity)@, 5) + "  "@ + e.slug@ + "\n       "@
        + e.title@ + "\n       "@ + e.description@ + "\n\n"@
}

/// The first `n` catalog entries as `codes` lists them.
pub open spec fn catalog_text(n: nat) -> Seq<char>
    decreases n,
{
    if n == 0 {
        Seq::empty()
    } else {
        catalog_text((n - 1) as nat) + catalog_entry_text(entry_spec(n as u8))
    }
}

/// The gadget lines of `codes`, each name padded to 12.
pub open spec fn gadget_lines(gs: Seq<(Seq<char>, Seq<char>)>) -> Seq<char>
    decreases gs.len(),
{
    if gs.len() == 0 {
        Seq::empty()
    } else {
        gadget_lines(gs.drop_last()) + "    "@ + pad_right(gs.last().0, 12) + "  "@ + gs.last().1
            + seq!['\n']
    }
}

/// Everything `codes` prints.
pub open spec fn codes_text_spec() -> Seq<char> {
    "plainwire finding codes\n\n"@ + catalog_text(20) + "smuggling gadgets (plainwire craft --smuggle <name>):\n"@
        + gadget_lines(gadget_list())
}

fn push_catalog_entry(out: &mut String, e: &FindingSpec)
    ensures
        final(out)@ == old(out)@ + catalog_entry_text(*e),
{
    let ghost start = out@;
    push_str(out, e.code);
    push_str(out, "  ");
    let label = chars_of(e.severity.label());
    push_padded_right(out, label.as_slice(), 5);
    push_str(out, "  ");
    push_str(out, e.slug);
    push_str(out, "\n       ");
    push_str(out, e.title);
    push_str(out, "\n       ");
    push_str(out, e.description);
    push_str(out, "\n\n");
    assert(out@ =~= start + catalog_entry_text(*e));
}

/// The text of the `codes` subcommand: every finding code, then the gadgets.
pub fn codes_text() -> (s: String)
    ensures
        s@ == codes_text_spec(),
{
    let mut out = string_from("plainwire finding codes\n\n");
    let ghost s0 = out@;
    let cat = catalog();
    let mut i: usize = 0;
    while i < cat.len()
        invariant
            i <= cat@.len(),
            cat@.len() == 20,
            forall|k: int| 0 <= k < 20 ==> #[trigger] cat@[k] == entry_spec((k + 1) as u8),
            out@ == s0 + catalog_text(i as nat),
        decreases cat@.len() - i,
    {
        push_catalog_entry(&mut out, &cat[i]);
        i += 1;
        assert(out@ =~= s0 + catalog_text(i as nat));
    }
    push_str(&mut out, "smuggling gadgets (plainwire craft --smuggle <name>):\n");
    let ghost s1 = out@;
    let gs = Gadget::all();
    let ghost gv = gs@.map_values(|p: (&'static str, &'static str)| (p.0@, p.1@));
    let mut k: usize = 0;
    while k < gs.len()
        invariant
            k <= gs@.len(),
            gv == gs@.map_values(|p: (&'static str, &'static str)| (p.0@, p.1@)),
            out@ == s1 + gadget_lines(gv.take(k as int)),
        decreases gs@.len() - k,
    {
        let (name, desc) = gs[k];
        push_str(&mut out, "    ");
        let nc = chars_of(name);
        push_padded_right(&mut out, nc.as_slice(), 12);
        push_str(&mut out, "  ");
        push_str(&mut out, desc);
        push_char(&mut out, '\n');
        assert(gv.take(k + 1).drop_last() =~= gv.take(k as int));
        k += 1;
        assert(out@ =~= s1 + gadget_lines(gv.take(k as int)));
    }
    assert(gv.take(gs@.len() as int) =~= gv);
    assert(out@ =~= codes_text_spec());
    out
}

/// Whether `codes` was asked for help: some argument is `-h` or `--help`.
pub fn codes_wants_help(args: &[String]) -> (r: bool)
    ensures
        r == exists|i: int|
            0 <= i < args@.len() && (#[trigger] args@[i]@ == "-h"@ || args@[i]@ == "--help"@),
{
    let mut i: usize = 0;
    while i < args.len()
        invariant
            i <= args@.len(),
            forall|j: int| 0 <= j < i ==> !(#[trigger] args@[j]@ == "-h"@ || args@[j]@ == "--help"@),
        decreases args@.len() - i,
    {
        if str_eq(args[i].as_str(), "-h") || str_eq(args[i].as_str(), "--help") {
            return true;
        }
        i += 1;
    }
    false
}

/// The lint gate, composed from its `--fail-on` value: for a value that
/// parses (ignoring ASCII case), `never` never fails, `info` fails on any
/// finding, `warn` on a warning or an error, and `error` only on an error.
pub proof fn law_lint_gate(fs: Seq<Finding>, v: Seq<char>)
    requires
        fail_on_spec(v) is Ok,
    ensures
        ({
            let t = fail_on_spec(v)->Ok_0;
            &&& lower_all(v) == "never"@ ==> !lint_fails(fs, t)
            &&& lower_all(v) == "info"@ ==> (lint_fails(fs, t) <==> fs.len() > 0)
            &&& lower_all(v) == "warn"@ ==> (lint_fails(fs, t) <==> exists|i: int|
                0 <= i < fs.len() && #[trigger] fs[i].severity != Severity::Info)
            &&& lower_all(v) == "error"@ ==> (lint_fails(fs, t) <==> exists|i: int|
                0 <= i < fs.len() && #[trigger] fs[i].severity == Severity::Error)
        }),
{
    reveal_strlit("never");
    reveal_strlit("info");
    reveal_strlit("warn");
    reveal_strlit("error");
    let t = fail_on_spec(v)->Ok_0;
    let l = lower_all(v);
    assert("never"@.len() == 5 && "info"@.len() == 4 && "warn"@.len() == 4 && "error"@.len() == 5);
    assert("info"@[0] != "warn"@[0]);
    assert("never"@[0] != "error"@[0]);
    if l == "info"@ {
        assert(t == Some(Severity::Info));
        if fs.len() > 0 {
            assert(severity_rank(fs[0].severity) >= 1);
        }
    } else if l == "warn"@ {
        assert(t == Some(Severity::Warn));
        if exists|i: int| 0 <= i < fs.len() && #[trigger] fs[i].severity != Severity::Info {
            let i = choose|i: int| 0 <= i < fs.len() && #[trigger] fs[i].severity != Severity::Info;
            assert(severity_rank(fs[i].severity) >= 2);
        }
        if lint_fails(fs, t) {
            let i = choose|i: int|
                0 <= i < fs.len() && severity_rank(#[trigger] fs[i].severity) >= 2;
            assert(fs[i].severity != Severity::Info);
        }
    } else if l == "error"@ {
        assert(t == Some(Severity::Error));
        if exists|i: int| 0 <= i < fs.len() && #[trigger] fs[i].severity == Severity::Error {
            let i = choose|i: int| 0 <= i < fs.len() && #[trigger] fs[i].severity == Severity::Error;
            assert(severity_rank(fs[i].severity) >= 3);
        }
        if lint_fails(fs, t) {
            let i = choose|i: int|
                0 <= i < fs.len() && severity_rank(#[trigger] fs[i].severity) >= 3;
            assert(fs[i].severity == Severity::Error);
        }
    } else if l == "never"@ {
        assert(t == None::<Severity>);
    }
}

} // verus!
