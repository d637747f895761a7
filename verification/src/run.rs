//! Command line argument parsing and the decisions around a build: which
//! targets are wanted, and what is reported at the end.
//!
//! The caller changes directory, opens the trace, runs the build and
//! prints; this module decides what to do.
use vstd::prelude::*;
use vstd::string::StringSliceAdditionalSpecFns;
use crate::graph::{FileId, ids_below};
use crate::parse::spec_parse_usize;
use crate::text::{bytes_eq, bytes_of, push_bytes, push_decimal, push_quoted, push_slice, quoted, spec_decimal};
use crate::work::{Options, Work};
use lexopt::Parser as ArgParser;

verus! {

#[verifier::external_type_specification]
#[verifier::external_body]
pub struct ExLexoptParser(ArgParser);

#[verifier::external_type_specification]
#[verifier::external_body]
pub struct ExLexoptError(lexopt::Error);

/// A command line argument: a short option, a long option (without its
/// dashes) or a positional argument.
pub enum Arg {
    Short(char),
    Long(Vec<u8>),
    Value(Vec<u8>),
}

/// A command line argument, as a value.
pub enum ArgView {
    Short(char),
    Long(Seq<u8>),
    Value(Seq<u8>),
}

impl View for Arg {
    type V = ArgView;

    open spec fn view(&self) -> ArgView {
        match self {
            Arg::Short(c) => ArgView::Short(*c),
            Arg::Long(n) => ArgView::Long(n@),
            Arg::Value(v) => ArgView::Value(v@),
        }
    }
}

/// The command line a lexopt parser was made from, program name first,
/// each argument by its bytes.
pub uninterp spec fn parser_argv(p: ArgParser) -> Seq<Seq<u8>>;

/// The calls made on a lexopt parser since it was made, in order: `false`
/// for `next`, `true` for `value`.
pub uninterp spec fn parser_calls(p: ArgParser) -> Seq<bool>;

/// What lexopt's `Parser::next` gives on a parser made from `argv` (its
/// arguments read lossily as UTF-8) after the calls `calls`: the next
/// option or positional argument, none at the end, or an error with its
/// message.
pub uninterp spec fn lexopt_next_result(argv: Seq<Seq<u8>>, calls: Seq<bool>) -> Result<Option<ArgView>, Seq<u8>>;

/// What lexopt's `Parser::value` gives on a parser made from `argv` (its
/// arguments read lossily as UTF-8) after the calls `calls`: the value of the
/// option just read, read lossily as UTF-8, or an error with its message.
pub uninterp spec fn lexopt_value_result(argv: Seq<Seq<u8>>, calls: Seq<bool>) -> Result<Seq<u8>, Seq<u8>>;

/// `lexopt::Parser::from_iter` over the command line, whose first item is
/// the program's name; arguments that are not UTF-8 are read lossily.  The
/// parser is made from `argv` and has had no calls.
#[verifier::external_body]
fn lexopt_parser(argv: &Vec<Vec<u8>>) -> (r: ArgParser)
    ensures
        parser_argv(r) == argv@.map_values(|a: Vec<u8>| a@),
        parser_calls(r) == Seq::<bool>::empty(),
{
    let args: Vec<String> = argv.iter().map(|a| String::from_utf8_lossy(a).into_owned()).collect();
    ArgParser::from_iter(args)
}

/// `lexopt::Parser::next`: the next option or positional argument, or none
/// at the end, or an error, given by its message.  Lexopt reads the command
/// line it was made from and nothing else, so what comes back depends on
/// that command line and the calls made before alone.
#[verifier::external_body]
fn lexopt_next(p: &mut ArgParser) -> (r: Result<Option<Arg>, Vec<u8>>)
    ensures
        parser_argv(*final(p)) == parser_argv(*old(p)),
        parser_calls(*final(p)) == parser_calls(*old(p)).push(false),
        match lexopt_next_result(parser_argv(*old(p)), parser_calls(*old(p))) {
            Ok(Some(a)) => r matches Ok(Some(x)) && x@ == a,
            Ok(None) => r matches Ok(None),
            Err(m) => r matches Err(e) && e@ == m,
        },
{
    match p.next() {
        Err(e) => Err(e.to_string().into_bytes()),
        Ok(None) => Ok(None),
        Ok(Some(lexopt::Arg::Short(c))) => Ok(Some(Arg::Short(c))),
        Ok(Some(lexopt::Arg::Long(s))) => Ok(Some(Arg::Long(s.as_bytes().to_vec()))),
        Ok(Some(lexopt::Arg::Value(v))) => Ok(Some(Arg::Value(v.to_string_lossy().as_bytes().to_vec()))),
    }
}

/// `lexopt::Parser::value`: the value of the option just read, read
/// lossily as UTF-8, or an error, given by its message.  As for `next`, it
/// depends on the command line and the calls made before alone.
#[verifier::external_body]
fn lexopt_value(p: &mut ArgParser) -> (r: Result<Vec<u8>, Vec<u8>>)
    ensures
        parser_argv(*final(p)) == parser_argv(*old(p)),
        parser_calls(*final(p)) == parser_calls(*old(p)).push(true),
        match lexopt_value_result(parser_argv(*old(p)), parser_calls(*old(p))) {
            Ok(v) => r matches Ok(x) && x@ == v,
            Err(m) => r matches Err(e) && e@ == m,
        },
{
    match p.value() {
        Err(e) => Err(e.to_string().into_bytes()),
        Ok(v) => Ok(v.to_string_lossy().as_bytes().to_vec()),
    }
}

/// `lexopt::ValueExt::parse` for a count: as its source shows, the value
/// parsed by `usize::from_str`, which takes decimal digits with an optional
/// leading `+` that fit a usize.
#[verifier::external_body]
fn lexopt_parse_usize(value: &[u8]) -> (r: Result<usize, lexopt::Error>)
    ensures
        match spec_parse_usize(value@) {
            Some(v) => r matches Ok(x) && x == v,
            None => r is Err,
        },
{
    let os = std::path::PathBuf::from(String::from_utf8_lossy(value).into_owned()).into_os_string();
    lexopt::ValueExt::parse::<usize>(&os)
}

/// Every byte of `s` is ASCII.
pub open spec fn is_ascii_bytes(s: Seq<u8>) -> bool {
    forall|i: int| 0 <= i < s.len() ==> s[i] < 0x80
}

/// `lexopt::Arg::unexpected` for an option nobody expected, then the
/// error's message as its `Display` writes it, which for an option is
/// `invalid option '-c'` or `invalid option '--name'`.  Stated for ASCII
/// options, where reading the name lossily as UTF-8 changes nothing.
#[verifier::external_body]
fn lexopt_unexpected_message(arg: &Arg) -> (r: Vec<u8>)
    ensures
        arg matches Arg::Short(c) ==> ((c as u32) < 0x80 ==> r@ == "invalid option '-".spec_bytes() + seq![c as u8]
            + "'".spec_bytes()),
        arg matches Arg::Long(n) ==> (is_ascii_bytes(n@) ==> r@ == "invalid option '--".spec_bytes() + n@
            + "'".spec_bytes()),
{
    let e = match arg {
        Arg::Short(c) => lexopt::Arg::Short(*c).unexpected(),
        Arg::Long(s) => lexopt::Arg::Long(&String::from_utf8_lossy(s)).unexpected(),
        Arg::Value(v) => lexopt::Arg::Value(
            std::path::PathBuf::from(String::from_utf8_lossy(v).into_owned()).into_os_string(),
        ).unexpected(),
    };
    e.to_string().into_bytes()
}

/// The message of a lexopt error, as its `Display` writes it.  Nothing is
/// claimed of the text.
#[verifier::external_body]
fn lexopt_message(e: &lexopt::Error) -> Vec<u8> {
    e.to_string().into_bytes()
}

/// Arguments to start a build, after parsing all the command line etc.
pub struct BuildArgs {
    pub fake_ninja_compat: bool,
    pub options: Options,
    pub build_filename: Option<Vec<u8>>,
    pub targets: Vec<Vec<u8>>,
    pub verbose: bool,
    /// The directory to change to before anything else (`-C`).
    pub chdir: Option<Vec<u8>>,
    /// Whether to write a performance trace to trace.json (`-d trace`).
    pub trace: bool,
}

/// The arguments of a build, as values.
pub struct BuildArgsView {
    pub fake_ninja_compat: bool,
    pub options: Options,
    pub build_filename: Option<Seq<u8>>,
    pub targets: Seq<Seq<u8>>,
    pub verbose: bool,
    pub chdir: Option<Seq<u8>>,
    pub trace: bool,
}

/// An optional byte string, as a value.
pub open spec fn opt_bytes(v: Option<Vec<u8>>) -> Option<Seq<u8>> {
    match v {
        Some(b) => Some(b@),
        None => None,
    }
}

impl View for BuildArgs {
    type V = BuildArgsView;

    open spec fn view(&self) -> BuildArgsView {
        BuildArgsView {
            fake_ninja_compat: self.fake_ninja_compat,
            options: self.options,
            build_filename: opt_bytes(self.build_filename),
            targets: self.targets@.map_values(|t: Vec<u8>| t@),
            verbose: self.verbose,
            chdir: opt_bytes(self.chdir),
            trace: self.trace,
        }
    }
}

/// What an argument (or a tool) does: the exit code to stop with, or none
/// to go on, or an error (its message, or none where lexopt writes it);
/// the arguments after it; and the text it prints.
pub type Outcome = (Result<Option<i32>, Option<Seq<u8>>>, BuildArgsView, Seq<u8>);

/// `r` is the result that outcome `o` describes.
pub open spec fn result_is(r: Result<Option<i32>, Vec<u8>>, o: Result<Option<i32>, Option<Seq<u8>>>) -> bool {
    match o {
        Ok(x) => r == Ok::<Option<i32>, Vec<u8>>(x),
        Err(Some(m)) => r matches Err(e) && e@ == m,
        Err(None) => r is Err,
    }
}

impl BuildArgs {
    /// The arguments before any flag: build with the system's parallelism
    /// (0 until it is known), stopping at the first failure.
    pub fn new(fake_ninja_compat: bool) -> (r: BuildArgs)
        ensures
            r.fake_ninja_compat == fake_ninja_compat,
            r.options.failures_left == Some(1usize),
            r.options.parallelism == 0,
            !r.options.explain,
            !r.options.adopt,
            r.build_filename is None,
            r.targets@.len() == 0,
            !r.verbose,
            r.chdir is None,
            !r.trace,
    {
        BuildArgs {
            fake_ninja_compat,
            options: Options { failures_left: Some(1), parallelism: 0, explain: false, adopt: false },
            build_filename: None,
            targets: Vec::new(),
            verbose: false,
            chdir: None,
            trace: false,
        }
    }
}

/// The last component of a path: what follows its last `/`, trailing `/`s
/// aside.
pub open spec fn spec_file_name(p: Seq<u8>) -> Seq<u8>
    decreases p.len(),
{
    if p.len() > 0 && p.last() == 0x2f {
        spec_file_name(p.drop_last())
    } else {
        p.subrange(last_slash(p, p.len() as int), p.len() as int)
    }
}

/// The position after the last `/` before `i`, or 0.
pub open spec fn last_slash(p: Seq<u8>, i: int) -> int
    decreases i,
{
    if i <= 0 || i > p.len() {
        0
    } else if p[i - 1] == 0x2f {
        i
    } else {
        last_slash(p, i - 1)
    }
}

proof fn lemma_last_slash(p: Seq<u8>, i: int)
    requires
        0 <= i <= p.len(),
    ensures
        0 <= last_slash(p, i) <= i,
    decreases i,
{
    if i > 0 && p[i - 1] != 0x2f {
        lemma_last_slash(p, i - 1);
    }
}

/// Whether the program was run under the name `ninja`, in which case it
/// mimics ninja's quirks.
pub fn is_ninja(argv0: &[u8]) -> (r: bool)
    ensures
        r == (spec_file_name(argv0@) == "ninja".spec_bytes()),
{
    let mut end = argv0.len();
    assert(argv0@.subrange(0, end as int) =~= argv0@);
    while end > 0 && argv0[end - 1] == 0x2fu8
        invariant
            end <= argv0@.len(),
            spec_file_name(argv0@) == spec_file_name(argv0@.subrange(0, end as int)),
        decreases end,
    {
        proof {
            assert(argv0@.subrange(0, end as int).drop_last() =~= argv0@.subrange(0, end - 1));
        }
        end = end - 1;
    }
    let ghost p = argv0@.subrange(0, end as int);
    let mut start = end;
    proof {
        lemma_last_slash(p, end as int);
    }
    while start > 0 && argv0[start - 1] != 0x2fu8
        invariant
            start <= end <= argv0@.len(),
            p == argv0@.subrange(0, end as int),
            last_slash(p, end as int) == last_slash(p, start as int),
        decreases start,
    {
        start = start - 1;
    }
    proof {
        assert(p.subrange(start as int, end as int) =~= argv0@.subrange(start as int, end as int));
    }
    bytes_eq(vstd::slice::slice_subrange(argv0, start, end), "ninja".as_bytes())
}

/// The text `-t list` prints.
pub open spec fn subtool_list() -> Seq<u8> {
    "subcommands:\n  (none yet, but see README if you're looking here trying to get CMake to work)\n".spec_bytes()
}

/// What `-t tool` does: `list` prints the tools and exits with 1; under
/// ninja compatibility `recompact` exits with 0 and `restat` marks the
/// targets up to date; anything else is an error.
pub open spec fn spec_subtool(a: BuildArgsView, tool: Seq<u8>) -> Outcome {
    if tool == "list".spec_bytes() {
        (Ok(Some(1i32)), a, subtool_list())
    } else if a.fake_ninja_compat && tool == "recompact".spec_bytes() {
        (Ok(Some(0i32)), a, Seq::empty())
    } else if a.fake_ninja_compat && tool == "restat".spec_bytes() {
        (Ok(None), BuildArgsView { options: Options { adopt: true, ..a.options }, ..a }, Seq::empty())
    } else {
        (Err(Some("unknown -t ".spec_bytes() + quoted(tool) + ", use -t list to list".spec_bytes())), a, Seq::empty())
    }
}

/// Run a tool as specified by the `-t` flag; see `spec_subtool`.
pub fn subtool(args: &mut BuildArgs, tool: &[u8], out: &mut Vec<u8>) -> (r: Result<Option<i32>, Vec<u8>>)
    ensures
        result_is(r, spec_subtool(old(args)@, tool@).0),
        final(args)@ == spec_subtool(old(args)@, tool@).1,
        final(out)@ == old(out)@ + spec_subtool(old(args)@, tool@).2,
{
    if bytes_eq(tool, "list".as_bytes()) {
        push_bytes(out, "subcommands:\n");
        push_bytes(out, "  (none yet, but see README if you're looking here trying to get CMake to work)\n");
        proof {
            reveal_strlit("subcommands:\n");
            reveal_strlit("  (none yet, but see README if you're looking here trying to get CMake to work)\n");
            reveal_strlit("subcommands:\n  (none yet, but see README if you're looking here trying to get CMake to work)\n");
            assert(vstd::string::is_ascii("subcommands:\n"));
            assert(vstd::string::is_ascii("  (none yet, but see README if you're looking here trying to get CMake to work)\n"));
            assert(vstd::string::is_ascii("subcommands:\n  (none yet, but see README if you're looking here trying to get CMake to work)\n"));
            vstd::string::is_ascii_spec_bytes("subcommands:\n");
            vstd::string::is_ascii_spec_bytes("  (none yet, but see README if you're looking here trying to get CMake to work)\n");
            vstd::string::is_ascii_spec_bytes("subcommands:\n  (none yet, but see README if you're looking here trying to get CMake to work)\n");
            assert(final(out)@ =~= old(out)@ + subtool_list());
        }
        return Ok(Some(1));
    }
    if args.fake_ninja_compat && bytes_eq(tool, "recompact".as_bytes()) {
        // CMake unconditionally invokes this tool, yuck.
        return Ok(Some(0));  // do nothing
    }
    if args.fake_ninja_compat && bytes_eq(tool, "restat".as_bytes()) {
        // CMake invokes this after generating build files; mark build
        // targets as up to date by running the build with "adopt" flag on.
        args.options.adopt = true;
        return Ok(None);
    }
    let mut msg = bytes_of("unknown -t ");
    push_quoted(&mut msg, tool);
    push_bytes(&mut msg, ", use -t list to list");
    Err(msg)
}

/// The text `-d list` prints.
pub open spec fn debugtool_list() -> Seq<u8> {
    "debug tools:\n".spec_bytes() + "  ninja_compat  enable ninja quirks compatibility mode\n".spec_bytes()
        + "  explain       print why each target is considered out of date\n".spec_bytes()
        + "  trace         generate json performance trace\n".spec_bytes()
}

/// What `-d tool` does: `list` prints the tools and exits with 1;
/// `ninja_compat`, `explain` and `trace` turn on what they name; anything
/// else is an error.
pub open spec fn spec_debugtool(a: BuildArgsView, tool: Seq<u8>) -> Outcome {
    if tool == "list".spec_bytes() {
        (Ok(Some(1i32)), a, debugtool_list())
    } else if tool == "ninja_compat".spec_bytes() {
        (Ok(None), BuildArgsView { fake_ninja_compat: true, ..a }, Seq::empty())
    } else if tool == "explain".spec_bytes() {
        (Ok(None), BuildArgsView { options: Options { explain: true, ..a.options }, ..a }, Seq::empty())
    } else if tool == "trace".spec_bytes() {
        (Ok(None), BuildArgsView { trace: true, ..a }, Seq::empty())
    } else {
        (Err(Some("unknown -d ".spec_bytes() + quoted(tool) + ", use -d list to list".spec_bytes())), a, Seq::empty())
    }
}

/// Run a debug tool as specified by the `-d` flag; see `spec_debugtool`.
pub fn debugtool(args: &mut BuildArgs, tool: &[u8], out: &mut Vec<u8>) -> (r: Result<Option<i32>, Vec<u8>>)
    ensures
        result_is(r, spec_debugtool(old(args)@, tool@).0),
        final(args)@ == spec_debugtool(old(args)@, tool@).1,
        final(out)@ == old(out)@ + spec_debugtool(old(args)@, tool@).2,
{
    if bytes_eq(tool, "list".as_bytes()) {
        push_bytes(out, "debug tools:\n");
        push_bytes(out, "  ninja_compat  enable ninja quirks compatibility mode\n");
        push_bytes(out, "  explain       print why each target is considered out of date\n");
        push_bytes(out, "  trace         generate json performance trace\n");
        assert(final(out)@ =~= old(out)@ + debugtool_list());
        return Ok(Some(1));
    }
    if bytes_eq(tool, "ninja_compat".as_bytes()) {
        args.fake_ninja_compat = true;
        return Ok(None);
    }
    if bytes_eq(tool, "explain".as_bytes()) {
        args.options.explain = true;
        return Ok(None);
    }
    if bytes_eq(tool, "trace".as_bytes()) {
        args.trace = true;
        return Ok(None);
    }
    let mut msg = bytes_of("unknown -d ");
    push_quoted(&mut msg, tool);
    push_bytes(&mut msg, ", use -d list to list");
    Err(msg)
}

/// The usage text that `-h` prints.
pub open spec fn usage_text() -> Seq<u8> {
    "n2: a ninja-compatible build tool\nusage: n2 [options] [targets...]\n\noptions:\n-C dir   chdir before running\n-f file  input build file [default: build.ninja]\n-j N     parallelism [default: use system thread count]\n-k N     keep going until at least N failures [default: 1]\n-v       print executed command lines\n\n-t tool  tools (`-t list` to list)\n-d tool  debugging tools (use `-d list` to list)\n\n".spec_bytes()
}

/// The version `--version` prints: the one CMake asks of ninja when
/// mimicking it, else this program's own.
pub open spec fn version_text(fake_ninja_compat: bool) -> Seq<u8> {
    if fake_ninja_compat {
        "1.10.2\n".spec_bytes()
    } else {
        "0.1.0\n".spec_bytes()
    }
}

/// The options that take a value: `-C`, `-f`, `-t`, `-d`, `-j` and `-k`.
pub open spec fn takes_value(arg: ArgView) -> bool {
    arg matches ArgView::Short(c) && (c == 'C' || c == 'f' || c == 't' || c == 'd' || c == 'j' || c == 'k')
}

pub fn arg_takes_value(arg: &Arg) -> (r: bool)
    ensures
        r == takes_value(arg@),
{
    match arg {
        Arg::Short(c) => *c == 'C' || *c == 'f' || *c == 't' || *c == 'd' || *c == 'j' || *c == 'k',
        _ => false,
    }
}

/// The error for an option nobody expected: lexopt's message, which is
/// known for an ASCII option.
pub open spec fn unexpected_error(arg: ArgView) -> Option<Seq<u8>> {
    match arg {
        ArgView::Short(c) => if (c as u32) < 0x80 {
            Some("invalid option '-".spec_bytes() + seq![c as u8] + "'".spec_bytes())
        } else {
            None
        },
        ArgView::Long(n) => if is_ascii_bytes(n) {
            Some("invalid option '--".spec_bytes() + n + "'".spec_bytes())
        } else {
            None
        },
        ArgView::Value(_) => None,
    }
}

/// What one command line argument does, given the value that follows it
/// when it takes one: `-h` and `--help` print the usage and exit with 0,
/// `--version` prints the version and exits with 0, `-v` asks for command
/// lines, `-C` the directory to change to, `-f` the build file, `-t` and
/// `-d` run tools, `-j` and `-k` take counts (an error, written by lexopt,
/// when the value is not one; `-k 0`, as in Ninja, sets no limit on
/// failures), any other option is an error, and any other argument is a
/// target.
pub open spec fn spec_apply_arg(a: BuildArgsView, arg: ArgView, value: Seq<u8>) -> Outcome {
    match arg {
        ArgView::Short(c) => if c == 'h' {
            (Ok(Some(0i32)), a, usage_text())
        } else if c == 'v' {
            (Ok(None), BuildArgsView { verbose: true, ..a }, Seq::empty())
        } else if c == 'C' {
            (Ok(None), BuildArgsView { chdir: Some(value), ..a }, Seq::empty())
        } else if c == 'f' {
            (Ok(None), BuildArgsView { build_filename: Some(value), ..a }, Seq::empty())
        } else if c == 't' {
            spec_subtool(a, value)
        } else if c == 'd' {
            spec_debugtool(a, value)
        } else if c == 'j' || c == 'k' {
            match spec_parse_usize(value) {
                Some(n) => if c == 'j' {
                    (Ok(None), BuildArgsView { options: Options { parallelism: n as usize, ..a.options }, ..a }, Seq::empty())
                } else {
                    (
                        Ok(None),
                        BuildArgsView {
                            options: Options {
                                failures_left: if n == 0 {
                                    None
                                } else {
                                    Some(n as usize)
                                },
                                ..a.options
                            },
                            ..a
                        },
                        Seq::empty(),
                    )
                },
                None => (Err(None), a, Seq::empty()),
            }
        } else {
            (Err(unexpected_error(arg)), a, Seq::empty())
        },
        ArgView::Long(name) => if name == "help".spec_bytes() {
            (Ok(Some(0i32)), a, usage_text())
        } else if name == "version".spec_bytes() {
            (Ok(Some(0i32)), a, version_text(a.fake_ninja_compat))
        } else {
            (Err(unexpected_error(arg)), a, Seq::empty())
        },
        ArgView::Value(v) => (Ok(None), BuildArgsView { targets: a.targets.push(v), ..a }, Seq::empty()),
    }
}

/// Apply one command line argument, with the value that follows it when it
/// takes one; see `spec_apply_arg`.
pub fn apply_arg(args: &mut BuildArgs, arg: Arg, value: Option<Vec<u8>>, out: &mut Vec<u8>) -> (r: Result<
    Option<i32>,
    Vec<u8>,
>)
    requires
        takes_value(arg@) <==> value is Some,
    ensures
        result_is(r, spec_apply_arg(old(args)@, arg@, opt_bytes(value).unwrap_or(Seq::empty())).0),
        final(args)@ == spec_apply_arg(old(args)@, arg@, opt_bytes(value).unwrap_or(Seq::empty())).1,
        final(out)@ == old(out)@ + spec_apply_arg(old(args)@, arg@, opt_bytes(value).unwrap_or(Seq::empty())).2,
{
    match arg {
        Arg::Short(c) => {
            if c == 'h' {
                push_bytes(out, usage_text_exec());
                Ok(Some(0))
            } else if c == 'v' {
                args.verbose = true;
                Ok(None)
            } else if c == 'C' || c == 'f' || c == 't' || c == 'd' || c == 'j' || c == 'k' {
                let value = value.unwrap();
                if c == 'C' {
                    args.chdir = Some(value);
                    Ok(None)
                } else if c == 'f' {
                    args.build_filename = Some(value);
                    Ok(None)
                } else if c == 't' {
                    subtool(args, value.as_slice(), out)
                } else if c == 'd' {
                    debugtool(args, value.as_slice(), out)
                } else {
                    let n = match lexopt_parse_usize(value.as_slice()) {
                        Err(e) => {
                            return Err(lexopt_message(&e));
                        },
                        Ok(n) => n,
                    };
                    if c == 'j' {
                        args.options.parallelism = n;
                    } else {
                        // As in Ninja, -k 0 sets no limit.
                        args.options.failures_left = if n == 0 {
                            None
                        } else {
                            Some(n)
                        };
                    }
                    Ok(None)
                }
            } else {
                Err(lexopt_unexpected_message(&Arg::Short(c)))
            }
        },
        Arg::Long(name) => {
            if bytes_eq(name.as_slice(), "help".as_bytes()) {
                push_bytes(out, usage_text_exec());
                Ok(Some(0))
            } else if bytes_eq(name.as_slice(), "version".as_bytes()) {
                if args.fake_ninja_compat {
                    // CMake requires a particular Ninja version.
                    push_bytes(out, "1.10.2\n");
                } else {
                    push_bytes(out, "0.1.0\n");
                }
                Ok(Some(0))
            } else {
                Err(lexopt_unexpected_message(&Arg::Long(name)))
            }
        },
        Arg::Value(v) => {
            args.targets.push(v);
            proof {
                assert(args@.targets =~= old(args)@.targets.push(v@));
            }
            Ok(None)
        },
    }
}

/// One step of reading the command line, as lexopt handed it out: an
/// argument, with the value read after it when it takes one; the end of the
/// command line; or an error, with lexopt's message.
pub enum LexItem {
    Item(Arg, Option<Vec<u8>>),
    End,
    Fail(Vec<u8>),
}

/// One step of reading the command line, as a value.
pub enum LexView {
    Item(ArgView, Option<Seq<u8>>),
    End,
    Fail(Seq<u8>),
}

impl View for LexItem {
    type V = LexView;

    open spec fn view(&self) -> LexView {
        match self {
            LexItem::Item(a, v) => LexView::Item(a@, opt_bytes(*v)),
            LexItem::End => LexView::End,
            LexItem::Fail(m) => LexView::Fail(m@),
        }
    }
}

/// The steps `items`, as values.
pub open spec fn lex_views(items: Seq<LexItem>) -> Seq<LexView> {
    items.map_values(|x: LexItem| x@)
}

/// Each argument of `items` comes with a value exactly when it takes one.
pub open spec fn items_ok(items: Seq<LexView>) -> bool {
    forall|k: int| 0 <= k < items.len() ==> (#[trigger] items[k] matches LexView::Item(arg, v) ==> (takes_value(
        arg,
    ) <==> v is Some))
}

/// The arguments before the first one is applied.
pub open spec fn initial_args(fake_ninja_compat: bool) -> BuildArgsView {
    BuildArgsView {
        fake_ninja_compat,
        options: Options { failures_left: Some(1usize), parallelism: 0, explain: false, adopt: false },
        build_filename: None,
        targets: Seq::empty(),
        verbose: false,
        chdir: None,
        trace: false,
    }
}

/// What the command line read as `items` comes to, from the arguments `a`:
/// the arguments are applied in order until one asks to exit (its exit
/// code) or fails (its error), or until the end (the arguments then); an
/// error lexopt gave is the error; running out of items before any of these
/// is the error `too many arguments`.  With it, the text printed.
pub open spec fn spec_parse_items(a: BuildArgsView, items: Seq<LexView>) -> (
    Result<Result<BuildArgsView, i32>, Option<Seq<u8>>>,
    Seq<u8>,
)
    decreases items.len(),
{
    if items.len() == 0 {
        (Err(Some("too many arguments".spec_bytes())), Seq::empty())
    } else {
        match items[0] {
            LexView::End => (Ok(Ok(a)), Seq::empty()),
            LexView::Fail(m) => (Err(Some(m)), Seq::empty()),
            LexView::Item(arg, v) => {
                let o = spec_apply_arg(a, arg, v.unwrap_or(Seq::empty()));
                match o.0 {
                    Ok(None) => {
                        let rest = spec_parse_items(o.1, items.subrange(1, items.len() as int));
                        (rest.0, o.2 + rest.1)
                    },
                    Ok(Some(c)) => (Ok(Err(c)), o.2),
                    Err(m) => (Err(m), o.2),
                }
            },
        }
    }
}

/// How lexopt reads the command line `argv` after the calls `calls`, at most
/// `budget` more items: ask `next` for an argument; for an option that takes
/// a value, ask `value` for it; stop at the end of the command line or at the
/// first error.
pub open spec fn spec_lex(argv: Seq<Seq<u8>>, calls: Seq<bool>, budget: nat) -> Seq<LexView>
    decreases budget,
{
    if budget == 0 {
        Seq::empty()
    } else {
        match lexopt_next_result(argv, calls) {
            Err(m) => seq![LexView::Fail(m)],
            Ok(None) => seq![LexView::End],
            Ok(Some(a)) => {
                let c2 = calls.push(false);
                if takes_value(a) {
                    match lexopt_value_result(argv, c2) {
                        Err(m) => seq![LexView::Fail(m)],
                        Ok(v) => seq![LexView::Item(a, Some(v))] + spec_lex(argv, c2.push(true), (budget - 1) as nat),
                    }
                } else {
                    seq![LexView::Item(a, None)] + spec_lex(argv, c2, (budget - 1) as nat)
                }
            },
        }
    }
}

/// The total length of the arguments of `argv`.
pub open spec fn total_len(argv: Seq<Seq<u8>>) -> nat
    decreases argv.len(),
{
    if argv.len() == 0 {
        0
    } else {
        total_len(argv.drop_last()) + argv.last().len()
    }
}

/// `x`, or `usize::MAX` where it is larger.
pub open spec fn saturate(x: int) -> int {
    if x > usize::MAX {
        usize::MAX as int
    } else {
        x
    }
}

/// How many items lexopt may hand out for `argv`: each takes at least one
/// byte or one argument.
pub open spec fn lex_budget(argv: Seq<Seq<u8>>) -> nat {
    saturate((argv.len() + total_len(argv)) as int) as nat
}

/// Whether the program's name says it runs as `ninja`.
pub open spec fn runs_as_ninja(argv: Seq<Seq<u8>>) -> bool {
    spec_file_name(argv[0]) == "ninja".spec_bytes()
}

/// What the command line `argv` comes to: lexopt's reading of it, applied
/// from the arguments of a program run under its name.
pub open spec fn spec_parse_args(argv: Seq<Seq<u8>>) -> (
    Result<Result<BuildArgsView, i32>, Option<Seq<u8>>>,
    Seq<u8>,
) {
    spec_parse_items(initial_args(runs_as_ninja(argv)), spec_lex(argv, Seq::empty(), lex_budget(argv)))
}

/// `r` is the result of parsing that outcome `o` describes.
pub open spec fn parsed_is(r: Result<Result<BuildArgs, i32>, Vec<u8>>, o: Result<Result<BuildArgsView, i32>, Option<Seq<u8>>>) -> bool {
    match o {
        Ok(Ok(av)) => r matches Ok(Ok(a)) && a@ == av,
        Ok(Err(c)) => r matches Ok(Err(x)) && x == c,
        Err(Some(m)) => r matches Err(e) && e@ == m,
        Err(None) => r is Err,
    }
}

/// Applying the arguments keeps ninja compatibility once it is on.
proof fn lemma_parse_items_compat(a: BuildArgsView, items: Seq<LexView>)
    requires
        a.fake_ninja_compat,
    ensures
        spec_parse_items(a, items).0 matches Ok(Ok(b)) ==> b.fake_ninja_compat,
    decreases items.len(),
{
    if items.len() > 0 {
        if let LexView::Item(arg, v) = items[0] {
            let o = spec_apply_arg(a, arg, v.unwrap_or(Seq::empty()));
            if o.0 == Ok::<Option<i32>, Option<Seq<u8>>>(None) {
                lemma_parse_items_compat(o.1, items.subrange(1, items.len() as int));
            }
        }
    }
}

/// What lexopt hands out always pairs an option with a value exactly when it
/// takes one.
proof fn lemma_lex_ok(argv: Seq<Seq<u8>>, calls: Seq<bool>, budget: nat)
    ensures
        items_ok(spec_lex(argv, calls, budget)),
    decreases budget,
{
    if budget > 0 {
        if let Ok(Some(a)) = lexopt_next_result(argv, calls) {
            let c2 = calls.push(false);
            let l = spec_lex(argv, calls, budget);
            if takes_value(a) {
                if let Ok(v) = lexopt_value_result(argv, c2) {
                    let rest = spec_lex(argv, c2.push(true), (budget - 1) as nat);
                    lemma_lex_ok(argv, c2.push(true), (budget - 1) as nat);
                    assert forall|k: int| 0 <= k < l.len() implies (#[trigger] l[k] matches LexView::Item(arg, v) ==> (
                    takes_value(arg) <==> v is Some)) by {
                        if k > 0 {
                            assert(l[k] == rest[k - 1]);
                        }
                    }
                }
            } else {
                let rest = spec_lex(argv, c2, (budget - 1) as nat);
                lemma_lex_ok(argv, c2, (budget - 1) as nat);
                assert forall|k: int| 0 <= k < l.len() implies (#[trigger] l[k] matches LexView::Item(arg, v) ==> (
                takes_value(arg) <==> v is Some)) by {
                    if k > 0 {
                        assert(l[k] == rest[k - 1]);
                    }
                }
            }
        }
    }
}

/// Apply the command line read as `items`, starting from the arguments of a
/// program run as `ninja` or not; see `spec_parse_items`.
pub fn parse_items(fake_ninja_compat: bool, items: Vec<LexItem>, out: &mut Vec<u8>) -> (r: Result<
    Result<BuildArgs, i32>,
    Vec<u8>,
>)
    requires
        items_ok(lex_views(items@)),
    ensures
        parsed_is(r, spec_parse_items(initial_args(fake_ninja_compat), lex_views(items@)).0),
        final(out)@ == old(out)@ + spec_parse_items(initial_args(fake_ninja_compat), lex_views(items@)).1,
{
    let mut args = BuildArgs::new(fake_ninja_compat);
    let ghost whole = spec_parse_items(initial_args(fake_ninja_compat), lex_views(items@));
    let mut rest = items;
    assert(args@.targets =~= Seq::<Seq<u8>>::empty());
    assert(args@ == initial_args(fake_ninja_compat));
    while rest.len() > 0
        invariant
            items_ok(lex_views(rest@)),
            whole == spec_parse_items(initial_args(fake_ninja_compat), lex_views(items@)),
            whole.0 == spec_parse_items(args@, lex_views(rest@)).0,
            old(out)@ + whole.1 == out@ + spec_parse_items(args@, lex_views(rest@)).1,
        decreases rest@.len(),
    {
        let ghost before = lex_views(rest@);
        let ghost a0 = args@;
        let ghost o0 = out@;
        let item = rest.remove(0);
        assert(lex_views(rest@) =~= before.subrange(1, before.len() as int));
        assert(item@ == before[0]);
        match item {
            LexItem::End => {
                assert(spec_parse_items(a0, before).1 =~= Seq::<u8>::empty());
                assert(out@ + Seq::<u8>::empty() =~= out@);
                return Ok(Ok(args));
            },
            LexItem::Fail(m) => {
                assert(spec_parse_items(a0, before).1 =~= Seq::<u8>::empty());
                assert(out@ + Seq::<u8>::empty() =~= out@);
                return Err(m);
            },
            LexItem::Item(arg, value) => {
                assert(before[0] matches LexView::Item(_, _));
                match apply_arg(&mut args, arg, value, out) {
                    Ok(Some(exit)) => {
                        return Ok(Err(exit));
                    },
                    Ok(None) => {
                        proof {
                            let rv = lex_views(rest@);
                            assert forall|k: int| 0 <= k < rv.len() implies (#[trigger] rv[k] matches LexView::Item(
                                arg,
                                v,
                            ) ==> (takes_value(arg) <==> v is Some)) by {
                                assert(rv[k] == before[k + 1]);
                            }
                            let tail = spec_parse_items(args@, rv);
                            assert(out@ + tail.1 =~= o0 + (out@.subrange(o0.len() as int, out@.len() as int) + tail.1));
                        }
                    },
                    Err(e) => {
                        return Err(e);
                    },
                }
            },
        }
    }
    Err(bytes_of("too many arguments"))
}

/// Parse the command line `argv`, whose first item is the program's name:
/// read the arguments (and their values) as lexopt hands them out, at most
/// one per byte or argument of the command line, and apply them with
/// `parse_items`.  Returns the build's arguments, or the exit code when an
/// argument asks to exit at once (`-h`, `--version`, the lists of tools);
/// text to print goes to `out`.  A parallelism of 0 asks for the system's.
pub fn parse_args(argv: &Vec<Vec<u8>>, out: &mut Vec<u8>) -> (r: Result<Result<BuildArgs, i32>, Vec<u8>>)
    requires
        argv@.len() > 0,
    ensures
        parsed_is(r, spec_parse_args(argv@.map_values(|a: Vec<u8>| a@)).0),
        final(out)@ == old(out)@ + spec_parse_args(argv@.map_values(|a: Vec<u8>| a@)).1,
        r matches Ok(Ok(a)) ==> (spec_file_name(argv@[0]@) == "ninja".spec_bytes() ==> a.fake_ninja_compat),
{
    let ghost av = argv@.map_values(|a: Vec<u8>| a@);
    let compat = is_ninja(argv[0].as_slice());
    assert(compat == runs_as_ninja(av));
    let mut parser = lexopt_parser(argv);
    // Each item lexopt hands out takes at least one byte or one argument,
    // so this many items are always enough.
    let mut budget: usize = argv.len();
    let mut k: usize = 0;
    assert(av.take(0) =~= Seq::<Seq<u8>>::empty());
    while k < argv.len()
        invariant
            k <= argv@.len(),
            av == argv@.map_values(|a: Vec<u8>| a@),
            budget == saturate((argv@.len() + total_len(av.take(k as int))) as int),
        decreases argv@.len() - k,
    {
        let n = argv[k].len();
        proof {
            assert(av.take(k + 1).drop_last() =~= av.take(k as int));
            assert(av.take(k + 1).last() == argv@[k as int]@);
        }
        budget = if budget > usize::MAX - n {
            usize::MAX
        } else {
            budget + n
        };
        k = k + 1;
    }
    assert(av.take(k as int) =~= av);
    let ghost full = spec_lex(av, Seq::empty(), budget as nat);
    let mut items: Vec<LexItem> = Vec::new();
    assert(lex_views(items@) =~= Seq::<LexView>::empty());
    assert(lex_views(items@) + spec_lex(av, parser_calls(parser), budget as nat) =~= full);
    loop
        invariant_except_break
            lex_views(items@) + spec_lex(av, parser_calls(parser), budget as nat) == full,
        invariant
            parser_argv(parser) == av,
        ensures
            lex_views(items@) == full,
        decreases budget,
    {
        if budget == 0 {
            assert(lex_views(items@) + Seq::<LexView>::empty() =~= lex_views(items@));
            break;
        }
        let ghost c0 = parser_calls(parser);
        let ghost iv = lex_views(items@);
        let ghost rest = spec_lex(av, c0, budget as nat);
        budget = budget - 1;
        let arg = match lexopt_next(&mut parser) {
            Err(e) => {
                items.push(LexItem::Fail(e));
                assert(lex_views(items@) =~= iv + rest);
                break;
            },
            Ok(None) => {
                items.push(LexItem::End);
                assert(lex_views(items@) =~= iv + rest);
                break;
            },
            Ok(Some(a)) => a,
        };
        if arg_takes_value(&arg) {
            match lexopt_value(&mut parser) {
                Err(e) => {
                    items.push(LexItem::Fail(e));
                    assert(lex_views(items@) =~= iv + rest);
                    break;
                },
                Ok(v) => {
                    let ghost x = LexItem::Item(arg, Some(v))@;
                    items.push(LexItem::Item(arg, Some(v)));
                    assert(lex_views(items@) =~= iv.push(x));
                    assert(iv + rest =~= iv.push(x) + spec_lex(av, parser_calls(parser), budget as nat));
                },
            }
        } else {
            let ghost x = LexItem::Item(arg, None)@;
            items.push(LexItem::Item(arg, None));
            assert(lex_views(items@) =~= iv.push(x));
            assert(iv + rest =~= iv.push(x) + spec_lex(av, parser_calls(parser), budget as nat));
        }
    }
    proof {
        lemma_lex_ok(av, Seq::empty(), lex_budget(av));
    }
    let ghost seen = lex_views(items@);
    let r = parse_items(compat, items, out);
    proof {
        let init = initial_args(compat);
        if compat {
            lemma_parse_items_compat(init, seen);
        }
    }
    r
}

/// The usage text that `-h` prints.
fn usage_text_exec() -> (r: &'static str)
    ensures
        r.spec_bytes() == usage_text(),
{
    "n2: a ninja-compatible build tool\nusage: n2 [options] [targets...]\n\noptions:\n-C dir   chdir before running\n-f file  input build file [default: build.ninja]\n-j N     parallelism [default: use system thread count]\n-k N     keep going until at least N failures [default: 1]\n-v       print executed command lines\n\n-t tool  tools (`-t list` to list)\n-d tool  debugging tools (use `-d list` to list)\n\n"
}

/// What is reported after a build: nothing and exit code 1 when it failed
/// (the failing task says enough), a note when there was no work to do,
/// else how many tasks ran.
pub open spec fn spec_summary(result: Option<usize>) -> (i32, Seq<u8>) {
    match result {
        None => (1, Seq::empty()),
        Some(n) => if n == 0 {
            (0, "n2: no work to do\n".spec_bytes())
        } else {
            (
                0,
                "n2: ran ".spec_bytes() + spec_decimal(n as nat) + " task".spec_bytes() + (if n == 1 {
                    Seq::empty()
                } else {
                    "s".spec_bytes()
                }) + ", now up to date\n".spec_bytes(),
            )
        },
    }
}

/// The exit code and the text to print after a build that ran `result`
/// tasks, or failed when there is none.
pub fn summary(result: Option<usize>) -> (r: (i32, Vec<u8>))
    ensures
        (r.0, r.1@) == spec_summary(result),
{
    match result {
        None => (1, Vec::new()),
        Some(0) => (0, bytes_of("n2: no work to do\n")),
        Some(n) => {
            let mut msg = bytes_of("n2: ran ");
            push_decimal(&mut msg, n);
            push_bytes(&mut msg, " task");
            if n != 1 {
                push_bytes(&mut msg, "s");
            }
            push_bytes(&mut msg, ", now up to date\n");
            (0, msg)
        },
    }
}

/// What to do after the run that brought the build file up to date.
#[derive(Debug, Clone, Copy, PartialEq, Eq)]
pub enum Regen {
    /// The run failed: stop, reporting the failure.
    Stop,
    /// Nothing ran: the build file was up to date; go on with what is loaded.
    Keep,
    /// Tasks ran and regenerated the build file: load it again, counting
    /// that many tasks as run.
    Reload(usize),
}

/// The decision after running the build of the build file itself, given
/// how many tasks that run ran, or none when it failed.
pub fn regen_step(result: Option<usize>) -> (r: Regen)
    ensures
        result is None ==> r == Regen::Stop,
        result == Some(0usize) ==> r == Regen::Keep,
        result matches Some(n) ==> (n > 0 ==> r == Regen::Reload(n)),
{
    match result {
        None => Regen::Stop,
        Some(0) => Regen::Keep,
        Some(n) => Regen::Reload(n),
    }
}

/// The message for a requested path the graph does not know.
pub open spec fn unknown_path_msg(name: Seq<u8>) -> Seq<u8> {
    "unknown path requested: ".spec_bytes() + quoted(name)
}

/// The file a requested name stands for, if the graph knows it.
pub open spec fn target_of(w: &Work, name: Seq<u8>) -> Option<FileId> {
    if name.len() == 0 {
        None
    } else {
        w.graph.spec_lookup(crate::canon::spec_canon_path(name))
    }
}

/// Want what a build asks for: the `targets` named, else the `default`
/// targets, else every file but the build file itself.  A named target the
/// graph does not know is an error, except when adopting (as `-t restat`
/// does, which, as ninja, takes any path), where it is passed over; the build
/// file, already built, is skipped.
pub fn want_targets(
    work: &mut Work,
    targets: &Vec<Vec<u8>>,
    default: &Vec<FileId>,
    build_file_target: Option<FileId>,
) -> (r: Result<(), Vec<u8>>)
    requires
        old(work).inv(),
        ids_below(default@, old(work).graph.file_count()),
    ensures
        final(work).inv(),
        final(work).graph == old(work).graph,
        crate::work::only_wanted(old(work).build_states.sts(), final(work).build_states.sts()),
        r is Ok && targets@.len() > 0 && !old(work).adopt ==> forall|i: int|
            0 <= i < targets@.len() ==> #[trigger] target_of(old(work), targets@[i]@) is Some,
        r matches Err(e) ==> (!old(work).adopt && exists|i: int|
            0 <= i < targets@.len() && target_of(old(work), #[trigger] targets@[i]@) is None && e@ == unknown_path_msg(
                targets@[i]@,
            )) || (exists|c: Seq<FileId>| crate::work::is_cycle(old(work).graph, c) && e@ == crate::work::cycle_msg(
            old(work).graph,
            c,
        )),
        r is Ok && targets@.len() > 0 ==> forall|i: int|
            0 <= i < targets@.len() && target_of(old(work), targets@[i]@) is Some && target_of(old(work), targets@[i]@)
                != build_file_target ==> #[trigger] crate::work::file_wanted(
                old(work).graph,
                final(work).build_states.sts(),
                target_of(old(work), targets@[i]@).unwrap().0 as int,
            ),
        r is Ok && targets@.len() == 0 && default@.len() > 0 ==> forall|i: int|
            0 <= i < default@.len() ==> #[trigger] crate::work::file_wanted(
                old(work).graph,
                final(work).build_states.sts(),
                default@[i].0 as int,
            ),
        r is Ok && targets@.len() == 0 && default@.len() == 0 ==> forall|f: int|
            0 <= f < old(work).graph.file_count() && build_file_target != Some(FileId(f as u32)) ==> #[trigger] crate::work::file_wanted(
                old(work).graph,
                final(work).build_states.sts(),
                f,
            ),
{
    let ghost g = work.graph;
    let ghost s0 = work.build_states.sts();
    let adopt = work.adopt;
    if targets.len() > 0 {
        let mut i: usize = 0;
        while i < targets.len()
            invariant
                work.inv(),
                work.graph == g,
                g == old(work).graph,
                s0 == old(work).build_states.sts(),
                crate::work::only_wanted(s0, work.build_states.sts()),
                i <= targets@.len(),
                adopt == old(work).adopt,
                forall|j: int| 0 <= j < i && !adopt ==> #[trigger] target_of(old(work), targets@[j]@) is Some,
                forall|j: int|
                    0 <= j < i && target_of(old(work), targets@[j]@) is Some && target_of(old(work), targets@[j]@)
                        != build_file_target ==> #[trigger] crate::work::file_wanted(
                        g,
                        work.build_states.sts(),
                        target_of(old(work), targets@[j]@).unwrap().0 as int,
                    ),
            decreases targets@.len() - i,
        {
            let target = match work.lookup(targets[i].as_slice()) {
                None => {
                    if adopt {
                        i = i + 1;
                        continue;
                    }
                    let mut msg = bytes_of("unknown path requested: ");
                    push_quoted(&mut msg, targets[i].as_slice());
                    return Err(msg);
                },
                Some(t) => t,
            };
            proof {
                g.lemma_lookup_some(crate::canon::spec_canon_path(targets@[i as int]@));
            }
            let ghost s1 = work.build_states.sts();
            let skip = match build_file_target {
                Some(b) => b == target,
                None => false,
            };
            if !skip {
                work.want_file(target)?;
            }
            proof {
                lemma_only_wanted_trans(s0, s1, work.build_states.sts());
                assert forall|j: int|
                    0 <= j < i + 1 && target_of(old(work), targets@[j]@) is Some && target_of(old(work), targets@[j]@)
                        != build_file_target implies #[trigger] crate::work::file_wanted(
                        g,
                        work.build_states.sts(),
                        target_of(old(work), targets@[j]@).unwrap().0 as int,
                    ) by {
                    if j < i {
                        let f = target_of(old(work), targets@[j]@).unwrap().0 as int;
                        g.lemma_lookup_some(crate::canon::spec_canon_path(targets@[j]@));
                        assert(crate::graph::file_ok(&g.files.view()[f], g.build_count()));
                        lemma_wanted_kept(g, s1, work.build_states.sts(), f);
                    }
                }
            }
            i = i + 1;
        }
        Ok(())
    } else if default.len() > 0 {
        let mut i: usize = 0;
        while i < default.len()
            invariant
                work.inv(),
                work.graph == g,
                g == old(work).graph,
                ids_below(default@, g.file_count()),
                s0 == old(work).build_states.sts(),
                crate::work::only_wanted(s0, work.build_states.sts()),
                i <= default@.len(),
                forall|j: int| 0 <= j < i ==> #[trigger] crate::work::file_wanted(
                    g,
                    work.build_states.sts(),
                    default@[j].0 as int,
                ),
            decreases default@.len() - i,
        {
            let ghost s1 = work.build_states.sts();
            work.want_file(default[i])?;
            proof {
                lemma_only_wanted_trans(s0, s1, work.build_states.sts());
                assert forall|j: int| 0 <= j < i + 1 implies #[trigger] crate::work::file_wanted(
                    g,
                    work.build_states.sts(),
                    default@[j].0 as int,
                ) by {
                    if j < i {
                        let f = default@[j].0 as int;
                        assert(crate::graph::file_ok(&g.files.view()[f], g.build_count()));
                        lemma_wanted_kept(g, s1, work.build_states.sts(), f);
                    }
                }
            }
            i = i + 1;
        }
        Ok(())
    } else {
        work.want_every_file(build_file_target)
    }
}

proof fn lemma_only_wanted_trans(a: Seq<crate::work::BuildState>, b: Seq<crate::work::BuildState>, c: Seq<crate::work::BuildState>)
    requires
        crate::work::only_wanted(a, b),
        crate::work::only_wanted(b, c),
    ensures
        crate::work::only_wanted(a, c),
{
    assert forall|x: int| 0 <= x < a.len() implies #[trigger] c[x] == a[x] || (a[x] == crate::work::BuildState::Unknown && (c[x]
        == crate::work::BuildState::Want || c[x] == crate::work::BuildState::Ready)) by {
        assert(b[x] == a[x] || (a[x] == crate::work::BuildState::Unknown && (b[x] == crate::work::BuildState::Want || b[x]
            == crate::work::BuildState::Ready)));
        assert(c[x] == b[x] || (b[x] == crate::work::BuildState::Unknown && (c[x] == crate::work::BuildState::Want || c[x]
            == crate::work::BuildState::Ready)));
    }
}

proof fn lemma_wanted_kept(g: crate::graph::Graph, a: Seq<crate::work::BuildState>, b: Seq<crate::work::BuildState>, f: int)
    requires
        crate::work::only_wanted(a, b),
        crate::work::file_wanted(g, a, f),
        g.files.view()[f].input matches Some(x) ==> 0 <= x.0 < a.len(),
    ensures
        crate::work::file_wanted(g, b, f),
{
    match g.files.view()[f].input {
        Some(x) => {
            assert(b[x.0 as int] == a[x.0 as int] || a[x.0 as int] == crate::work::BuildState::Unknown);
        },
        None => {},
    }
}

} // verus!
