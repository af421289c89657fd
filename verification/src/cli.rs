//! Command-line parsing for the `velin` front-end, and the output budget of
//! its reference host.

use vstd::prelude::*;
use vstd::string::*;

verus! {

/// A parsed command line: a verb and what it applies to.
#[derive(Debug, PartialEq, Eq)]
pub enum Command {
    Check { path: String, json: bool },
    Run(String),
    Format { path: String, check: bool },
    Compile { input: String, output: String },
    Help,
    Version,
}

/// The model of a command line.
pub enum CommandModel {
    Check { path: Seq<char>, json: bool },
    Run(Seq<char>),
    Format { path: Seq<char>, check: bool },
    Compile { input: Seq<char>, output: Seq<char> },
    Help,
    Version,
}

impl Command {
    pub open spec fn model(&self) -> CommandModel {
        match *self {
            Command::Check { path, json } => CommandModel::Check { path: path@, json },
            Command::Run(path) => CommandModel::Run(path@),
            Command::Format { path, check } => CommandModel::Format { path: path@, check },
            Command::Compile { input, output } => CommandModel::Compile { input: input@, output: output@ },
            Command::Help => CommandModel::Help,
            Command::Version => CommandModel::Version,
        }
    }
}

pub open spec fn arg_views(args: Seq<String>) -> Seq<Seq<char>> {
    Seq::new(args.len(), |i: int| args[i]@)
}

/// An argument that looks like an option: it starts with `-` but is not the
/// lone `-` that stands for standard input.
pub open spec fn is_option(a: Seq<char>) -> bool {
    a.len() > 0 && a[0] == '-' && a != "-"@
}

pub open spec fn quoted(a: Seq<char>) -> Seq<char> {
    "`"@ + a + "`"@
}

pub open spec fn extra_message(extra: Seq<char>) -> Seq<char> {
    "unexpected extra argument "@ + quoted(extra)
}

pub open spec fn unknown_option_message(option: Seq<char>, verb: Seq<char>) -> Seq<char> {
    "unknown option "@ + quoted(option) + " for "@ + quoted(verb)
}

/// The command if nothing follows it.
pub open spec fn no_extra(rest: Seq<Seq<char>>, command: CommandModel) -> Result<CommandModel, Seq<char>> {
    if rest.len() > 0 {
        Err(extra_message(rest[0]))
    } else {
        Ok(command)
    }
}

/// The path and flag collected from the first `k` arguments of a verb that
/// takes one path and one repeatable-once flag.
pub open spec fn flag_scan(args: Seq<Seq<char>>, k: nat, verb: Seq<char>, flag: Seq<char>) -> Result<(Option<Seq<char>>, bool), Seq<char>>
    decreases k,
{
    if k == 0 {
        Ok((None, false))
    } else {
        match flag_scan(args, (k - 1) as nat, verb, flag) {
            Err(e) => Err(e),
            Ok((path, seen)) => {
                let a = args[k - 1];
                if a == flag {
                    if seen {
                        Err(quoted(flag) + " was provided more than once"@)
                    } else {
                        Ok((path, true))
                    }
                } else if is_option(a) {
                    Err(unknown_option_message(a, verb))
                } else if path is Some {
                    Err(quoted(verb) + " accepts exactly one file path"@)
                } else {
                    Ok((Some(a), seen))
                }
            },
        }
    }
}

/// The result of scanning a whole argument list for a path and a flag.
pub open spec fn flag_result(args: Seq<Seq<char>>, verb: Seq<char>, flag: Seq<char>) -> Result<(Seq<char>, bool), Seq<char>> {
    match flag_scan(args, args.len(), verb, flag) {
        Err(e) => Err(e),
        Ok((None, _)) => Err(quoted(verb) + " needs a file path"@),
        Ok((Some(path), seen)) => Ok((path, seen)),
    }
}

/// A verb that takes exactly one path.
pub open spec fn path_result(verb: Seq<char>, rest: Seq<Seq<char>>) -> Result<Seq<char>, Seq<char>> {
    if rest.len() == 0 {
        Err(quoted(verb) + " needs a file path"@)
    } else if is_option(rest[0]) {
        Err(unknown_option_message(rest[0], verb))
    } else if rest.len() > 1 {
        Err(extra_message(rest[1]))
    } else {
        Ok(rest[0])
    }
}

/// `compile <input> -o <output>`.
pub open spec fn compile_result(rest: Seq<Seq<char>>) -> Result<CommandModel, Seq<char>> {
    if rest.len() == 0 {
        Err("`compile` needs an input file"@)
    } else if is_option(rest[0]) {
        Err(unknown_option_message(rest[0], "compile"@))
    } else if rest.len() == 1 {
        Err("`compile` needs `-o <output>`"@)
    } else if rest[1] != "-o"@ {
        Err("`compile` expects `-o <output>`"@)
    } else if rest.len() == 2 {
        Err("`compile` needs an output file"@)
    } else if is_option(rest[2]) {
        Err(unknown_option_message(rest[2], "compile"@))
    } else if rest.len() > 3 {
        Err(extra_message(rest[3]))
    } else {
        Ok(CommandModel::Compile { input: rest[0], output: rest[2] })
    }
}

/// What the command line `args` (past the program name) means.
pub open spec fn command_of(args: Seq<Seq<char>>) -> Result<CommandModel, Seq<char>> {
    if args.len() == 0 {
        Err("missing subcommand"@)
    } else {
        let verb = args[0];
        let rest = args.subrange(1, args.len() as int);
        if verb == "--help"@ || verb == "-h"@ || verb == "help"@ {
            no_extra(rest, CommandModel::Help)
        } else if verb == "--version"@ || verb == "-V"@ {
            no_extra(rest, CommandModel::Version)
        } else if verb == "check"@ {
            match flag_result(rest, "check"@, "--json"@) {
                Err(e) => Err(e),
                Ok((path, json)) => Ok(CommandModel::Check { path, json }),
            }
        } else if verb == "run"@ {
            match path_result("run"@, rest) {
                Err(e) => Err(e),
                Ok(path) => Ok(CommandModel::Run(path)),
            }
        } else if verb == "fmt"@ {
            match flag_result(rest, "fmt"@, "--check"@) {
                Err(e) => Err(e),
                Ok((path, check)) => Ok(CommandModel::Format { path, check }),
            }
        } else if verb == "compile"@ {
            compile_result(rest)
        } else {
            Err("unknown subcommand "@ + quoted(verb))
        }
    }
}

/// The flag of `check` (`--json`) and of `fmt` (`--check`) may stand before
/// or after the file path: with one path `p`, `[verb, p, flag]` and
/// `[verb, flag, p]` both give the command on `p` with the flag set, and
/// `[verb, p]` gives it with the flag clear. Two paths are refused, and so is
/// the flag given twice.
pub proof fn flags_may_come_before_or_after_the_path(p: Seq<char>, q: Seq<char>)
    requires
        !is_option(p),
        !is_option(q),
    ensures
        command_of(seq!["check"@, p, "--json"@]) == Ok::<CommandModel, Seq<char>>(
            CommandModel::Check { path: p, json: true },
        ),
        command_of(seq!["check"@, "--json"@, p]) == Ok::<CommandModel, Seq<char>>(
            CommandModel::Check { path: p, json: true },
        ),
        command_of(seq!["check"@, p]) == Ok::<CommandModel, Seq<char>>(CommandModel::Check { path: p, json: false }),
        command_of(seq!["fmt"@, p, "--check"@]) == Ok::<CommandModel, Seq<char>>(
            CommandModel::Format { path: p, check: true },
        ),
        command_of(seq!["fmt"@, "--check"@, p]) == Ok::<CommandModel, Seq<char>>(
            CommandModel::Format { path: p, check: true },
        ),
        command_of(seq!["fmt"@, p]) == Ok::<CommandModel, Seq<char>>(CommandModel::Format { path: p, check: false }),
        command_of(seq!["check"@, p, q]) is Err,
        command_of(seq!["check"@, "--json"@, p, "--json"@]) is Err,
{
    reveal_strlit("--help");
    reveal_strlit("-h");
    reveal_strlit("help");
    reveal_strlit("--version");
    reveal_strlit("-V");
    reveal_strlit("check");
    reveal_strlit("run");
    reveal_strlit("fmt");
    reveal_strlit("compile");
    reveal_strlit("--json");
    reveal_strlit("--check");
    reveal_strlit("-");
    assert(is_option("--json"@));
    assert(is_option("--check"@));
    assert(p != "--json"@ && p != "--check"@ && q != "--json"@);
    let a = seq!["check"@, p, "--json"@];
    assert(a.subrange(1, 3) =~= seq![p, "--json"@]);
    let b = seq!["check"@, "--json"@, p];
    assert(b.subrange(1, 3) =~= seq!["--json"@, p]);
    let c = seq!["check"@, p];
    assert(c.subrange(1, 2) =~= seq![p]);
    let d = seq!["fmt"@, p, "--check"@];
    assert(d.subrange(1, 3) =~= seq![p, "--check"@]);
    let e = seq!["fmt"@, "--check"@, p];
    assert(e.subrange(1, 3) =~= seq!["--check"@, p]);
    let f = seq!["fmt"@, p];
    assert(f.subrange(1, 2) =~= seq![p]);
    let g = seq!["check"@, p, q];
    assert(g.subrange(1, 3) =~= seq![p, q]);
    let h = seq!["check"@, "--json"@, p, "--json"@];
    assert(h.subrange(1, 4) =~= seq!["--json"@, p, "--json"@]);
    reveal_with_fuel(flag_scan, 4);
    assert("fmt"@[0] == 'f' && "run"@[0] == 'r' && "check"@[0] == 'c' && "help"@[0] == 'h');
    assert("fmt"@ != "run"@ && "fmt"@ != "check"@ && "fmt"@ != "help"@ && "fmt"@ != "-h"@ && "fmt"@ != "-V"@);
    assert(flag_scan(seq![p, "--check"@], 1, "fmt"@, "--check"@) == Ok::<(Option<Seq<char>>, bool), Seq<char>>((Some(p), false)));
    assert(flag_result(seq![p, "--check"@], "fmt"@, "--check"@) == Ok::<(Seq<char>, bool), Seq<char>>((p, true)));
    assert(flag_scan(seq!["--check"@, p], 1, "fmt"@, "--check"@) == Ok::<(Option<Seq<char>>, bool), Seq<char>>((None, true)));
    assert(flag_result(seq!["--check"@, p], "fmt"@, "--check"@) == Ok::<(Seq<char>, bool), Seq<char>>((p, true)));
}

/// The other verbs: `run p` runs `p`; `compile i -o o` compiles `i` into
/// `o`; `help`, `-h`, `--help`, `--version` and `-V` stand alone; a verb
/// with nothing after it that needs a path is refused, as are an extra
/// argument and an unknown verb.
pub proof fn verbs_take_their_arguments(p: Seq<char>, o: Seq<char>, extra: Seq<char>)
    requires
        !is_option(p),
        !is_option(o),
    ensures
        command_of(seq!["run"@, p]) == Ok::<CommandModel, Seq<char>>(CommandModel::Run(p)),
        command_of(seq!["run"@]) is Err,
        command_of(seq!["run"@, p, extra]) is Err,
        command_of(seq!["compile"@, p, "-o"@, o]) == Ok::<CommandModel, Seq<char>>(
            CommandModel::Compile { input: p, output: o },
        ),
        command_of(seq!["compile"@, p, "-o"@]) is Err,
        command_of(seq!["help"@]) == Ok::<CommandModel, Seq<char>>(CommandModel::Help),
        command_of(seq!["--help"@]) == Ok::<CommandModel, Seq<char>>(CommandModel::Help),
        command_of(seq!["-h"@]) == Ok::<CommandModel, Seq<char>>(CommandModel::Help),
        command_of(seq!["--version"@]) == Ok::<CommandModel, Seq<char>>(CommandModel::Version),
        command_of(seq!["-V"@]) == Ok::<CommandModel, Seq<char>>(CommandModel::Version),
        command_of(seq!["help"@, extra]) is Err,
        command_of(seq!["check"@]) is Err,
        command_of(Seq::<Seq<char>>::empty()) is Err,
{
    reveal_strlit("--help");
    reveal_strlit("-h");
    reveal_strlit("help");
    reveal_strlit("--version");
    reveal_strlit("-V");
    reveal_strlit("check");
    reveal_strlit("run");
    reveal_strlit("fmt");
    reveal_strlit("compile");
    reveal_strlit("-o");
    assert("run"@[0] == 'r' && "fmt"@[0] == 'f' && "check"@[0] == 'c' && "help"@[0] == 'h');
    assert("run"@ != "help"@ && "run"@ != "-h"@ && "run"@ != "-V"@ && "run"@ != "fmt"@);
    assert("compile"@[0] == 'c' && "--version"@[0] == '-' && "--help"@[0] == '-' && "-h"@[0] == '-' && "-V"@[0] == '-');
    assert("compile"@[1] == 'o' && "check"@[1] == 'h');
    assert("--version"@[1] == '-' && "--version"@[2] == 'v' && "--help"@[2] == 'h' && "-V"@[1] == 'V' && "-h"@[1] == 'h');
    assert("--version"@ != "--help"@ && "--version"@ != "-h"@ && "--version"@ != "help"@);
    assert("-V"@ != "--help"@ && "-V"@ != "-h"@ && "-V"@ != "help"@);
    assert("compile"@ != "--version"@ && "compile"@ != "--help"@ && "compile"@ != "check"@ && "compile"@ != "-h"@);
    assert("compile"@ != "help"@ && "compile"@ != "-V"@ && "compile"@ != "run"@ && "compile"@ != "fmt"@);
    let a = seq!["run"@, p];
    assert(a.subrange(1, 2) =~= seq![p]);
    let b = seq!["run"@];
    assert(b.subrange(1, 1) =~= Seq::<Seq<char>>::empty());
    let c = seq!["run"@, p, extra];
    assert(c.subrange(1, 3) =~= seq![p, extra]);
    let d = seq!["compile"@, p, "-o"@, o];
    assert(d.subrange(1, 4) =~= seq![p, "-o"@, o]);
    let e = seq!["compile"@, p, "-o"@];
    assert(e.subrange(1, 3) =~= seq![p, "-o"@]);
    assert(seq!["help"@].subrange(1, 1) =~= Seq::<Seq<char>>::empty());
    assert(seq!["--help"@].subrange(1, 1) =~= Seq::<Seq<char>>::empty());
    assert(seq!["-h"@].subrange(1, 1) =~= Seq::<Seq<char>>::empty());
    assert(seq!["--version"@].subrange(1, 1) =~= Seq::<Seq<char>>::empty());
    assert(seq!["-V"@].subrange(1, 1) =~= Seq::<Seq<char>>::empty());
    assert(seq!["help"@, extra].subrange(1, 2) =~= seq![extra]);
    assert(seq!["check"@].subrange(1, 1) =~= Seq::<Seq<char>>::empty());
}

pub open spec fn parsed(r: Result<Command, String>, expected: Result<CommandModel, Seq<char>>) -> bool {
    match expected {
        Ok(c) => r matches Ok(x) && x.model() == c,
        Err(e) => r matches Err(m) && m@ == e,
    }
}

fn text(s: &str) -> (r: String)
    ensures
        r@ == s@,
{
    String::from_str(s)
}

fn same(a: &String, b: &str) -> (r: bool)
    ensures
        r == (a@ == b@),
{
    let other = String::from_str(b);
    *a == other
}

fn looks_like_option(a: &String) -> (r: bool)
    ensures
        r == is_option(a@),
{
    let s = a.as_str();
    s.unicode_len() > 0 && s.get_char(0) == '-' && !same(a, "-")
}

fn quote(a: &str) -> (r: String)
    ensures
        r@ == quoted(a@),
{
    let mut m = String::from_str("`");
    m.append(a);
    m.append("`");
    m
}

fn extra_error(extra: &String) -> (r: String)
    ensures
        r@ == extra_message(extra@),
{
    let mut m = String::from_str("unexpected extra argument ");
    m.append(quote(extra.as_str()).as_str());
    m
}

fn unknown_option(option: &String, verb: &str) -> (r: String)
    ensures
        r@ == unknown_option_message(option@, verb@),
{
    let mut m = String::from_str("unknown option ");
    m.append(quote(option.as_str()).as_str());
    m.append(" for ");
    m.append(quote(verb).as_str());
    m
}

/// Fails with the first argument past the verb, if there is one.
pub fn ensure_no_extra(args: Vec<String>, start: usize, command: Command) -> (r: Result<Command, String>)
    requires
        start <= args@.len(),
    ensures
        parsed(r, no_extra(arg_views(args@).subrange(start as int, args@.len() as int), command.model())),
{
    if start < args.len() {
        Err(extra_error(&args[start]))
    } else {
        Ok(command)
    }
}

/// Scans `args[start..]` for one path and at most one `flag`.
fn parse_flagged(args: &Vec<String>, start: usize, verb: &str, flag: &str) -> (r: Result<(String, bool), String>)
    requires
        start <= args@.len(),
    ensures
        match flag_result(arg_views(args@).subrange(start as int, args@.len() as int), verb@, flag@) {
            Ok((path, seen)) => r matches Ok((p, s)) && p@ == path && s == seen,
            Err(e) => r matches Err(m) && m@ == e,
        },
{
    let ghost rest = arg_views(args@).subrange(start as int, args@.len() as int);
    let mut path: Option<String> = None;
    let mut seen = false;
    let mut k: usize = start;
    while k < args.len()
        invariant
            start <= k <= args@.len(),
            rest == arg_views(args@).subrange(start as int, args@.len() as int),
            flag_scan(rest, (k - start) as nat, verb@, flag@) == Ok::<(Option<Seq<char>>, bool), Seq<char>>(
                (
                    match path {
                        Some(p) => Some(p@),
                        None => None,
                    },
                    seen,
                ),
            ),
        decreases args@.len() - k,
    {
        let argument = &args[k];
        assert(rest[k - start] == argument@);
        if same(argument, flag) {
            if seen {
                let mut m = quote(flag);
                m.append(" was provided more than once");
                proof {
                    lemma_scan_error_persists(rest, (k - start + 1) as nat, rest.len(), verb@, flag@);
                }
                return Err(m);
            }
            seen = true;
        } else if looks_like_option(argument) {
            proof {
                lemma_scan_error_persists(rest, (k - start + 1) as nat, rest.len(), verb@, flag@);
            }
            return Err(unknown_option(argument, verb));
        } else if path.is_some() {
            let mut m = quote(verb);
            m.append(" accepts exactly one file path");
            proof {
                lemma_scan_error_persists(rest, (k - start + 1) as nat, rest.len(), verb@, flag@);
            }
            return Err(m);
        } else {
            path = Some(argument.clone());
        }
        k = k + 1;
    }
    match path {
        Some(p) => Ok((p, seen)),
        None => {
            let mut m = quote(verb);
            m.append(" needs a file path");
            Err(m)
        },
    }
}

proof fn lemma_scan_error_persists(args: Seq<Seq<char>>, p: nat, q: nat, verb: Seq<char>, flag: Seq<char>)
    requires
        p <= q,
        flag_scan(args, p, verb, flag) is Err,
    ensures
        flag_scan(args, q, verb, flag) == flag_scan(args, p, verb, flag),
    decreases q - p,
{
    if p < q {
        lemma_scan_error_persists(args, p, (q - 1) as nat, verb, flag);
    }
}

/// `check [--json] <path>`.
pub fn parse_check_args(args: &Vec<String>, start: usize) -> (r: Result<Command, String>)
    requires
        start <= args@.len(),
    ensures
        parsed(
            r,
            match flag_result(arg_views(args@).subrange(start as int, args@.len() as int), "check"@, "--json"@) {
                Err(e) => Err(e),
                Ok((path, json)) => Ok(CommandModel::Check { path, json }),
            },
        ),
{
    match parse_flagged(args, start, "check", "--json") {
        Ok((path, json)) => Ok(Command::Check { path, json }),
        Err(e) => Err(e),
    }
}

/// `fmt [--check] <path>`.
pub fn parse_format_args(args: &Vec<String>, start: usize) -> (r: Result<Command, String>)
    requires
        start <= args@.len(),
    ensures
        parsed(
            r,
            match flag_result(arg_views(args@).subrange(start as int, args@.len() as int), "fmt"@, "--check"@) {
                Err(e) => Err(e),
                Ok((path, check)) => Ok(CommandModel::Format { path, check }),
            },
        ),
{
    match parse_flagged(args, start, "fmt", "--check") {
        Ok((path, check)) => Ok(Command::Format { path, check }),
        Err(e) => Err(e),
    }
}

/// A verb followed by exactly one path.
pub fn parse_path_arg(verb: &str, args: &Vec<String>, start: usize) -> (r: Result<String, String>)
    requires
        start <= args@.len(),
    ensures
        match path_result(verb@, arg_views(args@).subrange(start as int, args@.len() as int)) {
            Ok(path) => r matches Ok(p) && p@ == path,
            Err(e) => r matches Err(m) && m@ == e,
        },
{
    let ghost rest = arg_views(args@).subrange(start as int, args@.len() as int);
    if start >= args.len() {
        let mut m = quote(verb);
        m.append(" needs a file path");
        return Err(m);
    }
    assert(rest[0] == args@[start as int]@);
    let path = &args[start];
    if looks_like_option(path) {
        return Err(unknown_option(path, verb));
    }
    if start + 1 < args.len() {
        assert(rest[1] == args@[start + 1]@);
        return Err(extra_error(&args[start + 1]));
    }
    Ok(path.clone())
}

/// `compile <input> -o <output>`.
pub fn parse_compile_args(args: &Vec<String>, start: usize) -> (r: Result<Command, String>)
    requires
        start <= args@.len(),
    ensures
        parsed(r, compile_result(arg_views(args@).subrange(start as int, args@.len() as int))),
{
    let ghost rest = arg_views(args@).subrange(start as int, args@.len() as int);
    let n = args.len();
    if start >= n {
        return Err(text("`compile` needs an input file"));
    }
    assert(rest[0] == args@[start as int]@);
    let input = &args[start];
    if looks_like_option(input) {
        return Err(unknown_option(input, "compile"));
    }
    if start + 1 >= n {
        return Err(text("`compile` needs `-o <output>`"));
    }
    assert(rest[1] == args@[start + 1]@);
    if !same(&args[start + 1], "-o") {
        return Err(text("`compile` expects `-o <output>`"));
    }
    if start + 2 >= n {
        return Err(text("`compile` needs an output file"));
    }
    assert(rest[2] == args@[start + 2]@);
    let output = &args[start + 2];
    if looks_like_option(output) {
        return Err(unknown_option(output, "compile"));
    }
    if start + 3 < n {
        assert(rest[3] == args@[start + 3]@);
        return Err(extra_error(&args[start + 3]));
    }
    Ok(Command::Compile { input: input.clone(), output: output.clone() })
}

/// Parses the arguments after the program name into a [`Command`].
pub fn parse_args(args: Vec<String>) -> (r: Result<Command, String>)
    ensures
        parsed(r, command_of(arg_views(args@))),
{
    let ghost all = arg_views(args@);
    if args.len() == 0 {
        return Err(text("missing subcommand"));
    }
    let verb = &args[0];
    assert(all[0] == verb@);
    assert(all.subrange(1, all.len() as int) =~= arg_views(args@).subrange(1, args@.len() as int));
    if same(verb, "--help") || same(verb, "-h") || same(verb, "help") {
        return ensure_no_extra(args, 1, Command::Help);
    }
    if same(verb, "--version") || same(verb, "-V") {
        return ensure_no_extra(args, 1, Command::Version);
    }
    if same(verb, "check") {
        return parse_check_args(&args, 1);
    }
    if same(verb, "run") {
        return match parse_path_arg("run", &args, 1) {
            Ok(path) => Ok(Command::Run(path)),
            Err(e) => Err(e),
        };
    }
    if same(verb, "fmt") {
        return parse_format_args(&args, 1);
    }
    if same(verb, "compile") {
        return parse_compile_args(&args, 1);
    }
    let mut m = String::from_str("unknown subcommand ");
    m.append(quote(verb.as_str()).as_str());
    Err(m)
}

/// The name diagnostics use for the input `path`: `<stdin>` for `-`.
pub fn source_name(path: &str) -> (r: &str)
    ensures
        r@ == (if path@ == "-"@ {
            "<stdin>"@
        } else {
            path@
        }),
{
    let dash = String::from_str("-");
    let given = String::from_str(path);
    if given == dash {
        "<stdin>"
    } else {
        path
    }
}

} // verus!
