//! The command line: `apply [--dry-run]`, `list`, `version`, `help`.
use vstd::prelude::*;
use crate::text::{debug_quoted, debug_str, str_is, string_views};

verus! {

/// A fully parsed, ready-to-run command line.
#[derive(Debug, PartialEq, Eq)]
pub enum Command {
    Apply { dry_run: bool },
    List,
    Version,
    Help,
}

/// Why `parse` rejected a command line. Each variant carries what it
/// needs to name the offending token in the error message; `NoCommand`
/// carries nothing because a bare invocation has no offending token.
#[derive(Debug, PartialEq, Eq)]
pub enum ParseError {
    NoCommand,
    UnknownCommand(String),
    DryRunNotUnderApply,
    UnexpectedArgument { command: &'static str, arg: String },
}

/// The view of a `ParseError`.
pub enum ParseErrorV {
    NoCommand,
    UnknownCommand(Seq<char>),
    DryRunNotUnderApply,
    UnexpectedArgument(Seq<char>, Seq<char>),
}

pub open spec fn error_view(e: ParseError) -> ParseErrorV {
    match e {
        ParseError::NoCommand => ParseErrorV::NoCommand,
        ParseError::UnknownCommand(c) => ParseErrorV::UnknownCommand(c@),
        ParseError::DryRunNotUnderApply => ParseErrorV::DryRunNotUnderApply,
        ParseError::UnexpectedArgument { command, arg } => ParseErrorV::UnexpectedArgument(command@, arg@),
    }
}

pub open spec fn outcome_view(r: Result<Command, ParseError>) -> Result<Command, ParseErrorV> {
    match r {
        Ok(c) => Ok(c),
        Err(e) => Err(error_view(e)),
    }
}

/// Index of the first argument that is not `--dry-run`.
pub open spec fn first_non_flag(rest: Seq<Seq<char>>) -> int
    decreases rest.len(),
{
    if rest.len() == 0 {
        0
    } else if rest[0] != "--dry-run"@ {
        0
    } else {
        1 + first_non_flag(rest.drop_first())
    }
}

/// `apply` takes `--dry-run` zero or more times and nothing else.
pub open spec fn apply_args(rest: Seq<Seq<char>>) -> Result<Command, ParseErrorV> {
    let k = first_non_flag(rest);
    if k < rest.len() {
        Err(ParseErrorV::UnexpectedArgument("apply"@, rest[k]))
    } else {
        Ok(Command::Apply { dry_run: rest.len() > 0 })
    }
}

/// `list`, `version` and `help` take no argument; a `--dry-run` after them
/// gets its own error.
pub open spec fn no_args(command: Seq<char>, rest: Seq<Seq<char>>, ok: Command) -> Result<Command, ParseErrorV> {
    if rest.len() == 0 {
        Ok(ok)
    } else if rest[0] == "--dry-run"@ {
        Err(ParseErrorV::DryRunNotUnderApply)
    } else {
        Err(ParseErrorV::UnexpectedArgument(command, rest[0]))
    }
}

/// The meaning of an argument list (without the program name).
pub open spec fn parsed(args: Seq<Seq<char>>) -> Result<Command, ParseErrorV> {
    if args.len() == 0 {
        Err(ParseErrorV::NoCommand)
    } else {
        let first = args[0];
        let rest = args.drop_first();
        if first == "--dry-run"@ {
            Err(ParseErrorV::DryRunNotUnderApply)
        } else if first == "apply"@ {
            apply_args(rest)
        } else if first == "list"@ {
            no_args("list"@, rest, Command::List)
        } else if first == "version"@ || first == "-v"@ || first == "--version"@ {
            no_args("version"@, rest, Command::Version)
        } else if first == "help"@ || first == "-h"@ || first == "--help"@ {
            no_args("help"@, rest, Command::Help)
        } else {
            Err(ParseErrorV::UnknownCommand(first))
        }
    }
}

/// The one-line message naming the offender; a bare invocation has none.
pub open spec fn message_of(e: ParseErrorV) -> Option<Seq<char>> {
    match e {
        ParseErrorV::NoCommand => None,
        ParseErrorV::UnknownCommand(c) => Some("unknown command "@ + debug_quoted(c)),
        ParseErrorV::DryRunNotUnderApply => Some("--dry-run is only valid under 'apply'"@),
        ParseErrorV::UnexpectedArgument(command, arg) => Some(
            "unexpected argument "@ + debug_quoted(arg) + " for '"@ + command + "'"@,
        ),
    }
}

proof fn lemma_all_flags(n: nat)
    ensures
        first_non_flag(Seq::new(n, |i: int| "--dry-run"@)) == n,
    decreases n,
{
    let flags = Seq::new(n, |i: int| "--dry-run"@);
    if n > 0 {
        lemma_all_flags((n - 1) as nat);
        assert(flags.drop_first() =~= Seq::new((n - 1) as nat, |i: int| "--dry-run"@));
    }
}

/// `apply` followed by any number of `--dry-run` flags is a dry run
/// exactly when there is at least one flag.
pub proof fn law_apply_dry_run_flags(n: nat)
    ensures
        parsed(seq!["apply"@] + Seq::new(n, |i: int| "--dry-run"@)) == Ok::<Command, ParseErrorV>(
            Command::Apply { dry_run: n > 0 },
        ),
{
    let args = seq!["apply"@] + Seq::new(n, |i: int| "--dry-run"@);
    assert(args.drop_first() =~= Seq::new(n, |i: int| "--dry-run"@));
    lemma_all_flags(n);
    assert(args[0] == "apply"@);
    reveal_strlit("apply");
    reveal_strlit("--dry-run");
    assert("apply"@ != "--dry-run"@) by {
        assert("apply"@.len() != "--dry-run"@.len());
    }
}

impl ParseError {
    /// One-line message naming the offender, or `None` for `NoCommand`:
    /// a bare invocation gets usage only, since there's no offending token
    /// to call out.
    pub fn message(&self) -> (r: Option<String>)
        ensures
            match message_of(error_view(*self)) {
                Some(m) => r matches Some(s) && s@ == m,
                None => r is None,
            },
    {
        match self {
            ParseError::NoCommand => None,
            ParseError::UnknownCommand(cmd) => Some(
                String::from_str("unknown command ").concat(debug_str(cmd.as_str()).as_str()),
            ),
            ParseError::DryRunNotUnderApply => Some(String::from_str("--dry-run is only valid under 'apply'")),
            ParseError::UnexpectedArgument { command, arg } => Some(
                String::from_str("unexpected argument ").concat(debug_str(arg.as_str()).as_str()).concat(
                    " for '",
                ).concat(command).concat("'"),
            ),
        }
    }
}

/// `apply` is the only subcommand that accepts a flag: `--dry-run`, zero
/// or more times. Anything else after `apply` is a stray argument.
pub fn parse_apply(rest: &[String]) -> (r: Result<Command, ParseError>)
    ensures
        outcome_view(r) == apply_args(string_views(rest@)),
{
    let ghost rs = string_views(rest@);
    let mut k: usize = 0;
    assert(rs.skip(0) =~= rs);
    while k < rest.len()
        invariant
            k <= rest@.len(),
            rs == string_views(rest@),
            forall|j: int| 0 <= j < k ==> rs[j] == "--dry-run"@,
            first_non_flag(rs) == k + first_non_flag(rs.skip(k as int)),
        decreases rest@.len() - k,
    {
        assert(rs.skip(k as int)[0] == rest@[k as int]@);
        assert(rs.skip(k as int).drop_first() =~= rs.skip(k + 1));
        if !str_is(rest[k].as_str(), "--dry-run") {
            return Err(ParseError::UnexpectedArgument { command: "apply", arg: rest[k].clone() });
        }
        k = k + 1;
    }
    Ok(Command::Apply { dry_run: rest.len() > 0 })
}

/// `list`, `version`, and `help` take no arguments at all. `--dry-run`
/// gets its own error (it's a real flag, just misplaced); anything else
/// is reported as a plain stray argument.
pub fn parse_no_args(command: &'static str, rest: &[String], ok: Command) -> (r: Result<Command, ParseError>)
    ensures
        outcome_view(r) == no_args(command@, string_views(rest@), ok),
{
    if rest.len() == 0 {
        return Ok(ok);
    }
    assert(string_views(rest@)[0] == rest@[0]@);
    if str_is(rest[0].as_str(), "--dry-run") {
        Err(ParseError::DryRunNotUnderApply)
    } else {
        Err(ParseError::UnexpectedArgument { command, arg: rest[0].clone() })
    }
}

/// Parses a full argument list (excluding argv[0]) into a `Command`: pure,
/// no I/O and no process exit.
pub fn parse(args: &[String]) -> (r: Result<Command, ParseError>)
    ensures
        outcome_view(r) == parsed(string_views(args@)),
{
    if args.len() == 0 {
        return Err(ParseError::NoCommand);
    }
    let first = args[0].as_str();
    let ghost all = string_views(args@);
    assert(all[0] == first@);
    if str_is(first, "--dry-run") {
        return Err(ParseError::DryRunNotUnderApply);
    }
    let rest = vstd::slice::slice_subrange(args, 1, args.len());
    assert(string_views(rest@) =~= all.drop_first());
    if str_is(first, "apply") {
        parse_apply(rest)
    } else if str_is(first, "list") {
        parse_no_args("list", rest, Command::List)
    } else if str_is(first, "version") || str_is(first, "-v") || str_is(first, "--version") {
        parse_no_args("version", rest, Command::Version)
    } else if str_is(first, "help") || str_is(first, "-h") || str_is(first, "--help") {
        parse_no_args("help", rest, Command::Help)
    } else {
        Err(ParseError::UnknownCommand(args[0].clone()))
    }
}

} // verus!
