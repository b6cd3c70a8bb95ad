//! Decisions of the `whereami` command-line client: which command an
//! argument names, how the `history` arguments are read, and how the age
//! of a last-known fix is shown.

use vstd::prelude::*;
use crate::text::{chars_of, decimal, push_decimal, push_str, str_eq};

verus! {

/// The commands of the client.
#[derive(Debug, Clone, Copy, PartialEq, Eq, Structural)]
pub enum CliCommand {
    Locate,
    Scan,
    Stats,
    Debug,
    History,
    Version,
    Help,
    Unknown,
}

/// The command an argument names, with its short aliases.
pub open spec fn cli_command_of(s: Seq<char>) -> CliCommand {
    if s == "locate"@ || s == "l"@ {
        CliCommand::Locate
    } else if s == "scan"@ || s == "s"@ {
        CliCommand::Scan
    } else if s == "stats"@ || s == "st"@ {
        CliCommand::Stats
    } else if s == "debug"@ || s == "d"@ {
        CliCommand::Debug
    } else if s == "history"@ || s == "h"@ {
        CliCommand::History
    } else if s == "version"@ || s == "v"@ || s == "--version"@ || s == "-V"@ {
        CliCommand::Version
    } else if s == "help"@ || s == "-h"@ || s == "--help"@ {
        CliCommand::Help
    } else {
        CliCommand::Unknown
    }
}

/// Law: each command is named by exactly its full name and its aliases,
/// for every argument: `locate`/`l`, `scan`/`s`, `stats`/`st`,
/// `debug`/`d`, `history`/`h`, `version`/`v`/`--version`/`-V` and
/// `help`/`-h`/`--help`; any other argument is unknown.
pub proof fn lemma_command_names(s: Seq<char>)
    ensures
        (cli_command_of(s) == CliCommand::Locate) <==> (s == "locate"@ || s == "l"@),
        (cli_command_of(s) == CliCommand::Scan) <==> (s == "scan"@ || s == "s"@),
        (cli_command_of(s) == CliCommand::Stats) <==> (s == "stats"@ || s == "st"@),
        (cli_command_of(s) == CliCommand::Debug) <==> (s == "debug"@ || s == "d"@),
        (cli_command_of(s) == CliCommand::History) <==> (s == "history"@ || s == "h"@),
        (cli_command_of(s) == CliCommand::Version) <==> (s == "version"@ || s == "v"@ || s == "--version"@
            || s == "-V"@),
        (cli_command_of(s) == CliCommand::Help) <==> (s == "help"@ || s == "-h"@ || s == "--help"@),
{
    reveal_strlit("locate");
    reveal_strlit("l");
    reveal_strlit("scan");
    reveal_strlit("s");
    reveal_strlit("stats");
    reveal_strlit("st");
    reveal_strlit("debug");
    reveal_strlit("d");
    reveal_strlit("history");
    reveal_strlit("h");
    reveal_strlit("version");
    reveal_strlit("v");
    reveal_strlit("--version");
    reveal_strlit("-V");
    reveal_strlit("help");
    reveal_strlit("-h");
    reveal_strlit("--help");
    assert("locate"@.len() == 6);
    assert("l"@.len() == 1);
    assert("scan"@.len() == 4);
    assert("s"@.len() == 1);
    assert("stats"@.len() == 5);
    assert("st"@.len() == 2);
    assert("debug"@.len() == 5);
    assert("d"@.len() == 1);
    assert("history"@.len() == 7);
    assert("h"@.len() == 1);
    assert("version"@.len() == 7);
    assert("v"@.len() == 1);
    assert("--version"@.len() == 9);
    assert("-V"@.len() == 2);
    assert("help"@.len() == 4);
    assert("-h"@.len() == 2);
    assert("--help"@.len() == 6);
    assert("s"@[0] != "l"@[0]);
    assert("debug"@[0] != "stats"@[0]);
    assert("d"@[0] != "l"@[0]);
    assert("d"@[0] != "s"@[0]);
    assert("h"@[0] != "l"@[0]);
    assert("h"@[0] != "s"@[0]);
    assert("h"@[0] != "d"@[0]);
    assert("version"@[0] != "history"@[0]);
    assert("v"@[0] != "l"@[0]);
    assert("v"@[0] != "s"@[0]);
    assert("v"@[0] != "d"@[0]);
    assert("v"@[0] != "h"@[0]);
    assert("-V"@[0] != "st"@[0]);
    assert("help"@[0] != "scan"@[0]);
    assert("-h"@[0] != "st"@[0]);
    assert("-h"@[1] != "-V"@[1]);
    assert("--help"@[0] != "locate"@[0]);
}

/// `s` is a flag of the client as a whole (`--json`, `--scan-time=no`),
/// which may stand before the command.
pub open spec fn is_global_flag(s: Seq<char>) -> bool {
    s == "--json"@ || s == "--scan-time=no"@
}

/// Index of the first argument at `i` or later that is not a global flag,
/// or the number of arguments when there is none.
pub open spec fn command_index_from(args: Seq<Seq<char>>, i: int) -> int
    decreases args.len() - i,
{
    if i < 0 || i >= args.len() {
        args.len() as int
    } else if is_global_flag(args[i]) {
        command_index_from(args, i + 1)
    } else {
        i
    }
}

/// Where the command stands among the arguments (the program's name
/// first): the first argument after the name that is not a global flag;
/// the number of arguments when there is none (the command is `locate`).
pub fn command_position(args: &[String]) -> (r: usize)
    ensures
        r == command_index_from(args@.map_values(|s: String| s@), 1) || (args@.len() == 0 && r == 0),
{
    let ghost av = args@.map_values(|s: String| s@);
    if args.len() == 0 {
        return 0;
    }
    let mut i: usize = 1;
    while i < args.len()
        invariant
            1 <= i <= args@.len(),
            av == args@.map_values(|s: String| s@),
            command_index_from(av, 1) == command_index_from(av, i as int),
        decreases args.len() - i,
    {
        let a = args[i].as_str();
        assert(av[i as int] == a@);
        if !(str_eq(a, "--json") || str_eq(a, "--scan-time=no")) {
            return i;
        }
        i = i + 1;
    }
    i
}

/// The command named by the first argument; `locate` when there is none.
pub fn cli_command(arg: Option<&str>) -> (r: CliCommand)
    ensures
        r == match arg {
            Some(a) => cli_command_of(a@),
            None => CliCommand::Locate,
        },
{
    let a = match arg {
        Some(a) => a,
        None => {
            return CliCommand::Locate;
        },
    };
    if str_eq(a, "locate") || str_eq(a, "l") {
        CliCommand::Locate
    } else if str_eq(a, "scan") || str_eq(a, "s") {
        CliCommand::Scan
    } else if str_eq(a, "stats") || str_eq(a, "st") {
        CliCommand::Stats
    } else if str_eq(a, "debug") || str_eq(a, "d") {
        CliCommand::Debug
    } else if str_eq(a, "history") || str_eq(a, "h") {
        CliCommand::History
    } else if str_eq(a, "version") || str_eq(a, "v") || str_eq(a, "--version") || str_eq(a, "-V") {
        CliCommand::Version
    } else if str_eq(a, "help") || str_eq(a, "-h") || str_eq(a, "--help") {
        CliCommand::Help
    } else {
        CliCommand::Unknown
    }
}

/// How a last-known fix's age is shown: seconds under a minute, whole
/// minutes under an hour, whole hours beyond.
pub open spec fn age_text_spec(age_s: nat) -> Seq<char> {
    if age_s < 60 {
        decimal(age_s) + "s"@
    } else if age_s < 3600 {
        decimal(age_s / 60) + "m"@
    } else {
        decimal(age_s / 3600) + "h"@
    }
}

/// The age of a last-known fix as the client prints it.
pub fn age_text(age_s: u64) -> (r: String)
    ensures
        r@ == age_text_spec(age_s as nat),
{
    let mut r = String::new();
    if age_s < 60 {
        push_decimal(&mut r, age_s);
        push_str(&mut r, "s");
    } else if age_s < 3600 {
        push_decimal(&mut r, age_s / 60);
        push_str(&mut r, "m");
    } else {
        push_decimal(&mut r, age_s / 3600);
        push_str(&mut r, "h");
    }
    proof {
        if age_s < 60 {
            assert(Seq::<char>::empty() + decimal(age_s as nat) =~= decimal(age_s as nat));
        } else if age_s < 3600 {
            assert(Seq::<char>::empty() + decimal((age_s / 60) as nat) =~= decimal((age_s / 60) as nat));
        } else {
            assert(Seq::<char>::empty() + decimal((age_s / 3600) as nat) =~= decimal((age_s / 3600) as nat));
        }
    }
    r
}

/// The `history` arguments read so far: range, from, to.
pub type HistoryArgs = (Option<Seq<char>>, Option<Seq<char>>, Option<Seq<char>>);

/// `s` starts with `--`.
pub open spec fn is_flag(s: Seq<char>) -> bool {
    s.len() >= 2 && s[0] == '-' && s[1] == '-'
}

/// Reads the `history` arguments from `i` on: `--from T` and `--to T` take
/// the next argument, `--json` and `--scan-time=no` are skipped, the first
/// other non-flag argument is the range; anything else is an error.
pub open spec fn history_args_from(rest: Seq<Seq<char>>, i: int, acc: HistoryArgs) -> Result<HistoryArgs, Seq<char>>
    decreases rest.len() - i,
{
    if i < 0 || i >= rest.len() {
        Ok(acc)
    } else if rest[i] == "--from"@ {
        if i + 1 >= rest.len() {
            Err("--from requires an RFC3339 timestamp"@)
        } else {
            history_args_from(rest, i + 2, (acc.0, Some(rest[i + 1]), acc.2))
        }
    } else if rest[i] == "--to"@ {
        if i + 1 >= rest.len() {
            Err("--to requires an RFC3339 timestamp"@)
        } else {
            history_args_from(rest, i + 2, (acc.0, acc.1, Some(rest[i + 1])))
        }
    } else if rest[i] == "--json"@ || rest[i] == "--scan-time=no"@ {
        history_args_from(rest, i + 1, acc)
    } else if !is_flag(rest[i]) && acc.0 is None {
        history_args_from(rest, i + 1, (Some(rest[i]), acc.1, acc.2))
    } else {
        Err("unknown history arg: "@ + rest[i])
    }
}

/// The `history` arguments, with the 7-day default when none is given.
pub open spec fn history_args_spec(rest: Seq<Seq<char>>) -> Result<HistoryArgs, Seq<char>> {
    match history_args_from(rest, 0, (None, None, None)) {
        Ok(a) => if a.0 is None && a.1 is None && a.2 is None {
            Ok((Some("7d"@), None, None))
        } else {
            Ok(a)
        },
        Err(e) => Err(e),
    }
}

/// The characters of an optional string.
pub open spec fn opt_string(o: Option<String>) -> Option<Seq<char>> {
    match o {
        Some(s) => Some(s@),
        None => None,
    }
}

fn copy_str(s: &str) -> (r: String)
    ensures
        r@ == s@,
{
    let mut r = String::new();
    push_str(&mut r, s);
    assert(Seq::<char>::empty() + s@ =~= s@);
    r
}

/// Reads the arguments after `history`.
pub fn history_args(rest: &[String]) -> (r: Result<(Option<String>, Option<String>, Option<String>), String>)
    ensures
        match r {
            Ok((a, b, c)) => history_args_spec(rest@.map_values(|s: String| s@)) == Ok::<HistoryArgs, Seq<char>>(
                (opt_string(a), opt_string(b), opt_string(c)),
            ),
            Err(e) => history_args_spec(rest@.map_values(|s: String| s@)) == Err::<HistoryArgs, Seq<char>>(e@),
        },
{
    let ghost rv = rest@.map_values(|s: String| s@);
    let mut range: Option<String> = None;
    let mut from: Option<String> = None;
    let mut to: Option<String> = None;
    let mut i: usize = 0;
    while i < rest.len()
        invariant
            i <= rest@.len(),
            rv == rest@.map_values(|s: String| s@),
            history_args_from(rv, 0, (None, None, None)) == history_args_from(
                rv,
                i as int,
                (opt_string(range), opt_string(from), opt_string(to)),
            ),
        decreases rest.len() - i,
    {
        let a = rest[i].as_str();
        assert(rv[i as int] == a@);
        if str_eq(a, "--from") {
            if i + 1 >= rest.len() {
                return Err(copy_str("--from requires an RFC3339 timestamp"));
            }
            assert(rv[i + 1] == rest@[i + 1]@);
            from = Some(copy_str(rest[i + 1].as_str()));
            i = i + 2;
        } else if str_eq(a, "--to") {
            if i + 1 >= rest.len() {
                return Err(copy_str("--to requires an RFC3339 timestamp"));
            }
            assert(rv[i + 1] == rest@[i + 1]@);
            to = Some(copy_str(rest[i + 1].as_str()));
            i = i + 2;
        } else if str_eq(a, "--json") || str_eq(a, "--scan-time=no") {
            i = i + 1;
        } else {
            let ac = chars_of(a);
            let flag = ac.len() >= 2 && ac[0] == '-' && ac[1] == '-';
            if !flag && range.is_none() {
                range = Some(copy_str(a));
                i = i + 1;
            } else {
                let mut e = String::new();
                push_str(&mut e, "unknown history arg: ");
                push_str(&mut e, a);
                assert(Seq::<char>::empty() + "unknown history arg: "@ =~= "unknown history arg: "@);
                return Err(e);
            }
        }
    }
    if range.is_none() && from.is_none() && to.is_none() {
        range = Some(copy_str("7d"));
    }
    Ok((range, from, to))
}

/// What the client does with a response: print it raw (`--json`), fail
/// with the daemon's error (`ok` false), or render it.
#[derive(Debug, Clone, Copy, PartialEq, Eq, Structural)]
pub enum Dispatch {
    PrintJson,
    Fail,
    Render,
}

/// Chooses how a response is shown.
pub fn dispatch_mode(json: bool, ok: bool) -> (r: Dispatch)
    ensures
        r == (if json {
            Dispatch::PrintJson
        } else if !ok {
            Dispatch::Fail
        } else {
            Dispatch::Render
        }),
{
    if json {
        Dispatch::PrintJson
    } else if !ok {
        Dispatch::Fail
    } else {
        Dispatch::Render
    }
}

} // verus!
