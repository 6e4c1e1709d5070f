//! Reading the command line: which file to read, what to do with its
//! records, and where to write the result.

use vstd::prelude::*;

use crate::error::AppError;
use crate::text::same_text;

verus! {

pub const USAGE: &'static str = "Usage: parse-lib <file_path> <command> [args] [--output <path>]

Commands:
  filter <region>   keep active sales for <region>, sorted by amount (desc)
  map               uppercase every sale name
  aggregate         print the total revenue of active sales

Options:
  --output <path>   write the result to <path> instead of stdout";

/// What to do with the records.
pub enum Command {
    /// Keep the active records of a region, sorted by amount (largest first).
    Filter(String),
    /// Uppercase every name.
    MapNames,
    /// Total the amounts of the active records.
    Aggregate,
}

/// A validated command line.
pub struct Config {
    pub file_path: String,
    pub command: Command,
    pub output: Option<String>,
}

/// `r` is the usage error whose message is `detail`, a blank line, then the
/// usage text.
pub open spec fn is_usage_error(r: Result<Config, AppError>, detail: Seq<char>) -> bool {
    r matches Err(AppError::Usage(m)) && m@ == detail + "\n\n"@ + USAGE@
}

/// `c` is the command named `name`, with `args[3]` as the region of `filter`.
pub open spec fn is_command(c: Command, name: Seq<char>, args: Seq<String>) -> bool {
    if name == "filter"@ {
        c matches Command::Filter(region) && region@ == args[3]@
    } else if name == "map"@ {
        c is MapNames
    } else {
        c is Aggregate
    }
}

/// What reading the command line `args` gives. `args[0]` is the program's
/// name and is not read; every other argument must be expected, so an
/// argument after `--output <path>` is an unexpected argument.
pub open spec fn args_outcome(args: Seq<String>, r: Result<Config, AppError>) -> bool {
    if args.len() < 2 {
        is_usage_error(r, "missing <file_path>"@)
    } else if args.len() < 3 {
        is_usage_error(r, "missing <command>"@)
    } else {
        let name = args[2]@;
        if name == "filter"@ && args.len() < 4 {
            is_usage_error(r, "'filter' requires a <region>"@)
        } else if name != "filter"@ && name != "map"@ && name != "aggregate"@ {
            is_usage_error(r, "unknown command '"@ + name + "'"@)
        } else {
            let next: int = if name == "filter"@ { 4 } else { 3 };
            if args.len() <= next {
                &&& r matches Ok(cfg)
                &&& cfg.file_path@ == args[1]@
                &&& is_command(cfg.command, name, args)
                &&& cfg.output is None
            } else if args[next]@ == "--output"@ {
                if args.len() <= next + 1 {
                    is_usage_error(r, "'--output' requires a <path>"@)
                } else if args.len() > next + 2 {
                    is_usage_error(r, "unexpected argument '"@ + args[next + 2]@ + "'"@)
                } else {
                    &&& r matches Ok(cfg)
                    &&& cfg.file_path@ == args[1]@
                    &&& is_command(cfg.command, name, args)
                    &&& cfg.output matches Some(path)
                    &&& path@ == args[next + 1]@
                }
            } else {
                is_usage_error(r, "unexpected argument '"@ + args[next]@ + "'"@)
            }
        }
    }
}

/// The command that `name` (an accepted command name) selects, stated by
/// the name itself: `filter` takes `region` as its region, `map` uppercases
/// names, `aggregate` totals amounts.
pub open spec fn command_named(c: Command, name: Seq<char>, region: Seq<char>) -> bool {
    ||| name == "filter"@ && (c matches Command::Filter(g) && g@ == region)
    ||| name == "map"@ && c is MapNames
    ||| name == "aggregate"@ && c is Aggregate
}

/// A complete command line is accepted as written: `<file> map`,
/// `<file> aggregate` and `<file> filter <region>` read the file, run the
/// named command on the records and write to standard output.
pub proof fn law_command_line_without_output(args: Seq<String>, r: Result<Config, AppError>)
    requires
        args_outcome(args, r),
        args.len() >= 3,
        args[2]@ == "map"@ || args[2]@ == "aggregate"@ ==> args.len() == 3,
        args[2]@ == "filter"@ ==> args.len() == 4,
        args[2]@ == "map"@ || args[2]@ == "aggregate"@ || args[2]@ == "filter"@,
    ensures
        r matches Ok(cfg) && (cfg.file_path@ == args[1]@ && cfg.output is None && command_named(
            cfg.command,
            args[2]@,
            args[3]@,
        )),
{
    reveal_strlit("filter");
    reveal_strlit("map");
    reveal_strlit("aggregate");
}

/// Whatever the command, a command line that ends in `--output <path>`, with
/// nothing after it, writes the result to `<path>`: `<file> map --output
/// <path>`, `<file> aggregate --output <path>` and `<file> filter <region>
/// --output <path>` all give `output` = `<path>`, with the command and file
/// as written.
pub proof fn law_output_flag_names_the_output(args: Seq<String>, r: Result<Config, AppError>)
    requires
        args_outcome(args, r),
        args.len() >= 5,
        args[2]@ == "map"@ || args[2]@ == "aggregate"@ ==> args.len() == 5,
        args[2]@ == "filter"@ ==> args.len() == 6,
        args[2]@ == "map"@ || args[2]@ == "aggregate"@ || args[2]@ == "filter"@,
        args[args.len() - 2]@ == "--output"@,
    ensures
        r matches Ok(cfg) && (cfg.file_path@ == args[1]@ && command_named(
            cfg.command,
            args[2]@,
            args[3]@,
        ) && (cfg.output matches Some(path) && path@ == args[args.len() - 1]@)),
{
    reveal_strlit("filter");
    reveal_strlit("map");
    reveal_strlit("aggregate");
    reveal_strlit("--output");
}

/// The usage error with message `detail`, a blank line, then the usage text.
fn usage_error(detail: String) -> (e: AppError)
    ensures
        e matches AppError::Usage(m) && m@ == detail@ + "\n\n"@ + USAGE@,
{
    let mut m = detail;
    m.append("\n\n");
    m.append(USAGE);
    AppError::Usage(m)
}

/// `before`, then `word` between single quotes.
fn quoted(before: &str, word: &str) -> (r: String)
    ensures
        r@ == before@ + word@ + "'"@,
{
    let mut r = String::from_str(before);
    r.append(word);
    r.append("'");
    r
}

/// Parses the command line (the program's name first) into a validated
/// `Config`. Any missing, unknown or extra argument is a usage error, so
/// the program exits with a failure instead of silently succeeding.
pub fn parse_args(args: Vec<String>) -> (r: Result<Config, AppError>)
    ensures
        args_outcome(args@, r),
{
    let n = args.len();
    if n < 2 {
        return Err(usage_error(String::from_str("missing <file_path>")));
    }
    if n < 3 {
        return Err(usage_error(String::from_str("missing <command>")));
    }
    let file_path = args[1].clone();
    let name = args[2].as_str();
    let command;
    let next: usize;
    if same_text(name, "filter") {
        if n < 4 {
            return Err(usage_error(String::from_str("'filter' requires a <region>")));
        }
        command = Command::Filter(args[3].clone());
        next = 4;
    } else if same_text(name, "map") {
        command = Command::MapNames;
        next = 3;
    } else if same_text(name, "aggregate") {
        command = Command::Aggregate;
        next = 3;
    } else {
        return Err(usage_error(quoted("unknown command '", name)));
    }
    if n <= next {
        return Ok(Config { file_path, command, output: None });
    }
    let flag = args[next].as_str();
    if same_text(flag, "--output") {
        if n <= next + 1 {
            return Err(usage_error(String::from_str("'--output' requires a <path>")));
        }
        if n > next + 2 {
            return Err(usage_error(quoted("unexpected argument '", args[next + 2].as_str())));
        }
        Ok(Config { file_path, command, output: Some(args[next + 1].clone()) })
    } else {
        Err(usage_error(quoted("unexpected argument '", flag)))
    }
}

} // verus!
