//! Command-line options: log levels, Windows-style flags and the argument loop.
use crate::util::text::{parse_unsigned, push_chars, same_text, str_chars};
use vstd::prelude::*;

verus! {

/// Minecraft Bedrock Edition skin data extraction tool: the parsed command line.
#[derive(Debug)]
pub struct Cli {
    /// Enable loading version/protocol from config.jsonc (default; kept for CLI compatibility).
    pub config: bool,
    /// Filter displayed players by name (substring match).
    pub filter: Option<String>,
    /// Log level: 0=error, 1=warn, 2=info, 3=debug, 4=trace.
    pub logs: Option<u8>,
    /// Backward-compatible alias for `--logs 3` (debug verbosity).
    pub debug: bool,
}

/// The effective verbosity: the `--logs` value, else 3 with `--debug`, else 2.
pub open spec fn effective_level(logs: Option<u8>, debug: bool) -> u8 {
    match logs {
        Some(l) => l,
        None => if debug {
            3
        } else {
            2
        },
    }
}

impl Cli {
    /// Resolve the effective numeric log verbosity (0-4).
    pub fn log_level(&self) -> (r: u8)
        ensures
            r == effective_level(self.logs, self.debug),
    {
        if let Some(level) = self.logs {
            return level;
        }
        if self.debug {
            return 3;
        }
        2
    }
}

/// The message that rejects a `--logs` value.
pub open spec fn invalid_level_message(value: Seq<char>) -> Seq<char> {
    "Invalid --logs level: "@ + value + ". Expected 0, 1, 2, 3, or 4."@
}

/// A `--logs` value: a number from 0 to 4.
pub open spec fn log_level_of(value: Seq<char>) -> Option<u8> {
    match parse_unsigned(value, 255) {
        Some(n) => if n <= 4 {
            Some(n as u8)
        } else {
            None
        },
        None => None,
    }
}

/// Parse a `--logs` value (0 to 4).
pub fn parse_log_level(value: &str) -> (r: Result<u8, String>)
    ensures
        match log_level_of(value@) {
            Some(l) => r == Ok::<u8, String>(l),
            None => r matches Err(m) && m@ == invalid_level_message(value@),
        },
{
    let cs = str_chars(value);
    match crate::util::text::parse_unsigned_chars(cs.as_slice(), 255) {
        Some(n) => {
            if n <= 4 {
                return Ok(n as u8);
            }
        },
        None => {},
    }
    let mut m = String::from_str("Invalid --logs level: ");
    m.append(value);
    m.append(". Expected 0, 1, 2, 3, or 4.");
    Err(m)
}

/// A Windows-style `/flag` argument rewritten as `--flag`; other arguments are kept.
pub open spec fn normalized_arg(a: Seq<char>) -> Seq<char> {
    if a.len() > 1 && a[0] == '/' {
        "--"@ + a.drop_first()
    } else {
        a
    }
}

/// Rewrite Windows-style `/flag` arguments to `--flag` form.
pub fn normalize_args(args: Vec<String>) -> (r: Vec<String>)
    ensures
        r.deep_view() == args.deep_view().map_values(|a: Seq<char>| normalized_arg(a)),
{
    let mut out: Vec<String> = Vec::new();
    let mut i: usize = 0;
    while i < args.len()
        invariant
            i <= args@.len(),
            out.deep_view() == args.deep_view().take(i as int).map_values(
                |a: Seq<char>| normalized_arg(a),
            ),
        decreases args.len() - i,
    {
        let cs = str_chars(args[i].as_str());
        let a = if cs.len() > 1 && cs[0] == '/' {
            let mut s = String::from_str("--");
            push_chars(&mut s, cs.as_slice(), 1, cs.len());
            proof {
                assert(cs@.subrange(1, cs@.len() as int) =~= cs@.drop_first());
            }
            s
        } else {
            args[i].clone()
        };
        assert(a@ == normalized_arg(args@[i as int]@));
        let ghost before = out.deep_view();
        out.push(a);
        proof {
            assert(out.deep_view() =~= before.push(normalized_arg(args@[i as int]@)));
            assert(args.deep_view().take(i + 1) =~= args.deep_view().take(i as int).push(
                args@[i as int]@,
            ));
            assert(out.deep_view() =~= args.deep_view().take(i + 1).map_values(
                |a: Seq<char>| normalized_arg(a),
            ));
        }
        i = i + 1;
    }
    proof {
        assert(args.deep_view().take(args@.len() as int) =~= args.deep_view());
    }
    out
}

/// The options of the argument loop.
#[derive(Debug)]
pub struct CliOptions {
    pub log_level: u8,
    pub config: bool,
    pub filter_name: Option<String>,
    /// A help flag was given: the help text is shown and the program ends.
    pub show_help: bool,
}

/// The options of the argument loop as values.
pub struct CliOptionsView {
    pub log_level: u8,
    pub filter_name: Option<Seq<char>>,
    pub show_help: bool,
}

/// `-h`, `--help`, `/?` or `/help`.
pub open spec fn is_help_flag(a: Seq<char>) -> bool {
    a == "-h"@ || a == "--help"@ || a == "/?"@ || a == "/help"@
}

/// `-d`, `--debug` or `/debug`.
pub open spec fn is_debug_flag(a: Seq<char>) -> bool {
    a == "-d"@ || a == "--debug"@ || a == "/debug"@
}

/// `--config`, `-c` or `/config`.
pub open spec fn is_config_flag(a: Seq<char>) -> bool {
    a == "--config"@ || a == "-c"@ || a == "/config"@
}

/// `--logs` or `/logs`.
pub open spec fn is_logs_flag(a: Seq<char>) -> bool {
    a == "--logs"@ || a == "/logs"@
}

/// `--filter` or `/filter`.
pub open spec fn is_filter_flag(a: Seq<char>) -> bool {
    a == "--filter"@ || a == "/filter"@
}

/// An argument that looks like a flag.
pub open spec fn looks_like_flag(a: Seq<char>) -> bool {
    a.len() > 0 && (a[0] == '-' || a[0] == '/')
}

/// The argument loop from index `i`, with the log level and filter gathered so far:
/// a help flag stops it, `--logs` (or `/logs`) takes a following value unless that looks like a flag
/// (alone it means 3), `--filter` (or `/filter`) needs a value, anything else unknown is an error.
pub open spec fn args_from(args: Seq<Seq<char>>, i: int, level: u8, filter: Option<Seq<char>>) -> Result<
    CliOptionsView,
    Seq<char>,
>
    decreases args.len() - i,
{
    if i < 0 || i >= args.len() {
        Ok(CliOptionsView { log_level: level, filter_name: filter, show_help: false })
    } else {
        let a = args[i];
        if is_help_flag(a) {
            Ok(CliOptionsView { log_level: level, filter_name: filter, show_help: true })
        } else if is_debug_flag(a) {
            args_from(args, i + 1, 3, filter)
        } else if is_config_flag(a) {
            args_from(args, i + 1, level, filter)
        } else if is_logs_flag(a) {
            if i + 1 < args.len() && !looks_like_flag(args[i + 1]) {
                match log_level_of(args[i + 1]) {
                    Some(l) => args_from(args, i + 2, l, filter),
                    None => Err(invalid_level_message(args[i + 1])),
                }
            } else {
                args_from(args, i + 1, 3, filter)
            }
        } else if is_filter_flag(a) {
            if i + 1 < args.len() {
                args_from(args, i + 2, level, Some(args[i + 1]))
            } else {
                Err("Missing value for --filter. Expected a player name substring."@)
            }
        } else {
            Err("Unknown argument: "@ + a)
        }
    }
}

fn flag_like(a: &str) -> (r: bool)
    ensures
        r == looks_like_flag(a@),
{
    let cs = str_chars(a);
    cs.len() > 0 && (cs[0] == '-' || cs[0] == '/')
}

/// The command-line loop: flags in any order, each handled as it comes; every flag
/// is also accepted in Windows style (`/help`, `/logs 3`, `/filter name`).
pub fn parse_args(args: &Vec<String>) -> (r: Result<CliOptions, String>)
    ensures
        match args_from(args.deep_view(), 0, 2, None) {
            Ok(v) => r matches Ok(o) && o.log_level == v.log_level && o.filter_name.deep_view()
                == v.filter_name && o.show_help == v.show_help && o.config,
            Err(m) => r matches Err(e) && e@ == m,
        },
{
    let ghost av = args.deep_view();
    let mut log_level: u8 = 2;
    let mut filter_name: Option<String> = None;
    let mut index: usize = 0;
    while index < args.len()
        invariant
            av == args.deep_view(),
            index <= args@.len(),
            args_from(av, 0, 2, None) == args_from(
                av,
                index as int,
                log_level,
                filter_name.deep_view(),
            ),
        decreases args.len() - index,
    {
        let a = args[index].as_str();
        assert(av[index as int] == a@);
        if same_text(a, "-h") || same_text(a, "--help") || same_text(a, "/?") || same_text(a, "/help") {
            return Ok(CliOptions { log_level, config: true, filter_name, show_help: true });
        } else if same_text(a, "-d") || same_text(a, "--debug") || same_text(a, "/debug") {
            log_level = 3;
            index = index + 1;
        } else if same_text(a, "--config") || same_text(a, "-c") || same_text(a, "/config") {
            index = index + 1;
        } else if same_text(a, "--logs") || same_text(a, "/logs") {
            if index + 1 < args.len() && !flag_like(args[index + 1].as_str()) {
                assert(av[index + 1] == args@[index + 1]@);
                match parse_log_level(args[index + 1].as_str()) {
                    Ok(l) => {
                        log_level = l;
                        index = index + 2;
                    },
                    Err(m) => {
                        return Err(m);
                    },
                }
            } else {
                log_level = 3;
                index = index + 1;
            }
        } else if same_text(a, "--filter") || same_text(a, "/filter") {
            if index + 1 < args.len() {
                assert(av[index + 1] == args@[index + 1]@);
                filter_name = Some(args[index + 1].clone());
                index = index + 2;
            } else {
                return Err(
                    String::from_str("Missing value for --filter. Expected a player name substring."),
                );
            }
        } else {
            let mut m = String::from_str("Unknown argument: ");
            m.append(a);
            return Err(m);
        }
    }
    Ok(CliOptions { log_level, config: true, filter_name, show_help: false })
}

} // verus!
