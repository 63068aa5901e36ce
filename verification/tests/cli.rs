use clap::{Arg, ArgAction, Command};
use skingetbe::cli::{normalize_args, parse_args, parse_log_level, Cli};

/// The command line as the program declares it to clap.
fn command() -> Command {
    Command::new("SkinGetBE")
        .arg(Arg::new("config").short('c').long("config").action(ArgAction::SetTrue))
        .arg(Arg::new("filter").long("filter").action(ArgAction::Set))
        .arg(
            Arg::new("logs")
                .long("logs")
                .value_name("level")
                .num_args(0..=1)
                .default_missing_value("3")
                .value_parser(parse_log_level),
        )
        .arg(Arg::new("debug").short('d').long("debug").action(ArgAction::SetTrue))
}

fn try_parse_from(args: &[&str]) -> Result<Cli, clap::Error> {
    let m = command().try_get_matches_from(args)?;
    Ok(Cli {
        config: m.get_flag("config"),
        filter: m.get_one::<String>("filter").cloned(),
        logs: m.get_one::<u8>("logs").copied(),
        debug: m.get_flag("debug"),
    })
}

fn strings(args: &[&str]) -> Vec<String> {
    args.iter().map(|a| a.to_string()).collect()
}

#[test]
fn cli_parses_logs_level_and_filter_arguments() {
    let cli = try_parse_from(&["skingetbe", "--logs", "3", "--filter", "Steve"])
        .expect("parse should succeed");

    assert_eq!(cli.log_level(), 3);
    assert_eq!(cli.filter.as_deref(), Some("Steve"));
}

#[test]
fn cli_logs_without_level_enables_debug_verbosity() {
    let cli = try_parse_from(&["skingetbe", "--logs"]).expect("parse should succeed");

    assert_eq!(cli.log_level(), 3);
}

#[test]
fn cli_debug_alias_maps_to_debug_verbosity() {
    let cli = try_parse_from(&["skingetbe", "--debug"]).expect("parse should succeed");

    assert_eq!(cli.log_level(), 3);
}

#[test]
fn defaults_to_info_verbosity() {
    let cli = try_parse_from(&["skingetbe"]).expect("parse should succeed");

    assert_eq!(cli.log_level(), 2);
}

#[test]
fn cli_rejects_invalid_logs_level() {
    let error = try_parse_from(&["skingetbe", "--logs", "9"])
        .err()
        .expect("parse should fail")
        .to_string();

    assert!(error.contains("Invalid --logs level"));
}

#[test]
fn cli_rejects_missing_filter_value() {
    assert!(try_parse_from(&["skingetbe", "--filter"]).is_err());
}

#[test]
fn normalizes_windows_style_arguments() {
    let args = normalize_args(strings(&["/help", "/logs", "3", "/filter", "Steve"]));

    assert_eq!(
        args,
        vec![
            "--help".to_string(),
            "--logs".to_string(),
            "3".to_string(),
            "--filter".to_string(),
            "Steve".to_string()
        ]
    );
}

#[test]
fn main_parses_logs_level_and_filter_arguments() {
    let cli = parse_args(&strings(&["--logs", "3", "--filter", "Steve"])).expect("parse should succeed");

    assert_eq!(cli.log_level, 3);
    assert_eq!(cli.filter_name.as_deref(), Some("Steve"));
}

#[test]
fn main_logs_without_level_enables_debug_verbosity() {
    let cli = parse_args(&strings(&["--logs"])).expect("parse should succeed");

    assert_eq!(cli.log_level, 3);
}

#[test]
fn main_debug_alias_maps_to_debug_verbosity() {
    let cli = parse_args(&strings(&["--debug"])).expect("parse should succeed");

    assert_eq!(cli.log_level, 3);
}

#[test]
fn main_rejects_invalid_logs_level() {
    let error = parse_args(&strings(&["--logs", "9"])).err().expect("parse should fail");

    assert!(error.contains("Invalid --logs level"));
}

#[test]
fn main_rejects_missing_filter_value() {
    let error = parse_args(&strings(&["--filter"])).err().expect("parse should fail");

    assert!(error.contains("Missing value for --filter"));
}

#[test]
fn parse_log_level_accepts_zero_to_four_only() {
    for level in 0u8..=4 {
        assert_eq!(parse_log_level(&level.to_string()), Ok(level));
    }
    assert_eq!(
        parse_log_level("5"),
        Err("Invalid --logs level: 5. Expected 0, 1, 2, 3, or 4.".to_string())
    );
    assert!(parse_log_level("").is_err());
    assert!(parse_log_level("-1").is_err());
    assert!(parse_log_level("256").is_err());
}

#[test]
fn log_level_prefers_logs_over_debug() {
    let cli = Cli { config: false, filter: None, logs: Some(1), debug: true };
    assert_eq!(cli.log_level(), 1);
    let cli = Cli { config: false, filter: None, logs: None, debug: true };
    assert_eq!(cli.log_level(), 3);
}

#[test]
fn normalize_args_keeps_lone_slash_and_plain_arguments() {
    let args = normalize_args(strings(&["/", "Steve", "-d", "/?"]));
    assert_eq!(args, strings(&["/", "Steve", "-d", "--?"]));
}

#[test]
fn parse_args_help_stops_at_once() {
    let cli = parse_args(&strings(&["--logs", "1", "/?", "--bogus"])).expect("help should parse");
    assert!(cli.show_help);
    assert_eq!(cli.log_level, 1);
}

#[test]
fn parse_args_defaults_and_unknown_argument() {
    let cli = parse_args(&Vec::new()).expect("empty parses");
    assert_eq!(cli.log_level, 2);
    assert!(cli.config);
    assert!(!cli.show_help);
    assert_eq!(cli.filter_name, None);

    let error = parse_args(&strings(&["--nope"])).err().expect("unknown fails");
    assert_eq!(error, "Unknown argument: --nope");
}

#[test]
fn parse_args_logs_followed_by_flag_means_debug() {
    let cli = parse_args(&strings(&["--logs", "--filter", "Alex"])).expect("parse");
    assert_eq!(cli.log_level, 3);
    assert_eq!(cli.filter_name.as_deref(), Some("Alex"));
}

#[test]
fn windows_style_flags_are_accepted() {
    let cli = parse_args(&strings(&["/logs", "3", "/filter", "Steve"])).expect("parse should succeed");
    assert_eq!(cli.log_level, 3);
    assert_eq!(cli.filter_name.as_deref(), Some("Steve"));
    let help = parse_args(&strings(&["/help"])).expect("parse should succeed");
    assert!(help.show_help);
    let debug = parse_args(&strings(&["/debug"])).expect("parse should succeed");
    assert_eq!(debug.log_level, 3);
}
