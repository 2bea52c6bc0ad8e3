use dlerust::cli::array_includes_either;
use dlerust::cli::is_debug_value;
use dlerust::cli::parse_command;
use dlerust::cli::Command;

#[test]
fn includes_either_finds_first_spelling() {
    assert!(array_includes_either(&vec!["-v"], "-v", "--version"));
}

#[test]
fn includes_either_finds_second_spelling() {
    assert!(array_includes_either(&vec!["deps", "--version"], "-v", "--version"));
}

#[test]
fn includes_either_misses() {
    assert!(!array_includes_either(&vec!["deps", "all"], "-v", "--version"));
    assert!(!array_includes_either(&vec![], "-v", "--version"));
}

#[test]
fn no_args_shows_help() {
    assert_eq!(parse_command(&vec![], 0), Command::Help);
}

#[test]
fn only_wrapped_command_builds() {
    assert_eq!(parse_command(&vec![], 2), Command::Build);
}

#[test]
fn named_commands() {
    assert_eq!(parse_command(&vec!["deps"], 0), Command::Deps);
    assert_eq!(parse_command(&vec!["all"], 0), Command::All);
    assert_eq!(parse_command(&vec!["graph"], 0), Command::Graph);
    assert_eq!(parse_command(&vec!["clean"], 0), Command::Clean);
    assert_eq!(parse_command(&vec!["clear"], 0), Command::Clean);
    assert_eq!(parse_command(&vec!["bogus"], 0), Command::Unknown);
}

#[test]
fn version_flag_wins_anywhere() {
    assert_eq!(parse_command(&vec!["deps", "-v"], 0), Command::Version);
    assert_eq!(parse_command(&vec!["--version"], 3), Command::Version);
    assert_eq!(parse_command(&vec!["-h", "-v"], 0), Command::Version);
}

#[test]
fn help_flag_wins_over_commands() {
    assert_eq!(parse_command(&vec!["graph", "--help"], 0), Command::Help);
    assert_eq!(parse_command(&vec!["-h"], 0), Command::Help);
}

#[test]
fn debug_value_must_match_exactly() {
    assert!(is_debug_value(&Some("dlerust".to_string())));
    assert!(!is_debug_value(&Some("1".to_string())));
    assert!(!is_debug_value(&Some("".to_string())));
    assert!(!is_debug_value(&None));
}
