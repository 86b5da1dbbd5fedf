use blueprint::cli::Action;
use blueprint::cli::EntryInfo;
use blueprint::cli::TokenKind;
use blueprint::cli::classify;
use blueprint::cli::copy_plan;
use blueprint::cli::help_lines;
use blueprint::cli::missing_name_message;
use blueprint::cli::plan;
use blueprint::cli::unknown_argument_message;

fn args(tokens: &[&str]) -> Vec<String> {
    tokens.iter().map(|t| t.to_string()).collect()
}

#[test]
fn every_token_alias_classifies_to_its_command() {
    assert_eq!(classify(&"-l".to_string()), TokenKind::List);
    assert_eq!(classify(&"list".to_string()), TokenKind::List);
    assert_eq!(classify(&"ls".to_string()), TokenKind::List);
    assert_eq!(classify(&"-c".to_string()), TokenKind::Create);
    assert_eq!(classify(&"create".to_string()), TokenKind::Create);
    assert_eq!(classify(&"-n".to_string()), TokenKind::New);
    assert_eq!(classify(&"new".to_string()), TokenKind::New);
    assert_eq!(classify(&"-r".to_string()), TokenKind::Remove);
    assert_eq!(classify(&"remove".to_string()), TokenKind::Remove);
    assert_eq!(classify(&"-h".to_string()), TokenKind::Help);
    assert_eq!(classify(&"--help".to_string()), TokenKind::Help);
    assert_eq!(classify(&"help".to_string()), TokenKind::Help);
    assert_eq!(classify(&"bogus".to_string()), TokenKind::Other);
}

#[test]
fn no_arguments_plan_only_the_help_text() {
    let acts = plan(&args(&[]));
    assert_eq!(acts.len(), 1);
    assert!(matches!(acts[0], Action::Help));
}

#[test]
fn name_taking_token_without_a_name_is_fatal_and_touches_nothing() {
    for tok in ["create", "-c", "new", "-n", "remove", "-r"] {
        let acts = plan(&args(&[tok]));
        assert_eq!(acts.len(), 1);
        assert!(matches!(acts[0], Action::MissingName));
    }
    assert_eq!(missing_name_message().as_str(), "Missing blueprint name");
}

#[test]
fn a_fatal_missing_name_stops_the_plan() {
    let acts = plan(&args(&["-l", "create"]));
    assert_eq!(acts.len(), 2);
    assert!(matches!(acts[0], Action::List));
    assert!(matches!(acts[1], Action::MissingName));
}

#[test]
fn chained_commands_are_planned_in_order() {
    let acts = plan(&args(&["-l", "-n", "foo", "stray", "-c", "bar", "-r", "baz", "help"]));
    assert_eq!(acts.len(), 6);
    assert!(matches!(acts[0], Action::List));
    match &acts[1] {
        Action::New { name } => assert_eq!(name.as_str(), "foo"),
        _ => panic!("expected a snapshot action"),
    }
    match &acts[2] {
        Action::Unknown { token } => assert_eq!(token.as_str(), "stray"),
        _ => panic!("expected an unknown-token report"),
    }
    match &acts[3] {
        Action::Create { name } => assert_eq!(name.as_str(), "bar"),
        _ => panic!("expected an instantiation action"),
    }
    match &acts[4] {
        Action::Remove { name } => assert_eq!(name.as_str(), "baz"),
        _ => panic!("expected a removal action"),
    }
    assert!(matches!(acts[5], Action::Help));
}

#[test]
fn a_name_taking_token_swallows_the_next_token_verbatim() {
    let acts = plan(&args(&["-n", "-l"]));
    assert_eq!(acts.len(), 1);
    match &acts[0] {
        Action::New { name } => assert_eq!(name.as_str(), "-l"),
        _ => panic!("expected a snapshot action"),
    }
}

#[test]
fn unknown_argument_report_carries_the_token() {
    assert_eq!(
        unknown_argument_message(&"wat".to_string()).as_str(),
        "Unknown argument wat"
    );
}

#[test]
fn help_text_matches_the_usage_lines() {
    let lines = help_lines();
    let expected = vec![
        "Usage: blueprint [OPTIONS] [SUBCOMMAND]",
        "",
        "Options:",
        "  -h, --help       Prints help information",
        "",
        "Subcommands:",
        "  create <name>    make a new file from blueprint from an existing blueprint",
        "  list             List all blueprints",
        "  new <name>       Create a new blueprint from the current directory",
        "  remove <name>    Remove a blueprint",
    ];
    assert_eq!(lines, expected);
}

#[test]
fn copy_plan_keeps_files_and_skips_directories() {
    let entries = vec![
        EntryInfo { name: "a".to_string(), is_dir: false },
        EntryInfo { name: "sub".to_string(), is_dir: true },
        EntryInfo { name: "b".to_string(), is_dir: false },
    ];
    let kept = copy_plan(&entries);
    assert_eq!(kept, vec!["a", "b"]);
}

#[test]
fn copy_plan_of_directories_alone_is_empty() {
    let entries = vec![
        EntryInfo { name: "one".to_string(), is_dir: true },
        EntryInfo { name: "two".to_string(), is_dir: true },
    ];
    assert_eq!(copy_plan(&entries).len(), 0);
}
