use agent_rules::cli::{parse, Command, ParseError};

fn args(items: &[&str]) -> Vec<String> {
    items.iter().map(|s| s.to_string()).collect()
}

#[test]
fn apply_bare_defaults_to_no_dry_run() {
    assert_eq!(
        parse(&args(&["apply"])),
        Ok(Command::Apply { dry_run: false })
    );
}

#[test]
fn apply_with_dry_run() {
    assert_eq!(
        parse(&args(&["apply", "--dry-run"])),
        Ok(Command::Apply { dry_run: true })
    );
}

#[test]
fn list_subcommand() {
    assert_eq!(parse(&args(&["list"])), Ok(Command::List));
}

#[test]
fn version_subcommand() {
    assert_eq!(parse(&args(&["version"])), Ok(Command::Version));
}

#[test]
fn help_subcommand() {
    assert_eq!(parse(&args(&["help"])), Ok(Command::Help));
}

#[test]
fn bare_invocation_is_rejected_with_no_offender() {
    assert_eq!(parse(&args(&[])), Err(ParseError::NoCommand));
    assert_eq!(ParseError::NoCommand.message(), None);
}

#[test]
fn unknown_subcommand_is_rejected() {
    assert_eq!(
        parse(&args(&["frobnicate"])),
        Err(ParseError::UnknownCommand("frobnicate".to_string()))
    );
}

#[test]
fn help_and_version_flag_aliases_are_accepted() {
    assert_eq!(parse(&args(&["-h"])), Ok(Command::Help));
    assert_eq!(parse(&args(&["--help"])), Ok(Command::Help));
    assert_eq!(parse(&args(&["-v"])), Ok(Command::Version));
    assert_eq!(parse(&args(&["--version"])), Ok(Command::Version));
}

#[test]
fn removed_list_flag_stays_rejected() {
    assert_eq!(
        parse(&args(&["--list"])),
        Err(ParseError::UnknownCommand("--list".to_string()))
    );
}

#[test]
fn stray_argument_after_list_is_rejected() {
    assert_eq!(
        parse(&args(&["list", "--foo"])),
        Err(ParseError::UnexpectedArgument {
            command: "list",
            arg: "--foo".to_string(),
        })
    );
}

#[test]
fn stray_argument_after_apply_is_rejected() {
    assert_eq!(
        parse(&args(&["apply", "extra"])),
        Err(ParseError::UnexpectedArgument {
            command: "apply",
            arg: "extra".to_string(),
        })
    );
}

#[test]
fn dry_run_under_list_is_rejected_specifically() {
    assert_eq!(
        parse(&args(&["list", "--dry-run"])),
        Err(ParseError::DryRunNotUnderApply)
    );
}

#[test]
fn dry_run_under_version_and_help_is_rejected() {
    assert_eq!(
        parse(&args(&["version", "--dry-run"])),
        Err(ParseError::DryRunNotUnderApply)
    );
    assert_eq!(
        parse(&args(&["help", "--dry-run"])),
        Err(ParseError::DryRunNotUnderApply)
    );
}

#[test]
fn dry_run_alone_is_rejected() {
    assert_eq!(
        parse(&args(&["--dry-run"])),
        Err(ParseError::DryRunNotUnderApply)
    );
}

#[test]
fn repeated_dry_run_flags_under_apply_are_accepted() {
    assert_eq!(
        parse(&args(&["apply", "--dry-run", "--dry-run"])),
        Ok(Command::Apply { dry_run: true })
    );
}

#[test]
fn stray_argument_after_dry_run_under_apply_is_named() {
    assert_eq!(
        parse(&args(&["apply", "--dry-run", "x"])),
        Err(ParseError::UnexpectedArgument {
            command: "apply",
            arg: "x".to_string(),
        })
    );
}

#[test]
fn stray_argument_after_help_names_help() {
    assert_eq!(
        parse(&args(&["-h", "x"])),
        Err(ParseError::UnexpectedArgument {
            command: "help",
            arg: "x".to_string(),
        })
    );
}

#[test]
fn error_messages_name_the_offender() {
    assert_eq!(
        ParseError::UnknownCommand("frobnicate".to_string()).message(),
        Some("unknown command \"frobnicate\"".to_string())
    );
    assert_eq!(
        ParseError::DryRunNotUnderApply.message(),
        Some("--dry-run is only valid under 'apply'".to_string())
    );
    assert_eq!(
        ParseError::UnexpectedArgument {
            command: "list",
            arg: "--foo".to_string()
        }
        .message(),
        Some("unexpected argument \"--foo\" for 'list'".to_string())
    );
}
