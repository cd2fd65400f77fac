use cargo_run_copy::cli::{parse_args, split_args, CliCommand, CliError, Subcommand};

fn strings(args: &[&str]) -> Vec<String> {
    args.iter().map(|arg| (*arg).to_owned()).collect()
}

#[test]
fn parse_legacy_run_command() {
    assert_eq!(
        parse_args(strings(&["--release", "--", "server-arg"])).unwrap(),
        CliCommand::Run {
            build_args: strings(&["--release"]),
            run_args: strings(&["server-arg"])
        }
    );
}

#[test]
fn parse_explicit_run_command() {
    assert_eq!(
        parse_args(strings(&["run", "--bin", "server", "--", "server-arg"])).unwrap(),
        CliCommand::Run {
            build_args: strings(&["--bin", "server"]),
            run_args: strings(&["server-arg"])
        }
    );
}

#[test]
fn parse_build_command() {
    assert_eq!(
        parse_args(strings(&[
            "build",
            "--exe-path-file",
            ".cargo-run-copy/current-exe",
            "--",
            "--release"
        ]))
        .unwrap(),
        CliCommand::Build {
            exe_path_file: ".cargo-run-copy/current-exe".into(),
            build_args: strings(&["--release"])
        }
    );
}

#[test]
fn parse_build_command_with_equals_option() {
    assert_eq!(
        parse_args(strings(&[
            "build",
            "--exe-path-file=.cargo-run-copy/current-exe",
            "--",
            "--release"
        ]))
        .unwrap(),
        CliCommand::Build {
            exe_path_file: ".cargo-run-copy/current-exe".into(),
            build_args: strings(&["--release"])
        }
    );
}

#[test]
fn parse_run_from_command() {
    assert_eq!(
        parse_args(strings(&[
            "run-from",
            "--exe-path-file",
            ".cargo-run-copy/current-exe",
            "--",
            "server-arg"
        ]))
        .unwrap(),
        CliCommand::RunFrom {
            exe_path_file: ".cargo-run-copy/current-exe".into(),
            run_args: strings(&["server-arg"])
        }
    );
}

#[test]
fn exe_path_file_is_required_for_build() {
    assert!(parse_args(strings(&["build", "--", "--release"])).is_err());
}

#[test]
fn exe_path_file_is_required_for_run_from() {
    assert!(parse_args(strings(&["run-from", "--", "server-arg"])).is_err());
}

#[test]
fn missing_exe_path_file_is_reported_as_such() {
    assert_eq!(
        parse_args(strings(&["build", "--", "--release"])),
        Err(CliError::MissingExePathFile { subcommand: Subcommand::Build })
    );
    assert_eq!(
        parse_args(strings(&["run-from"])),
        Err(CliError::MissingExePathFile { subcommand: Subcommand::RunFrom })
    );
}

#[test]
fn omitted_subcommand_means_run() {
    let cases: [&[&str]; 5] = [
        &[],
        &["--release"],
        &["--release", "--", "a", "--", "b"],
        &["help"],
        &["--", "server-arg"],
    ];
    for case in cases {
        let mut explicit = strings(&["run"]);
        explicit.extend(strings(case));
        assert_eq!(parse_args(strings(case)), parse_args(explicit));
    }
}

#[test]
fn empty_command_line_runs_without_arguments() {
    assert_eq!(
        parse_args(Vec::new()).unwrap(),
        CliCommand::Run { build_args: Vec::new(), run_args: Vec::new() }
    );
}

#[test]
fn program_arguments_follow_the_first_separator_only() {
    assert_eq!(
        parse_args(strings(&["run", "-p", "x", "--", "a", "--", "-h"])).unwrap(),
        CliCommand::Run {
            build_args: strings(&["-p", "x"]),
            run_args: strings(&["a", "--", "-h"])
        }
    );
    assert_eq!(
        parse_args(strings(&["--", "server-arg"])).unwrap(),
        CliCommand::Run { build_args: Vec::new(), run_args: strings(&["server-arg"]) }
    );
}

#[test]
fn help_and_version_flags() {
    assert_eq!(
        parse_args(strings(&["-h"])),
        Err(CliError::DisplayHelp { command: None, long: false })
    );
    assert_eq!(
        parse_args(strings(&["--help", "build"])),
        Err(CliError::DisplayHelp { command: None, long: true })
    );
    assert_eq!(parse_args(strings(&["-V"])), Err(CliError::DisplayVersion { long: false }));
    assert_eq!(parse_args(strings(&["--version"])), Err(CliError::DisplayVersion { long: true }));
    assert_eq!(
        parse_args(strings(&["run", "--help"])),
        Err(CliError::DisplayHelp { command: Some(Subcommand::Run), long: true })
    );
    assert_eq!(
        parse_args(strings(&["run", "-hh"])),
        Err(CliError::DisplayHelp { command: Some(Subcommand::Run), long: false })
    );
    assert_eq!(
        parse_args(strings(&["build", "-h"])),
        Err(CliError::DisplayHelp { command: Some(Subcommand::Build), long: false })
    );
    assert_eq!(
        parse_args(strings(&["run-from", "--exe-path-file", "x", "--help"])),
        Err(CliError::DisplayHelp { command: Some(Subcommand::RunFrom), long: true })
    );
}

#[test]
fn help_flag_not_first_is_a_build_option() {
    assert_eq!(
        parse_args(strings(&["run", "--release", "--help"])).unwrap(),
        CliCommand::Run { build_args: strings(&["--release", "--help"]), run_args: Vec::new() }
    );
    assert_eq!(
        parse_args(strings(&["run", "-hx"])).unwrap(),
        CliCommand::Run { build_args: strings(&["-hx"]), run_args: Vec::new() }
    );
    assert_eq!(
        parse_args(strings(&["-hx"])).unwrap(),
        CliCommand::Run { build_args: strings(&["-hx"]), run_args: Vec::new() }
    );
}

#[test]
fn help_flag_takes_no_value() {
    assert_eq!(
        parse_args(strings(&["run", "--help=x"])),
        Err(CliError::UnexpectedValue { subcommand: Subcommand::Run, value: "x".into() })
    );
    assert_eq!(
        parse_args(strings(&["--help=x"])),
        Err(CliError::UnexpectedValue { subcommand: Subcommand::Run, value: "x".into() })
    );
    assert_eq!(
        parse_args(strings(&["build", "--help="])),
        Err(CliError::UnexpectedValue { subcommand: Subcommand::Build, value: "".into() })
    );
}

#[test]
fn unknown_arguments_of_build() {
    assert_eq!(
        parse_args(strings(&["build", "--release"])),
        Err(CliError::UnknownArgument { subcommand: Subcommand::Build, argument: "--release".into() })
    );
    assert_eq!(
        parse_args(strings(&["build", "--feature=x", "--exe-path-file", "p"])),
        Err(CliError::UnknownArgument { subcommand: Subcommand::Build, argument: "--feature".into() })
    );
    assert_eq!(
        parse_args(strings(&["run-from", "-xh"])),
        Err(CliError::UnknownArgument { subcommand: Subcommand::RunFrom, argument: "-x".into() })
    );
    assert_eq!(
        parse_args(strings(&["build", "--exe-path-file", "p", "server-arg"])),
        Err(CliError::UnknownArgument { subcommand: Subcommand::Build, argument: "server-arg".into() })
    );
}

#[test]
fn exe_path_file_needs_one_non_empty_value() {
    assert_eq!(
        parse_args(strings(&["build", "--exe-path-file"])),
        Err(CliError::EmptyValue { subcommand: Subcommand::Build })
    );
    assert_eq!(
        parse_args(strings(&["build", "--exe-path-file", "--", "x"])),
        Err(CliError::EmptyValue { subcommand: Subcommand::Build })
    );
    assert_eq!(
        parse_args(strings(&["build", "--exe-path-file="])),
        Err(CliError::EmptyValue { subcommand: Subcommand::Build })
    );
    assert_eq!(
        parse_args(strings(&["build", "--exe-path-file", "--help"])),
        Err(CliError::EmptyValue { subcommand: Subcommand::Build })
    );
    assert_eq!(
        parse_args(strings(&["run-from", "--exe-path-file=a", "--exe-path-file", "b"])),
        Err(CliError::ArgumentConflict { subcommand: Subcommand::RunFrom })
    );
}

#[test]
fn exe_path_file_may_be_a_dash_and_values_may_repeat_separator() {
    assert_eq!(
        parse_args(strings(&["run-from", "--exe-path-file", "-", "--", "--", "-h"])).unwrap(),
        CliCommand::RunFrom { exe_path_file: "-".into(), run_args: strings(&["--", "-h"]) }
    );
}

#[test]
fn split_args_at_first_separator() {
    assert_eq!(
        split_args(strings(&["a", "b", "--", "c", "--", "d"])),
        (strings(&["a", "b"]), strings(&["c", "--", "d"]))
    );
    assert_eq!(split_args(strings(&["a", "b"])), (strings(&["a", "b"]), Vec::new()));
    assert_eq!(split_args(strings(&["--"])), (Vec::new(), Vec::new()));
}
