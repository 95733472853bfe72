use firrtl_source_locator::toolchain::{
    first_build_action, next_build_action, step_command, BuildAction, BuildCheck, StepOutcome,
};
use firrtl_source_locator::{
    summarize_text, try_summarize_output, FirrtlSourceLocatorExtension, SUMMARY_LIMIT,
};

#[test]
fn rustc_version_is_read_from_the_second_word() {
    assert_eq!(
        FirrtlSourceLocatorExtension::parse_rustc_version("rustc 1.75.0 (82e1608df 2023-12-21)"),
        Some((1, 75, 0))
    );
    assert_eq!(
        FirrtlSourceLocatorExtension::parse_rustc_version("rustc 1.82.3-nightly (abc)"),
        Some((1, 82, 3))
    );
    assert_eq!(
        FirrtlSourceLocatorExtension::parse_rustc_version("  rustc\t\n 2.0 "),
        Some((2, 0, 0))
    );
    assert_eq!(
        FirrtlSourceLocatorExtension::parse_rustc_version("rustc\u{2003}1.2.x"),
        Some((1, 2, 0))
    );
    assert_eq!(
        FirrtlSourceLocatorExtension::parse_rustc_version("rustc 1.2.99999999999"),
        Some((1, 2, 0))
    );
    assert_eq!(
        FirrtlSourceLocatorExtension::parse_rustc_version("rustc 1.2.3.4"),
        Some((1, 2, 3))
    );
    assert_eq!(
        FirrtlSourceLocatorExtension::parse_rustc_version("rustc +1.+2.+3"),
        Some((1, 2, 0))
    );
    assert_eq!(FirrtlSourceLocatorExtension::parse_rustc_version("rustc 1.2."), Some((1, 2, 0)));
}

#[test]
fn rustc_version_that_does_not_read_is_none() {
    assert_eq!(FirrtlSourceLocatorExtension::parse_rustc_version(""), None);
    assert_eq!(FirrtlSourceLocatorExtension::parse_rustc_version("   "), None);
    assert_eq!(FirrtlSourceLocatorExtension::parse_rustc_version("rustc"), None);
    assert_eq!(FirrtlSourceLocatorExtension::parse_rustc_version("rustc "), None);
    assert_eq!(FirrtlSourceLocatorExtension::parse_rustc_version("rustc 1"), None);
    assert_eq!(FirrtlSourceLocatorExtension::parse_rustc_version("rustc 1."), None);
    assert_eq!(FirrtlSourceLocatorExtension::parse_rustc_version("rustc .1"), None);
    assert_eq!(FirrtlSourceLocatorExtension::parse_rustc_version("rustc a.1.2"), None);
    assert_eq!(FirrtlSourceLocatorExtension::parse_rustc_version("rustc 1.b.2"), None);
    assert_eq!(FirrtlSourceLocatorExtension::parse_rustc_version("1.75.0 rustc"), None);
    assert_eq!(FirrtlSourceLocatorExtension::parse_rustc_version("rustc 1.-5.0"), None);
}

#[test]
fn versions_are_compared_part_by_part() {
    let at_least = FirrtlSourceLocatorExtension::is_version_at_least;
    assert!(at_least((1, 75, 0), (1, 75, 0)));
    assert!(at_least((1, 75, 1), (1, 75, 0)));
    assert!(at_least((1, 76, 0), (1, 75, 9)));
    assert!(at_least((2, 0, 0), (1, 75, 0)));
    assert!(!at_least((1, 74, 9), (1, 75, 0)));
    assert!(!at_least((0, 99, 99), (1, 0, 0)));
    assert!(!at_least((1, 75, 0), (1, 75, 1)));
}

#[test]
fn short_output_is_trimmed() {
    assert_eq!(FirrtlSourceLocatorExtension::summarize_output(b"  error: x \n"), "error: x");
    assert_eq!(FirrtlSourceLocatorExtension::summarize_output(b""), "");
    assert_eq!(FirrtlSourceLocatorExtension::summarize_output(b" \n\t "), "");
    assert_eq!(FirrtlSourceLocatorExtension::summarize_output(b"a\xffb"), "a\u{fffd}b");
    assert_eq!(summarize_text("\u{3000}héllo\u{a0}"), "héllo");
    let exact = "x".repeat(SUMMARY_LIMIT);
    assert_eq!(summarize_text(&exact), exact);
}

#[test]
fn long_output_is_cut_with_a_note() {
    let long = format!("  {}  ", "y".repeat(SUMMARY_LIMIT + 1));
    let expected = format!("{}\n... (truncated)", "y".repeat(SUMMARY_LIMIT));
    assert_eq!(summarize_text(&long), expected);
    assert_eq!(FirrtlSourceLocatorExtension::summarize_output(long.as_bytes()), expected);
    assert_eq!(try_summarize_output(long.as_bytes()), Some(expected));
    let wide = format!("{}é", "z".repeat(SUMMARY_LIMIT));
    assert_eq!(
        try_summarize_output(wide.as_bytes()),
        Some(format!("{}\n... (truncated)", "z".repeat(SUMMARY_LIMIT)))
    );
}

#[test]
fn cut_inside_a_code_point_is_refused() {
    let split = format!("{}é", "z".repeat(SUMMARY_LIMIT - 1));
    assert_eq!(split.len(), SUMMARY_LIMIT + 1);
    assert_eq!(try_summarize_output(split.as_bytes()), None);
    let mut broken = vec![b'q'; SUMMARY_LIMIT - 1];
    broken.push(0xff);
    broken.push(b'q');
    assert_eq!(try_summarize_output(&broken), None);
    let fits = format!("{}é", "z".repeat(SUMMARY_LIMIT - 2));
    assert_eq!(try_summarize_output(fits.as_bytes()), Some(fits));
}

#[test]
fn server_is_started_with_cargo_run() {
    let env = vec![("A".to_string(), "1".to_string())];
    let command = FirrtlSourceLocatorExtension::start_command(
        "/bin/cargo".to_string(),
        "/x/Cargo.toml".to_string(),
        env.clone(),
    );
    assert_eq!(command.command, "/bin/cargo");
    assert_eq!(
        command.args,
        vec!["run", "--manifest-path", "/x/Cargo.toml", "--bin", "firrtl-source-locator-server"]
    );
    assert_eq!(command.env, env);
}

#[test]
fn toolchain_is_set_unless_given() {
    let stable = ("RUSTUP_TOOLCHAIN".to_string(), "stable".to_string());
    assert_eq!(FirrtlSourceLocatorExtension::command_env(vec![]), vec![stable.clone()]);
    let path = ("PATH".to_string(), "/bin".to_string());
    assert_eq!(
        FirrtlSourceLocatorExtension::command_env(vec![path.clone()]),
        vec![path.clone(), stable]
    );
    let nightly = ("RUSTUP_TOOLCHAIN".to_string(), "nightly".to_string());
    assert_eq!(
        FirrtlSourceLocatorExtension::command_env(vec![path.clone(), nightly.clone()]),
        vec![path, nightly]
    );
}

#[test]
fn worktrees_are_validated_once() {
    let mut extension = FirrtlSourceLocatorExtension::new();
    assert!(extension.needs_validation(7));
    extension.mark_validated(7);
    assert!(!extension.needs_validation(7));
    assert!(extension.needs_validation(8));
    extension.mark_validated(7);
    extension.mark_validated(8);
    assert!(!extension.needs_validation(8));
}

fn process(status: Option<i32>, stdout: &str, stderr: &str) -> StepOutcome {
    StepOutcome::Process {
        status,
        stdout: stdout.as_bytes().to_vec(),
        stderr: stderr.as_bytes().to_vec(),
    }
}

fn taken(action: Option<BuildAction>) -> Option<BuildCheck> {
    match action {
        Some(BuildAction::Take(step)) => Some(step),
        _ => None,
    }
}

fn failure(action: Option<BuildAction>) -> Option<String> {
    match action {
        Some(BuildAction::Fail(message)) => Some(message),
        _ => None,
    }
}

#[test]
fn validation_takes_its_steps_in_order() {
    assert!(matches!(first_build_action(), BuildAction::Take(BuildCheck::FindRustc)));
    let found = StepOutcome::Tool { found: true };
    assert_eq!(
        taken(next_build_action(BuildCheck::FindRustc, &found, "/m/Cargo.toml")),
        Some(BuildCheck::CargoVersion)
    );
    let ok = process(Some(0), "cargo 1.80.0 (abc 2024-01-01)\n", "");
    assert_eq!(
        taken(next_build_action(BuildCheck::CargoVersion, &ok, "/m/Cargo.toml")),
        Some(BuildCheck::RustcVersion)
    );
    let rustc = process(Some(0), "rustc 1.75.0 (82e1608df 2023-12-21)\n", "");
    assert_eq!(
        taken(next_build_action(BuildCheck::RustcVersion, &rustc, "/m/Cargo.toml")),
        Some(BuildCheck::CargoCheck)
    );
    let unreadable = process(Some(0), "something else entirely", "");
    assert_eq!(
        taken(next_build_action(BuildCheck::RustcVersion, &unreadable, "/m/Cargo.toml")),
        Some(BuildCheck::CargoCheck)
    );
    let checked = process(Some(0), "", "warning: unused");
    assert!(matches!(
        next_build_action(BuildCheck::CargoCheck, &checked, "/m/Cargo.toml"),
        Some(BuildAction::Finish)
    ));
}

#[test]
fn validation_fails_without_a_compiler() {
    let missing = StepOutcome::Tool { found: false };
    assert_eq!(
        failure(next_build_action(BuildCheck::FindRustc, &missing, "/m/Cargo.toml")),
        Some(
            "Rust compiler not found. Install Rust via rustup (https://rustup.rs) and restart Zed."
                .to_string()
        )
    );
}

#[test]
fn validation_fails_when_a_tool_does_not_tell_its_version() {
    let failed = process(Some(1), "ignored", "  no such toolchain\n");
    assert_eq!(
        failure(next_build_action(BuildCheck::CargoVersion, &failed, "/m/Cargo.toml")),
        Some(
            "`cargo --version` failed.\nno such toolchain\n\nPlease verify your Rust toolchain installation and PATH."
                .to_string()
        )
    );
    let killed = process(None, "", "");
    assert_eq!(
        failure(next_build_action(BuildCheck::RustcVersion, &killed, "/m/Cargo.toml")),
        Some(
            "`rustc --version` failed.\n\n\nPlease verify your Rust toolchain installation and PATH."
                .to_string()
        )
    );
}

#[test]
fn validation_fails_for_an_old_compiler() {
    let old = process(Some(0), "rustc 1.74.1 (a28077b28 2023-12-04)\n", "");
    assert_eq!(
        failure(next_build_action(BuildCheck::RustcVersion, &old, "/m/Cargo.toml")),
        Some(
            "Rust version too old: `rustc 1.74.1 (a28077b28 2023-12-04)`.\nNeed rustc >= 1.75.0.\nRun `rustup update stable` and restart Zed."
                .to_string()
        )
    );
}

#[test]
fn validation_fails_when_the_server_does_not_compile() {
    let expected = |details: &str| {
        format!(
            "Failed to compile `firrtl-source-locator-server` locally.\n{details}\n\nTry running this command in the project root:\n`cargo check --manifest-path /m/Cargo.toml --bin firrtl-source-locator-server`\nIf it still fails, update Rust (`rustup update stable`) and check network access to crates.io."
        )
    };
    let with_errors = process(Some(101), "out", " error[E0432] \n");
    assert_eq!(
        failure(next_build_action(BuildCheck::CargoCheck, &with_errors, "/m/Cargo.toml")),
        Some(expected("error[E0432]"))
    );
    let only_output = process(Some(101), " out ", "  \n");
    assert_eq!(
        failure(next_build_action(BuildCheck::CargoCheck, &only_output, "/m/Cargo.toml")),
        Some(expected("out"))
    );
}

#[test]
fn validation_cannot_show_output_cut_inside_a_code_point() {
    let split = format!("{}é", "z".repeat(SUMMARY_LIMIT - 1));
    let failed = process(Some(1), "", &split);
    assert!(next_build_action(BuildCheck::CargoVersion, &failed, "/m").is_none());
    let failed = process(Some(1), &split, "plain");
    assert!(next_build_action(BuildCheck::CargoCheck, &failed, "/m").is_none());
    assert!(next_build_action(BuildCheck::CargoVersion, &failed, "/m").is_some());
    let told = process(Some(0), &split, "");
    assert!(next_build_action(BuildCheck::RustcVersion, &told, "/m").is_none());
    assert!(next_build_action(BuildCheck::CargoVersion, &told, "/m").is_some());
}

#[test]
fn steps_run_their_commands() {
    let (program, args) = step_command(BuildCheck::CargoVersion, "/m/Cargo.toml");
    assert_eq!(program, "cargo");
    assert_eq!(args, vec!["--version"]);
    let (program, args) = step_command(BuildCheck::RustcVersion, "/m/Cargo.toml");
    assert_eq!(program, "rustc");
    assert_eq!(args, vec!["--version"]);
    let (program, args) = step_command(BuildCheck::CargoCheck, "/m/Cargo.toml");
    assert_eq!(program, "cargo");
    assert_eq!(
        args,
        vec!["check", "--manifest-path", "/m/Cargo.toml", "--bin", "firrtl-source-locator-server"]
    );
}
