use monospace::xtask::gate::{command, fix_outcome, fixers, gate, gate_outcome, is_workspace_path, Command};

#[test]
fn the_gate_runs_every_step_in_order() {
    let names: Vec<&str> = gate().iter().map(|s| s.name).collect();
    assert_eq!(
        names,
        vec![
            "fmt", "prettier", "markdownlint", "editorconfig", "cspell", "clippy", "build", "wasm",
            "test", "doc"
        ]
    );
    assert_eq!(gate()[0].args, vec!["fmt", "--all", "--check"]);
}

#[test]
fn the_fixers_end_with_editorconfig() {
    let names: Vec<&str> = fixers().iter().map(|s| s.name).collect();
    assert_eq!(names, vec!["fmt", "prettier", "markdownlint", "editorconfig"]);
    assert_eq!(fixers()[3].args, vec!["-fix"]);
}

#[test]
fn a_program_with_a_separator_is_a_workspace_path() {
    assert!(is_workspace_path("node_modules/.bin/prettier"));
    assert!(!is_workspace_path("cargo"));
}

#[test]
fn the_first_argument_names_the_command() {
    assert_eq!(command(Some("check")), Command::Check);
    assert_eq!(command(Some("fix")), Command::Fix);
    assert_eq!(command(Some("setup")), Command::Setup);
    assert_eq!(command(Some("spec")), Command::Spec);
    assert_eq!(command(None), Command::Help);
    assert_eq!(command(Some("-h")), Command::Help);
    assert_eq!(command(Some("--help")), Command::Help);
    assert_eq!(command(Some("lint")), Command::Unknown("lint".to_string()));
}

#[test]
fn a_clean_gate_says_how_many_checks_passed() {
    assert_eq!(gate_outcome(&[], 10), Ok("all 10 checks passed".to_string()));
}

#[test]
fn a_failing_gate_names_what_failed() {
    assert_eq!(
        gate_outcome(&["fmt", "clippy"], 10),
        Err("2 of 10 checks failed: fmt, clippy".to_string())
    );
}

#[test]
fn the_fixers_report_what_is_left_by_hand() {
    assert_eq!(fix_outcome(&[], 4), Ok("all 4 fixers ran clean".to_string()));
    assert_eq!(
        fix_outcome(&["markdownlint"], 4),
        Err("1 of 4 fixers still have something to fix by hand: markdownlint".to_string())
    );
}
