//! The quality checks: which command was asked for, the steps the checks and the fixers run, how a
//! step's program is found, and what a finished run reports.
use vstd::prelude::*;

use crate::strings::{decimal, join, push_decimal};
use crate::text::{chars_of, push_chars};

verus! {

/// One step of the checks: a label to report it by, and the command that implements it.
pub struct Step {
    /// Short name shown in the output and in the failure summary.
    pub name: &'static str,
    /// Executable to run: a bare name is looked up on `PATH`, anything with a `/` is relative to
    /// the workspace root.
    pub program: &'static str,
    /// Arguments passed to `program`.
    pub args: Vec<&'static str>,
}

/// A step as its name, its program and its arguments.
pub open spec fn step_view(s: Step) -> (Seq<char>, Seq<char>, Seq<Seq<char>>) {
    (s.name@, s.program@, s.args@.map_values(|a: &'static str| a@))
}

fn step(name: &'static str, program: &'static str, args: Vec<&'static str>) -> (r: Step)
    ensures
        r.name == name,
        r.program == program,
        r.args@ == args@,
{
    Step { name, program, args }
}

/// The Node tools the checks reach through `node_modules/.bin`.
pub open spec fn prettier() -> Seq<char> {
    "node_modules/.bin/prettier"@
}

/// The Markdown linter.
pub open spec fn markdownlint() -> Seq<char> {
    "node_modules/.bin/markdownlint-cli2"@
}

/// The editorconfig checker.
pub open spec fn editorconfig() -> Seq<char> {
    "node_modules/.bin/editorconfig-checker"@
}

/// Every step of the quality checks, in the order they run.
pub open spec fn spec_gate() -> Seq<(Seq<char>, Seq<char>, Seq<Seq<char>>)> {
    seq![
        ("fmt"@, "cargo"@, seq!["fmt"@, "--all"@, "--check"@]),
        ("prettier"@, prettier(), seq!["--check"@, "--ignore-unknown"@, "."@]),
        ("markdownlint"@, markdownlint(), Seq::empty()),
        ("editorconfig"@, editorconfig(), Seq::empty()),
        (
            "cspell"@,
            "node_modules/.bin/cspell"@,
            seq!["--no-progress"@, "--gitignore"@, "--cache"@, "**"@],
        ),
        (
            "clippy"@,
            "cargo"@,
            seq!["clippy"@, "--workspace"@, "--all-targets"@, "--"@, "-D"@, "warnings"@],
        ),
        ("build"@, "cargo"@, seq!["build"@, "--workspace"@, "--all-targets"@]),
        (
            "wasm"@,
            "cargo"@,
            seq![
                "check"@,
                "-p"@,
                "monospace-core"@,
                "-p"@,
                "monospace-glyph-sets"@,
                "--target"@,
                "wasm32-unknown-unknown"@,
            ],
        ),
        ("test"@, "cargo"@, seq!["test"@, "--workspace"@]),
        ("doc"@, "cargo"@, seq!["doc"@, "--workspace"@, "--no-deps"@]),
    ]
}

/// The steps of the checks that can fix what they find, in the order they must run.
pub open spec fn spec_fixers() -> Seq<(Seq<char>, Seq<char>, Seq<Seq<char>>)> {
    seq![
        ("fmt"@, "cargo"@, seq!["fmt"@, "--all"@]),
        ("prettier"@, prettier(), seq!["--write"@, "--ignore-unknown"@, "."@]),
        ("markdownlint"@, markdownlint(), seq!["--fix"@]),
        ("editorconfig"@, editorconfig(), seq!["-fix"@]),
    ]
}

/// Every step of the quality checks, in the order they run. All of them run on every invocation,
/// so that one pass reports every problem rather than only the first.
pub fn gate() -> (r: Vec<Step>)
    ensures
        r@.map_values(|s: Step| step_view(s)) == spec_gate(),
{
    let a0 = vec!["fmt", "--all", "--check"];
    let a1 = vec!["--check", "--ignore-unknown", "."];
    let a2: Vec<&'static str> = Vec::new();
    let a3: Vec<&'static str> = Vec::new();
    let a4 = vec!["--no-progress", "--gitignore", "--cache", "**"];
    let a5 = vec!["clippy", "--workspace", "--all-targets", "--", "-D", "warnings"];
    let a6 = vec!["build", "--workspace", "--all-targets"];
    let a7 = vec![
        "check",
        "-p",
        "monospace-core",
        "-p",
        "monospace-glyph-sets",
        "--target",
        "wasm32-unknown-unknown",
    ];
    let a8 = vec!["test", "--workspace"];
    let a9 = vec!["doc", "--workspace", "--no-deps"];
    let ghost g = spec_gate();
    assert(a0@.map_values(|a: &'static str| a@) =~= g[0].2);
    assert(a1@.map_values(|a: &'static str| a@) =~= g[1].2);
    assert(a2@.map_values(|a: &'static str| a@) =~= g[2].2);
    assert(a3@.map_values(|a: &'static str| a@) =~= g[3].2);
    assert(a4@.map_values(|a: &'static str| a@) =~= g[4].2);
    assert(a5@.map_values(|a: &'static str| a@) =~= g[5].2);
    assert(a6@.map_values(|a: &'static str| a@) =~= g[6].2);
    assert(a7@.map_values(|a: &'static str| a@) =~= g[7].2);
    assert(a8@.map_values(|a: &'static str| a@) =~= g[8].2);
    assert(a9@.map_values(|a: &'static str| a@) =~= g[9].2);
    let r = vec![
        step("fmt", "cargo", a0),
        step("prettier", "node_modules/.bin/prettier", a1),
        step("markdownlint", "node_modules/.bin/markdownlint-cli2", a2),
        step("editorconfig", "node_modules/.bin/editorconfig-checker", a3),
        step("cspell", "node_modules/.bin/cspell", a4),
        step("clippy", "cargo", a5),
        step("build", "cargo", a6),
        step("wasm", "cargo", a7),
        step("test", "cargo", a8),
        step("doc", "cargo", a9),
    ];
    assert(r@.map_values(|s: Step| step_view(s)) =~= g);
    r
}

/// The steps of the checks that can fix what they find, in the order they must run: content
/// formatters first, `editorconfig` last.
pub fn fixers() -> (r: Vec<Step>)
    ensures
        r@.map_values(|s: Step| step_view(s)) == spec_fixers(),
{
    let a0 = vec!["fmt", "--all"];
    let a1 = vec!["--write", "--ignore-unknown", "."];
    let a2 = vec!["--fix"];
    let a3 = vec!["-fix"];
    let ghost g = spec_fixers();
    assert(a0@.map_values(|a: &'static str| a@) =~= g[0].2);
    assert(a1@.map_values(|a: &'static str| a@) =~= g[1].2);
    assert(a2@.map_values(|a: &'static str| a@) =~= g[2].2);
    assert(a3@.map_values(|a: &'static str| a@) =~= g[3].2);
    let r = vec![
        step("fmt", "cargo", a0),
        step("prettier", "node_modules/.bin/prettier", a1),
        step("markdownlint", "node_modules/.bin/markdownlint-cli2", a2),
        step("editorconfig", "node_modules/.bin/editorconfig-checker", a3),
    ];
    assert(r@.map_values(|s: Step| step_view(s)) =~= g);
    r
}

/// Whether a step's program is a path relative to the workspace root rather than a name looked up
/// on `PATH`: it is when it holds a separator.
pub fn is_workspace_path(program: &str) -> (r: bool)
    ensures
        r == program@.contains('/'),
{
    let v = chars_of(program);
    let mut i: usize = 0;
    while i < v.len()
        invariant
            i <= v@.len(),
            v@ == program@,
            forall|k: int| 0 <= k < i ==> v@[k] != '/',
        decreases v@.len() - i,
    {
        if v[i] == '/' {
            return true;
        }
        i += 1;
    }
    false
}

/// The command the first argument asks for.
#[derive(Debug, Clone, PartialEq, Eq)]
pub enum Command {
    /// Run every quality check.
    Check,
    /// Run every check that can fix what it finds.
    Fix,
    /// Install the Node tooling.
    Setup,
    /// Manage a feature's branch lifecycle.
    Spec,
    /// Show the usage.
    Help,
    /// Something else, named as it was given.
    Unknown(String),
}

/// Reads the command out of the first argument.
pub fn command(arg: Option<&str>) -> (r: Command)
    ensures
        arg is None ==> r == Command::Help,
        arg matches Some(a) ==> {
            if a@ == "check"@ {
                r == Command::Check
            } else if a@ == "fix"@ {
                r == Command::Fix
            } else if a@ == "setup"@ {
                r == Command::Setup
            } else if a@ == "spec"@ {
                r == Command::Spec
            } else if a@ == "help"@ || a@ == "--help"@ || a@ == "-h"@ {
                r == Command::Help
            } else {
                r matches Command::Unknown(u) && u@ == a@
            }
        },
{
    match arg {
        None => Command::Help,
        Some(a) => {
            let v = chars_of(a);
            if crate::strings::equals(&v, "check") {
                Command::Check
            } else if crate::strings::equals(&v, "fix") {
                Command::Fix
            } else if crate::strings::equals(&v, "setup") {
                Command::Setup
            } else if crate::strings::equals(&v, "spec") {
                Command::Spec
            } else if crate::strings::equals(&v, "help") || crate::strings::equals(&v, "--help")
                || crate::strings::equals(&v, "-h") {
                Command::Help
            } else {
                let mut u = String::new();
                push_chars(&mut u, a);
                Command::Unknown(u)
            }
        },
    }
}

/// The names of `names`, joined by `, `.
fn joined(names: &[&str]) -> (r: String)
    ensures
        r@ == join(names@.map_values(|n: &str| n@), ", "@),
{
    let ghost ns = names@.map_values(|n: &str| n@);
    let mut r = String::new();
    let mut i: usize = 0;
    while i < names.len()
        invariant
            i <= names@.len(),
            ns == names@.map_values(|n: &str| n@),
            r@ == join(ns.take(i as int), ", "@),
        decreases names@.len() - i,
    {
        if i > 0 {
            push_chars(&mut r, ", ");
        }
        push_chars(&mut r, names[i]);
        proof {
            let t = ns.take(i + 1);
            assert(t.drop_last() =~= ns.take(i as int));
            assert(t.last() == names@[i as int]@);
            if i == 0 {
                assert(r@ =~= join(t, ", "@));
            } else {
                assert(r@ =~= join(t, ", "@));
            }
        }
        i += 1;
    }
    assert(ns.take(i as int) =~= ns);
    r
}

/// What a finished run of `total` steps reports, given the names of those that failed: `Ok` with
/// `all {total} {plural} {clean}` when none did, otherwise `Err` with `{failed} of {total}
/// {plural} {dirty}: {names}`.
pub open spec fn spec_outcome(
    failed: Seq<Seq<char>>,
    total: nat,
    plural: Seq<char>,
    clean: Seq<char>,
    dirty: Seq<char>,
) -> Result<Seq<char>, Seq<char>> {
    if failed.len() == 0 {
        Ok("all "@ + decimal(total) + " "@ + plural + " "@ + clean)
    } else {
        Err(decimal(failed.len()) + " of "@ + decimal(total) + " "@ + plural + " "@ + dirty + ": "@
            + join(failed, ", "@))
    }
}

fn outcome(
    failed: &[&str],
    total: usize,
    plural: &str,
    clean: &str,
    dirty: &str,
) -> (r: Result<String, String>)
    ensures
        match (r, spec_outcome(
            failed@.map_values(|n: &str| n@),
            total as nat,
            plural@,
            clean@,
            dirty@,
        )) {
            (Ok(m), Ok(s)) => m@ == s,
            (Err(m), Err(s)) => m@ == s,
            _ => false,
        },
{
    let mut m = String::new();
    if failed.len() == 0 {
        push_chars(&mut m, "all ");
        push_decimal(&mut m, total as u64);
        push_chars(&mut m, " ");
        push_chars(&mut m, plural);
        push_chars(&mut m, " ");
        push_chars(&mut m, clean);
        return Ok(m);
    }
    push_decimal(&mut m, failed.len() as u64);
    push_chars(&mut m, " of ");
    push_decimal(&mut m, total as u64);
    push_chars(&mut m, " ");
    push_chars(&mut m, plural);
    push_chars(&mut m, " ");
    push_chars(&mut m, dirty);
    push_chars(&mut m, ": ");
    let j = joined(failed);
    push_chars(&mut m, j.as_str());
    Err(m)
}

/// What a run of the checks reports: `Ok` when every one of its `total` checks passed, otherwise
/// `Err` naming those that failed.
pub fn gate_outcome(failed: &[&str], total: usize) -> (r: Result<String, String>)
    ensures
        match (r, spec_outcome(
            failed@.map_values(|n: &str| n@),
            total as nat,
            "checks"@,
            "passed"@,
            "failed"@,
        )) {
            (Ok(m), Ok(s)) => m@ == s,
            (Err(m), Err(s)) => m@ == s,
            _ => false,
        },
{
    outcome(failed, total, "checks", "passed", "failed")
}

/// What a run of the fixers reports: `Ok` when every one of its `total` fixers ran clean,
/// otherwise `Err` naming those that still have something to fix by hand.
pub fn fix_outcome(failed: &[&str], total: usize) -> (r: Result<String, String>)
    ensures
        match (r, spec_outcome(
            failed@.map_values(|n: &str| n@),
            total as nat,
            "fixers"@,
            "ran clean"@,
            "still have something to fix by hand"@,
        )) {
            (Ok(m), Ok(s)) => m@ == s,
            (Err(m), Err(s)) => m@ == s,
            _ => false,
        },
{
    outcome(failed, total, "fixers", "ran clean", "still have something to fix by hand")
}

} // verus!
