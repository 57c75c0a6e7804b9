//! Tests for the command-line helpers: `--taskfile`, the mode an invocation
//! asks for, and the task listing.

use alors::cli::{listing, mode, take_taskfile, Mode};
use alors::complete::{candidates, script, SHELLS};
use alors::model::Taskfile;
use alors::parser::parse;
use alors::plan::plan;
use alors::resolver::resolve;
use alors::text::decimal_string;
use alors::validate::validate;

fn words(w: &[&str]) -> Vec<String> {
    w.iter().map(|s| s.to_string()).collect()
}

#[test]
fn taskfile_flag_comes_off_the_front() {
    let args = words(&["--taskfile", "x/tasks.alors", "build", "--taskfile"]);
    let (path, rest) = take_taskfile(&args).unwrap();
    assert_eq!(path, Some("x/tasks.alors".to_string()));
    assert_eq!(rest, &words(&["build", "--taskfile"])[..]);

    let args = words(&["greet", "--taskfile"]);
    let (path, rest) = take_taskfile(&args).unwrap();
    assert_eq!(path, None);
    assert_eq!(rest, &args[..]);

    assert_eq!(take_taskfile(&words(&["--taskfile"])).unwrap_err(), "--taskfile needs a path");
}

#[test]
fn the_first_word_picks_the_mode() {
    assert!(matches!(mode(&words(&["--version", "x"])), Mode::Version));
    assert!(matches!(mode(&words(&["--completion-script", "zsh"])), Mode::CompletionScript(Some(s)) if s == "zsh"));
    assert!(matches!(mode(&words(&["--completion-script"])), Mode::CompletionScript(None)));
    assert!(matches!(mode(&words(&["--help-ai"])), Mode::HelpAi));
    assert!(matches!(mode(&words(&["--help", "build"])), Mode::Help));
    assert!(matches!(mode(&words(&[])), Mode::List));
    match mode(&words(&["--complete", "--taskfile", "t.alors", "do"])) {
        Mode::Complete { words: w, pointed_at } => {
            assert_eq!(w, words(&["--taskfile", "t.alors", "do"]));
            assert_eq!(pointed_at, Some("t.alors".to_string()));
        }
        other => panic!("got {:?}", other),
    }
    match mode(&words(&["help", "me"])) {
        Mode::Run(w) => assert_eq!(w, words(&["help", "me"])),
        other => panic!("got {:?}", other),
    }
}

#[test]
fn the_listing_marks_namespaces_and_parameters() {
    let t = parse("build:\n    b\nbuild::release:\n    r\ndocker::push:\n    p\ngreet name other:\n    g\n").unwrap();
    assert_eq!(
        listing(&t),
        words(&[
            "Available commands:",
            "  build (+ subcommands)",
            "  docker <subcommand>",
            "  greet  name other",
        ])
    );
    let empty = parse("\n# only a comment\n").unwrap();
    assert_eq!(listing(&empty), words(&["tasks.alors has no tasks."]));
}

#[test]
fn numbers_are_written_in_decimal() {
    assert_eq!(decimal_string(0), "0");
    assert_eq!(decimal_string(7), "7");
    assert_eq!(decimal_string(1204), "1204");
    assert_eq!(decimal_string(usize::MAX), usize::MAX.to_string());
}

/// A small taskfile: a task with a parameter, a namespace with a default task,
/// and a task without parameters.
const BASIC: &str = "greet name:\n    echo \"hello {{name}}\"\nns:\n    echo \"the namespace default\"\nns::sub:\n    echo \"in the namespace\"\nwhere:\n    pwd\n";

fn basic() -> Taskfile {
    let t = parse(BASIC).unwrap();
    assert_eq!(validate(&t), Ok(()));
    t
}

/// The body lines the invocation `args` would run, in order.
fn bodies(t: &Taskfile, args: &[&str]) -> Vec<String> {
    let r = resolve(t, &words(args)).unwrap();
    let vals: Vec<String> = r.args.iter().map(|(_, v)| v.clone()).collect();
    plan(t, &r.task.path, &vals).into_iter().flat_map(|s| s.body).collect()
}

#[test]
fn a_pointed_at_taskfile_runs_tasks_normally() {
    let args = words(&["--taskfile", "tests/fixtures/basic.alors", "greet", "world"]);
    let (path, rest) = take_taskfile(&args).unwrap();
    assert_eq!(path, Some("tests/fixtures/basic.alors".to_string()));
    let t = basic();
    let rest: Vec<&str> = rest.iter().map(|s| s.as_str()).collect();
    assert_eq!(bodies(&t, &rest), words(&["echo \"hello world\""]));
    assert_eq!(bodies(&t, &["ns", "sub"]), words(&["echo \"in the namespace\""]));
    // The bare namespace falls back to its same-named default task.
    assert_eq!(bodies(&t, &["ns"]), words(&["echo \"the namespace default\""]));
}

#[test]
fn a_flag_after_the_task_name_is_one_of_its_arguments() {
    let args = words(&["--taskfile", "tests/fixtures/basic.alors", "greet", "--taskfile"]);
    let (_, rest) = take_taskfile(&args).unwrap();
    assert_eq!(rest, &words(&["greet", "--taskfile"])[..]);
    let t = basic();
    assert_eq!(bodies(&t, &["greet", "--taskfile"]), words(&["echo \"hello --taskfile\""]));
}

#[test]
fn taskfile_without_a_path_is_an_error() {
    let e = take_taskfile(&words(&["--taskfile"])).unwrap_err();
    assert!(e.contains("needs a path"), "{}", e);
}

#[test]
fn help_and_version_work_without_any_taskfile() {
    assert!(matches!(mode(&words(&["--help"])), Mode::Help));
    assert!(matches!(mode(&words(&["--version"])), Mode::Version));
}

#[test]
fn completion_reads_the_taskfile_it_is_pointed_at() {
    let t = basic();
    match mode(&words(&["--complete", "--taskfile", "tests/fixtures/basic.alors", ""])) {
        Mode::Complete { words: w, pointed_at } => {
            assert_eq!(pointed_at, Some("tests/fixtures/basic.alors".to_string()));
            assert_eq!(candidates(Some(&t), &w), words(&["greet", "ns", "where"]));
        }
        other => panic!("got {:?}", other),
    }
    assert_eq!(
        candidates(Some(&t), &words(&["--taskfile", "tests/fixtures/basic.alors", "ns", ""])),
        words(&["sub"])
    );
}

#[test]
fn completion_stays_silent_and_successful_outside_a_project() {
    assert!(candidates(None, &words(&[""])).is_empty());
}

#[test]
fn the_completion_script_is_printed_for_a_shell_we_ship() {
    assert!(script("zsh").unwrap().starts_with("#compdef alors"));
    assert_eq!(script("bash"), None);
    assert_eq!(SHELLS.join(", "), "zsh");
}
