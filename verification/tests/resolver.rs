//! Tests for the command-line resolver: greedy path descent, namespace
//! defaults, positional arguments, and the errors with their messages.

use alors::model::Taskfile;
use alors::parser::parse;
use alors::resolver::{resolve, ResolveError};

const FILE: &str = r#"
build:
    cmake --build build

build::release:
    cmake --build build --config Release

docker::build:
    docker build -t app .

docker::push tag:
    docker push app:{{tag}}

greet name:
    echo hello {{name}}

test suite filter:
    ctest -R {{suite}} {{filter}}
"#;

fn tf() -> Taskfile {
    parse(FILE).expect("parse ok")
}

fn words(w: &[&str]) -> Vec<String> {
    w.iter().map(|s| s.to_string()).collect()
}

fn task_of(t: &Taskfile, w: &[&str]) -> (Vec<String>, Vec<(String, String)>) {
    let r = resolve(t, &words(w)).expect("resolves");
    (r.task.path.clone(), r.args)
}

fn error_of(t: &Taskfile, w: &[&str]) -> ResolveError {
    match resolve(t, &words(w)) {
        Ok(r) => panic!("resolved to {:?}", r.task.path),
        Err(e) => e,
    }
}

#[test]
fn a_leaf_task_runs_by_its_name() {
    let t = tf();
    assert_eq!(task_of(&t, &["greet", "world"]), (words(&["greet"]), vec![("name".to_string(), "world".to_string())]));
}

#[test]
fn a_namespaced_task_runs_by_its_path_words() {
    let t = tf();
    let (path, args) = task_of(&t, &["docker", "push", "v1"]);
    assert_eq!(path, words(&["docker", "push"]));
    assert_eq!(args, vec![("tag".to_string(), "v1".to_string())]);
}

#[test]
fn a_namespace_default_runs_when_no_subcommand_follows() {
    let t = tf();
    assert_eq!(task_of(&t, &["build"]).0, words(&["build"]));
    assert_eq!(task_of(&t, &["build", "release"]).0, words(&["build", "release"]));
}

#[test]
fn a_subcommand_word_is_always_path() {
    // `release` names a sub-task of `build`, so it is never an argument.
    let t = tf();
    let (path, args) = task_of(&t, &["build", "release"]);
    assert_eq!(path, words(&["build", "release"]));
    assert!(args.is_empty());
}

#[test]
fn arguments_bind_in_order() {
    let t = tf();
    let (_, args) = task_of(&t, &["test", "unit", "fast"]);
    assert_eq!(
        args,
        vec![("suite".to_string(), "unit".to_string()), ("filter".to_string(), "fast".to_string())]
    );
}

#[test]
fn double_dash_is_refused_anywhere() {
    let t = tf();
    assert!(matches!(error_of(&t, &["greet", "--"]), ResolveError::DashDashForbidden));
    let e = error_of(&t, &["--", "greet", "x"]);
    assert_eq!(e.message(), "`--` is not allowed in alors invocations");
}

#[test]
fn an_unknown_word_lists_what_is_available() {
    let t = tf();
    let e = error_of(&t, &["nope"]);
    assert_eq!(e.message(), "`nope` is not a known command. available: build, docker, greet, test");
    let e = error_of(&t, &["docker", "run"]);
    match &e {
        ResolveError::UnknownCommand { token, scope, available } => {
            assert_eq!(token, "run");
            assert_eq!(scope, &words(&["docker"]));
            assert_eq!(available, &words(&["build", "push"]));
        }
        other => panic!("got {:?}", other),
    }
    assert_eq!(e.message(), "`run` is not a known command in `docker`. available: build, push");
}

#[test]
fn a_bare_namespace_asks_for_a_subcommand() {
    let t = tf();
    let e = error_of(&t, &["docker"]);
    assert_eq!(e.message(), "`docker` is a namespace, choose a subcommand: build, push");
    let e = error_of(&t, &[]);
    match e {
        ResolveError::NamespaceNeedsSubcommand { path, available } => {
            assert!(path.is_empty());
            assert_eq!(available, words(&["build", "docker", "greet", "test"]));
        }
        other => panic!("got {:?}", other),
    }
}

#[test]
fn too_many_arguments_name_the_first_extra_one() {
    let t = tf();
    let e = error_of(&t, &["greet", "a", "b"]);
    assert_eq!(e.message(), "`b` is not a subcommand, and `greet` has no more parameters to fill");
    let e = error_of(&t, &["docker", "build", "x"]);
    assert_eq!(e.message(), "`x` is not a subcommand, and `docker build` takes no arguments");
    let e = error_of(&t, &["build", "debug"]);
    assert_eq!(e.message(), "`debug` is not a subcommand, and `build` takes no arguments");
}

#[test]
fn missing_arguments_are_all_listed() {
    let t = tf();
    let e = error_of(&t, &["test"]);
    match &e {
        ResolveError::MissingParams { task, missing } => {
            assert_eq!(task, "test");
            assert_eq!(missing, &words(&["suite", "filter"]));
        }
        other => panic!("got {:?}", other),
    }
    assert_eq!(e.message(), "`test` is missing required argument(s): suite, filter");
    let e = error_of(&t, &["test", "unit"]);
    assert_eq!(e.message(), "`test` is missing required argument(s): filter");
}

#[test]
fn an_empty_taskfile_lists_nothing() {
    let t = parse("# nothing here\n").expect("parse ok");
    let e = error_of(&t, &["x"]);
    assert_eq!(e.message(), "`x` is not a known command. available: (none)");
}
