//! Tests for the up-front checks and the run order of an invocation.

use alors::parser::parse;
use alors::plan::plan;
use alors::validate::validate;

fn strs(w: &[&str]) -> Vec<String> {
    w.iter().map(|s| s.to_string()).collect()
}

#[test]
fn a_sound_taskfile_passes() {
    let v = parse("configure:\n    cmake -S . -B build\ncompile:\n    cmake --build build\nbuild: configure, compile\n").unwrap();
    assert_eq!(validate(&v), Ok(()));
}

#[test]
fn an_unknown_dependency_is_reported() {
    let v = parse("build: configure\n    make\n").unwrap();
    assert_eq!(validate(&v), Err(strs(&["`build` depends on `configure`, which is not a task"])));
}

#[test]
fn a_wrong_argument_count_is_reported() {
    let v = parse("test name:\n    ctest -R {{name}}\nci: test\nall: test a b\n").unwrap();
    assert_eq!(
        validate(&v),
        Err(strs(&[
            "`ci` passes 0 argument(s) to `test`, which takes 1",
            "`all` passes 2 argument(s) to `test`, which takes 1",
        ]))
    );
}

#[test]
fn a_dependency_cycle_is_reported_once() {
    let v = parse("build: compile\ncompile: build\n").unwrap();
    let es = validate(&v).unwrap_err();
    assert_eq!(es.len(), 1);
    assert!(
        es[0] == "dependency cycle: build -> compile -> build"
            || es[0] == "dependency cycle: compile -> build -> compile",
        "{}",
        es[0]
    );
}

#[test]
fn a_task_depending_on_itself_is_a_cycle() {
    let v = parse("loop: loop\n").unwrap();
    assert_eq!(validate(&v), Err(strs(&["dependency cycle: loop -> loop"])));
}

#[test]
fn dependency_problems_come_before_cycles() {
    let v = parse("a: b\nb: a\nc: missing\n").unwrap();
    assert_eq!(validate(&v), Err(strs(&["`c` depends on `missing`, which is not a task"])));
}

#[test]
fn namespaced_names_are_joined_with_double_colons() {
    let v = parse("docker::build: docker::base\n").unwrap();
    assert_eq!(
        validate(&v),
        Err(strs(&["`docker::build` depends on `docker::base`, which is not a task"]))
    );
}

fn run_order(src: &str, path: &[&str], vals: &[&str]) -> Vec<(Vec<String>, Vec<String>)> {
    let v = parse(src).unwrap();
    assert_eq!(validate(&v), Ok(()));
    plan(&v, &strs(path), &strs(vals))
        .into_iter()
        .map(|s| (s.path, s.args.into_iter().map(|(_, x)| x).collect()))
        .collect()
}

#[test]
fn dependencies_run_first_in_order_and_the_task_last() {
    let order = run_order(
        "configure:\n    cmake -S . -B build\ncompile:\n    cmake --build build\nbuild: configure, compile\n",
        &["build"],
        &[],
    );
    assert_eq!(
        order,
        vec![
            (strs(&["configure"]), vec![]),
            (strs(&["compile"]), vec![]),
            (strs(&["build"]), vec![]),
        ]
    );
}

#[test]
fn the_same_task_with_the_same_arguments_runs_once() {
    let order = run_order("base:\n    echo base\na: base\nb: base\nall: a, b, base\n", &["all"], &[]);
    assert_eq!(
        order,
        vec![
            (strs(&["base"]), vec![]),
            (strs(&["a"]), vec![]),
            (strs(&["b"]), vec![]),
            (strs(&["all"]), vec![]),
        ]
    );
}

#[test]
fn the_same_task_with_different_arguments_runs_for_each() {
    let order = run_order("build target:\n    make {{target}}\nall: build x86, build arm, build x86\n", &["all"], &[]);
    assert_eq!(
        order,
        vec![
            (strs(&["build"]), strs(&["x86"])),
            (strs(&["build"]), strs(&["arm"])),
            (strs(&["all"]), vec![]),
        ]
    );
}

#[test]
fn a_parameter_is_forwarded_to_a_dependency() {
    let v = parse("test name:\n    ctest -R {{name}}\ncheck suite: test {{suite}}\n    echo \"checked {{suite}}\"\n").unwrap();
    assert_eq!(validate(&v), Ok(()));
    let steps = plan(&v, &strs(&["check"]), &strs(&["integration"]));
    assert_eq!(steps.len(), 2);
    assert_eq!(steps[0].path, strs(&["test"]));
    assert_eq!(steps[0].args, vec![("name".to_string(), "integration".to_string())]);
    assert_eq!(steps[0].body, strs(&["ctest -R integration"]));
    assert_eq!(steps[1].path, strs(&["check"]));
    assert_eq!(steps[1].body, strs(&["echo \"checked integration\""]));
}

#[test]
fn a_constant_reaches_a_dependency_argument() {
    let v = parse("arch := arm64\nbuild target:\n    cmake --preset {{target}}\nrelease: build {{arch}}\n").unwrap();
    assert_eq!(validate(&v), Ok(()));
    let steps = plan(&v, &strs(&["release"]), &[]);
    assert_eq!(steps[0].body, strs(&["cmake --preset arm64"]));
    assert_eq!(steps[1].path, strs(&["release"]));
}

#[test]
fn a_sequence_of_fixed_arguments_runs_in_order() {
    let order = run_order("test name:\n    ctest -R {{name}}\nlint:\n    clippy\nci: test smoke, lint\n", &["ci"], &[]);
    assert_eq!(
        order,
        vec![
            (strs(&["test"]), strs(&["smoke"])),
            (strs(&["lint"]), vec![]),
            (strs(&["ci"]), vec![]),
        ]
    );
}

#[test]
fn a_namespaced_task_plans_under_its_path() {
    let order = run_order("docker::build:\n    docker build .\ndocker: docker::build\n", &["docker"], &[]);
    assert_eq!(order, vec![(strs(&["docker", "build"]), vec![]), (strs(&["docker"]), vec![])]);
}
