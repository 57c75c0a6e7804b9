//! Tests for the taskfile grammar: headers, parameters, dependencies,
//! imports, bodies, and the line-numbered errors.

use alors::parser::parse;

fn strs(w: &[&str]) -> Vec<String> {
    w.iter().map(|s| s.to_string()).collect()
}

fn error_of(src: &str) -> (usize, String) {
    let e = parse(src).expect_err("should not parse");
    (e.line, e.message)
}

#[test]
fn a_header_names_a_task_and_its_parameters() {
    let v = parse("# a comment\ntest suite filter:\n    ctest -R {{suite}}\n      --filter {{filter}}\n").unwrap();
    let t = v.named("test").unwrap();
    assert_eq!(t.path, strs(&["test"]));
    assert_eq!(t.params, strs(&["suite", "filter"]));
    assert_eq!(t.body, strs(&["ctest -R {{suite}}", "--filter {{filter}}"]));
    assert_eq!(t.line, 2);
}

#[test]
fn a_double_colon_name_is_a_namespaced_path() {
    let v = parse("docker::build:\n    docker build .\nci::lint::fast:\n").unwrap();
    assert_eq!(v.named("docker::build").unwrap().path, strs(&["docker", "build"]));
    assert_eq!(v.named("ci::lint::fast").unwrap().path, strs(&["ci", "lint", "fast"]));
}

#[test]
fn dependencies_are_comma_separated_with_arguments() {
    let v = parse("ci: test smoke, lint, say \"a, b\" plain\n").unwrap();
    let ci = v.named("ci").unwrap();
    assert_eq!(ci.deps.len(), 3);
    assert_eq!(ci.deps[0].path, strs(&["test"]));
    assert_eq!(ci.deps[0].args, strs(&["smoke"]));
    assert_eq!(ci.deps[1].path, strs(&["lint"]));
    assert!(ci.deps[1].args.is_empty());
    assert_eq!(ci.deps[2].args, strs(&["a, b", "plain"]));
    assert!(ci.body.is_empty());
}

#[test]
fn imports_are_recorded_with_their_lines() {
    let v = parse("import \"ci/common.alors\"\n\nimport \"docker.alors\" as docker\nimport:\n    echo a task named import\n").unwrap();
    assert_eq!(v.imports.len(), 2);
    assert_eq!(v.imports[0].path, "ci/common.alors");
    assert!(v.imports[0].alias.is_none());
    assert_eq!(v.imports[0].line, 1);
    assert_eq!(v.imports[1].path, "docker.alors");
    assert_eq!(v.imports[1].alias, Some(strs(&["docker"])));
    assert_eq!(v.imports[1].line, 3);
    assert!(v.named("import").is_some(), "`import:` is a task header");
}

#[test]
fn windows_line_endings_are_accepted() {
    let v = parse("build:\r\n    make\r\n").unwrap();
    assert_eq!(v.named("build").unwrap().body, strs(&["make"]));
}

#[test]
fn a_body_line_needs_a_task_above_it() {
    assert_eq!(error_of("    echo orphan\n"), (1, "indented line outside a task".to_string()));
    assert_eq!(
        error_of("build:\n    make\nv := 1\n    echo\n"),
        (4, "indented line outside a task".to_string())
    );
}

#[test]
fn a_task_defined_twice_is_an_error() {
    assert_eq!(
        error_of("a::b:\n    x\n\na::b:\n    y\n"),
        (4, "task `a::b` is already defined".to_string())
    );
}

#[test]
fn header_problems_are_reported_on_their_line() {
    assert_eq!(error_of("\nbad name!:\n"), (2, "invalid parameter name `name!`".to_string()));
    assert_eq!(error_of("b@d:\n"), (1, "invalid task name `b@d`".to_string()));
    assert_eq!(error_of("greet who who:\n"), (1, "parameter `who` is declared twice".to_string()));
    assert_eq!(error_of("a, b:\n"), (1, "unexpected `,` before the task's `:`".to_string()));
    assert_eq!(error_of(" \n:\n"), (2, "missing task name before `:`".to_string()));
    assert_eq!(error_of("ci: a,, b\n"), (1, "empty dependency".to_string()));
    assert_eq!(error_of("ci: say \"open\n"), (1, "unterminated quote".to_string()));
    assert_eq!(error_of("ci: x:y\n"), (1, "invalid dependency name `x:y`".to_string()));
    assert_eq!(
        error_of("just words\n"),
        (1, "expected a task (`name:`), a constant (`name := value`) or an import (`import \"file\"`)".to_string())
    );
}

#[test]
fn import_problems_are_reported() {
    assert_eq!(error_of("import \"x.alors\n"), (1, "unterminated import path".to_string()));
    assert_eq!(error_of("import \"\"\n"), (1, "empty import path".to_string()));
    assert_eq!(error_of("import \"x\" bogus\n"), (1, "expected `as <namespace>` after the import path".to_string()));
    assert_eq!(error_of("import \"x\" as a:b\n"), (1, "invalid namespace `a:b`".to_string()));
}

#[test]
fn constant_problems_name_the_constant() {
    assert_eq!(error_of("1.x! := 3\n"), (1, "invalid constant name `1.x!`".to_string()));
    assert_eq!(error_of("v := 1\n\nv := 2\n"), (3, "constant `v` is already defined".to_string()));
    assert_eq!(error_of("x :=   \n"), (1, "constant `x` has no value".to_string()));
    assert_eq!(
        error_of("g := hi {{name}}\n"),
        (1, "constant `g` must be a literal value, without `{{`".to_string())
    );
}

#[test]
fn an_unclosed_reference_is_left_as_written() {
    let v = parse("v := 1\nshow:\n    echo {{v}} {{v\n").unwrap();
    assert_eq!(v.named("show").unwrap().body, strs(&["echo 1 {{v"]));
}
