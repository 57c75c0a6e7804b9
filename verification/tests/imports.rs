//! Tests for the import loader: flat vs. namespaced merge, clash detection,
//! missing files, and import cycles. The loader asks for files to be read; here
//! a map of file names to contents answers it, with import paths resolved
//! relative to the importing file's directory.

use alors::loader::{self, LoadError, LoadStep};
use alors::model::{Dep, Taskfile};
use alors::validate;
use std::collections::HashMap;

struct MemFiles {
    files: HashMap<String, String>,
}

impl MemFiles {
    fn new() -> Self {
        MemFiles { files: HashMap::new() }
    }

    fn write(&mut self, name: &str, body: &str) {
        self.files.insert(name.to_string(), body.to_string());
    }

    fn load(&self, root: &str) -> Result<Taskfile, LoadError> {
        let (mut l, mut step) = loader::load(root);
        loop {
            step = match step {
                LoadStep::Read { importer, path, .. } => {
                    let label = loader::import_path(importer.as_deref(), &path);
                    match self.files.get(&label) {
                        Some(src) => l.file_read(label.clone(), label.clone(), src),
                        None => l.read_failed(label, "No such file or directory".to_string()),
                    }
                }
                LoadStep::Done(tf) => return Ok(tf),
                LoadStep::Failed(e) => return Err(e),
            }
        }
    }
}

fn path(segs: &[&str]) -> Vec<String> {
    segs.iter().map(|s| s.to_string()).collect()
}

#[test]
fn flat_import_merges_tasks_keeping_names() {
    let mut sb = MemFiles::new();
    sb.write("tasks.alors", "import \"lib.alors\"\nbuild:\n    echo build\n");
    sb.write("lib.alors", "lint:\n    echo lint\n");

    let v = sb.load("tasks.alors").expect("load ok");
    assert!(v.get(&path(&["build"])).is_some());
    assert!(v.get(&path(&["lint"])).is_some(), "imported task keeps its name");
}

#[test]
fn namespaced_import_prefixes_paths_and_internal_deps() {
    let mut sb = MemFiles::new();
    sb.write("tasks.alors", "import \"docker.alors\" as docker\n");
    sb.write(
        "docker.alors",
        "build:\n    echo build\nrelease: build\n    echo release\n",
    );

    let v = sb.load("tasks.alors").expect("load ok");

    // Both tasks are nested under `docker`.
    assert!(v.get(&path(&["docker", "build"])).is_some());
    let release = v.get(&path(&["docker", "release"])).expect("docker::release exists");

    // The imported file's internal dep `build` was re-prefixed to `docker::build`,
    // so it still resolves within the merged model.
    assert_eq!(
        release.deps,
        vec![Dep { path: path(&["docker", "build"]), args: vec![] }]
    );
    assert!(validate::validate(&v).is_ok(), "namespaced deps resolve");
}

#[test]
fn duplicate_task_across_files_is_a_clash() {
    let mut sb = MemFiles::new();
    sb.write("tasks.alors", "import \"lib.alors\"\nbuild:\n    echo local\n");
    sb.write("lib.alors", "build:\n    echo imported\n");

    let err = sb.load("tasks.alors").expect_err("should clash");
    match err {
        LoadError::Clash { name, .. } => assert_eq!(name, "build"),
        other => panic!("expected clash, got {:?}", other),
    }
}

#[test]
fn namespacing_avoids_what_would_otherwise_clash() {
    let mut sb = MemFiles::new();
    sb.write("tasks.alors", "import \"lib.alors\" as lib\nbuild:\n    echo local\n");
    sb.write("lib.alors", "build:\n    echo imported\n");

    let v = sb.load("tasks.alors").expect("namespacing disambiguates");
    assert!(v.get(&path(&["build"])).is_some());
    assert!(v.get(&path(&["lib", "build"])).is_some());
}

#[test]
fn missing_import_reports_the_directive_site() {
    let mut sb = MemFiles::new();
    sb.write("tasks.alors", "import \"nope.alors\"\nbuild:\n    echo build\n");

    let err = sb.load("tasks.alors").expect_err("missing file");
    match err {
        LoadError::Read { from: Some((_, line)), .. } => assert_eq!(line, 1),
        other => panic!("expected read error pointing at the import, got {:?}", other),
    }
}

#[test]
fn import_cycle_is_detected() {
    let mut sb = MemFiles::new();
    sb.write("tasks.alors", "import \"a.alors\"\n");
    sb.write("a.alors", "import \"b.alors\"\nag:\n    echo a\n");
    sb.write("b.alors", "import \"a.alors\"\nbg:\n    echo b\n");

    let err = sb.load("tasks.alors").expect_err("cycle");
    assert!(matches!(err, LoadError::Cycle { .. }), "got {:?}", err);
}

#[test]
fn parent_may_give_an_as_namespace_a_default_task() {
    let mut sb = MemFiles::new();
    // A bare `ci` task (path == the namespace) is allowed: it gives the
    // namespace an action without reaching inside it.
    sb.write("tasks.alors", "import \"sub.alors\" as ci\nci: ci::test, ci::build\n");
    sb.write("sub.alors", "test:\n    echo t\nbuild:\n    echo b\n");

    let v = sb.load("tasks.alors").expect("default task is allowed");
    // `ci` is both a task and a namespace.
    assert!(v.get(&path(&["ci"])).is_some());
    assert!(v.get(&path(&["ci", "test"])).is_some());
}

#[test]
fn parent_may_not_extend_a_sealed_as_namespace() {
    let mut sb = MemFiles::new();
    sb.write(
        "tasks.alors",
        "import \"sub.alors\" as ci\nci::deploy:\n    echo deploy\n",
    );
    sb.write("sub.alors", "test:\n    echo t\n");

    let err = sb.load("tasks.alors").expect_err("extend should be sealed");
    match err {
        LoadError::SealedNamespace { namespace, task, .. } => {
            assert_eq!(namespace, "ci");
            assert_eq!(task, "ci::deploy");
        }
        other => panic!("expected SealedNamespace, got {:?}", other),
    }
}

#[test]
fn parent_may_not_redefine_a_task_in_a_sealed_namespace() {
    let mut sb = MemFiles::new();
    sb.write("tasks.alors", "import \"sub.alors\" as ci\nci::test:\n    echo mine\n");
    sb.write("sub.alors", "test:\n    echo t\n");

    // Redefining an imported task is forbidden too (caught as a seal violation).
    let err = sb.load("tasks.alors").expect_err("redefine should be forbidden");
    assert!(
        matches!(err, LoadError::SealedNamespace { .. } | LoadError::Clash { .. }),
        "got {:?}",
        err
    );
}

#[test]
fn two_imports_cannot_fill_the_same_namespace() {
    let mut sb = MemFiles::new();
    sb.write("tasks.alors", "import \"a.alors\" as ci\nimport \"b.alors\" as ci\n");
    sb.write("a.alors", "test:\n    echo a\n");
    sb.write("b.alors", "build:\n    echo b\n");

    let err = sb.load("tasks.alors").expect_err("one import per as-namespace");
    assert!(matches!(err, LoadError::SealedNamespace { .. }), "got {:?}", err);
}

#[test]
fn imports_nest_transitively() {
    let mut sb = MemFiles::new();
    sb.write("tasks.alors", "import \"a.alors\" as outer\n");
    sb.write("a.alors", "import \"b.alors\" as inner\n");
    sb.write("b.alors", "build:\n    echo deep\n");

    let v = sb.load("tasks.alors").expect("load ok");
    assert!(
        v.get(&path(&["outer", "inner", "build"])).is_some(),
        "transitive `as` prefixes stack: outer::inner::build"
    );
}

#[test]
fn imports_resolve_relative_to_the_importing_file() {
    let mut sb = MemFiles::new();
    sb.write("tasks.alors", "import \"sub/child.alors\"\n");
    // child.alors imports a sibling using a path relative to sub/, not the root.
    sb.write("sub/child.alors", "import \"helper.alors\"\n");
    sb.write("sub/helper.alors", "help:\n    echo help\n");

    let v = sb.load("tasks.alors").expect("relative resolution");
    assert!(v.get(&path(&["help"])).is_some());
}

#[test]
fn constants_are_file_local_across_imports() {
    let mut sb = MemFiles::new();
    // Root and import each define their own `version`; each file's tasks see
    // only their own value, and an unknown name is NOT filled by the other file.
    sb.write(
        "tasks.alors",
        "import \"lib.alors\"\nversion := root-1\nshow:\n    echo {{version}} {{libonly}}\n",
    );
    sb.write(
        "lib.alors",
        "version := lib-2\nlibonly := L\nlibshow:\n    echo {{version}}\n",
    );

    let v = sb.load("tasks.alors").expect("load ok");
    let show = v.get(&path(&["show"])).expect("show exists");
    assert_eq!(show.body, vec!["echo root-1 {{libonly}}".to_string()]);
    let libshow = v.get(&path(&["libshow"])).expect("libshow exists");
    assert_eq!(libshow.body, vec!["echo lib-2".to_string()]);
}

#[test]
fn same_constant_in_two_files_is_not_a_clash() {
    let mut sb = MemFiles::new();
    sb.write("tasks.alors", "import \"lib.alors\"\nx := 1\na:\n    echo {{x}}\n");
    sb.write("lib.alors", "x := 2\nb:\n    echo {{x}}\n");

    let v = sb.load("tasks.alors").expect("file-local constants never clash");
    assert_eq!(v.get(&path(&["a"])).unwrap().body, vec!["echo 1".to_string()]);
    assert_eq!(v.get(&path(&["b"])).unwrap().body, vec!["echo 2".to_string()]);
}

#[test]
fn missing_root_has_no_directive_site() {
    let sb = MemFiles::new();
    let err = sb.load("tasks.alors").expect_err("no file");
    match &err {
        LoadError::Read { path, from: None, .. } => assert_eq!(path, "tasks.alors"),
        other => panic!("expected a read error for the root, got {:?}", other),
    }
    assert_eq!(err.message(), "cannot read `tasks.alors`: No such file or directory");
}

#[test]
fn load_error_messages_name_their_sites() {
    let mut sb = MemFiles::new();
    sb.write("tasks.alors", "import \"nope.alors\"\n");
    let err = sb.load("tasks.alors").expect_err("missing");
    assert_eq!(
        err.message(),
        "cannot read `nope.alors`: No such file or directory (imported from tasks.alors:1)"
    );

    let mut sb = MemFiles::new();
    sb.write("tasks.alors", "import \"lib.alors\"\n\n\nbuild:\n    echo local\n");
    sb.write("lib.alors", "\nbuild:\n    echo imported\n");
    let err = sb.load("tasks.alors").expect_err("clash");
    assert_eq!(
        err.message(),
        "task `build` is defined in both tasks.alors:4 and lib.alors:2"
    );

    let mut sb = MemFiles::new();
    sb.write("tasks.alors", "import \"a.alors\"\n");
    sb.write("a.alors", "import \"tasks.alors\"\n");
    let err = sb.load("tasks.alors").expect_err("cycle");
    assert_eq!(err.message(), "import cycle: tasks.alors -> a.alors -> tasks.alors");

    let mut sb = MemFiles::new();
    sb.write("tasks.alors", "build:\n    echo\n  oops\nx y z\n");
    let err = sb.load("tasks.alors").expect_err("parse");
    assert!(err.message().starts_with("tasks.alors:4: "), "got {}", err.message());

    let mut sb = MemFiles::new();
    sb.write("tasks.alors", "import \"sub.alors\" as ci\nci::deploy:\n    echo deploy\n");
    sb.write("sub.alors", "test:\n    echo t\n");
    let err = sb.load("tasks.alors").expect_err("sealed");
    assert_eq!(
        err.message(),
        "tasks.alors:2: `ci::deploy` cannot be added to namespace `ci`, which is filled by the import at tasks.alors:1; \
         an `as` namespace's tasks must all come from that one import \
         (a bare `ci:` default task is allowed, but new sub-tasks are not)"
    );
}

#[test]
fn loaded_tasks_remember_their_file() {
    let mut sb = MemFiles::new();
    sb.write("tasks.alors", "import \"lib.alors\" as lib\nbuild:\n    echo local\n");
    sb.write("lib.alors", "\n\ntest x:\n    echo {{x}}\n");
    let v = sb.load("tasks.alors").expect("load ok");
    let t = v.get(&path(&["lib", "test"])).unwrap();
    assert_eq!(t.source, "lib.alors");
    assert_eq!(t.line, 3);
    assert_eq!(t.params, vec!["x".to_string()]);
    assert_eq!(v.get(&path(&["build"])).unwrap().source, "tasks.alors");
    assert!(v.imports.is_empty());
}

#[test]
fn a_later_flat_import_may_not_add_to_a_sealed_namespace() {
    let mut sb = MemFiles::new();
    sb.write("tasks.alors", "import \"a.alors\" as ci\nimport \"b.alors\"\n");
    sb.write("a.alors", "test:\n    echo a\n");
    sb.write("b.alors", "ci::deploy:\n    echo d\n");
    match sb.load("tasks.alors").expect_err("ci is sealed") {
        LoadError::SealedNamespace { namespace, import_site, task, task_site } => {
            assert_eq!(namespace, "ci");
            assert_eq!(import_site, ("tasks.alors".to_string(), 1));
            assert_eq!(task, "ci::deploy");
            assert_eq!(task_site, ("b.alors".to_string(), 1));
        }
        other => panic!("expected SealedNamespace, got {:?}", other),
    }
}

#[test]
fn two_imports_may_not_share_a_namespace() {
    let mut sb = MemFiles::new();
    sb.write("tasks.alors", "import \"a.alors\" as ci\nimport \"b.alors\" as ci\n");
    sb.write("a.alors", "test:\n    echo a\n");
    sb.write("b.alors", "lint:\n    echo b\n");
    match sb.load("tasks.alors").expect_err("ci is sealed") {
        LoadError::SealedNamespace { namespace, import_site, task, .. } => {
            // The second import finds the first one's task already inside.
            assert_eq!(namespace, "ci");
            assert_eq!(import_site, ("tasks.alors".to_string(), 2));
            assert_eq!(task, "ci::test");
        }
        other => panic!("expected SealedNamespace, got {:?}", other),
    }
}

#[test]
fn a_deeper_import_may_not_add_to_a_sealed_namespace() {
    let mut sb = MemFiles::new();
    sb.write("tasks.alors", "import \"a.alors\" as ci\nimport \"lib/b.alors\"\n");
    sb.write("a.alors", "test:\n    echo a\n");
    sb.write("lib/b.alors", "import \"c.alors\"\n");
    sb.write("lib/c.alors", "ci::extra:\n    echo c\n");
    match sb.load("tasks.alors").expect_err("ci is sealed") {
        LoadError::SealedNamespace { task, task_site, .. } => {
            assert_eq!(task, "ci::extra");
            assert_eq!(task_site, ("lib/c.alors".to_string(), 1));
        }
        other => panic!("expected SealedNamespace, got {:?}", other),
    }
}

#[test]
fn a_later_import_may_give_a_sealed_namespace_its_default() {
    let mut sb = MemFiles::new();
    sb.write("tasks.alors", "import \"a.alors\" as ci\nimport \"b.alors\"\n");
    sb.write("a.alors", "test:\n    echo a\n");
    sb.write("b.alors", "ci: ci::test\n");
    let v = sb.load("tasks.alors").expect("a default task is not inside the namespace");
    assert!(v.get(&path(&["ci"])).is_some());
    assert!(v.get(&path(&["ci", "test"])).is_some());
}

#[test]
fn import_paths_are_relative_to_the_importing_file() {
    assert_eq!(loader::import_path(None, "x/tasks.alors"), "x/tasks.alors");
    assert_eq!(loader::import_path(Some("tasks.alors"), "lib.alors"), "lib.alors");
    assert_eq!(loader::import_path(Some("ci/common.alors"), "docker.alors"), "ci/docker.alors");
    assert_eq!(loader::import_path(Some("/p/tasks.alors"), "a/b.alors"), "/p/a/b.alors");
    assert_eq!(loader::import_path(Some("ci/common.alors"), "/abs/x.alors"), "/abs/x.alors");
}

#[test]
fn merged_tasks_come_in_file_then_import_order() {
    let mut sb = MemFiles::new();
    sb.write("tasks.alors", "import \"a.alors\" as ci\nimport \"c.alors\"\nbuild:\n    echo b\n");
    sb.write("a.alors", "import \"sub/b.alors\"\ntest:\n    echo t\n");
    sb.write("sub/b.alors", "lint:\n    echo l\n");
    sb.write("c.alors", "clean:\n    echo c\n");
    let v = sb.load("tasks.alors").expect("load ok");
    let names: Vec<Vec<String>> = v.tasks.iter().map(|t| t.path.clone()).collect();
    assert_eq!(
        names,
        vec![path(&["build"]), path(&["ci", "test"]), path(&["ci", "lint"]), path(&["clean"])]
    );
    let sources: Vec<&str> = v.tasks.iter().map(|t| t.source.as_str()).collect();
    assert_eq!(sources, vec!["tasks.alors", "a.alors", "sub/b.alors", "c.alors"]);
    assert!(v.imports.is_empty());
}
