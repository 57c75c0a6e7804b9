//! The taskfile model: tasks addressed by their `::` path, the queries that
//! path descent and completion ask of it, and its well-formedness.
use vstd::prelude::*;
use crate::text::{self, insert_sorted_exec, strings_eq};

verus! {

/// A dependency reference: the task to run first, with fixed arguments.
#[derive(Debug, PartialEq, Eq)]
pub struct Dep {
    pub path: Vec<String>,
    pub args: Vec<String>,
}

/// An `import "path"` (or `import "path" as ns`) directive.
#[derive(Debug)]
pub struct Import {
    pub path: String,
    pub alias: Option<Vec<String>>,
    pub line: usize,
}

/// One task: its full path (`["docker", "build"]` for `docker::build`), its
/// positional parameters, its dependencies, its body lines, and where it was
/// defined.
#[derive(Debug)]
pub struct Task {
    pub path: Vec<String>,
    pub params: Vec<String>,
    pub deps: Vec<Dep>,
    pub body: Vec<String>,
    pub source: String,
    pub line: usize,
}

/// A parsed (and, after loading, merged) taskfile.
#[derive(Debug)]
pub struct Taskfile {
    pub tasks: Vec<Task>,
    pub imports: Vec<Import>,
}

pub struct DepView {
    pub path: Seq<Seq<char>>,
    pub args: Seq<Seq<char>>,
}

pub struct ImportView {
    pub path: Seq<char>,
    pub alias: Option<Seq<Seq<char>>>,
    pub line: nat,
}

pub struct TaskView {
    pub path: Seq<Seq<char>>,
    pub params: Seq<Seq<char>>,
    pub deps: Seq<DepView>,
    pub body: Seq<Seq<char>>,
    pub source: Seq<char>,
    pub line: nat,
}

pub struct TaskfileView {
    pub tasks: Seq<TaskView>,
    pub imports: Seq<ImportView>,
}

impl View for Dep {
    type V = DepView;

    open spec fn view(&self) -> DepView {
        DepView { path: self.path.deep_view(), args: self.args.deep_view() }
    }
}

pub open spec fn alias_view(a: Option<Vec<String>>) -> Option<Seq<Seq<char>>> {
    match a {
        Some(v) => Some(v.deep_view()),
        None => None,
    }
}

impl View for Import {
    type V = ImportView;

    open spec fn view(&self) -> ImportView {
        ImportView { path: self.path@, alias: alias_view(self.alias), line: self.line as nat }
    }
}

pub open spec fn deps_view(d: Seq<Dep>) -> Seq<DepView> {
    Seq::new(d.len(), |i: int| d[i]@)
}

impl View for Task {
    type V = TaskView;

    open spec fn view(&self) -> TaskView {
        TaskView {
            path: self.path.deep_view(),
            params: self.params.deep_view(),
            deps: deps_view(self.deps@),
            body: self.body.deep_view(),
            source: self.source@,
            line: self.line as nat,
        }
    }
}

pub open spec fn tasks_view(t: Seq<Task>) -> Seq<TaskView> {
    Seq::new(t.len(), |i: int| t[i]@)
}

pub open spec fn imports_view(m: Seq<Import>) -> Seq<ImportView> {
    Seq::new(m.len(), |i: int| m[i]@)
}

impl View for Taskfile {
    type V = TaskfileView;

    open spec fn view(&self) -> TaskfileView {
        TaskfileView { tasks: tasks_view(self.tasks@), imports: imports_view(self.imports@) }
    }
}

/// `p` is a proper prefix of `q`: `q` lies strictly inside namespace `p`.
pub open spec fn strict_prefix(p: Seq<Seq<char>>, q: Seq<Seq<char>>) -> bool {
    p.len() < q.len() && q.take(p.len() as int) == p
}

/// Task paths are non-empty and no two tasks share a path.
pub open spec fn tasks_wf(ts: Seq<TaskView>) -> bool {
    &&& forall|i: int| 0 <= i < ts.len() ==> (#[trigger] ts[i]).path.len() > 0
    &&& forall|i: int, j: int|
        0 <= i < ts.len() && 0 <= j < ts.len() && i != j ==> (#[trigger] ts[i]).path != (#[trigger] ts[j]).path
}

/// Some task has exactly path `p`.
pub open spec fn has_task(ts: Seq<TaskView>, p: Seq<Seq<char>>) -> bool {
    exists|i: int| 0 <= i < ts.len() && (#[trigger] ts[i]).path == p
}

/// The task at path `p`, if any.
pub open spec fn task_at(ts: Seq<TaskView>, p: Seq<Seq<char>>) -> Option<TaskView> {
    if has_task(ts, p) {
        Some(ts[choose|i: int| 0 <= i < ts.len() && (#[trigger] ts[i]).path == p])
    } else {
        None
    }
}

/// Some task lies strictly inside `p`, so `p` names a namespace.
pub open spec fn is_ns(ts: Seq<TaskView>, p: Seq<Seq<char>>) -> bool {
    exists|i: int| 0 <= i < ts.len() && strict_prefix(p, (#[trigger] ts[i]).path)
}

/// `p` names a task or a namespace.
pub open spec fn is_node(ts: Seq<TaskView>, p: Seq<Seq<char>>) -> bool {
    has_task(ts, p) || is_ns(ts, p)
}

/// `c` is the name directly under `p` of some task inside `p`.
pub open spec fn has_child(ts: Seq<TaskView>, p: Seq<Seq<char>>, c: Seq<char>) -> bool {
    exists|i: int| 0 <= i < ts.len() && strict_prefix(p, (#[trigger] ts[i]).path) && ts[i].path[p.len() as int] == c
}

/// The names directly under `p`, gathered from the tasks in order into a
/// strictly sorted list.
pub open spec fn children_of(ts: Seq<TaskView>, p: Seq<Seq<char>>) -> Seq<Seq<char>>
    decreases ts.len(),
{
    if ts.len() == 0 {
        Seq::empty()
    } else {
        let rest = children_of(ts.drop_last(), p);
        let t = ts.last();
        if strict_prefix(p, t.path) {
            text::insert_sorted(rest, t.path[p.len() as int])
        } else {
            rest
        }
    }
}

impl Taskfile {
    pub open spec fn wf(&self) -> bool {
        tasks_wf(self@.tasks)
    }

    /// The task at exactly `path`.
    pub fn get(&self, path: &[String]) -> (r: Option<&Task>)
        requires
            self.wf(),
        ensures
            r is Some <==> has_task(self@.tasks, path.deep_view()),
            r matches Some(t) ==> Some(t@) == task_at(self@.tasks, path.deep_view()),
    {
        let ghost ts = self@.tasks;
        let mut i: usize = 0;
        while i < self.tasks.len()
            invariant
                ts == self@.tasks,
                tasks_wf(ts),
                i <= self.tasks.len(),
                forall|k: int| 0 <= k < i ==> (#[trigger] ts[k]).path != path.deep_view(),
            decreases self.tasks.len() - i,
        {
            if strings_eq(self.tasks[i].path.as_slice(), path) {
                proof {
                    assert(ts[i as int].path == path.deep_view());
                    let j = choose|j: int| 0 <= j < ts.len() && (#[trigger] ts[j]).path == path.deep_view();
                    assert(j == i);
                }
                return Some(&self.tasks[i]);
            }
            i = i + 1;
        }
        None
    }

    /// The position of the task at exactly `path`.
    pub fn index_of(&self, path: &[String]) -> (r: Option<usize>)
        requires
            self.wf(),
        ensures
            match r {
                Some(i) => i < self.tasks.len() && self@.tasks[i as int].path == path.deep_view() && task_at(
                    self@.tasks,
                    path.deep_view(),
                ) == Some(self@.tasks[i as int]),
                None => !has_task(self@.tasks, path.deep_view()),
            },
    {
        let ghost ts = self@.tasks;
        let mut i: usize = 0;
        while i < self.tasks.len()
            invariant
                ts == self@.tasks,
                tasks_wf(ts),
                i <= self.tasks.len(),
                forall|k: int| 0 <= k < i ==> (#[trigger] ts[k]).path != path.deep_view(),
            decreases self.tasks.len() - i,
        {
            if strings_eq(self.tasks[i].path.as_slice(), path) {
                proof {
                    assert(ts[i as int].path == path.deep_view());
                    let j = choose|j: int| 0 <= j < ts.len() && (#[trigger] ts[j]).path == path.deep_view();
                    assert(j == i);
                }
                return Some(i);
            }
            i = i + 1;
        }
        None
    }

    /// The task whose name (its path joined by `::`) is `name`.
    pub fn named(&self, name: &str) -> (r: Option<&Task>)
        ensures
            match r {
                Some(t) => exists|i: int|
                    0 <= i < self@.tasks.len() && self.tasks@[i] == *t && text::seq_join(
                        #[trigger] self@.tasks[i].path,
                        "::"@,
                    ) == name@ && forall|k: int|
                        0 <= k < i ==> text::seq_join(#[trigger] self@.tasks[k].path, "::"@) != name@,
                None => forall|i: int|
                    0 <= i < self@.tasks.len() ==> text::seq_join(#[trigger] self@.tasks[i].path, "::"@) != name@,
            },
    {
        let want = String::from_str(name);
        let mut i: usize = 0;
        while i < self.tasks.len()
            invariant
                want@ == name@,
                i <= self.tasks.len(),
                forall|k: int| 0 <= k < i ==> text::seq_join(#[trigger] self@.tasks[k].path, "::"@) != name@,
            decreases self.tasks.len() - i,
        {
            let key = text::join(self.tasks[i].path.as_slice(), "::");
            if key == want {
                assert(text::seq_join(self@.tasks[i as int].path, "::"@) == name@);
                return Some(&self.tasks[i]);
            }
            i = i + 1;
        }
        None
    }

    /// Whether some task lies strictly inside `path`.
    pub fn is_namespace(&self, path: &[String]) -> (r: bool)
        ensures
            r == is_ns(self@.tasks, path.deep_view()),
    {
        let ghost ts = self@.tasks;
        let ghost p = path.deep_view();
        let mut i: usize = 0;
        while i < self.tasks.len()
            invariant
                ts == self@.tasks,
                p == path.deep_view(),
                i <= self.tasks.len(),
                forall|k: int| 0 <= k < i ==> !strict_prefix(p, (#[trigger] ts[k]).path),
            decreases self.tasks.len() - i,
        {
            if under(path, self.tasks[i].path.as_slice()) {
                assert(strict_prefix(p, ts[i as int].path));
                return true;
            }
            i = i + 1;
        }
        false
    }

    /// The names directly under `path` (sub-tasks and sub-namespaces), sorted,
    /// each once.
    pub fn children(&self, path: &[String]) -> (r: Vec<String>)
        ensures
            r.deep_view() == children_of(self@.tasks, path.deep_view()),
    {
        let ghost ts = self@.tasks;
        let ghost p = path.deep_view();
        let mut out: Vec<String> = Vec::new();
        let mut i: usize = 0;
        while i < self.tasks.len()
            invariant
                ts == self@.tasks,
                p == path.deep_view(),
                i <= self.tasks.len(),
                out.deep_view() == children_of(ts.take(i as int), p),
            decreases self.tasks.len() - i,
        {
            assert(ts.take(i + 1).drop_last() =~= ts.take(i as int));
            let tpath = &self.tasks[i].path;
            if under(path, tpath.as_slice()) {
                let name = tpath[path.len()].clone();
                insert_sorted_exec(&mut out, name);
            }
            i = i + 1;
        }
        assert(ts.take(self.tasks.len() as int) =~= ts);
        out
    }
}

/// Whether `q` lies strictly inside `p`.
pub fn under(p: &[String], q: &[String]) -> (r: bool)
    ensures
        r == strict_prefix(p.deep_view(), q.deep_view()),
{
    if p.len() >= q.len() {
        return false;
    }
    let mut i: usize = 0;
    while i < p.len()
        invariant
            p.len() < q.len(),
            i <= p.len(),
            forall|k: int| 0 <= k < i ==> p.deep_view()[k] == q.deep_view()[k],
        decreases p.len() - i,
    {
        if p[i] != q[i] {
            assert(q.deep_view().take(p.len() as int)[i as int] != p.deep_view()[i as int]);
            return false;
        }
        i = i + 1;
    }
    assert(q.deep_view().take(p.len() as int) =~= p.deep_view());
    true
}

} // verus!

verus! {

/// The children listing of `p` is strictly sorted (so each name appears once)
/// and holds exactly the names that sit directly under `p`.
pub proof fn law_children_listing(ts: Seq<TaskView>, p: Seq<Seq<char>>)
    ensures
        text::strictly_sorted(children_of(ts, p)),
        forall|c: Seq<char>| #[trigger] children_of(ts, p).contains(c) <==> has_child(ts, p, c),
    decreases ts.len(),
{
    if ts.len() > 0 {
        let rest = ts.drop_last();
        law_children_listing(rest, p);
        let t = ts.last();
        if strict_prefix(p, t.path) {
            text::lemma_insert_sorted(children_of(rest, p), t.path[p.len() as int]);
        }
        assert forall|c: Seq<char>| #[trigger] children_of(ts, p).contains(c) <==> has_child(ts, p, c) by {
            if has_child(rest, p, c) {
                let i = choose|i: int| 0 <= i < rest.len() && strict_prefix(p, (#[trigger] rest[i]).path) && rest[i].path[p.len() as int] == c;
                assert(ts[i] == rest[i]);
            }
            if has_child(ts, p, c) {
                let i = choose|i: int| 0 <= i < ts.len() && strict_prefix(p, (#[trigger] ts[i]).path) && ts[i].path[p.len() as int] == c;
                if i < ts.len() - 1 {
                    assert(rest[i] == ts[i]);
                }
            }
        }
    }
}

} // verus!
