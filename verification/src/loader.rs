//! The import loader: turns a root taskfile plus its `import` directives into
//! one merged [`Taskfile`].
//!
//! - **Reading happens outside.** The loader is a state machine: it asks for
//!   files to be read ([`LoadStep::Read`]) and is handed their contents back
//!   ([`Loader::file_read`], [`Loader::read_failed`]). Parsing, cycle
//!   detection, namespacing and merging all happen here.
//! - **Two import shapes.** `import "x"` merges flat (imported tasks keep their
//!   names); `import "x" as ns` nests the whole file under `ns`: every imported
//!   task's path *and its dependency references* are prefixed.
//! - **All clashes are errors.** Two files defining the same final task name
//!   is a hard error. Namespacing (`as ns`) is how to disambiguate.
//! - **An `as` namespace is sealed.** What lies strictly inside it comes from
//!   the one import that fills it: neither the importing file nor any other
//!   import may add to it (a default task named like the namespace is fine).
//! - **Transitive and cycle-safe.** Imported files may import in turn; a file
//!   reachable from itself is reported as an import cycle, not followed.
//!
//! Paths in an `import` are relative to the directory of the file that holds
//! the directive ([`import_path`]).
use vstd::prelude::*;
use crate::model::{self, Dep, Import, ImportView, Task, TaskView, Taskfile};
use crate::text::{self, clone_strings, decimal_string, join};

verus! {

broadcast use vstd::std_specs::vec::group_vec_axioms;

/// Why a taskfile and its imports do not load.
#[derive(Debug)]
pub enum LoadError {
    /// A file (root or imported) could not be read. `from` names the `import`
    /// directive that referenced it, when there is one.
    Read { path: String, err: String, from: Option<(String, usize)> },
    /// A parse error within a specific file.
    Parse { source: String, line: usize, message: String },
    /// `import` directives form a cycle; `chain` is the offending file loop.
    Cycle { chain: Vec<String> },
    /// The same final task name is defined in two places.
    Clash { name: String, first: (String, usize), second: (String, usize) },
    /// A task outside an `as` import lives inside the namespace that import
    /// fills. An `as` namespace is sealed: its tasks all come from the one
    /// import (a bare default task of the same name is still allowed).
    SealedNamespace { namespace: String, import_site: (String, usize), task: String, task_site: (String, usize) },
}

pub enum LoadErrorView {
    Read { path: Seq<char>, err: Seq<char>, from: Option<(Seq<char>, nat)> },
    Parse { source: Seq<char>, line: nat, message: Seq<char> },
    Cycle { chain: Seq<Seq<char>> },
    Clash { name: Seq<char>, first: (Seq<char>, nat), second: (Seq<char>, nat) },
    SealedNamespace { namespace: Seq<char>, import_site: (Seq<char>, nat), task: Seq<char>, task_site: (Seq<char>, nat) },
}

pub open spec fn site_view(s: (String, usize)) -> (Seq<char>, nat) {
    (s.0@, s.1 as nat)
}

impl View for LoadError {
    type V = LoadErrorView;

    open spec fn view(&self) -> LoadErrorView {
        match self {
            LoadError::Read { path, err, from } => LoadErrorView::Read {
                path: path@,
                err: err@,
                from: match from {
                    Some(s) => Some(site_view(*s)),
                    None => None,
                },
            },
            LoadError::Parse { source, line, message } =>
                LoadErrorView::Parse { source: source@, line: *line as nat, message: message@ },
            LoadError::Cycle { chain } => LoadErrorView::Cycle { chain: chain.deep_view() },
            LoadError::Clash { name, first, second } =>
                LoadErrorView::Clash { name: name@, first: site_view(*first), second: site_view(*second) },
            LoadError::SealedNamespace { namespace, import_site, task, task_site } => LoadErrorView::SealedNamespace {
                namespace: namespace@,
                import_site: site_view(*import_site),
                task: task@,
                task_site: site_view(*task_site),
            },
        }
    }
}

/// A task's name in messages and as a merge key: its path joined by `::`.
pub open spec fn key_of(path: Seq<Seq<char>>) -> Seq<char> {
    text::seq_join(path, "::"@)
}

/// Adding one task to `m`: a name already present is a clash.
pub open spec fn merge_task(m: Seq<TaskView>, t: TaskView) -> Result<Seq<TaskView>, LoadErrorView> {
    if model::has_task(m, t.path) {
        let e = model::task_at(m, t.path)->Some_0;
        Err(LoadErrorView::Clash { name: key_of(t.path), first: (e.source, e.line), second: (t.source, t.line) })
    } else {
        Ok(m.push(t))
    }
}

/// Adding the tasks of `sub` to `m` in order, stopping at the first clash.
pub open spec fn merge_all(m: Seq<TaskView>, sub: Seq<TaskView>) -> Result<Seq<TaskView>, LoadErrorView>
    decreases sub.len(),
{
    if sub.len() == 0 {
        Ok(m)
    } else {
        match merge_all(m, sub.drop_last()) {
            Ok(m2) => merge_task(m2, sub.last()),
            Err(e) => Err(e),
        }
    }
}

pub open spec fn ns_dep(d: model::DepView, ns: Seq<Seq<char>>) -> model::DepView {
    model::DepView { path: ns + d.path, args: d.args }
}

/// A task nested under namespace `ns`: its path and its dependency targets
/// are prefixed; nothing else changes.
pub open spec fn ns_task(t: TaskView, ns: Seq<Seq<char>>) -> TaskView {
    TaskView {
        path: ns + t.path,
        params: t.params,
        deps: Seq::new(t.deps.len(), |j: int| ns_dep(t.deps[j], ns)),
        body: t.body,
        source: t.source,
        line: t.line,
    }
}

pub open spec fn namespaced(ts: Seq<TaskView>, ns: Seq<Seq<char>>) -> Seq<TaskView> {
    Seq::new(ts.len(), |i: int| ns_task(ts[i], ns))
}

/// The first task of `m` strictly inside namespace `ns`, if any.
pub open spec fn intruder(m: Seq<TaskView>, ns: Seq<Seq<char>>) -> Option<TaskView> {
    if exists|i: int| 0 <= i < m.len() && model::strict_prefix(ns, (#[trigger] m[i]).path) {
        Some(m[first_under(m, ns)])
    } else {
        None
    }
}

pub open spec fn first_under(m: Seq<TaskView>, ns: Seq<Seq<char>>) -> int {
    choose|i: int|
        0 <= i < m.len() && model::strict_prefix(ns, (#[trigger] m[i]).path) && forall|j: int|
            0 <= j < i ==> !model::strict_prefix(ns, (#[trigger] m[j]).path)
}

/// One file being loaded: its own tasks merged with those of the imports
/// already finished, and the index of the next import to follow.
struct Frame {
    label: String,
    canon: String,
    tasks: Taskfile,
    imports: Vec<Import>,
    next: usize,
}

pub struct FrameView {
    pub label: Seq<char>,
    pub canon: Seq<char>,
    pub tasks: Seq<TaskView>,
    pub imports: Seq<ImportView>,
    pub next: nat,
}

impl View for Frame {
    type V = FrameView;

    closed spec fn view(&self) -> FrameView {
        FrameView {
            label: self.label@,
            canon: self.canon@,
            tasks: self.tasks@.tasks,
            imports: model::imports_view(self.imports@),
            next: self.next as nat,
        }
    }
}

/// The first of the importer's `as` imports before the `upto`-th, from the
/// `a`-th on, whose namespace `child` has a task strictly inside, together
/// with that task.
pub open spec fn breach(imports: Seq<ImportView>, a: nat, upto: nat, child: Seq<TaskView>) -> Option<(ImportView, TaskView)>
    decreases upto - a,
{
    if a >= upto || a >= imports.len() {
        None
    } else {
        match imports[a as int].alias {
            Some(ns) => match intruder(child, ns) {
                Some(t) => Some((imports[a as int], t)),
                None => breach(imports, a + 1, upto, child),
            },
            None => breach(imports, a + 1, upto, child),
        }
    }
}

/// The tasks an import brings: nested under its `as` namespace if it has one.
pub open spec fn brought(imp: ImportView, child: Seq<TaskView>) -> Seq<TaskView> {
    match imp.alias {
        Some(ns) => namespaced(child, ns),
        None => child,
    }
}

/// Folding a finished import into the file that imported it. An `as`
/// namespace is sealed: the import that fills it must find nothing of the
/// importer's inside it, and no later import of the same file may add to it.
/// Then the brought tasks are merged name by name.
pub open spec fn fold_child(parent: FrameView, child: Seq<TaskView>) -> Result<Seq<TaskView>, LoadErrorView> {
    let imp = parent.imports[parent.next as int];
    let sub = brought(imp, child);
    let inside = match imp.alias {
        Some(ns) => intruder(parent.tasks, ns),
        None => None,
    };
    match inside {
        Some(t) => Err(LoadErrorView::SealedNamespace {
            namespace: key_of(imp.alias->Some_0),
            import_site: (parent.label, imp.line),
            task: key_of(t.path),
            task_site: (t.source, t.line),
        }),
        None => match breach(parent.imports, 0, parent.next, sub) {
            Some((e, t)) => Err(LoadErrorView::SealedNamespace {
                namespace: key_of(e.alias->Some_0),
                import_site: (parent.label, e.line),
                task: key_of(t.path),
                task_site: (t.source, t.line),
            }),
            None => merge_all(parent.tasks, sub),
        },
    }
}

/// What the loader asks for, or its outcome.
#[derive(Debug)]
pub enum LoadStep {
    /// Read the file at `path`, relative to the directory of `importer` (or as
    /// given, for the root, which has no importer); `line` is the directive's.
    Read { importer: Option<String>, path: String, line: usize },
    /// Everything loaded: the merged taskfile.
    Done(Taskfile),
    /// Loading stopped at this error.
    Failed(LoadError),
}

pub enum StepView {
    Read { importer: Option<Seq<char>>, path: Seq<char>, line: nat },
    Done(Seq<TaskView>),
    Failed(LoadErrorView),
}

impl View for LoadStep {
    type V = StepView;

    open spec fn view(&self) -> StepView {
        match self {
            LoadStep::Read { importer, path, line } => StepView::Read {
                importer: match importer {
                    Some(s) => Some(s@),
                    None => None,
                },
                path: path@,
                line: *line as nat,
            },
            LoadStep::Done(tf) => StepView::Done(tf@.tasks),
            LoadStep::Failed(e) => StepView::Failed(e@),
        }
    }
}

/// From a stack of frames: follow the next pending import of the innermost
/// file, or fold finished files into their importers until one has an import
/// left to follow, the root is done, or a fold fails.
pub open spec fn settle(frames: Seq<FrameView>) -> (Seq<FrameView>, StepView)
    decreases frames.len(),
{
    if frames.len() == 0 {
        (frames, StepView::Done(Seq::empty()))
    } else {
        let top = frames.last();
        if top.next < top.imports.len() {
            let imp = top.imports[top.next as int];
            (frames, StepView::Read { importer: Some(top.label), path: imp.path, line: imp.line })
        } else if frames.len() == 1 {
            (Seq::empty(), StepView::Done(top.tasks))
        } else {
            let rest = frames.drop_last();
            let parent = rest.last();
            match fold_child(parent, top.tasks) {
                Err(e) => (rest.drop_last(), StepView::Failed(e)),
                Ok(m) => settle(
                    rest.update(
                        rest.len() - 1,
                        FrameView {
                            label: parent.label,
                            canon: parent.canon,
                            tasks: m,
                            imports: parent.imports,
                            next: parent.next + 1,
                        },
                    ),
                ),
            }
        }
    }
}

/// Every file's tasks are well formed, and every file but the innermost is
/// waiting on one of its imports.
pub open spec fn frames_wf(frames: Seq<FrameView>) -> bool {
    forall|i: int|
        0 <= i < frames.len() ==> model::tasks_wf((#[trigger] frames[i]).tasks) && frames[i].next
            <= frames[i].imports.len() && (i < frames.len() - 1 ==> frames[i].next < frames[i].imports.len())
}

/// Insert `task` into `merged`, treating any name collision as a hard error.
fn merge_one(merged: &mut Taskfile, task: Task) -> (r: Result<(), LoadError>)
    requires
        model::tasks_wf(old(merged)@.tasks),
        task@.path.len() > 0,
    ensures
        match merge_task(old(merged)@.tasks, task@) {
            Ok(m) => r is Ok && final(merged)@.tasks == m,
            Err(e) => r matches Err(x) && x@ == e && final(merged)@.tasks == old(merged)@.tasks,
        },
        final(merged)@.imports == old(merged)@.imports,
        model::tasks_wf(final(merged)@.tasks),
{
    let ghost m = merged@.tasks;
    match merged.get(task.path.as_slice()) {
        Some(existing) => {
            let name = join(task.path.as_slice(), "::");
            Err(LoadError::Clash {
                name,
                first: (existing.source.clone(), existing.line),
                second: (task.source.clone(), task.line),
            })
        },
        None => {
            merged.tasks.push(task);
            proof {
                assert(merged@.tasks =~= m.push(task@));
                let ts = merged@.tasks;
                assert forall|i: int, j: int|
                    0 <= i < ts.len() && 0 <= j < ts.len() && i != j implies (#[trigger] ts[i]).path != (#[trigger] ts[j]).path by {
                    if i == m.len() {
                        assert(!(ts[j].path == task@.path) || !(0 <= j < m.len() && m[j].path == task@.path));
                    }
                    if j == m.len() {
                        assert(!(0 <= i < m.len() && m[i].path == task@.path));
                    }
                }
            }
            Ok(())
        },
    }
}

/// `ns` followed by `path`.
fn prefixed(ns: &[String], path: &[String]) -> (r: Vec<String>)
    ensures
        r.deep_view() == ns.deep_view() + path.deep_view(),
{
    let mut out = clone_strings(ns);
    let mut i: usize = 0;
    while i < path.len()
        invariant
            i <= path.len(),
            out.deep_view() == ns.deep_view() + path.deep_view().take(i as int),
        decreases path.len() - i,
    {
        let ghost before = out.deep_view();
        out.push(path[i].clone());
        assert(out.deep_view() =~= before.push(path.deep_view()[i as int]));
        assert(ns.deep_view() + path.deep_view().take(i + 1) =~= before.push(path.deep_view()[i as int]));
        i = i + 1;
    }
    assert(path.deep_view().take(path.len() as int) =~= path.deep_view());
    out
}

/// True if `path` is strictly inside namespace `ns` (a descendant, not `ns`
/// itself). `["ci", "test"]` is under `["ci"]`; `["ci"]` is not.
fn strictly_under(path: &[String], ns: &[String]) -> (r: bool)
    ensures
        r == model::strict_prefix(ns.deep_view(), path.deep_view()),
{
    model::under(ns, path)
}

/// Nest every task in `sub` under namespace `ns`: prefix each task's path and
/// each of its dependency targets. An imported file's dependencies point only
/// within its own tree, so prefixing them uniformly keeps them resolving.
fn apply_namespace(sub: &mut Taskfile, ns: &[String])
    ensures
        final(sub)@.tasks == namespaced(old(sub)@.tasks, ns.deep_view()),
        final(sub)@.imports == old(sub)@.imports,
{
    let ghost n = ns.deep_view();
    let ghost before = sub@.tasks;
    let ghost imps = sub@.imports;
    let mut old_tasks: Vec<Task> = Vec::new();
    std::mem::swap(&mut old_tasks, &mut sub.tasks);
    assert(model::tasks_view(old_tasks@) == before);
    for task in it: old_tasks
        invariant
            it.seq() == old_tasks@,
            model::tasks_view(old_tasks@) == before,
            n == ns.deep_view(),
            sub@.imports == imps,
            sub.tasks@.len() == it.index(),
            forall|k: int| 0 <= k < it.index() ==> (#[trigger] sub.tasks@[k])@ == ns_task(before[k], n),
    {
        let mut task = task;
        let ghost t0 = task@;
        task.path = prefixed(ns, task.path.as_slice());
        let mut old_deps: Vec<Dep> = Vec::new();
        std::mem::swap(&mut old_deps, &mut task.deps);
        let ghost d0 = old_deps@;
        for dep in dit: old_deps
            invariant
                dit.seq() == d0,
                model::deps_view(d0) == t0.deps,
                task.deps@.len() == dit.index(),
                forall|k: int| 0 <= k < dit.index() ==> (#[trigger] task.deps@[k])@ == ns_dep(t0.deps[k], n),
                n == ns.deep_view(),
                task@.path == n + t0.path,
                task@.params == t0.params,
                task@.body == t0.body,
                task@.source == t0.source,
                task@.line == t0.line,
        {
            let mut dep = dep;
            // Only the target is namespaced; arguments are values, not paths.
            dep.path = prefixed(ns, dep.path.as_slice());
            task.deps.push(dep);
        }
        assert(task@ == ns_task(t0, n)) by {
            assert(task@.deps =~= Seq::new(t0.deps.len(), |j: int| ns_dep(t0.deps[j], n)));
            assert(task@.path == ns_task(t0, n).path);
        }
        sub.tasks.push(task);
    }
    assert(sub@.tasks =~= namespaced(before, n));
}

} // verus!

verus! {

/// The tasks of one file, each stamped with the file it came from.
pub open spec fn stamped(ts: Seq<TaskView>, label: Seq<char>) -> Seq<TaskView> {
    Seq::new(ts.len(), |i: int| TaskView { source: label, ..ts[i] })
}

/// The file `label` (whose canonical path is `canon`) arrived holding `src`:
/// a file already being loaded closes an import cycle; otherwise it is
/// parsed, and its imports followed.
pub open spec fn on_read(frames: Seq<FrameView>, label: Seq<char>, canon: Seq<char>, src: Seq<char>) -> (Seq<FrameView>, StepView) {
    if exists|i: int| 0 <= i < frames.len() && (#[trigger] frames[i]).canon == canon {
        (frames, StepView::Failed(LoadErrorView::Cycle {
            chain: Seq::new(frames.len(), |i: int| frames[i].label).push(label),
        }))
    } else {
        match crate::parser::parse_spec(src) {
            Err((line, message)) => (frames, StepView::Failed(LoadErrorView::Parse { source: label, line, message })),
            Ok(tf) => settle(
                frames.push(
                    FrameView { label, canon, tasks: stamped(tf.tasks, label), imports: tf.imports, next: 0 },
                ),
            ),
        }
    }
}

/// The import directive being followed, if any: the innermost file's next
/// import.
pub open spec fn pending_site(frames: Seq<FrameView>) -> Option<(Seq<char>, nat)> {
    if frames.len() == 0 {
        None
    } else {
        Some((frames.last().label, frames.last().imports[frames.last().next as int].line))
    }
}

pub open spec fn awaiting_frames(fs: Seq<FrameView>) -> bool {
    fs.len() == 0 || fs.last().next < fs.last().imports.len()
}

spec fn frames_view(v: Seq<Frame>) -> Seq<FrameView> {
    Seq::new(v.len(), |i: int| v[i]@)
}

/// Loads a taskfile and everything it imports, one file read at a time.
pub struct Loader {
    frames: Vec<Frame>,
}

impl Loader {
    #[verifier::type_invariant]
    spec fn inv(self) -> bool {
        frames_wf(self.frames())
    }

    /// The files being loaded, outermost first.
    pub closed spec fn frames(&self) -> Seq<FrameView> {
        frames_view(self.frames@)
    }

    /// The loader is waiting for a file: the root, or the next import of the
    /// innermost file.
    pub open spec fn awaiting(&self) -> bool {
        awaiting_frames(self.frames())
    }

    /// The file `label`, whose canonical path is `canon`, was read and holds
    /// `src`.
    pub fn file_read(&mut self, label: String, canon: String, src: &str) -> (r: LoadStep)
        requires
            old(self).awaiting(),
        ensures
            r@ == on_read(old(self).frames(), label@, canon@, src@).1,
            final(self).frames() == on_read(old(self).frames(), label@, canon@, src@).0,
            r matches LoadStep::Done(tf) ==> tf.wf() && tf@.imports.len() == 0,
            r is Done ==> final(self).frames().len() == 0,
            r is Read ==> final(self).awaiting(),
    {
        proof { use_type_invariant(&*self); }
        let ghost f0 = self.frames();
        // A file already on the stack closes a cycle.
        let mut i: usize = 0;
        while i < self.frames.len()
            invariant
                f0 == self.frames(),
                i <= self.frames@.len(),
                forall|k: int| 0 <= k < i ==> (#[trigger] f0[k]).canon != canon@,
            decreases self.frames.len() - i,
        {
            if self.frames[i].canon == canon {
                assert(f0[i as int].canon == canon@);
                let mut chain: Vec<String> = Vec::new();
                let mut j: usize = 0;
                while j < self.frames.len()
                    invariant
                        f0 == self.frames(),
                        j <= self.frames@.len(),
                        chain@.len() == j,
                        forall|k: int| 0 <= k < j ==> (#[trigger] chain@[k])@ == f0[k].label,
                    decreases self.frames.len() - j,
                {
                    chain.push(self.frames[j].label.clone());
                    j = j + 1;
                }
                let ghost cv = chain.deep_view();
                chain.push(label);
                assert(chain.deep_view() =~= Seq::new(f0.len(), |k: int| f0[k].label).push(label@));
                return LoadStep::Failed(LoadError::Cycle { chain });
            }
            i = i + 1;
        }
        let parsed = match crate::parser::parse(src) {
            Err(e) => {
                return LoadStep::Failed(LoadError::Parse { source: label, line: e.line, message: e.message });
            },
            Ok(tf) => tf,
        };
        // This file's own tasks, stamped with its label for later messages.
        let Taskfile { tasks: parsed_tasks, imports } = parsed;
        let ghost pv = model::tasks_view(parsed_tasks@);
        let mut own: Vec<Task> = Vec::new();
        for task in it: parsed_tasks
            invariant
                it.seq() == parsed_tasks@,
                pv == model::tasks_view(parsed_tasks@),
                own@.len() == it.index(),
                forall|k: int| 0 <= k < it.index() ==> (#[trigger] own@[k])@ == (TaskView { source: label@, ..pv[k] }),
        {
            let mut task = task;
            task.source = label.clone();
            own.push(task);
        }
        let ghost sv = model::tasks_view(own@);
        assert(sv =~= stamped(pv, label@));
        proof {
            assert forall|a: int, b: int|
                0 <= a < sv.len() && 0 <= b < sv.len() && a != b implies (#[trigger] sv[a]).path != (#[trigger] sv[b]).path by {
                assert(sv[a].path == pv[a].path && sv[b].path == pv[b].path);
            }
            assert forall|a: int| 0 <= a < sv.len() implies (#[trigger] sv[a]).path.len() > 0 by {
                assert(sv[a].path == pv[a].path);
            }
        }
        let frame = Frame { label, canon, tasks: Taskfile { tasks: own, imports: Vec::new() }, imports, next: 0 };
        let mut frames: Vec<Frame> = Vec::new();
        std::mem::swap(&mut frames, &mut self.frames);
        frames.push(frame);
        assert(frames_view(frames@) =~= f0.push(frame@));
        let r = settle_frames(&mut frames);
        self.frames = frames;
        r
    }

    /// Whether the file whose canonical path is `canon` is being loaded
    /// already, so that reading it would close an import cycle: `file_read`
    /// then reports the cycle whatever the file holds.
    pub fn closes_cycle(&self, canon: &str) -> (r: bool)
        ensures
            r == exists|i: int| 0 <= i < self.frames().len() && (#[trigger] self.frames()[i]).canon == canon@,
    {
        let c = String::from_str(canon);
        let ghost fs = self.frames();
        let mut i: usize = 0;
        while i < self.frames.len()
            invariant
                fs == self.frames(),
                c@ == canon@,
                i <= self.frames@.len(),
                forall|k: int| 0 <= k < i ==> (#[trigger] fs[k]).canon != canon@,
            decreases self.frames.len() - i,
        {
            if self.frames[i].canon == c {
                assert(fs[i as int].canon == canon@);
                return true;
            }
            i = i + 1;
        }
        false
    }

    /// The file `label` could not be read (`err` says why).
    pub fn read_failed(&mut self, label: String, err: String) -> (r: LoadStep)
        requires
            old(self).awaiting(),
        ensures
            r@ == StepView::Failed(LoadErrorView::Read { path: label@, err: err@, from: pending_site(old(self).frames()) }),
            final(self).frames() == old(self).frames(),
    {
        proof { use_type_invariant(&*self); }
        let n = self.frames.len();
        let from = if n == 0 {
            None
        } else {
            let top = &self.frames[n - 1];
            assert(self.frames()[n - 1] == top@);
            Some((top.label.clone(), top.imports[top.next].line))
        };
        LoadStep::Failed(LoadError::Read { path: label, err, from })
    }
}

/// Fold the finished `child` tasks into the file that imported them.
fn fold_into(parent: Frame, child: Taskfile) -> (r: Result<Frame, LoadError>)
    requires
        model::tasks_wf(parent@.tasks),
        model::tasks_wf(child@.tasks),
        parent@.next < parent@.imports.len(),
    ensures
        match fold_child(parent@, child@.tasks) {
            Ok(m) => r matches Ok(f) && f@ == (FrameView { tasks: m, next: parent@.next + 1, ..parent@ })
                && model::tasks_wf(m),
            Err(e) => r matches Err(x) && x@ == e,
        },
{
    let ghost pv = parent@;
    let ghost cv = child@.tasks;
    let imp_line = parent.imports[parent.next].line;
    let alias = match &parent.imports[parent.next].alias {
        Some(ns) => Some(clone_strings(ns.as_slice())),
        None => None,
    };
    assert(model::imports_view(parent.imports@)[parent.next as int] == parent.imports@[parent.next as int]@);
    let mut sub = child;
    match &alias {
        Some(ns) => {
            apply_namespace(&mut sub, ns.as_slice());
            match first_under_exec(&parent.tasks, ns.as_slice()) {
                Some(k) => {
                    let t = &parent.tasks.tasks[k];
                    return Err(LoadError::SealedNamespace {
                        namespace: join(ns.as_slice(), "::"),
                        import_site: (parent.label.clone(), imp_line),
                        task: join(t.path.as_slice(), "::"),
                        task_site: (t.source.clone(), t.line),
                    });
                },
                None => {},
            }
        },
        None => {},
    }
    // No earlier `as` import's namespace may gain a task from this one.
    match breach_exec(&parent.imports, parent.next, &sub) {
        Some((a, k)) => {
            let e = &parent.imports[a];
            let t = &sub.tasks[k];
            let ns = match &e.alias {
                Some(ns) => join(ns.as_slice(), "::"),
                None => String::new(),
            };
            return Err(LoadError::SealedNamespace {
                namespace: ns,
                import_site: (parent.label.clone(), e.line),
                task: join(t.path.as_slice(), "::"),
                task_site: (t.source.clone(), t.line),
            });
        },
        None => {},
    }
    let ghost subv = sub@.tasks;
    assert(forall|k: int| 0 <= k < subv.len() ==> (#[trigger] subv[k]).path.len() > 0) by {
        assert forall|k: int| 0 <= k < subv.len() implies (#[trigger] subv[k]).path.len() > 0 by {
            if alias is Some {
                assert(subv[k].path == alias->Some_0.deep_view() + cv[k].path);
            }
        }
    }
    let ghost m0 = pv.tasks;
    proof {
        let imp = pv.imports[pv.next as int];
        match alias {
            Some(ns) => {
                assert(imp.alias == Some(ns.deep_view()));
            },
            None => {
                assert(imp.alias is None);
                assert(subv == cv);
            },
        }
        assert(fold_child(pv, cv) == merge_all(m0, subv));
    }
    let Frame { label, canon, tasks: mut merged, imports, next } = parent;
    assert(subv == model::tasks_view(sub.tasks@));
    assert(subv.take(0) =~= Seq::<TaskView>::empty());
    for task in it: sub.tasks
        invariant
            it.seq() == sub.tasks@,
            subv == model::tasks_view(sub.tasks@),
            forall|k: int| 0 <= k < subv.len() ==> (#[trigger] subv[k]).path.len() > 0,
            model::tasks_wf(merged@.tasks),
            pv == parent@,
            cv == child@.tasks,
            label@ == pv.label,
            canon@ == pv.canon,
            model::imports_view(imports@) == pv.imports,
            next as nat == pv.next,
            pv.next < pv.imports.len(),
            fold_child(pv, cv) == merge_all(m0, subv),
            merge_all(m0, subv.take(it.index())) == Ok::<Seq<TaskView>, LoadErrorView>(merged@.tasks),
    {
        assert(subv.take(it.index() + 1).drop_last() =~= subv.take(it.index()));
        assert(task@ == subv[it.index()]);
        let ghost before = merged@.tasks;
        let ghost idx = it.index();
        match merge_one(&mut merged, task) {
            Err(e) => {
                proof {
                    assert(merge_task(before, subv[idx]) == Err::<Seq<TaskView>, LoadErrorView>(e@));
                    assert(merge_all(m0, subv.take(idx + 1)) == Err::<Seq<TaskView>, LoadErrorView>(e@));
                    lemma_merge_stops(m0, subv, idx + 1);
                }
                return Err(e);
            },
            Ok(()) => {},
        }
    }
    assert(subv.take(subv.len() as int) =~= subv);
    assert(model::imports_view(imports@).len() == imports@.len());
    assert(next < imports.len());
    Ok(Frame { label, canon, tasks: merged, imports, next: next + 1 })
}

/// The first of the `as` imports before the `upto`-th whose namespace
/// `child` has a task strictly inside: that import's index and the task's.
fn breach_exec(imports: &Vec<Import>, upto: usize, child: &Taskfile) -> (r: Option<(usize, usize)>)
    requires
        upto <= imports.len(),
    ensures
        match r {
            Some((a, k)) => a < upto && k < child.tasks.len() && imports@[a as int]@.alias is Some && breach(
                model::imports_view(imports@),
                0,
                upto as nat,
                child@.tasks,
            ) == Some((imports@[a as int]@, child@.tasks[k as int])),
            None => breach(model::imports_view(imports@), 0, upto as nat, child@.tasks) is None,
        },
{
    let ghost iv = model::imports_view(imports@);
    let ghost cv = child@.tasks;
    let mut a: usize = 0;
    while a < upto
        invariant
            iv == model::imports_view(imports@),
            cv == child@.tasks,
            upto <= imports.len(),
            a <= upto,
            breach(iv, 0, upto as nat, cv) == breach(iv, a as nat, upto as nat, cv),
        decreases upto - a,
    {
        assert(iv[a as int] == imports@[a as int]@);
        match &imports[a].alias {
            Some(ns) => {
                match first_under_exec(child, ns.as_slice()) {
                    Some(k) => {
                        return Some((a, k));
                    },
                    None => {},
                }
            },
            None => {},
        }
        a = a + 1;
    }
    None
}

/// Follow the next pending import, or fold finished files into their
/// importers until one has an import left, the root is done, or a fold
/// fails.
fn settle_frames(frames: &mut Vec<Frame>) -> (r: LoadStep)
    requires
        frames_view(old(frames)@).len() > 0,
        frames_wf(frames_view(old(frames)@)),
    ensures
        r@ == settle(frames_view(old(frames)@)).1,
        frames_view(final(frames)@) == settle(frames_view(old(frames)@)).0,
        frames_wf(frames_view(final(frames)@)),
        r matches LoadStep::Done(tf) ==> tf.wf() && tf@.imports.len() == 0,
        r is Done ==> final(frames)@.len() == 0,
        r is Read ==> awaiting_frames(frames_view(final(frames)@)),
{
    let ghost f0 = frames_view(frames@);
    loop
        invariant
            f0 == frames_view(old(frames)@),
            frames_view(frames@).len() > 0,
            frames_wf(frames_view(frames@)),
            settle(f0) == settle(frames_view(frames@)),
        decreases frames@.len(),
    {
        let ghost fs = frames_view(frames@);
        let n = frames.len();
        assert(fs.last() == frames@[n - 1]@);
        if frames[n - 1].next < frames[n - 1].imports.len() {
            let top = &frames[n - 1];
            let imp = &top.imports[top.next];
            assert(model::imports_view(top.imports@)[top.next as int] == imp@);
            assert(fs.last().imports[fs.last().next as int] == imp@);
            return LoadStep::Read { importer: Some(top.label.clone()), path: imp.path.clone(), line: imp.line };
        }
        let top = frames.pop().unwrap();
        assert(frames_view(frames@) =~= fs.drop_last());
        if frames.len() == 0 {
            assert(fs[0] == top@);
            let tf = Taskfile { tasks: top.tasks.tasks, imports: Vec::new() };
            assert(frames_view(frames@) =~= Seq::<FrameView>::empty());
            return LoadStep::Done(tf);
        }
        let ghost rest = frames_view(frames@);
        let parent = frames.pop().unwrap();
        assert(rest.last() == parent@);
        assert(frames_view(frames@) =~= rest.drop_last());
        assert(fs[fs.len() - 2] == parent@);
        assert(fs[fs.len() - 1] == top@);
        assert(frames_wf(frames_view(frames@))) by {
            let fv = frames_view(frames@);
            assert forall|i: int| 0 <= i < fv.len() implies model::tasks_wf((#[trigger] fv[i]).tasks) && fv[i].next
                <= fv[i].imports.len() && (i < fv.len() - 1 ==> fv[i].next < fv[i].imports.len()) by {
                assert(fv[i] == fs[i]);
            }
        }
        match fold_into(parent, top.tasks) {
            Err(e) => {
                return LoadStep::Failed(e);
            },
            Ok(f) => {
                let ghost fv = f@;
                frames.push(f);
                assert(frames_view(frames@) =~= rest.update(rest.len() - 1, fv));
                proof {
                    let nv = frames_view(frames@);
                    assert forall|i: int| 0 <= i < nv.len() implies model::tasks_wf((#[trigger] nv[i]).tasks) && nv[i].next
                        <= nv[i].imports.len() && (i < nv.len() - 1 ==> nv[i].next < nv[i].imports.len()) by {
                        if i < nv.len() - 1 {
                            assert(nv[i] == fs[i]);
                        }
                    }
                }
            },
        }
    }
}

/// Once a merge fails, merging further tasks reports the same failure.
proof fn lemma_merge_stops(m: Seq<TaskView>, s: Seq<TaskView>, j: int)
    requires
        0 < j <= s.len(),
        merge_all(m, s.take(j)) is Err,
    ensures
        merge_all(m, s) == merge_all(m, s.take(j)),
    decreases s.len() - j,
{
    if j < s.len() {
        assert(s.take(j + 1).drop_last() =~= s.take(j));
        lemma_merge_stops(m, s, j + 1);
    } else {
        assert(s.take(j) =~= s);
    }
}

/// The index of the first task in `tf` strictly inside `ns`.
fn first_under_exec(tf: &Taskfile, ns: &[String]) -> (r: Option<usize>)
    ensures
        match r {
            Some(k) => intruder(tf@.tasks, ns.deep_view()) == Some(tf@.tasks[k as int]) && k < tf.tasks.len(),
            None => intruder(tf@.tasks, ns.deep_view()) is None,
        },
{
    let ghost ts = tf@.tasks;
    let ghost n = ns.deep_view();
    let mut i: usize = 0;
    while i < tf.tasks.len()
        invariant
            ts == tf@.tasks,
            n == ns.deep_view(),
            i <= tf.tasks.len(),
            forall|j: int| 0 <= j < i ==> !model::strict_prefix(n, (#[trigger] ts[j]).path),
        decreases tf.tasks.len() - i,
    {
        if strictly_under(tf.tasks[i].path.as_slice(), ns) {
            proof {
                assert(model::strict_prefix(n, ts[i as int].path));
                let f = first_under(ts, n);
                assert(0 <= f < ts.len() && model::strict_prefix(n, ts[f].path) && forall|j: int|
                    0 <= j < f ==> !model::strict_prefix(n, (#[trigger] ts[j]).path));
                if f < i {
                } else if f > i {
                    assert(!model::strict_prefix(n, ts[i as int].path));
                }
                assert(f == i);
            }
            return Some(i);
        }
        i = i + 1;
    }
    None
}

/// The directory part of `p`: everything up to and including its last `/`,
/// or nothing when it has none.
pub open spec fn dir_of(p: Seq<char>) -> Seq<char>
    decreases p.len(),
{
    if p.len() == 0 || p.last() == '/' {
        p
    } else {
        dir_of(p.drop_last())
    }
}

/// The file a `LoadStep::Read` asks for: the root as given; an import's path
/// relative to the directory of the importing file, unless it is absolute.
pub open spec fn file_of(importer: Option<Seq<char>>, path: Seq<char>) -> Seq<char> {
    match importer {
        None => path,
        Some(i) => if path.len() > 0 && path[0] == '/' {
            path
        } else {
            dir_of(i) + path
        },
    }
}

/// `dir_of` of a path whose last part `f` holds no `/` is everything up to
/// and including the `/` before `f`.
proof fn lemma_dir_of(d: Seq<char>, f: Seq<char>)
    requires
        forall|i: int| 0 <= i < f.len() ==> f[i] != '/',
    ensures
        dir_of(d + seq!['/'] + f) == d + seq!['/'],
    decreases f.len(),
{
    let p = d + seq!['/'] + f;
    if f.len() == 0 {
        assert(p =~= d + seq!['/']);
    } else {
        assert(p.last() == f.last());
        assert(p.drop_last() =~= d + seq!['/'] + f.drop_last());
        lemma_dir_of(d, f.drop_last());
    }
}

/// Imports are read next to the file that holds them: for an importing file
/// `d/f` (where `f` holds no `/`) and a relative import path `p`, the file
/// read is `d/p`, whatever `d` looks like (`..`, `.`, absolute or nested);
/// from a file with no directory part it is `p` itself; an absolute `p`
/// stands as written; and the root is read as given.
pub proof fn law_imports_are_read_beside_their_file(d: Seq<char>, f: Seq<char>, p: Seq<char>)
    requires
        forall|i: int| 0 <= i < f.len() ==> f[i] != '/',
    ensures
        !(p.len() > 0 && p[0] == '/') ==> file_of(Some(d + "/"@ + f), p) == d + "/"@ + p,
        !(p.len() > 0 && p[0] == '/') ==> file_of(Some(f), p) == p,
        p.len() > 0 && p[0] == '/' ==> file_of(Some(d + "/"@ + f), p) == p,
        file_of(None, p) == p,
{
    reveal_strlit("/");
    assert("/"@ =~= seq!['/']);
    lemma_dir_of(d, f);
    let e: Seq<char> = Seq::empty();
    assert forall|i: int| 0 <= i < f.len() implies f[i] != '/' by {}
    lemma_dir_of_plain(f);
}

/// A path with no `/` has no directory part.
proof fn lemma_dir_of_plain(f: Seq<char>)
    requires
        forall|i: int| 0 <= i < f.len() ==> f[i] != '/',
    ensures
        dir_of(f) == Seq::<char>::empty(),
    decreases f.len(),
{
    if f.len() > 0 {
        assert(f.last() == f[f.len() - 1]);
        lemma_dir_of_plain(f.drop_last());
    }
}

/// The file to read for a `LoadStep::Read { importer, path, .. }`.
pub fn import_path(importer: Option<&str>, path: &str) -> (r: String)
    ensures
        r@ == file_of(
            match importer {
                Some(i) => Some(i@),
                None => None,
            },
            path@,
        ),
{
    let pc = text::chars_of(path);
    let i = match importer {
        None => {
            return text::string_from_chars(pc.as_slice());
        },
        Some(i) => i,
    };
    if pc.len() > 0 && pc[0] == '/' {
        return text::string_from_chars(pc.as_slice());
    }
    let ic = text::chars_of(i);
    let mut k: usize = ic.len();
    assert(ic@.take(k as int) =~= ic@);
    while k > 0 && ic[k - 1] != '/'
        invariant
            k <= ic@.len(),
            dir_of(ic@) == dir_of(ic@.take(k as int)),
        decreases k,
    {
        assert(ic@.take(k as int).drop_last() =~= ic@.take(k - 1));
        k = k - 1;
    }
    let mut out: Vec<char> = Vec::new();
    let mut j: usize = 0;
    while j < k
        invariant
            k <= ic@.len(),
            j <= k,
            out@ == ic@.take(j as int),
        decreases k - j,
    {
        out.push(ic[j]);
        assert(out@ =~= ic@.take(j + 1));
        j = j + 1;
    }
    assert(dir_of(ic@.take(k as int)) == ic@.take(k as int));
    let mut m: usize = 0;
    while m < pc.len()
        invariant
            out@ == ic@.take(k as int) + pc@.take(m as int),
            m <= pc@.len(),
        decreases pc.len() - m,
    {
        out.push(pc[m]);
        assert(out@ =~= ic@.take(k as int) + pc@.take(m + 1));
        m = m + 1;
    }
    assert(pc@.take(pc@.len() as int) =~= pc@);
    text::string_from_chars(out.as_slice())
}

/// Start loading the taskfile at `root`: the first thing to read is the root
/// itself.
pub fn load(root: &str) -> (r: (Loader, LoadStep))
    ensures
        r.0.frames().len() == 0,
        r.0.awaiting(),
        r.1@ == (StepView::Read { importer: None, path: root@, line: 0 }),
{
    let loader = Loader { frames: Vec::new() };
    assert(loader.frames() =~= Seq::<FrameView>::empty());
    (loader, LoadStep::Read { importer: None, path: String::from_str(root), line: 0 })
}

} // verus!

verus! {

pub open spec fn site_text(s: (Seq<char>, nat)) -> Seq<char> {
    s.0 + ":"@ + text::decimal(s.1)
}

/// The message shown for a load error.
pub open spec fn load_message(e: LoadErrorView) -> Seq<char> {
    match e {
        LoadErrorView::Read { path, err, from } => {
            let head = "cannot read `"@ + path + "`: "@ + err;
            match from {
                Some(site) => head + " (imported from "@ + site_text(site) + ")"@,
                None => head,
            }
        },
        LoadErrorView::Parse { source, line, message } => source + ":"@ + text::decimal(line) + ": "@ + message,
        LoadErrorView::Cycle { chain } => "import cycle: "@ + text::seq_join(chain, " -> "@),
        LoadErrorView::Clash { name, first, second } => "task `"@ + name + "` is defined in both "@ + site_text(first)
            + " and "@ + site_text(second),
        LoadErrorView::SealedNamespace { namespace, import_site, task, task_site } => site_text(task_site) + ": `"@
            + task + "` cannot be added to namespace `"@ + namespace + "`, which is filled by the import at "@
            + site_text(import_site)
            + "; an `as` namespace's tasks must all come from that one import (a bare `"@ + namespace
            + ":` default task is allowed, but new sub-tasks are not)"@,
    }
}

fn site_string(s: &(String, usize)) -> (r: String)
    ensures
        r@ == site_text(site_view(*s)),
{
    let mut r = s.0.clone();
    r.append(":");
    let d = decimal_string(s.1);
    r.append(d.as_str());
    r
}

impl LoadError {
    /// The message shown for this error.
    pub fn message(&self) -> (r: String)
        ensures
            r@ == load_message(self@),
    {
        match self {
            LoadError::Read { path, err, from } => {
                let mut r = String::from_str("cannot read `");
                r.append(path.as_str());
                r.append("`: ");
                r.append(err.as_str());
                match from {
                    Some(site) => {
                        r.append(" (imported from ");
                        let st = site_string(site);
                        r.append(st.as_str());
                        r.append(")");
                    },
                    None => {},
                }
                assert(r@ =~= load_message(self@));
                r
            },
            LoadError::Parse { source, line, message } => {
                let mut r = source.clone();
                r.append(":");
                let d = decimal_string(*line);
                r.append(d.as_str());
                r.append(": ");
                r.append(message.as_str());
                assert(r@ =~= load_message(self@));
                r
            },
            LoadError::Cycle { chain } => {
                let mut r = String::from_str("import cycle: ");
                let c = join(chain.as_slice(), " -> ");
                r.append(c.as_str());
                r
            },
            LoadError::Clash { name, first, second } => {
                let mut r = String::from_str("task `");
                r.append(name.as_str());
                r.append("` is defined in both ");
                let a = site_string(first);
                r.append(a.as_str());
                r.append(" and ");
                let b = site_string(second);
                r.append(b.as_str());
                assert(r@ =~= load_message(self@));
                r
            },
            LoadError::SealedNamespace { namespace, import_site, task, task_site } => {
                let mut r = site_string(task_site);
                r.append(": `");
                r.append(task.as_str());
                r.append("` cannot be added to namespace `");
                r.append(namespace.as_str());
                r.append("`, which is filled by the import at ");
                let a = site_string(import_site);
                r.append(a.as_str());
                r.append("; an `as` namespace's tasks must all come from that one import (a bare `");
                r.append(namespace.as_str());
                r.append(":` default task is allowed, but new sub-tasks are not)");
                assert(r@ =~= load_message(self@));
                r
            },
        }
    }
}

} // verus!

verus! {

/// Merging succeeds exactly when no name occurs twice among the importer's
/// tasks and the merged ones, and then it appends the merged tasks unchanged;
/// a failed merge is always a clash.
pub proof fn law_merge_all(m: Seq<TaskView>, sub: Seq<TaskView>)
    requires
        model::tasks_wf(m),
        forall|k: int| 0 <= k < sub.len() ==> (#[trigger] sub[k]).path.len() > 0,
    ensures
        (merge_all(m, sub) is Ok) == model::tasks_wf(m + sub),
        merge_all(m, sub) matches Ok(r) ==> r == m + sub,
        merge_all(m, sub) matches Err(e) ==> e is Clash,
    decreases sub.len(),
{
    if sub.len() == 0 {
        assert(m + sub =~= m);
    } else {
        let dl = sub.drop_last();
        let t = sub.last();
        law_merge_all(m, dl);
        let whole = m + sub;
        let front = m + dl;
        assert(whole.drop_last() =~= front);
        assert(whole =~= front.push(t));
        match merge_all(m, dl) {
            Ok(m2) => {
                assert(m2 == front);
                if model::has_task(front, t.path) {
                    let i = choose|i: int| 0 <= i < front.len() && (#[trigger] front[i]).path == t.path;
                    assert(whole[i].path == whole[whole.len() - 1].path);
                } else {
                    assert forall|i: int, j: int|
                        0 <= i < whole.len() && 0 <= j < whole.len() && i != j implies (#[trigger] whole[i]).path
                        != (#[trigger] whole[j]).path by {
                        if i < front.len() && j < front.len() {
                            assert(whole[i] == front[i] && whole[j] == front[j]);
                        } else if i == front.len() {
                            assert(whole[j] == front[j]);
                        } else {
                            assert(whole[i] == front[i]);
                        }
                    }
                    assert forall|i: int| 0 <= i < whole.len() implies (#[trigger] whole[i]).path.len() > 0 by {
                        if i < front.len() {
                            assert(whole[i] == front[i]);
                        } else {
                            assert(whole[i] == sub[sub.len() - 1]);
                        }
                    }
                }
            },
            Err(e) => {
                assert(!model::tasks_wf(front));
                if model::tasks_wf(whole) {
                    assert forall|i: int, j: int|
                        0 <= i < front.len() && 0 <= j < front.len() && i != j implies (#[trigger] front[i]).path
                        != (#[trigger] front[j]).path by {
                        assert(whole[i] == front[i] && whole[j] == front[j]);
                    }
                    assert forall|i: int| 0 <= i < front.len() implies (#[trigger] front[i]).path.len() > 0 by {
                        assert(whole[i] == front[i]);
                    }
                }
            },
        }
    }
}

/// An `as` import nests every imported task strictly inside its namespace,
/// keeping the rest of its path, and points its dependencies inside the
/// namespace too; their arguments, parameters and bodies are unchanged.
pub proof fn law_namespaced(child: Seq<TaskView>, ns: Seq<Seq<char>>, k: int)
    requires
        0 <= k < child.len(),
        child[k].path.len() > 0,
    ensures
        model::strict_prefix(ns, namespaced(child, ns)[k].path),
        namespaced(child, ns)[k].path.skip(ns.len() as int) == child[k].path,
        namespaced(child, ns)[k].params == child[k].params,
        namespaced(child, ns)[k].body == child[k].body,
        forall|j: int|
            0 <= j < child[k].deps.len() ==> (#[trigger] namespaced(child, ns)[k].deps[j]).path == ns
                + child[k].deps[j].path && namespaced(child, ns)[k].deps[j].args == child[k].deps[j].args,
{
    let p = namespaced(child, ns)[k].path;
    assert(p == ns + child[k].path);
    assert(p.take(ns.len() as int) =~= ns);
    assert(p.skip(ns.len() as int) =~= child[k].path);
}

/// Whether `breach` finds something: some `as` import from the `a`-th up to
/// the `upto`-th has a task of `child` strictly inside its namespace.
proof fn lemma_breach(imports: Seq<ImportView>, a: nat, upto: nat, child: Seq<TaskView>)
    requires
        upto <= imports.len(),
    ensures
        breach(imports, a, upto, child) is Some <==> exists|b: int, i: int|
            a <= b < upto && 0 <= i < child.len() && (#[trigger] imports[b]).alias is Some && model::strict_prefix(
                imports[b].alias->Some_0,
                (#[trigger] child[i]).path,
            ),
    decreases upto - a,
{
    if a < upto {
        lemma_breach(imports, a + 1, upto, child);
        if let Some(ns) = imports[a as int].alias {
            lemma_intruder(child, ns);
        }
    }
}

/// `intruder` finds something exactly when some task is strictly inside `ns`.
proof fn lemma_intruder(m: Seq<TaskView>, ns: Seq<Seq<char>>)
    ensures
        intruder(m, ns) is Some <==> exists|i: int| 0 <= i < m.len() && model::strict_prefix(ns, (#[trigger] m[i]).path),
{
}

/// An `as` namespace is sealed: what is strictly inside it comes from the one
/// import that fills it. Folding an import fails with `SealedNamespace`
/// exactly when the import fills a namespace the importer already has a task
/// strictly inside, or brings a task strictly inside the namespace of one of
/// the importer's earlier `as` imports. After a successful fold, every task
/// strictly inside an earlier import's namespace was there before, and every
/// task strictly inside this import's own namespace is one it brought. A
/// default task named exactly like a namespace is not inside it.
pub proof fn law_sealed_namespace(parent: FrameView, child: Seq<TaskView>)
    requires
        parent.next < parent.imports.len(),
        model::tasks_wf(parent.tasks),
        forall|k: int| 0 <= k < child.len() ==> (#[trigger] child[k]).path.len() > 0,
    ensures
        (fold_child(parent, child) matches Err(e) && e is SealedNamespace) == ((exists|i: int|
            0 <= i < parent.tasks.len() && parent.imports[parent.next as int].alias is Some && model::strict_prefix(
                parent.imports[parent.next as int].alias->Some_0,
                (#[trigger] parent.tasks[i]).path,
            )) || (exists|b: int, i: int|
            0 <= b < parent.next && 0 <= i < brought(parent.imports[parent.next as int], child).len()
                && (#[trigger] parent.imports[b]).alias is Some && model::strict_prefix(
                parent.imports[b].alias->Some_0,
                (#[trigger] brought(parent.imports[parent.next as int], child)[i]).path,
            ))),
        fold_child(parent, child) matches Ok(m) ==> forall|b: int, i: int|
            0 <= b < parent.next && 0 <= i < m.len() && (#[trigger] parent.imports[b]).alias is Some
                && model::strict_prefix(parent.imports[b].alias->Some_0, (#[trigger] m[i]).path) ==> i
                < parent.tasks.len() && m[i] == parent.tasks[i],
        fold_child(parent, child) matches Ok(m) ==> forall|i: int|
            0 <= i < m.len() && parent.imports[parent.next as int].alias is Some && model::strict_prefix(
                parent.imports[parent.next as int].alias->Some_0,
                (#[trigger] m[i]).path,
            ) ==> parent.tasks.len() <= i && m[i] == namespaced(
                child,
                parent.imports[parent.next as int].alias->Some_0,
            )[i - parent.tasks.len()],
        forall|ns: Seq<Seq<char>>| !model::strict_prefix(ns, ns),
{
    let imp = parent.imports[parent.next as int];
    let sub = brought(imp, child);
    let pt = parent.tasks;
    assert forall|k: int| 0 <= k < sub.len() implies (#[trigger] sub[k]).path.len() > 0 by {
        if let Some(ns) = imp.alias {
            assert(sub[k].path == ns + child[k].path);
        }
    }
    law_merge_all(pt, sub);
    lemma_breach(parent.imports, 0, parent.next, sub);
    if let Some(ns) = imp.alias {
        lemma_intruder(pt, ns);
    }
    if let Ok(m) = fold_child(parent, child) {
        assert(m == pt + sub);
        assert forall|b: int, i: int|
            0 <= b < parent.next && 0 <= i < m.len() && (#[trigger] parent.imports[b]).alias is Some
                && model::strict_prefix(parent.imports[b].alias->Some_0, (#[trigger] m[i]).path) implies i
                < pt.len() && m[i] == pt[i] by {
            if i >= pt.len() {
                assert(m[i] == sub[i - pt.len()]);
            }
        }
        assert forall|i: int|
            0 <= i < m.len() && imp.alias is Some && model::strict_prefix(imp.alias->Some_0, (#[trigger] m[i]).path) implies pt.len() <= i
                && m[i] == namespaced(child, imp.alias->Some_0)[i - pt.len()] by {
            if i < pt.len() {
                assert(m[i] == pt[i]);
            } else {
                assert(m[i] == sub[i - pt.len()]);
            }
        }
    }
    assert forall|ns: Seq<Seq<char>>| !model::strict_prefix(ns, ns) by {}
}

} // verus!

verus! {

/// The tasks a load of the file `label` yields when every file it reaches is
/// in `fs` and parses: the file's own tasks, stamped with its name, then what
/// each of its imports brings, in order. `depth` bounds how deep imports nest.
pub open spec fn tree(fs: Map<Seq<char>, Seq<char>>, label: Seq<char>, depth: nat) -> Seq<TaskView>
    decreases depth, 1nat, 0nat,
{
    let tf = crate::parser::parse_spec(fs[label])->Ok_0;
    stamped(tf.tasks, label) + imported(fs, label, tf.imports, tf.imports.len(), depth)
}

/// What the first `n` of `imports`, written in the file `label`, bring: each
/// imported file's tree, nested under the import's namespace if it has one.
pub open spec fn imported(
    fs: Map<Seq<char>, Seq<char>>,
    label: Seq<char>,
    imports: Seq<ImportView>,
    n: nat,
    depth: nat,
) -> Seq<TaskView>
    decreases depth, 0nat, n,
{
    if depth == 0 || n == 0 || n > imports.len() {
        Seq::empty()
    } else {
        imported(fs, label, imports, (n - 1) as nat, depth) + brought(
            imports[n - 1],
            tree(fs, file_of(Some(label), imports[n - 1].path), (depth - 1) as nat),
        )
    }
}

/// Where the loader gets to when each file it asks for is answered from
/// `fs` (a file's canonical path being its name), for at most `n` reads; a
/// file missing from `fs` fails the load.
pub open spec fn drive(fs: Map<Seq<char>, Seq<char>>, frames: Seq<FrameView>, step: StepView, n: nat) -> StepView
    decreases n,
{
    match step {
        StepView::Read { importer, path, line } => {
            let label = file_of(importer, path);
            if n == 0 {
                step
            } else if fs.dom().contains(label) {
                let next = on_read(frames, label, label, fs[label]);
                drive(fs, next.0, next.1, (n - 1) as nat)
            } else {
                StepView::Failed(LoadErrorView::Read { path: label, err: Seq::empty(), from: pending_site(frames) })
            }
        },
        _ => step,
    }
}

/// Frame `f` is the file of its name in `fs`, part way through its imports.
spec fn file_frame(fs: Map<Seq<char>, Seq<char>>, f: FrameView, depth: nat) -> bool {
    &&& f.canon == f.label
    &&& fs.dom().contains(f.label)
    &&& crate::parser::parse_spec(fs[f.label]) is Ok
    &&& f.imports == crate::parser::parse_spec(fs[f.label])->Ok_0.imports
    &&& f.next <= f.imports.len()
    &&& f.tasks == stamped(crate::parser::parse_spec(fs[f.label])->Ok_0.tasks, f.label) + imported(
        fs,
        f.label,
        f.imports,
        f.next,
        depth,
    )
}

/// `child` is the file that `parent`'s pending import names.
spec fn links(parent: FrameView, child: FrameView) -> bool {
    parent.next < parent.imports.len() && child.label == file_of(Some(parent.label), parent.imports[parent.next as int].path)
}

/// The loader's stack while loading `root` from `fs`.
spec fn loading(fs: Map<Seq<char>, Seq<char>>, root: Seq<char>, frames: Seq<FrameView>, d: nat) -> bool {
    &&& frames.len() <= d
    &&& frames.len() > 0 ==> frames[0].label == root
    &&& forall|i: int| 0 <= i < frames.len() ==> file_frame(fs, #[trigger] frames[i], (d - i) as nat)
    &&& forall|i: int, j: int|
        0 <= i < frames.len() && 0 <= j < frames.len() && i != j ==> (#[trigger] frames[i]).canon != (#[trigger] frames[j]).canon
    &&& forall|j: int| 1 <= j < frames.len() ==> links(frames[j - 1], #[trigger] frames[j])
}

/// What the loader's next step says, given its stack.
spec fn pending(fs: Map<Seq<char>, Seq<char>>, root: Seq<char>, frames: Seq<FrameView>, step: StepView, d: nat) -> bool {
    match step {
        StepView::Read { importer, path, line } => if frames.len() == 0 {
            importer is None && path == root
        } else {
            importer == Some(frames.last().label) && frames.last().next < frames.last().imports.len() && path
                == frames.last().imports[frames.last().next as int].path
        },
        StepView::Done(ts) => ts == tree(fs, root, d),
        StepView::Failed(_) => true,
    }
}

/// Merging without a clash appends.
proof fn lemma_merge_appends(m: Seq<TaskView>, sub: Seq<TaskView>)
    ensures
        merge_all(m, sub) matches Ok(r) ==> r == m + sub,
    decreases sub.len(),
{
    if sub.len() > 0 {
        lemma_merge_appends(m, sub.drop_last());
        if let Ok(r) = merge_all(m, sub) {
            assert(sub =~= sub.drop_last().push(sub.last()));
            assert(m + sub =~= (m + sub.drop_last()).push(sub.last()));
        }
    }
}

/// A stack of distinct files from `fs` is no deeper than `fs` has files.
proof fn lemma_stack_bound(fs: Map<Seq<char>, Seq<char>>, frames: Seq<FrameView>)
    requires
        fs.dom().finite(),
        forall|i: int| 0 <= i < frames.len() ==> fs.dom().contains((#[trigger] frames[i]).canon),
        forall|i: int, j: int|
            0 <= i < frames.len() && 0 <= j < frames.len() && i != j ==> (#[trigger] frames[i]).canon != (#[trigger] frames[j]).canon,
    ensures
        frames.len() <= fs.dom().len(),
{
    let cs = Seq::new(frames.len(), |i: int| frames[i].canon);
    assert(cs.no_duplicates()) by {
        assert forall|i: int, j: int| 0 <= i < cs.len() && 0 <= j < cs.len() && i != j implies cs[i] != cs[j] by {
            assert(frames[i].canon != frames[j].canon);
        }
    }
    cs.unique_seq_to_set();
    assert(cs.to_set().subset_of(fs.dom())) by {
        assert forall|c: Seq<char>| cs.to_set().contains(c) implies fs.dom().contains(c) by {
            let i = choose|i: int| 0 <= i < cs.len() && cs[i] == c;
            assert(fs.dom().contains(frames[i].canon));
        }
    }
    vstd::set_lib::lemma_len_subset(cs.to_set(), fs.dom());
}

/// Settling a loading stack keeps it loading, and a finished load is the
/// root's tree.
proof fn lemma_settle(fs: Map<Seq<char>, Seq<char>>, root: Seq<char>, frames: Seq<FrameView>, d: nat)
    requires
        loading(fs, root, frames, d),
        frames.len() > 0,
    ensures
        settle(frames).1 is Read ==> loading(fs, root, settle(frames).0, d),
        pending(fs, root, settle(frames).0, settle(frames).1, d),
    decreases frames.len(),
{
    let top = frames.last();
    let k = frames.len() - 1;
    assert(file_frame(fs, frames[k], (d - k) as nat));
    if top.next < top.imports.len() {
    } else if frames.len() == 1 {
        assert(top.label == root);
    } else {
        let rest = frames.drop_last();
        let parent = rest.last();
        assert(parent == frames[k - 1]);
        assert(file_frame(fs, frames[k - 1], (d - (k - 1)) as nat));
        assert(links(frames[k - 1], frames[k]));
        if let Ok(m) = fold_child(parent, top.tasks) {
            let imp = parent.imports[parent.next as int];
            lemma_merge_appends(parent.tasks, brought(imp, top.tasks));
            let dp = (d - (k - 1)) as nat;
            assert(dp == ((d - k) as nat) + 1);
            assert(top.tasks == tree(fs, top.label, (d - k) as nat));
            assert(imported(fs, parent.label, parent.imports, parent.next + 1, dp) == imported(
                fs,
                parent.label,
                parent.imports,
                parent.next,
                dp,
            ) + brought(imp, tree(fs, top.label, (d - k) as nat)));
            let np = FrameView {
                label: parent.label,
                canon: parent.canon,
                tasks: m,
                imports: parent.imports,
                next: parent.next + 1,
            };
            let nf = rest.update(rest.len() - 1, np);
            let pt = crate::parser::parse_spec(fs[parent.label])->Ok_0;
            assert(m =~= stamped(pt.tasks, parent.label) + imported(fs, parent.label, parent.imports, parent.next + 1, dp));
            assert(file_frame(fs, np, dp));
            assert(loading(fs, root, nf, d)) by {
                assert forall|i: int| 0 <= i < nf.len() implies file_frame(fs, #[trigger] nf[i], (d - i) as nat) by {
                    if i < nf.len() - 1 {
                        assert(nf[i] == frames[i]);
                    }
                }
                assert forall|i: int, j: int|
                    0 <= i < nf.len() && 0 <= j < nf.len() && i != j implies (#[trigger] nf[i]).canon != (#[trigger] nf[j]).canon by {
                    assert(nf[i].canon == frames[i].canon && nf[j].canon == frames[j].canon);
                }
                assert forall|j: int| 1 <= j < nf.len() implies links(nf[j - 1], #[trigger] nf[j]) by {
                    assert(nf[j - 1] == frames[j - 1]);
                    assert(links(frames[j - 1], frames[j]));
                }
                if nf.len() > 0 {
                    assert(nf[0].label == frames[0].label);
                }
            }
            lemma_settle(fs, root, nf, d);
        }
    }
}

/// Pushing a new file that links from the innermost one keeps a stack
/// loading.
proof fn lemma_push(fs: Map<Seq<char>, Seq<char>>, root: Seq<char>, frames: Seq<FrameView>, nfr: FrameView, d: nat)
    requires
        fs.dom().finite(),
        d == fs.dom().len(),
        loading(fs, root, frames, d),
        file_frame(fs, nfr, (d - frames.len()) as nat),
        forall|i: int| 0 <= i < frames.len() ==> (#[trigger] frames[i]).canon != nfr.canon,
        frames.len() > 0 ==> links(frames.last(), nfr),
        frames.len() == 0 ==> nfr.label == root,
    ensures
        loading(fs, root, frames.push(nfr), d),
{
    let k = frames.len() as int;
    let pushed = frames.push(nfr);
    assert forall|i: int| 0 <= i < pushed.len() implies fs.dom().contains((#[trigger] pushed[i]).canon) by {
        if i < k {
            assert(pushed[i] == frames[i]);
            assert(file_frame(fs, frames[i], (d - i) as nat));
        }
    }
    assert forall|i: int, j: int|
        0 <= i < pushed.len() && 0 <= j < pushed.len() && i != j implies (#[trigger] pushed[i]).canon != (#[trigger] pushed[j]).canon by {
        if i < k && j < k {
            assert(pushed[i] == frames[i] && pushed[j] == frames[j]);
        } else if i < k {
            assert(pushed[i] == frames[i]);
        } else {
            assert(pushed[j] == frames[j]);
        }
    }
    lemma_stack_bound(fs, pushed);
    assert forall|i: int| 0 <= i < pushed.len() implies file_frame(fs, #[trigger] pushed[i], (d - i) as nat) by {
        if i < k {
            assert(pushed[i] == frames[i]);
        }
    }
    assert forall|j: int| 1 <= j < pushed.len() implies links(pushed[j - 1], #[trigger] pushed[j]) by {
        if j < k {
            assert(pushed[j - 1] == frames[j - 1] && pushed[j] == frames[j]);
            assert(links(frames[j - 1], frames[j]));
        } else {
            assert(pushed[j - 1] == frames.last());
        }
    }
    if k == 0 {
        assert(pushed[0] == nfr);
    } else {
        assert(pushed[0] == frames[0]);
    }
}

/// Reading the file a loading stack asks for keeps it loading.
proof fn lemma_on_read(fs: Map<Seq<char>, Seq<char>>, root: Seq<char>, frames: Seq<FrameView>, step: StepView, d: nat)
    requires
        fs.dom().finite(),
        d == fs.dom().len(),
        loading(fs, root, frames, d),
        pending(fs, root, frames, step, d),
        step is Read,
        fs.dom().contains(file_of(step->importer, step->path)),
    ensures
        ({
            let label = file_of(step->importer, step->path);
            let next = on_read(frames, label, label, fs[label]);
            &&& next.1 is Read ==> loading(fs, root, next.0, d)
            &&& pending(fs, root, next.0, next.1, d)
        }),
{
    let label = file_of(step->importer, step->path);
    let src = fs[label];
    if exists|i: int| 0 <= i < frames.len() && (#[trigger] frames[i]).canon == label {
    } else if let Ok(tf) = crate::parser::parse_spec(src) {
        let k = frames.len() as int;
        let nfr = FrameView { label, canon: label, tasks: stamped(tf.tasks, label), imports: tf.imports, next: 0 };
        assert(imported(fs, label, tf.imports, 0, (d - k) as nat) == Seq::<TaskView>::empty());
        assert(stamped(tf.tasks, label) =~= stamped(tf.tasks, label) + Seq::<TaskView>::empty());
        assert(file_frame(fs, nfr, (d - k) as nat));
        lemma_push(fs, root, frames, nfr, d);
        lemma_settle(fs, root, frames.push(nfr), d);
    }
}

proof fn lemma_drive(
    fs: Map<Seq<char>, Seq<char>>,
    root: Seq<char>,
    frames: Seq<FrameView>,
    step: StepView,
    d: nat,
    n: nat,
)
    requires
        fs.dom().finite(),
        d == fs.dom().len(),
        step is Read ==> loading(fs, root, frames, d),
        pending(fs, root, frames, step, d),
    ensures
        drive(fs, frames, step, n) matches StepView::Done(ts) ==> ts == tree(fs, root, d),
    decreases n,
{
    if let StepView::Read { importer, path, line } = step {
        let label = file_of(importer, path);
        if n > 0 && fs.dom().contains(label) {
            lemma_on_read(fs, root, frames, step, d);
            let next = on_read(frames, label, label, fs[label]);
            lemma_drive(fs, root, next.0, next.1, d, (n - 1) as nat);
        }
    }
}

/// A whole load: when every file the loader asks for is answered from `fs`
/// and the load finishes, the merged tasks are the root's own tasks followed
/// by what each of its imports brings, in import order, each imported file
/// contributing its own tasks and then its imports' in the same way, nested
/// under the namespace of every `as` import on the way.
pub proof fn law_whole_load(fs: Map<Seq<char>, Seq<char>>, root: Seq<char>, n: nat)
    requires
        fs.dom().finite(),
    ensures
        drive(fs, Seq::empty(), StepView::Read { importer: None, path: root, line: 0 }, n) matches StepView::Done(ts)
            ==> ts == tree(fs, root, fs.dom().len()),
{
    lemma_drive(fs, root, Seq::empty(), StepView::Read { importer: None, path: root, line: 0 }, fs.dom().len(), n);
}

} // verus!
