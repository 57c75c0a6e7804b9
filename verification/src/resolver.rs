//! The command-line resolver: maps the words after `alors` onto exactly one
//! task and its arguments.
//!
//! 1. One task per invocation.
//! 2. Greedy path descent: a word naming a sub-task or namespace is always
//!    part of the path, never an argument.
//! 3. Once a task is selected, the remaining words are its arguments.
//! 4. Each argument fills a declared positional parameter; extra or missing
//!    arguments are errors.
//! 5. A namespace's default task is the plain task of the same name; a bare
//!    namespace without one is an error listing its sub-tasks.
//! 6. `--` is not allowed anywhere.
use vstd::prelude::*;
use crate::model::{self, Task, TaskView, Taskfile};
use crate::text::{self, clone_strings, join};

verus! {

/// Why a command line does not select a task.
#[derive(Debug)]
pub enum ResolveError {
    /// `--` was used.
    DashDashForbidden,
    /// A word during path descent matched nothing.
    UnknownCommand { token: String, scope: Vec<String>, available: Vec<String> },
    /// A bare namespace with no default task.
    NamespaceNeedsSubcommand { path: Vec<String>, available: Vec<String> },
    /// An extra word that is neither a subcommand nor an accepted parameter.
    NotSubcommandNorParam { token: String, task: String, takes_args: bool },
    /// Required parameters were not supplied.
    MissingParams { task: String, missing: Vec<String> },
}

pub enum ResolveErrorView {
    DashDashForbidden,
    UnknownCommand { token: Seq<char>, scope: Seq<Seq<char>>, available: Seq<Seq<char>> },
    NamespaceNeedsSubcommand { path: Seq<Seq<char>>, available: Seq<Seq<char>> },
    NotSubcommandNorParam { token: Seq<char>, task: Seq<char>, takes_args: bool },
    MissingParams { task: Seq<char>, missing: Seq<Seq<char>> },
}

impl View for ResolveError {
    type V = ResolveErrorView;

    open spec fn view(&self) -> ResolveErrorView {
        match self {
            ResolveError::DashDashForbidden => ResolveErrorView::DashDashForbidden,
            ResolveError::UnknownCommand { token, scope, available } => ResolveErrorView::UnknownCommand {
                token: token@,
                scope: scope.deep_view(),
                available: available.deep_view(),
            },
            ResolveError::NamespaceNeedsSubcommand { path, available } =>
                ResolveErrorView::NamespaceNeedsSubcommand { path: path.deep_view(), available: available.deep_view() },
            ResolveError::NotSubcommandNorParam { token, task, takes_args } =>
                ResolveErrorView::NotSubcommandNorParam { token: token@, task: task@, takes_args: *takes_args },
            ResolveError::MissingParams { task, missing } =>
                ResolveErrorView::MissingParams { task: task@, missing: missing.deep_view() },
        }
    }
}

/// A fully resolved invocation: the task to run and its argument bindings.
#[derive(Debug)]
pub struct Resolved<'a> {
    pub task: &'a Task,
    /// parameter name -> value
    pub args: Vec<(String, String)>,
}

pub open spec fn bindings_view(args: Seq<(String, String)>) -> Seq<(Seq<char>, Seq<char>)> {
    Seq::new(args.len(), |i: int| (args[i].0@, args[i].1@))
}

/// Where greedy descent stops: at `path` with the words from `idx` on left
/// over, or at a word that names nothing.
pub enum Descent {
    Stop { path: Seq<Seq<char>>, idx: nat },
    Unknown { token: Seq<char>, scope: Seq<Seq<char>> },
}

/// Greedy path descent over `toks`, starting at `path` with word `idx`.
pub open spec fn descend(ts: Seq<TaskView>, toks: Seq<Seq<char>>, path: Seq<Seq<char>>, idx: nat) -> Descent
    decreases toks.len() - idx,
{
    if idx >= toks.len() {
        Descent::Stop { path, idx }
    } else {
        let cand = path.push(toks[idx as int]);
        let is_task = model::has_task(ts, cand);
        let ns = model::is_ns(ts, cand);
        if is_task && !ns {
            // a leaf task: the rest are its arguments
            Descent::Stop { path: cand, idx: idx + 1 }
        } else if is_task && ns {
            // a namespace with a default task: go deeper only if the next
            // word names something inside it
            if idx + 1 < toks.len() && model::is_node(ts, cand.push(toks[idx + 1int])) {
                descend(ts, toks, cand, idx + 1)
            } else {
                Descent::Stop { path: cand, idx: idx + 1 }
            }
        } else if ns {
            descend(ts, toks, cand, idx + 1)
        } else if path.len() == 0 {
            Descent::Unknown { token: toks[idx as int], scope: path }
        } else if model::has_task(ts, path) {
            // a namespace's default task takes this word as an argument
            Descent::Stop { path, idx }
        } else {
            Descent::Unknown { token: toks[idx as int], scope: path }
        }
    }
}

/// The task name as shown in messages: its path words separated by spaces.
pub open spec fn display_name(t: TaskView) -> Seq<char> {
    text::seq_join(t.path, " "@)
}

/// What `resolve` answers for the words `toks`.
pub open spec fn resolution(ts: Seq<TaskView>, toks: Seq<Seq<char>>) -> Result<(TaskView, Seq<(Seq<char>, Seq<char>)>), ResolveErrorView> {
    if toks.contains("--"@) {
        Err(ResolveErrorView::DashDashForbidden)
    } else {
        match descend(ts, toks, Seq::empty(), 0) {
            Descent::Unknown { token, scope } => Err(ResolveErrorView::UnknownCommand {
                token,
                scope,
                available: model::children_of(ts, scope),
            }),
            Descent::Stop { path, idx } => match model::task_at(ts, path) {
                None => Err(ResolveErrorView::NamespaceNeedsSubcommand { path, available: model::children_of(ts, path) }),
                Some(task) => {
                    let rest = toks.skip(idx as int);
                    let n = task.params.len();
                    if rest.len() > n {
                        Err(ResolveErrorView::NotSubcommandNorParam {
                            token: rest[n as int],
                            task: display_name(task),
                            takes_args: n > 0,
                        })
                    } else if rest.len() < n {
                        Err(ResolveErrorView::MissingParams {
                            task: display_name(task),
                            missing: task.params.skip(rest.len() as int),
                        })
                    } else {
                        Ok((task, Seq::new(n, |k: int| (task.params[k], rest[k]))))
                    }
                },
            },
        }
    }
}

/// Whether some word is exactly `--`.
fn has_dash_dash(tokens: &[String]) -> (r: bool)
    ensures
        r == tokens.deep_view().contains("--"@),
{
    let dd = String::from_str("--");
    let mut i: usize = 0;
    while i < tokens.len()
        invariant
            dd@ == "--"@,
            i <= tokens.len(),
            forall|k: int| 0 <= k < i ==> tokens.deep_view()[k] != "--"@,
        decreases tokens.len() - i,
    {
        if tokens[i] == dd {
            assert(tokens.deep_view()[i as int] == "--"@);
            return true;
        }
        i = i + 1;
    }
    false
}

/// Resolve the words after `alors` against the taskfile.
pub fn resolve<'a>(taskfile: &'a Taskfile, tokens: &[String]) -> (r: Result<Resolved<'a>, ResolveError>)
    requires
        taskfile.wf(),
    ensures
        match r {
            Ok(res) => resolution(taskfile@.tasks, tokens.deep_view()) == Ok::<_, ResolveErrorView>(
                (res.task@, bindings_view(res.args@)),
            ),
            Err(e) => resolution(taskfile@.tasks, tokens.deep_view()) == Err::<(TaskView, Seq<(Seq<char>, Seq<char>)>), _>(e@),
        },
{
    let ghost ts = taskfile@.tasks;
    let ghost toks = tokens.deep_view();
    // Rule 6: `--` is illegal anywhere.
    if has_dash_dash(tokens) {
        return Err(ResolveError::DashDashForbidden);
    }
    let mut path: Vec<String> = Vec::new();
    let mut idx: usize = 0;
    let empty: Vec<String> = Vec::new();
    assert(path.deep_view() =~= Seq::<Seq<char>>::empty());
    assert(empty.deep_view() =~= Seq::<Seq<char>>::empty());

    // Phase 1: greedy path descent.
    loop
        invariant_except_break
            taskfile.wf(),
            ts == taskfile@.tasks,
            toks == tokens.deep_view(),
            !toks.contains("--"@),
            empty.deep_view() == Seq::<Seq<char>>::empty(),
            idx <= tokens.len(),
            descend(ts, toks, Seq::empty(), 0) == descend(ts, toks, path.deep_view(), idx as nat),
        ensures
            taskfile.wf(),
            ts == taskfile@.tasks,
            toks == tokens.deep_view(),
            !toks.contains("--"@),
            idx <= tokens.len(),
            descend(ts, toks, Seq::empty(), 0) == (Descent::Stop { path: path.deep_view(), idx: idx as nat }),
        decreases tokens.len() - idx,
    {
        if idx >= tokens.len() {
            break;
        }
        let mut candidate = clone_strings(path.as_slice());
        candidate.push(tokens[idx].clone());
        assert(candidate.deep_view() =~= path.deep_view().push(toks[idx as int]));
        let is_task = taskfile.get(candidate.as_slice()).is_some();
        let is_ns_here = taskfile.is_namespace(candidate.as_slice());

        if is_task || is_ns_here {
            // The word is part of the path (path always wins). Descend.
            path = candidate;
            idx = idx + 1;
            if is_task && !is_ns_here {
                // A leaf task: its arguments follow.
                break;
            }
            if is_task && is_ns_here {
                // Both a task (the namespace default) and a namespace: go on
                // only if the next word descends further.
                if idx < tokens.len() {
                    let mut deeper = clone_strings(path.as_slice());
                    deeper.push(tokens[idx].clone());
                    assert(deeper.deep_view() =~= path.deep_view().push(toks[idx as int]));
                    if taskfile.get(deeper.as_slice()).is_some() || taskfile.is_namespace(deeper.as_slice()) {
                        continue;
                    }
                }
                break;
            }
            // A pure namespace: keep descending.
        } else {
            if path.len() == 0 {
                assert(path.deep_view() =~= Seq::<Seq<char>>::empty());
                let scope: Vec<String> = Vec::new();
                assert(scope.deep_view() =~= Seq::<Seq<char>>::empty());
                return Err(ResolveError::UnknownCommand {
                    token: tokens[idx].clone(),
                    scope,
                    available: taskfile.children(empty.as_slice()),
                });
            }
            if taskfile.get(path.as_slice()).is_some() {
                // The namespace's default task takes this word as an argument.
                break;
            }
            let available = taskfile.children(path.as_slice());
            return Err(ResolveError::UnknownCommand { token: tokens[idx].clone(), scope: path, available });
        }
    }

    // `path` is now a task or a bare namespace.
    let task = match taskfile.get(path.as_slice()) {
        Some(t) => t,
        None => {
            let available = taskfile.children(path.as_slice());
            return Err(ResolveError::NamespaceNeedsSubcommand { path, available });
        },
    };

    // Phase 2: the remaining words are arguments only.
    let n_rest = tokens.len() - idx;
    let n_params = task.params.len();
    let task_name = join(task.path.as_slice(), " ");
    proof {
        assert(toks.skip(idx as int).len() == n_rest);
    }

    if n_rest > n_params {
        // Too many arguments: report the first one that has no parameter.
        let offending = tokens[idx + n_params].clone();
        assert(offending@ == toks.skip(idx as int)[n_params as int]);
        return Err(ResolveError::NotSubcommandNorParam { token: offending, task: task_name, takes_args: n_params > 0 });
    }

    if n_rest < n_params {
        let mut missing: Vec<String> = Vec::new();
        let mut k: usize = n_rest;
        while k < n_params
            invariant
                n_rest <= k <= n_params,
                n_params == task.params.len(),
                missing@.len() == k - n_rest,
                forall|m: int| 0 <= m < k - n_rest ==> (#[trigger] missing@[m])@ == task.params@[m + n_rest]@,
            decreases n_params - k,
        {
            missing.push(task.params[k].clone());
            k = k + 1;
        }
        assert(missing.deep_view() =~= task@.params.skip(n_rest as int));
        return Err(ResolveError::MissingParams { task: task_name, missing });
    }

    // Bind arguments positionally.
    let mut args: Vec<(String, String)> = Vec::new();
    let mut k: usize = 0;
    while k < n_params
        invariant
            k <= n_params,
            n_params == task.params.len(),
            n_rest == n_params,
            idx + n_rest == tokens.len(),
            args@.len() == k,
            forall|m: int| 0 <= m < k ==> (#[trigger] args@[m]).0@ == task.params@[m]@ && args@[m].1@ == tokens@[idx + m]@,
        decreases n_params - k,
    {
        args.push((task.params[k].clone(), tokens[idx + k].clone()));
        k = k + 1;
    }
    proof {
        let rest = toks.skip(idx as int);
        assert(bindings_view(args@) =~= Seq::new(n_params as nat, |m: int| (task@.params[m], rest[m])));
    }
    Ok(Resolved { task, args })
}

} // verus!

verus! {

/// Descent only ever walks the words it was given: where it stops, the path
/// is the words before the stopping point.
proof fn lemma_descend_walks_words(ts: Seq<TaskView>, toks: Seq<Seq<char>>, path: Seq<Seq<char>>, idx: nat)
    requires
        idx <= toks.len(),
        path == toks.take(idx as int),
    ensures
        match descend(ts, toks, path, idx) {
            Descent::Stop { path: p, idx: j } => j <= toks.len() && p == toks.take(j as int),
            Descent::Unknown { token, scope } => exists|k: int|
                0 <= k < toks.len() && scope == toks.take(k) && token == toks[k],
        },
    decreases toks.len() - idx,
{
    if idx < toks.len() {
        let cand = path.push(toks[idx as int]);
        assert(cand =~= toks.take(idx + 1int));
        lemma_descend_walks_words(ts, toks, cand, idx + 1);
    }
}

/// Nothing lies under a path that is not a namespace, so no word extends it
/// to a task or a namespace.
proof fn lemma_no_node_under_leaf(ts: Seq<TaskView>, p: Seq<Seq<char>>, w: Seq<char>)
    requires
        !model::is_ns(ts, p),
    ensures
        !model::is_node(ts, p.push(w)),
{
    let q = p.push(w);
    if model::has_task(ts, q) {
        let i = choose|i: int| 0 <= i < ts.len() && (#[trigger] ts[i]).path == q;
        assert(ts[i].path.take(p.len() as int) =~= p);
        assert(model::strict_prefix(p, ts[i].path));
    }
    if model::is_ns(ts, q) {
        let i = choose|i: int| 0 <= i < ts.len() && model::strict_prefix(q, (#[trigger] ts[i]).path);
        assert(ts[i].path.take(p.len() as int) =~= ts[i].path.take(q.len() as int).take(p.len() as int));
        assert(q.take(p.len() as int) =~= p);
        assert(model::strict_prefix(p, ts[i].path));
    }
}

/// Path wins: when `alors` resolves, the first argument word never names
/// anything directly under the selected task, and `--` never appears.
pub proof fn law_path_wins(ts: Seq<TaskView>, toks: Seq<Seq<char>>)
    requires
        resolution(ts, toks) is Ok,
    ensures
        !toks.contains("--"@),
        ({
            let (task, args) = resolution(ts, toks)->Ok_0;
            let n = toks.len() - args.len();
            &&& 0 <= n <= toks.len()
            &&& toks.take(n) == task.path
            &&& args.len() == task.params.len()
            &&& forall|k: int| 0 <= k < args.len() ==> (#[trigger] args[k]) == (task.params[k], toks[n + k])
            &&& args.len() > 0 ==> !model::is_node(ts, task.path.push(toks[n]))
        }),
{
    assert(toks.take(0) =~= Seq::<Seq<char>>::empty());
    lemma_descend_walks_words(ts, toks, Seq::empty(), 0);
    lemma_stop_is_final(ts, toks, Seq::empty(), 0);
    match descend(ts, toks, Seq::empty(), 0) {
        Descent::Stop { path, idx } => {
            let task = model::task_at(ts, path)->Some_0;
            let i = choose|i: int| 0 <= i < ts.len() && (#[trigger] ts[i]).path == path;
            assert(task.path == path);
        },
        Descent::Unknown { .. } => {},
    }
}

/// Where descent stops with words left over, the next word extends the path
/// to nothing.
proof fn lemma_stop_is_final(ts: Seq<TaskView>, toks: Seq<Seq<char>>, path: Seq<Seq<char>>, idx: nat)
    ensures
        descend(ts, toks, path, idx) matches Descent::Stop { path: p, idx: j } ==> (j < toks.len() ==> !model::is_node(
            ts,
            p.push(toks[j as int]),
        )),
    decreases toks.len() - idx,
{
    if idx < toks.len() {
        let cand = path.push(toks[idx as int]);
        let is_task = model::has_task(ts, cand);
        let ns = model::is_ns(ts, cand);
        if is_task && !ns {
            if idx + 1 < toks.len() {
                lemma_no_node_under_leaf(ts, cand, toks[idx + 1int]);
            }
        } else if is_task && ns {
            lemma_stop_is_final(ts, toks, cand, idx + 1);
        } else if ns {
            lemma_stop_is_final(ts, toks, cand, idx + 1);
        }
    }
}

/// Descent along the words of a task's own path ends at that task, provided
/// the word after the path (if any) names nothing under it.
proof fn lemma_descend_along(ts: Seq<TaskView>, toks: Seq<Seq<char>>, i: int, k: nat)
    requires
        model::tasks_wf(ts),
        0 <= i < ts.len(),
        k < ts[i].path.len(),
        ts[i].path.len() <= toks.len(),
        toks.take(ts[i].path.len() as int) == ts[i].path,
        toks.len() > ts[i].path.len() ==> !model::is_node(ts, ts[i].path.push(toks[ts[i].path.len() as int])),
    ensures
        descend(ts, toks, ts[i].path.take(k as int), k) == (Descent::Stop { path: ts[i].path, idx: ts[i].path.len() }),
    decreases ts[i].path.len() - k,
{
    let p = ts[i].path;
    let m = p.len();
    let cand = p.take(k as int).push(toks[k as int]);
    assert(toks[k as int] == p[k as int]) by {
        assert(toks.take(m as int)[k as int] == toks[k as int]);
    }
    assert(cand =~= p.take(k + 1int));
    if k + 1 < m {
        assert(model::strict_prefix(cand, ts[i].path));
        assert(model::is_ns(ts, cand));
        if model::has_task(ts, cand) {
            let next = cand.push(toks[k + 1int]);
            assert(toks[k + 1int] == p[k + 1int]) by {
                assert(toks.take(m as int)[k + 1int] == toks[k + 1int]);
            }
            assert(next =~= p.take(k + 2int));
            if k + 2 == m {
                assert(next =~= p);
                assert(model::has_task(ts, next));
            } else {
                assert(model::strict_prefix(next, ts[i].path));
            }
            assert(model::is_node(ts, next));
        }
        lemma_descend_along(ts, toks, i, k + 1);
    } else {
        assert(cand =~= p);
        assert(model::has_task(ts, cand));
    }
}

/// A task runs by its own path words followed by one word per parameter, as
/// long as the first of those words does not itself name something under the
/// task and no word is `--`.
pub proof fn law_task_runs_by_its_path(ts: Seq<TaskView>, i: int, args: Seq<Seq<char>>)
    requires
        model::tasks_wf(ts),
        0 <= i < ts.len(),
        args.len() == ts[i].params.len(),
        !(ts[i].path + args).contains("--"@),
        args.len() > 0 ==> !model::is_node(ts, ts[i].path.push(args[0])),
    ensures
        resolution(ts, ts[i].path + args) == Ok::<_, ResolveErrorView>(
            (ts[i], Seq::new(args.len(), |k: int| (ts[i].params[k], args[k]))),
        ),
{
    let p = ts[i].path;
    let toks = p + args;
    assert(toks.take(p.len() as int) =~= p);
    assert(p.take(0) =~= Seq::<Seq<char>>::empty());
    if toks.len() > p.len() {
        assert(toks[p.len() as int] == args[0]);
    }
    lemma_descend_along(ts, toks, i, 0);
    assert(model::has_task(ts, p));
    let j = choose|j: int| 0 <= j < ts.len() && (#[trigger] ts[j]).path == p;
    assert(j == i);
    assert(toks.skip(p.len() as int) =~= args);
    assert(Seq::new(args.len(), |k: int| (ts[i].params[k], toks.skip(p.len() as int)[k])) =~= Seq::new(
        args.len(),
        |k: int| (ts[i].params[k], args[k]),
    ));
}

} // verus!

verus! {

/// The message shown for a resolution error.
pub open spec fn resolve_message(e: ResolveErrorView) -> Seq<char> {
    match e {
        ResolveErrorView::DashDashForbidden => "`--` is not allowed in alors invocations"@,
        ResolveErrorView::UnknownCommand { token, scope, available } => {
            let where_ = if scope.len() == 0 {
                Seq::empty()
            } else {
                " in `"@ + text::seq_join(scope, " "@) + "`"@
            };
            let listed = if available.len() == 0 {
                "(none)"@
            } else {
                text::seq_join(available, ", "@)
            };
            "`"@ + token + "` is not a known command"@ + where_ + ". available: "@ + listed
        },
        ResolveErrorView::NamespaceNeedsSubcommand { path, available } => "`"@ + text::seq_join(path, " "@)
            + "` is a namespace, choose a subcommand: "@ + text::seq_join(available, ", "@),
        ResolveErrorView::NotSubcommandNorParam { token, task, takes_args } => if takes_args {
            "`"@ + token + "` is not a subcommand, and `"@ + task + "` has no more parameters to fill"@
        } else {
            "`"@ + token + "` is not a subcommand, and `"@ + task + "` takes no arguments"@
        },
        ResolveErrorView::MissingParams { task, missing } => "`"@ + task + "` is missing required argument(s): "@
            + text::seq_join(missing, ", "@),
    }
}

impl ResolveError {
    /// The message shown for this error.
    pub fn message(&self) -> (r: String)
        ensures
            r@ == resolve_message(self@),
    {
        match self {
            ResolveError::DashDashForbidden => String::from_str("`--` is not allowed in alors invocations"),
            ResolveError::UnknownCommand { token, scope, available } => {
                let mut r = String::from_str("`");
                r.append(token.as_str());
                r.append("` is not a known command");
                if scope.len() > 0 {
                    r.append(" in `");
                    let s = join(scope.as_slice(), " ");
                    r.append(s.as_str());
                    r.append("`");
                }
                r.append(". available: ");
                if available.len() == 0 {
                    r.append("(none)");
                } else {
                    let a = join(available.as_slice(), ", ");
                    r.append(a.as_str());
                }
                proof {
                    let e = self@;
                    if scope.len() == 0 {
                        assert(r@ =~= resolve_message(e));
                    } else {
                        assert(r@ =~= resolve_message(e));
                    }
                }
                r
            },
            ResolveError::NamespaceNeedsSubcommand { path, available } => {
                let mut r = String::from_str("`");
                let p = join(path.as_slice(), " ");
                r.append(p.as_str());
                r.append("` is a namespace, choose a subcommand: ");
                let a = join(available.as_slice(), ", ");
                r.append(a.as_str());
                assert(r@ =~= resolve_message(self@));
                r
            },
            ResolveError::NotSubcommandNorParam { token, task, takes_args } => {
                let mut r = String::from_str("`");
                r.append(token.as_str());
                r.append("` is not a subcommand, and `");
                r.append(task.as_str());
                if *takes_args {
                    r.append("` has no more parameters to fill");
                } else {
                    r.append("` takes no arguments");
                }
                assert(r@ =~= resolve_message(self@));
                r
            },
            ResolveError::MissingParams { task, missing } => {
                let mut r = String::from_str("`");
                r.append(task.as_str());
                r.append("` is missing required argument(s): ");
                let m = join(missing.as_slice(), ", ");
                r.append(m.as_str());
                assert(r@ =~= resolve_message(self@));
                r
            },
        }
    }
}

} // verus!

verus! {

/// `--` anywhere on the command line is refused, whatever else is there.
pub proof fn law_dash_dash_refused(ts: Seq<TaskView>, toks: Seq<Seq<char>>, k: int)
    requires
        0 <= k < toks.len(),
        toks[k] == "--"@,
    ensures
        resolution(ts, toks) == Err::<(TaskView, Seq<(Seq<char>, Seq<char>)>), _>(ResolveErrorView::DashDashForbidden),
{
    assert(toks.contains("--"@));
}

/// `alors` with no words runs nothing: it asks for a subcommand, listing
/// every top-level name.
pub proof fn law_no_words_lists_everything(ts: Seq<TaskView>)
    requires
        model::tasks_wf(ts),
    ensures
        resolution(ts, Seq::empty()) == Err::<(TaskView, Seq<(Seq<char>, Seq<char>)>), _>(
            ResolveErrorView::NamespaceNeedsSubcommand { path: Seq::empty(), available: model::children_of(ts, Seq::empty()) },
        ),
{
    let e: Seq<Seq<char>> = Seq::empty();
    assert(!e.contains("--"@));
    if model::has_task(ts, e) {
        let i = choose|i: int| 0 <= i < ts.len() && (#[trigger] ts[i]).path == e;
        assert(ts[i].path.len() > 0);
    }
}

} // verus!
