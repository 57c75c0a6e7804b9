//! The run order of an invocation: dependencies first, in the order they are
//! written, each task with the same arguments at most once, the invoked task
//! last. A dependency's arguments may forward the declaring task's own
//! parameters as `{{param}}`; a task's body has its parameters filled in the
//! same way.
use vstd::prelude::*;
use crate::model::{self, TaskView, Taskfile};
use crate::parser;
use crate::validate;

verus! {

/// One planned run: a task (by position) and its argument values.
pub type Entry = (int, Seq<Seq<char>>);

/// The parameter bindings of a task run with `vals`.
pub open spec fn bindings(params: Seq<Seq<char>>, vals: Seq<Seq<char>>) -> Seq<(Seq<char>, Seq<char>)> {
    Seq::new(params.len(), |k: int| (params[k], vals[k]))
}

/// The arguments dependency `d` of task `t` passes when `t` runs with `vals`:
/// each with the `{{param}}` of `t` filled in.
pub open spec fn forward(t: TaskView, vals: Seq<Seq<char>>, d: model::DepView) -> Seq<Seq<char>> {
    Seq::new(d.args.len(), |a: int| parser::subst(d.args[a], bindings(t.params, vals), Seq::empty()))
}

/// The position of the task at path `p`.
pub open spec fn target(ts: Seq<TaskView>, p: Seq<Seq<char>>) -> int {
    choose|j: int| 0 <= j < ts.len() && (#[trigger] ts[j]).path == p
}

/// Plan task `i` with `vals` after `planned`: nothing if it is already
/// planned with those values; otherwise its dependencies, then itself.
pub open spec fn visit(ts: Seq<TaskView>, rank: Seq<nat>, i: int, vals: Seq<Seq<char>>, planned: Seq<Entry>) -> Seq<Entry>
    decreases rank[i], 1nat, 0nat,
{
    if planned.contains((i, vals)) || !(0 <= i < ts.len()) || !(0 <= i < rank.len()) {
        planned
    } else {
        visit_deps(ts, rank, i, vals, 0, planned).push((i, vals))
    }
}

/// Plan the dependencies of task `i` (running with `vals`) from the `k`-th on.
pub open spec fn visit_deps(
    ts: Seq<TaskView>,
    rank: Seq<nat>,
    i: int,
    vals: Seq<Seq<char>>,
    k: nat,
    planned: Seq<Entry>,
) -> Seq<Entry>
    decreases rank[i], 0nat, ts[i].deps.len() - k,
{
    if !(0 <= i < ts.len()) || !(0 <= i < rank.len()) || k >= ts[i].deps.len() {
        planned
    } else {
        let d = ts[i].deps[k as int];
        let j = target(ts, d.path);
        if model::has_task(ts, d.path) && 0 <= j < rank.len() && rank[j] < rank[i] {
            visit_deps(ts, rank, i, vals, k + 1, visit(ts, rank, j, forward(ts[i], vals, d), planned))
        } else {
            visit_deps(ts, rank, i, vals, k + 1, planned)
        }
    }
}

/// The taskfile can run: every dependency resolves with the right number of
/// arguments, and there is no dependency cycle.
pub open spec fn runnable(ts: Seq<TaskView>) -> bool {
    model::tasks_wf(ts) && validate::problems_from(ts, 0).len() == 0 && validate::acyclic(ts)
}

/// The ranking the plan's recursion descends along.
pub open spec fn the_rank(ts: Seq<TaskView>) -> Seq<nat> {
    choose|rank: Seq<nat>| validate::ranked(ts, rank)
}

/// One run of a task: its path, its parameter bindings, and its body with the
/// parameters filled in.
#[derive(Debug)]
pub struct Step {
    pub path: Vec<String>,
    pub args: Vec<(String, String)>,
    pub body: Vec<String>,
}

pub struct StepView {
    pub path: Seq<Seq<char>>,
    pub args: Seq<(Seq<char>, Seq<char>)>,
    pub body: Seq<Seq<char>>,
}

impl View for Step {
    type V = StepView;

    open spec fn view(&self) -> StepView {
        StepView {
            path: self.path.deep_view(),
            args: Seq::new(self.args@.len(), |k: int| (self.args@[k].0@, self.args@[k].1@)),
            body: self.body.deep_view(),
        }
    }
}

/// The run of task `e.0` with values `e.1`.
pub open spec fn step_of(ts: Seq<TaskView>, e: Entry) -> StepView {
    let t = ts[e.0];
    let b = bindings(t.params, e.1);
    StepView {
        path: t.path,
        args: b,
        body: Seq::new(t.body.len(), |l: int| parser::subst(t.body[l], b, Seq::empty())),
    }
}

} // verus!

verus! {

pub open spec fn entries_view(v: Seq<(usize, Vec<String>)>) -> Seq<Entry> {
    Seq::new(v.len(), |k: int| (v[k].0 as int, v[k].1.deep_view()))
}

/// With no dependency problems, every dependency names a task and passes it
/// as many arguments as it takes.
proof fn lemma_no_problems(ts: Seq<TaskView>, i: nat, t: int, k: int)
    requires
        validate::problems_from(ts, i).len() == 0,
        i <= t < ts.len(),
        0 <= k < ts[t].deps.len(),
    ensures
        model::has_task(ts, ts[t].deps[k].path),
        ts[t].deps[k].args.len() == model::task_at(ts, ts[t].deps[k].path)->Some_0.params.len(),
    decreases t - i,
{
    if i < t {
        lemma_no_problems(ts, i + 1, t, k);
    } else {
        lemma_task_no_problems(ts, ts[t], 0, k);
    }
}

proof fn lemma_task_no_problems(ts: Seq<TaskView>, tv: TaskView, m: nat, k: int)
    requires
        validate::task_problems(ts, tv, m).len() == 0,
        m <= k < tv.deps.len(),
    ensures
        validate::dep_problem(ts, tv, tv.deps[k]) is None,
    decreases k - m,
{
    if m < k {
        lemma_task_no_problems(ts, tv, m + 1, k);
    }
}

/// The parameter bindings of a run, built from the names and values.
fn bind(params: &[String], vals: &[String]) -> (r: Vec<(String, String)>)
    requires
        vals.len() == params.len(),
    ensures
        parser::consts_view(r@) == bindings(params.deep_view(), vals.deep_view()),
{
    let mut out: Vec<(String, String)> = Vec::new();
    let mut k: usize = 0;
    while k < params.len()
        invariant
            vals.len() == params.len(),
            k <= params.len(),
            out@.len() == k,
            forall|m: int| 0 <= m < k ==> (#[trigger] out@[m]).0@ == params@[m]@ && out@[m].1@ == vals@[m]@,
        decreases params.len() - k,
    {
        out.push((params[k].clone(), vals[k].clone()));
        k = k + 1;
    }
    assert(parser::consts_view(out@) =~= bindings(params.deep_view(), vals.deep_view()));
    out
}

/// Whether `(i, vals)` is already planned.
fn is_planned(planned: &Vec<(usize, Vec<String>)>, i: usize, vals: &[String]) -> (r: bool)
    ensures
        r == entries_view(planned@).contains((i as int, vals.deep_view())),
{
    let ghost ev = entries_view(planned@);
    let mut k: usize = 0;
    while k < planned.len()
        invariant
            ev == entries_view(planned@),
            k <= planned.len(),
            forall|m: int| 0 <= m < k ==> ev[m] != (i as int, vals.deep_view()),
        decreases planned.len() - k,
    {
        if planned[k].0 == i && crate::text::strings_eq(planned[k].1.as_slice(), vals) {
            assert(ev[k as int] == (i as int, vals.deep_view()));
            return true;
        }
        k = k + 1;
    }
    false
}

fn visit_exec(
    tf: &Taskfile,
    Ghost(rank): Ghost<Seq<nat>>,
    i: usize,
    vals: Vec<String>,
    planned: &mut Vec<(usize, Vec<String>)>,
)
    requires
        runnable(tf@.tasks),
        validate::ranked(tf@.tasks, rank),
        i < tf.tasks.len(),
        vals.len() == tf@.tasks[i as int].params.len(),
        forall|m: int| 0 <= m < old(planned)@.len() ==> #[trigger] old(planned)@[m].0 < tf.tasks.len(),
        forall|m: int|
            0 <= m < old(planned)@.len() ==> old(planned)@[m].1.len() == tf@.tasks[#[trigger] old(planned)@[m].0 as int].params.len(),
    ensures
        entries_view(final(planned)@) == visit(tf@.tasks, rank, i as int, vals.deep_view(), entries_view(old(planned)@)),
        forall|m: int| 0 <= m < final(planned)@.len() ==> #[trigger] final(planned)@[m].0 < tf.tasks.len(),
        forall|m: int|
            0 <= m < final(planned)@.len() ==> final(planned)@[m].1.len() == tf@.tasks[#[trigger] final(planned)@[m].0 as int].params.len(),
    decreases rank[i as int], 1nat, 0nat,
{
    let ghost ts = tf@.tasks;
    let ghost before = entries_view(planned@);
    if is_planned(planned, i, vals.as_slice()) {
        return;
    }
    visit_deps_exec(tf, Ghost(rank), i, &vals, 0, planned);
    let ghost mid = entries_view(planned@);
    let ghost v = vals.deep_view();
    planned.push((i, vals));
    assert(entries_view(planned@) =~= mid.push((i as int, v)));
}

fn visit_deps_exec(
    tf: &Taskfile,
    Ghost(rank): Ghost<Seq<nat>>,
    i: usize,
    vals: &Vec<String>,
    k: usize,
    planned: &mut Vec<(usize, Vec<String>)>,
)
    requires
        runnable(tf@.tasks),
        validate::ranked(tf@.tasks, rank),
        i < tf.tasks.len(),
        vals.len() == tf@.tasks[i as int].params.len(),
        k <= tf@.tasks[i as int].deps.len(),
        forall|m: int| 0 <= m < old(planned)@.len() ==> #[trigger] old(planned)@[m].0 < tf.tasks.len(),
        forall|m: int|
            0 <= m < old(planned)@.len() ==> old(planned)@[m].1.len() == tf@.tasks[#[trigger] old(planned)@[m].0 as int].params.len(),
    ensures
        entries_view(final(planned)@) == visit_deps(
            tf@.tasks,
            rank,
            i as int,
            vals.deep_view(),
            k as nat,
            entries_view(old(planned)@),
        ),
        forall|m: int| 0 <= m < final(planned)@.len() ==> #[trigger] final(planned)@[m].0 < tf.tasks.len(),
        forall|m: int|
            0 <= m < final(planned)@.len() ==> final(planned)@[m].1.len() == tf@.tasks[#[trigger] final(planned)@[m].0 as int].params.len(),
    decreases rank[i as int], 0nat, tf@.tasks[i as int].deps.len() - k,
{
    let ghost ts = tf@.tasks;
    let t = &tf.tasks[i];
    assert(t@ == ts[i as int]);
    if k >= t.deps.len() {
        return;
    }
    let d = &t.deps[k];
    assert(model::deps_view(t.deps@)[k as int] == d@);
    proof {
        lemma_no_problems(ts, 0, i as int, k as int);
    }
    let j = match tf.index_of(d.path.as_slice()) {
        Some(j) => j,
        None => {
            return;
        },
    };
    proof {
        assert(ts[i as int].deps[k as int].path == ts[j as int].path);
        assert(validate::edge(ts, i as int, j as int));
        let jj = target(ts, d@.path);
        assert(ts[jj].path == ts[j as int].path);
        assert(jj == j);
    }
    // Substitute the declaring task's parameter values into each argument.
    let b = bind(t.params.as_slice(), vals.as_slice());
    let mut args: Vec<String> = Vec::new();
    let mut a: usize = 0;
    while a < d.args.len()
        invariant
            parser::consts_view(b@) == bindings(t@.params, vals.deep_view()),
            a <= d.args.len(),
            args@.len() == a,
            forall|m: int| 0 <= m < a ==> (#[trigger] args@[m])@ == parser::subst(
                d.args@[m]@,
                bindings(t@.params, vals.deep_view()),
                Seq::empty(),
            ),
        decreases d.args.len() - a,
    {
        let chars = crate::text::chars_of(d.args[a].as_str());
        let none: Vec<String> = Vec::new();
        assert(none.deep_view() =~= Seq::<Seq<char>>::empty());
        args.push(parser::subst_exec(chars.as_slice(), b.as_slice(), none.as_slice()));
        a = a + 1;
    }
    assert(args.deep_view() =~= forward(t@, vals.deep_view(), d@));
    assert(args.len() == ts[j as int].params.len());
    visit_exec(tf, Ghost(rank), j, args, planned);
    visit_deps_exec(tf, Ghost(rank), i, vals, k + 1, planned);
}

/// The runs an invocation of the task at `path` with argument values `vals`
/// makes, in order.
pub fn plan(tf: &Taskfile, path: &[String], vals: &[String]) -> (r: Vec<Step>)
    requires
        runnable(tf@.tasks),
        model::has_task(tf@.tasks, path.deep_view()),
        vals.len() == model::task_at(tf@.tasks, path.deep_view())->Some_0.params.len(),
    ensures
        r.len() == visit(tf@.tasks, the_rank(tf@.tasks), target(tf@.tasks, path.deep_view()), vals.deep_view(), Seq::empty()).len(),
        forall|k: int| 0 <= k < r.len() ==> (#[trigger] r@[k])@ == step_of(
            tf@.tasks,
            visit(tf@.tasks, the_rank(tf@.tasks), target(tf@.tasks, path.deep_view()), vals.deep_view(), Seq::empty())[k],
        ),
{
    let ghost ts = tf@.tasks;
    let ghost rank = the_rank(ts);
    let i = match tf.index_of(path) {
        Some(i) => i,
        None => {
            return Vec::new();
        },
    };
    proof {
        let jj = target(ts, path.deep_view());
        assert(ts[jj].path == ts[i as int].path);
        assert(jj == i);
    }
    let mut planned: Vec<(usize, Vec<String>)> = Vec::new();
    assert(entries_view(planned@) =~= Seq::<Entry>::empty());
    let start = crate::text::clone_strings(vals);
    assert(start.deep_view().len() == start.len());
    assert(vals.deep_view().len() == vals.len());
    assert(validate::ranked(ts, rank));
    visit_exec(tf, Ghost(rank), i, start, &mut planned);
    let ghost ev = entries_view(planned@);
    let mut steps: Vec<Step> = Vec::new();
    let mut k: usize = 0;
    while k < planned.len()
        invariant
            runnable(ts),
            ts == tf@.tasks,
            ev == entries_view(planned@),
            forall|m: int| 0 <= m < planned@.len() ==> #[trigger] planned@[m].0 < tf.tasks.len(),
            forall|m: int| 0 <= m < planned@.len() ==> planned@[m].1.len() == ts[#[trigger] planned@[m].0 as int].params.len(),
            k <= planned.len(),
            steps@.len() == k,
            forall|m: int| 0 <= m < k ==> (#[trigger] steps@[m])@ == step_of(ts, ev[m]),
        decreases planned.len() - k,
    {
        let (j, ref w) = planned[k];
        let t = &tf.tasks[j];
        assert(t@ == ts[j as int]);
        let b = bind(t.params.as_slice(), w.as_slice());
        let mut body: Vec<String> = Vec::new();
        let mut l: usize = 0;
        let none: Vec<String> = Vec::new();
        assert(none.deep_view() =~= Seq::<Seq<char>>::empty());
        while l < t.body.len()
            invariant
                parser::consts_view(b@) == bindings(t@.params, w.deep_view()),
                none.deep_view() == Seq::<Seq<char>>::empty(),
                l <= t.body.len(),
                body@.len() == l,
                forall|m: int| 0 <= m < l ==> (#[trigger] body@[m])@ == parser::subst(
                    t.body@[m]@,
                    bindings(t@.params, w.deep_view()),
                    Seq::empty(),
                ),
            decreases t.body.len() - l,
        {
            let chars = crate::text::chars_of(t.body[l].as_str());
            body.push(parser::subst_exec(chars.as_slice(), b.as_slice(), none.as_slice()));
            l = l + 1;
        }
        let step = Step { path: crate::text::clone_strings(t.path.as_slice()), args: b, body };
        assert(step@ == step_of(ts, ev[k as int])) by {
            assert(step@.body =~= step_of(ts, ev[k as int]).body);
            assert(step@.args =~= step_of(ts, ev[k as int]).args);
        }
        steps.push(step);
        k = k + 1;
    }
    steps
}

} // verus!

verus! {

/// Every planned run comes after the runs of its dependencies, with the
/// arguments it passes them.
pub open spec fn deps_first(ts: Seq<TaskView>, plan: Seq<Entry>) -> bool {
    forall|p: int, k: int|
        #![trigger plan[p], ts[plan[p].0].deps[k]]
        0 <= p < plan.len() && 0 <= k < ts[plan[p].0].deps.len() ==> exists|q: int|
            0 <= q < p && plan[q] == (
                target(ts, ts[plan[p].0].deps[k].path),
                forward(ts[plan[p].0], plan[p].1, ts[plan[p].0].deps[k]),
            )
}

pub open spec fn valid_entries(ts: Seq<TaskView>, plan: Seq<Entry>) -> bool {
    forall|p: int| 0 <= p < plan.len() ==> 0 <= (#[trigger] plan[p]).0 < ts.len()
}

proof fn lemma_dep_guard(ts: Seq<TaskView>, rank: Seq<nat>, i: int, k: int)
    requires
        runnable(ts),
        validate::ranked(ts, rank),
        0 <= i < ts.len(),
        0 <= k < ts[i].deps.len(),
    ensures
        model::has_task(ts, ts[i].deps[k].path),
        0 <= target(ts, ts[i].deps[k].path) < ts.len(),
        ts[target(ts, ts[i].deps[k].path)].path == ts[i].deps[k].path,
        rank[target(ts, ts[i].deps[k].path)] < rank[i],
{
    lemma_no_problems(ts, 0, i, k);
    let j = target(ts, ts[i].deps[k].path);
    assert(validate::edge(ts, i, j));
}

#[verifier::spinoff_prover]
proof fn lemma_visit(ts: Seq<TaskView>, rank: Seq<nat>, i: int, vals: Seq<Seq<char>>, planned: Seq<Entry>)
    requires
        runnable(ts),
        validate::ranked(ts, rank),
        0 <= i < ts.len(),
        valid_entries(ts, planned),
        deps_first(ts, planned),
    ensures
        ({
            let r = visit(ts, rank, i, vals, planned);
            &&& r.len() >= planned.len()
            &&& r.take(planned.len() as int) == planned
            &&& r.contains((i, vals))
            &&& valid_entries(ts, r)
            &&& deps_first(ts, r)
            &&& forall|q: int| planned.len() <= q < r.len() ==> rank[(#[trigger] r[q]).0] <= rank[i]
            &&& (planned.no_duplicates() ==> r.no_duplicates())
        }),
    decreases rank[i], 1nat, 0nat,
{
    let r = visit(ts, rank, i, vals, planned);
    if planned.contains((i, vals)) {
        assert(r == planned);
        assert(r.take(planned.len() as int) =~= planned);
        assert(r.contains((i, vals)));
        assert(valid_entries(ts, r));
        assert(deps_first(ts, r));
        assert(forall|q: int| planned.len() <= q < r.len() ==> rank[(#[trigger] r[q]).0] <= rank[i]);
        assert(planned.no_duplicates() ==> r.no_duplicates());
    } else {
        let mid = visit_deps(ts, rank, i, vals, 0, planned);
        lemma_visit_deps(ts, rank, i, vals, 0, planned);
        assert(r == mid.push((i, vals)));
        assert(r[mid.len() as int] == (i, vals));
        assert(r.take(planned.len() as int) =~= mid.take(planned.len() as int));
        assert(!mid.contains((i, vals))) by {
            if mid.contains((i, vals)) {
                let q = choose|q: int| 0 <= q < mid.len() && mid[q] == (i, vals);
                if q < planned.len() {
                    assert(mid.take(planned.len() as int)[q] == planned[q]);
                    assert(planned.contains((i, vals)));
                } else {
                    assert(rank[mid[q].0] < rank[i]);
                }
            }
        }
        assert forall|p: int, k: int|
            #![trigger r[p], ts[r[p].0].deps[k]]
            0 <= p < r.len() && 0 <= k < ts[r[p].0].deps.len() implies exists|q: int|
                0 <= q < p && r[q] == (
                    target(ts, ts[r[p].0].deps[k].path),
                    forward(ts[r[p].0], r[p].1, ts[r[p].0].deps[k]),
                ) by {
            if p < mid.len() {
                assert(r[p] == mid[p]);
                assert(mid[p] == mid[p]);
                let q = choose|q: int|
                    0 <= q < p && mid[q] == (
                        target(ts, ts[mid[p].0].deps[k].path),
                        forward(ts[mid[p].0], mid[p].1, ts[mid[p].0].deps[k]),
                    );
                assert(r[q] == mid[q]);
            } else {
                let e = (target(ts, ts[i].deps[k].path), forward(ts[i], vals, ts[i].deps[k]));
                assert(mid.contains(e));
                let q = choose|q: int| 0 <= q < mid.len() && mid[q] == e;
                assert(r[q] == mid[q]);
            }
        }
        if planned.no_duplicates() {
            assert forall|a: int, b: int| 0 <= a < r.len() && 0 <= b < r.len() && a != b implies r[a] != r[b] by {
                if a < mid.len() && b < mid.len() {
                    assert(r[a] == mid[a] && r[b] == mid[b]);
                } else if a == mid.len() {
                    assert(r[b] == mid[b]);
                    assert(mid.contains(mid[b]));
                } else {
                    assert(r[a] == mid[a]);
                    assert(mid.contains(mid[a]));
                }
            }
        }
        assert(r.contains((i, vals)));
        assert forall|q: int| planned.len() <= q < r.len() implies rank[(#[trigger] r[q]).0] <= rank[i] by {
            if q < mid.len() {
                assert(r[q] == mid[q]);
            }
        }
        assert forall|p: int| 0 <= p < r.len() implies 0 <= (#[trigger] r[p]).0 < ts.len() by {
            if p < mid.len() {
                assert(r[p] == mid[p]);
            }
        }
        assert(r.take(planned.len() as int) == planned);
        assert(valid_entries(ts, r));
        assert(deps_first(ts, r));
    }
}

proof fn lemma_visit_deps(
    ts: Seq<TaskView>,
    rank: Seq<nat>,
    i: int,
    vals: Seq<Seq<char>>,
    k: nat,
    planned: Seq<Entry>,
)
    requires
        runnable(ts),
        validate::ranked(ts, rank),
        0 <= i < ts.len(),
        valid_entries(ts, planned),
        deps_first(ts, planned),
    ensures
        ({
            let r = visit_deps(ts, rank, i, vals, k, planned);
            &&& r.len() >= planned.len()
            &&& r.take(planned.len() as int) == planned
            &&& valid_entries(ts, r)
            &&& deps_first(ts, r)
            &&& forall|q: int| planned.len() <= q < r.len() ==> rank[(#[trigger] r[q]).0] < rank[i]
            &&& forall|m: int|
                k <= m < ts[i].deps.len() ==> r.contains(
                    (target(ts, ts[i].deps[m].path), forward(ts[i], vals, #[trigger] ts[i].deps[m])),
                )
            &&& forall|m: int|
                0 <= m < planned.len() ==> r.contains(#[trigger] planned[m])
            &&& (planned.no_duplicates() ==> r.no_duplicates())
        }),
    decreases rank[i], 0nat, ts[i].deps.len() - k,
{
    let r = visit_deps(ts, rank, i, vals, k, planned);
    if k >= ts[i].deps.len() {
        assert(r.take(planned.len() as int) =~= planned);
        assert forall|m: int| 0 <= m < planned.len() implies r.contains(#[trigger] planned[m]) by {
            assert(r[m] == planned[m]);
        }
    } else {
        let d = ts[i].deps[k as int];
        lemma_dep_guard(ts, rank, i, k as int);
        let j = target(ts, d.path);
        let fw = forward(ts[i], vals, d);
        let p1 = visit(ts, rank, j, fw, planned);
        lemma_visit(ts, rank, j, fw, planned);
        lemma_visit_deps(ts, rank, i, vals, k + 1, p1);
        assert(r == visit_deps(ts, rank, i, vals, k + 1, p1));
        assert(r.take(planned.len() as int) =~= r.take(p1.len() as int).take(planned.len() as int));
        assert forall|q: int| planned.len() <= q < r.len() implies rank[(#[trigger] r[q]).0] < rank[i] by {
            if q < p1.len() {
                assert(r.take(p1.len() as int)[q] == p1[q]);
                assert(r[q] == p1[q]);
            }
        }
        assert forall|m: int| 0 <= m < planned.len() implies r.contains(#[trigger] planned[m]) by {
            assert(p1.take(planned.len() as int)[m] == planned[m]);
            assert(p1[m] == planned[m]);
            assert(r.contains(p1[m]));
        }
        assert forall|m: int|
            k <= m < ts[i].deps.len() implies r.contains(
                (target(ts, ts[i].deps[m].path), forward(ts[i], vals, #[trigger] ts[i].deps[m])),
            ) by {
            if m == k {
                let e = (j, fw);
                let q = choose|q: int| 0 <= q < p1.len() && p1[q] == e;
                assert(p1.contains(p1[q]));
                assert(r.contains(p1[q]));
            }
        }
    }
}

/// The plan runs each task with the same arguments at most once, runs every
/// dependency before the task that needs it (with the arguments that task
/// passes), and runs the invoked task last.
pub proof fn law_plan_order(ts: Seq<TaskView>, i: int, vals: Seq<Seq<char>>)
    requires
        runnable(ts),
        0 <= i < ts.len(),
    ensures
        ({
            let p = visit(ts, the_rank(ts), i, vals, Seq::empty());
            &&& p.no_duplicates()
            &&& deps_first(ts, p)
            &&& p.len() > 0 && p.last() == (i, vals)
        }),
{
    let rank = the_rank(ts);
    let e: Seq<Entry> = Seq::empty();
    lemma_visit(ts, rank, i, vals, e);
    lemma_visit_deps(ts, rank, i, vals, 0, e);
    assert(!e.contains((i, vals)));
}

} // verus!

verus! {

/// Text with no braces.
pub open spec fn braceless(s: Seq<char>) -> bool {
    forall|i: int| 0 <= i < s.len() ==> s[i] != '{' && s[i] != '}'
}

/// Substitution copies a stretch without `{` as it is.
proof fn lemma_subst_copies(s: Seq<char>, i: nat, j: nat, cs: Seq<(Seq<char>, Seq<char>)>, ps: Seq<Seq<char>>)
    requires
        i <= j <= s.len(),
        forall|x: int| i <= x < j ==> s[x] != '{',
    ensures
        parser::subst_from(s, i, cs, ps) == s.subrange(i as int, j as int) + parser::subst_from(s, j, cs, ps),
    decreases j - i,
{
    if i < j {
        lemma_subst_copies(s, i + 1, j, cs, ps);
        assert(s.subrange(i as int, j as int) =~= seq![s[i as int]] + s.subrange(i + 1int, j as int));
    } else {
        assert(s.subrange(i as int, j as int) =~= Seq::<char>::empty());
    }
}

/// The closing `}}` after a name without `}`.
proof fn lemma_close_after(s: Seq<char>, x: nat, j: nat)
    requires
        x <= j,
        j + 1 < s.len(),
        s[j as int] == '}' && s[j + 1int] == '}',
        forall|y: int| x <= y < j ==> s[y] != '}',
    ensures
        parser::find_close(s, x) == Some(j),
    decreases j - x,
{
    if x < j {
        lemma_close_after(s, x + 1, j);
    }
}

/// The value bound to the first parameter named `params[q]`.
proof fn lemma_lookup_first(params: Seq<Seq<char>>, vals: Seq<Seq<char>>, q: int, k: nat)
    requires
        params.len() == vals.len(),
        k <= q < params.len(),
        forall|q2: int| 0 <= q2 < q ==> params[q2] != params[q],
    ensures
        parser::lookup(bindings(params, vals), params[q], k) == Some(vals[q]),
    decreases q - k,
{
    if k < q {
        lemma_lookup_first(params, vals, q, k + 1);
    }
}

/// A run fills its parameters into every line of the task's body: the run has
/// one body line per line of the task; where a line is `a{{p}}b` for a
/// parameter `p` of the task (the first of that name) and `a`, `b` hold no
/// braces, the run's line is `a`, then the value passed for `p`, then `b`; a
/// line without `{{` is run as written. The run's path is the task's, and its
/// bindings pair each parameter with the value passed for it.
pub proof fn law_parameters_fill_every_body_line(
    ts: Seq<TaskView>,
    e: Entry,
    l: int,
    q: int,
    a: Seq<char>,
    b: Seq<char>,
)
    requires
        0 <= e.0 < ts.len(),
        e.1.len() == ts[e.0].params.len(),
        0 <= l < ts[e.0].body.len(),
    ensures
        step_of(ts, e).path == ts[e.0].path,
        step_of(ts, e).args.len() == ts[e.0].params.len(),
        forall|k: int| 0 <= k < ts[e.0].params.len() ==> (#[trigger] step_of(ts, e).args[k]) == (ts[e.0].params[k], e.1[k]),
        step_of(ts, e).body.len() == ts[e.0].body.len(),
        (forall|x: int| 0 <= x < ts[e.0].body[l].len() ==> ts[e.0].body[l][x] != '{') ==> step_of(ts, e).body[l]
            == ts[e.0].body[l],
        0 <= q < ts[e.0].params.len() && (forall|q2: int| 0 <= q2 < q ==> ts[e.0].params[q2] != ts[e.0].params[q])
            && (forall|x: int| 0 <= x < ts[e.0].params[q].len() ==> ts[e.0].params[q][x] != '}') && braceless(a)
            && braceless(b) && ts[e.0].body[l] == a + "{{"@ + ts[e.0].params[q] + "}}"@ + b ==> step_of(ts, e).body[l]
            == a + e.1[q] + b,
{
    let t = ts[e.0];
    let cs = bindings(t.params, e.1);
    let ps: Seq<Seq<char>> = Seq::empty();
    let s = t.body[l];
    assert(step_of(ts, e).body[l] == parser::subst_from(s, 0, cs, ps));
    if forall|x: int| 0 <= x < s.len() ==> s[x] != '{' {
        lemma_subst_copies(s, 0, s.len(), cs, ps);
        assert(s.subrange(0, s.len() as int) =~= s);
    }
    if 0 <= q < t.params.len() && (forall|q2: int| 0 <= q2 < q ==> t.params[q2] != t.params[q])
        && (forall|x: int| 0 <= x < t.params[q].len() ==> t.params[q][x] != '}') && braceless(a) && braceless(b)
        && s == a + "{{"@ + t.params[q] + "}}"@ + b {
        reveal_strlit("{{");
        reveal_strlit("}}");
        let p = t.params[q];
        let i: int = a.len() as int;
        let j: int = i + 2 + p.len();
        assert(s.len() == j + 2 + b.len());
        assert forall|x: int| 0 <= x < i implies s[x] != '{' by {
            assert(s[x] == a[x]);
        }
        lemma_subst_copies(s, 0, i as nat, cs, ps);
        assert(s.subrange(0, i) =~= a);
        assert(s[i] == '{' && s[i + 1] == '{');
        assert forall|y: int| i + 2 <= y < j implies s[y] != '}' by {
            assert(s[y] == p[y - i - 2]);
        }
        lemma_close_after(s, (i + 2) as nat, j as nat);
        assert(s.subrange(i + 2, j as int) =~= p);
        lemma_lookup_first(t.params, e.1, q, 0);
        assert forall|x: int| j + 2 <= x < s.len() implies s[x] != '{' by {
            assert(s[x] == b[x - j - 2]);
        }
        lemma_subst_copies(s, (j + 2) as nat, s.len(), cs, ps);
        assert(s.subrange(j + 2, s.len() as int) =~= b);
        assert(parser::subst_from(s, s.len(), cs, ps) == Seq::<char>::empty());
        assert(parser::subst_from(s, i as nat, cs, ps) == e.1[q] + parser::subst_from(s, (j + 2) as nat, cs, ps));
        assert(step_of(ts, e).body[l] =~= a + e.1[q] + b);
    }
}

} // verus!
