//! Up-front checks of a merged taskfile, before anything runs: every
//! dependency names a task and passes it as many arguments as it takes, and no
//! task depends on itself, directly or through others.
use vstd::prelude::*;
use crate::model::{self, DepView, TaskView, Taskfile};
use crate::text::{self, decimal_string, join};

verus! {

/// A task's name in messages: its path joined by `::`.
pub open spec fn name_of(path: Seq<Seq<char>>) -> Seq<char> {
    text::seq_join(path, "::"@)
}

/// What is wrong with dependency `d` of task `t`, if anything.
pub open spec fn dep_problem(ts: Seq<TaskView>, t: TaskView, d: DepView) -> Option<Seq<char>> {
    if !model::has_task(ts, d.path) {
        Some("`"@ + name_of(t.path) + "` depends on `"@ + name_of(d.path) + "`, which is not a task"@)
    } else {
        let n = model::task_at(ts, d.path)->Some_0.params.len();
        if d.args.len() != n {
            Some("`"@ + name_of(t.path) + "` passes "@ + text::decimal(d.args.len()) + " argument(s) to `"@
                + name_of(d.path) + "`, which takes "@ + text::decimal(n))
        } else {
            None
        }
    }
}

/// The problems with the dependencies of `t` from the `k`-th on.
pub open spec fn task_problems(ts: Seq<TaskView>, t: TaskView, k: nat) -> Seq<Seq<char>>
    decreases t.deps.len() - k,
{
    if k >= t.deps.len() {
        Seq::empty()
    } else {
        let here = match dep_problem(ts, t, t.deps[k as int]) {
            Some(m) => seq![m],
            None => Seq::empty(),
        };
        here + task_problems(ts, t, k + 1)
    }
}

/// The dependency problems of the tasks from the `i`-th on, in order.
pub open spec fn problems_from(ts: Seq<TaskView>, i: nat) -> Seq<Seq<char>>
    decreases ts.len() - i,
{
    if i >= ts.len() {
        Seq::empty()
    } else {
        task_problems(ts, ts[i as int], 0) + problems_from(ts, i + 1)
    }
}

/// Task `i` depends directly on task `j`.
pub open spec fn edge(ts: Seq<TaskView>, i: int, j: int) -> bool {
    0 <= i < ts.len() && 0 <= j < ts.len() && exists|k: int|
        0 <= k < ts[i].deps.len() && (#[trigger] ts[i].deps[k]).path == ts[j].path
}

/// `rank` orders the tasks so that every task ranks above the tasks it
/// depends on.
pub open spec fn ranked(ts: Seq<TaskView>, rank: Seq<nat>) -> bool {
    rank.len() == ts.len() && forall|i: int, j: int| #[trigger] edge(ts, i, j) ==> rank[j] < rank[i]
}

/// No task depends on itself, directly or through others.
pub open spec fn acyclic(ts: Seq<TaskView>) -> bool {
    exists|rank: Seq<nat>| ranked(ts, rank)
}

/// `c` is a dependency cycle: each task depends on the next, and the last is
/// the first.
pub open spec fn is_cycle(ts: Seq<TaskView>, c: Seq<int>) -> bool {
    &&& c.len() >= 2
    &&& c[0] == c.last()
    &&& forall|k: int| 0 <= k < c.len() - 1 ==> #[trigger] edge(ts, c[k], c[k + 1])
}

pub open spec fn cycle_message(ts: Seq<TaskView>, c: Seq<int>) -> Seq<char> {
    "dependency cycle: "@ + text::seq_join(Seq::new(c.len(), |k: int| name_of(ts[c[k]].path)), " -> "@)
}

/// A dependency cycle rules out any ranking: along it the rank would have to
/// fall all the way back to where it started.
pub proof fn law_cycle_is_not_acyclic(ts: Seq<TaskView>, c: Seq<int>)
    requires
        is_cycle(ts, c),
    ensures
        !acyclic(ts),
{
    if acyclic(ts) {
        let rank = choose|rank: Seq<nat>| ranked(ts, rank);
        assert forall|k: int| 0 <= k < c.len() implies rank[#[trigger] c[k]] <= rank[c[0]] - k by {
            lemma_rank_falls(ts, rank, c, k);
        }
        assert(rank[c[c.len() - 1]] <= rank[c[0]] - (c.len() - 1));
    }
}

proof fn lemma_rank_falls(ts: Seq<TaskView>, rank: Seq<nat>, c: Seq<int>, k: int)
    requires
        ranked(ts, rank),
        is_cycle(ts, c),
        0 <= k < c.len(),
    ensures
        rank[c[k]] <= rank[c[0]] - k,
    decreases k,
{
    if k > 0 {
        lemma_rank_falls(ts, rank, c, k - 1);
        assert(edge(ts, c[k - 1], c[(k - 1) + 1]));
    }
}

} // verus!

verus! {

/// The problem with one dependency, if any.
fn dep_problem_exec(tf: &Taskfile, t: &model::Task, d: &model::Dep) -> (r: Option<String>)
    requires
        tf.wf(),
    ensures
        match r {
            Some(m) => dep_problem(tf@.tasks, t@, d@) == Some(m@),
            None => dep_problem(tf@.tasks, t@, d@) is None,
        },
{
    match tf.index_of(d.path.as_slice()) {
        None => {
            let mut m = String::from_str("`");
            let a = join(t.path.as_slice(), "::");
            m.append(a.as_str());
            m.append("` depends on `");
            let b = join(d.path.as_slice(), "::");
            m.append(b.as_str());
            m.append("`, which is not a task");
            Some(m)
        },
        Some(j) => {
            let n = tf.tasks[j].params.len();
            if d.args.len() != n {
                let mut m = String::from_str("`");
                let a = join(t.path.as_slice(), "::");
                m.append(a.as_str());
                m.append("` passes ");
                let c = decimal_string(d.args.len());
                m.append(c.as_str());
                m.append(" argument(s) to `");
                let b = join(d.path.as_slice(), "::");
                m.append(b.as_str());
                m.append("`, which takes ");
                let e = decimal_string(n);
                m.append(e.as_str());
                Some(m)
            } else {
                None
            }
        },
    }
}

/// Every dependency problem, in task order and then dependency order.
fn problems(tf: &Taskfile) -> (r: Vec<String>)
    requires
        tf.wf(),
    ensures
        r.deep_view() == problems_from(tf@.tasks, 0),
{
    let ghost ts = tf@.tasks;
    let mut out: Vec<String> = Vec::new();
    let mut i: usize = 0;
    assert(out.deep_view() =~= Seq::<Seq<char>>::empty());
    while i < tf.tasks.len()
        invariant
            tf.wf(),
            ts == tf@.tasks,
            i <= tf.tasks.len(),
            problems_from(ts, 0) == out.deep_view() + problems_from(ts, i as nat),
        decreases tf.tasks.len() - i,
    {
        let t = &tf.tasks[i];
        assert(ts[i as int] == t@);
        let mut k: usize = 0;
        let ghost base = out.deep_view();
        assert(out.deep_view() =~= base + Seq::<Seq<char>>::empty());
        while k < t.deps.len()
            invariant
                tf.wf(),
                ts == tf@.tasks,
                t@ == ts[i as int],
                k <= t.deps.len(),
                task_problems(ts, t@, 0) == out.deep_view().skip(base.len() as int) + task_problems(ts, t@, k as nat),
                out.deep_view().take(base.len() as int) == base,
                out.deep_view().len() >= base.len(),
            decreases t.deps.len() - k,
        {
            let ghost before = out.deep_view();
            assert(model::deps_view(t.deps@)[k as int] == t.deps@[k as int]@);
            match dep_problem_exec(tf, t, &t.deps[k]) {
                Some(m) => {
                    out.push(m);
                    assert(out.deep_view() =~= before.push(m@));
                    assert(out.deep_view().skip(base.len() as int) =~= before.skip(base.len() as int).push(m@));
                    assert(out.deep_view().take(base.len() as int) =~= before.take(base.len() as int));
                    assert(before.skip(base.len() as int) + (seq![m@] + task_problems(ts, t@, (k + 1) as nat))
                        =~= before.skip(base.len() as int).push(m@) + task_problems(ts, t@, (k + 1) as nat));
                },
                None => {
                    assert(Seq::<Seq<char>>::empty() + task_problems(ts, t@, (k + 1) as nat)
                        =~= task_problems(ts, t@, (k + 1) as nat));
                },
            }
            k = k + 1;
        }
        proof {
            let o = out.deep_view();
            assert(o =~= o.take(base.len() as int) + o.skip(base.len() as int));
            assert(task_problems(ts, t@, k as nat) =~= Seq::<Seq<char>>::empty());
            assert(o.skip(base.len() as int) + Seq::<Seq<char>>::empty() =~= o.skip(base.len() as int));
            assert(base + (task_problems(ts, ts[i as int], 0) + problems_from(ts, (i + 1) as nat))
                =~= o + problems_from(ts, (i + 1) as nat));
        }
        i = i + 1;
    }
    assert(out.deep_view() + problems_from(ts, i as nat) =~= out.deep_view());
    out
}

} // verus!

verus! {

/// How many entries of `done` are still `false`.
pub open spec fn undone(done: Seq<bool>) -> nat
    decreases done.len(),
{
    if done.len() == 0 {
        0
    } else {
        undone(done.drop_last()) + if done.last() { 0nat } else { 1nat }
    }
}

proof fn lemma_mark_done(done: Seq<bool>, i: int)
    requires
        0 <= i < done.len(),
        !done[i],
    ensures
        undone(done.update(i, true)) + 1 == undone(done),
    decreases done.len(),
{
    let u = done.update(i, true);
    if i < done.len() - 1 {
        assert(u.drop_last() =~= done.drop_last().update(i, true));
        lemma_mark_done(done.drop_last(), i);
    } else {
        assert(u.drop_last() =~= done.drop_last());
    }
}

/// Distinct positions below `n` number at most `n`.
proof fn lemma_distinct_below(s: Seq<int>, n: int)
    requires
        0 <= n,
        s.no_duplicates(),
        forall|k: int| 0 <= k < s.len() ==> 0 <= #[trigger] s[k] < n,
    ensures
        s.len() <= n,
{
    s.unique_seq_to_set();
    vstd::set_lib::lemma_int_range(0, n);
    assert(s.to_set().subset_of(vstd::set_lib::set_int_range(0, n)));
    vstd::set_lib::lemma_len_subset(s.to_set(), vstd::set_lib::set_int_range(0, n));
}

/// Whether every task that task `i` depends on is marked done.
fn deps_done(tf: &Taskfile, i: usize, done: &Vec<bool>) -> (r: bool)
    requires
        tf.wf(),
        i < tf.tasks.len(),
        done.len() == tf.tasks.len(),
    ensures
        r == (forall|j: int| #[trigger] edge(tf@.tasks, i as int, j) ==> done@[j]),
{
    let ghost ts = tf@.tasks;
    let t = &tf.tasks[i];
    assert(t@ == ts[i as int]);
    let mut k: usize = 0;
    while k < t.deps.len()
        invariant
            tf.wf(),
            ts == tf@.tasks,
            t@ == ts[i as int],
            i < ts.len(),
            done.len() == ts.len(),
            k <= t.deps.len(),
            forall|j: int, m: int|
                0 <= j < ts.len() && 0 <= m < k && (#[trigger] ts[i as int].deps[m]).path == #[trigger] ts[j].path ==> done@[j],
        decreases t.deps.len() - k,
    {
        let d = &t.deps[k];
        assert(model::deps_view(t.deps@)[k as int] == d@);
        match tf.index_of(d.path.as_slice()) {
            Some(j) => {
                if !done[j] {
                    assert(ts[i as int].deps[k as int].path == ts[j as int].path);
                    assert(edge(ts, i as int, j as int));
                    return false;
                }
                proof {
                    assert forall|j2: int| 0 <= j2 < ts.len() && (#[trigger] ts[j2]).path == ts[i as int].deps[k as int].path implies done@[j2] by {
                        if j2 != j {
                            assert(ts[j2].path == ts[j as int].path);
                        }
                    }
                }
            },
            None => {},
        }
        k = k + 1;
    }
    true
}

/// The positions of a path of tasks.
pub open spec fn positions(p: Seq<usize>) -> Seq<int> {
    Seq::new(p.len(), |k: int| p[k] as int)
}

/// The first task that task `cur` depends on and that is not done.
fn next_waiting(tf: &Taskfile, cur: usize, done: &Vec<bool>) -> (r: usize)
    requires
        tf.wf(),
        cur < tf.tasks.len(),
        done.len() == tf.tasks.len(),
        exists|j: int| #[trigger] edge(tf@.tasks, cur as int, j) && !done@[j],
    ensures
        r < tf.tasks.len(),
        edge(tf@.tasks, cur as int, r as int),
        !done@[r as int],
{
    let ghost ts = tf@.tasks;
    let t = &tf.tasks[cur];
    assert(t@ == ts[cur as int]);
    let mut k: usize = 0;
    while k < t.deps.len()
        invariant
            tf.wf(),
            ts == tf@.tasks,
            t@ == ts[cur as int],
            cur < ts.len(),
            done.len() == ts.len(),
            k <= t.deps.len(),
            forall|j: int, m: int|
                0 <= j < ts.len() && 0 <= m < k && (#[trigger] ts[cur as int].deps[m]).path == #[trigger] ts[j].path ==> done@[j],
        decreases t.deps.len() - k,
    {
        let d = &t.deps[k];
        assert(model::deps_view(t.deps@)[k as int] == d@);
        match tf.index_of(d.path.as_slice()) {
            Some(j) => {
                if !done[j] {
                    assert(ts[cur as int].deps[k as int].path == ts[j as int].path);
                    assert(edge(ts, cur as int, j as int));
                    return j;
                }
                proof {
                    assert forall|j2: int| 0 <= j2 < ts.len() && (#[trigger] ts[j2]).path == ts[cur as int].deps[k as int].path implies done@[j2] by {
                        if j2 != j {
                            assert(ts[j2].path == ts[j as int].path);
                        }
                    }
                }
            },
            None => {},
        }
        k = k + 1;
    }
    proof {
        let j = choose|j: int| #[trigger] edge(ts, cur as int, j) && !done@[j];
        let m = choose|m: int| 0 <= m < ts[cur as int].deps.len() && (#[trigger] ts[cur as int].deps[m]).path == ts[j].path;
        assert(done@[j]);
    }
    0
}

/// Order the tasks so each ranks above what it depends on, or find a
/// dependency cycle.
fn rank_or_cycle(tf: &Taskfile) -> (r: Option<Vec<usize>>)
    requires
        tf.wf(),
    ensures
        r is None ==> acyclic(tf@.tasks),
        r matches Some(c) ==> is_cycle(tf@.tasks, positions(c@)) && forall|k: int|
            0 <= k < c.len() ==> #[trigger] c@[k] < tf.tasks.len(),
{
    let ghost ts = tf@.tasks;
    let n = tf.tasks.len();
    let mut done: Vec<bool> = Vec::new();
    while done.len() < n
        invariant
            done.len() <= n,
            forall|k: int| 0 <= k < done.len() ==> !done@[k],
        decreases n - done.len(),
    {
        done.push(false);
    }
    let ghost mut rank: Seq<nat> = Seq::new(n as nat, |k: int| 0nat);
    let ghost mut count: nat = 0;
    loop
        invariant_except_break
            tf.wf(),
            ts == tf@.tasks,
            n == ts.len(),
            done.len() == n,
            rank.len() == n,
            forall|i: int| 0 <= i < n && done@[i] ==> rank[i] < count,
            forall|i: int, j: int| #[trigger] edge(ts, i, j) && done@[i] ==> done@[j] && rank[j] < rank[i],
        ensures
            tf.wf(),
            ts == tf@.tasks,
            n == ts.len(),
            done.len() == n,
            rank.len() == n,
            forall|i: int, j: int| #[trigger] edge(ts, i, j) && done@[i] ==> done@[j] && rank[j] < rank[i],
            forall|k: int| 0 <= k < n && !done@[k] ==> exists|j: int| #[trigger] edge(ts, k, j) && !done@[j],
        decreases undone(done@),
    {
        let mut picked: Option<usize> = None;
        let mut i: usize = 0;
        while i < n
            invariant_except_break
                tf.wf(),
                ts == tf@.tasks,
                n == ts.len(),
                done.len() == n,
                i <= n,
                picked is None,
                forall|k: int| 0 <= k < i && !done@[k] ==> exists|j: int| #[trigger] edge(ts, k, j) && !done@[j],
            ensures
                picked is None ==> forall|k: int|
                    0 <= k < n && !done@[k] ==> exists|j: int| #[trigger] edge(ts, k, j) && !done@[j],
                picked matches Some(p) ==> p < n && !done@[p as int] && forall|j: int|
                    #[trigger] edge(ts, p as int, j) ==> done@[j],
            decreases n - i,
        {
            if !done[i] && deps_done(tf, i, &done) {
                picked = Some(i);
                break;
            }
            i = i + 1;
        }
        match picked {
            Some(i) => {
                proof {
                    lemma_mark_done(done@, i as int);
                }
                let ghost old_done = done@;
                done.set(i, true);
                proof {
                    assert(done@ == old_done.update(i as int, true));
                    rank = rank.update(i as int, count);
                    count = count + 1;
                }
            },
            None => {
                break;
            },
        }
    }
    // No task left is ready: either all are done, or every one left waits on
    // another one left.
    let mut s: usize = 0;
    while s < n && done[s]
        invariant
            s <= n,
            done.len() == n,
            forall|k: int| 0 <= k < s ==> done@[k],
        decreases n - s,
    {
        s = s + 1;
    }
    if s == n {
        assert(ranked(ts, rank)) by {
            assert forall|i: int, j: int| #[trigger] edge(ts, i, j) implies rank[j] < rank[i] by {
                assert(done@[i]);
            }
        }
        return None;
    }
    // Walk from a waiting task along waiting dependencies until one repeats.
    let mut path: Vec<usize> = Vec::new();
    path.push(s);
    loop
        invariant
            tf.wf(),
            ts == tf@.tasks,
            n == ts.len(),
            done.len() == n,
            forall|k: int| 0 <= k < n && !done@[k] ==> exists|j: int| #[trigger] edge(ts, k, j) && !done@[j],
            path.len() >= 1,
            path.len() <= n,
            forall|k: int| 0 <= k < path.len() ==> #[trigger] path@[k] < n && !done@[path@[k] as int],
            positions(path@).no_duplicates(),
            forall|k: int| 0 <= k < path.len() - 1 ==> #[trigger] edge(ts, path@[k] as int, path@[k + 1] as int),
        decreases n - path.len(),
    {
        let cur = path[path.len() - 1];
        let t = next_waiting(tf, cur, &done);
        let mut p: usize = 0;
        while p < path.len() && path[p] != t
            invariant
                p <= path.len(),
                forall|k: int| 0 <= k < p ==> path@[k] != t,
            decreases path.len() - p,
        {
            p = p + 1;
        }
        if p < path.len() {
            let mut cycle: Vec<usize> = Vec::new();
            let mut q = p;
            while q < path.len()
                invariant
                    p <= q <= path.len(),
                    cycle@ == path@.subrange(p as int, q as int),
                decreases path.len() - q,
            {
                cycle.push(path[q]);
                q = q + 1;
                assert(cycle@ =~= path@.subrange(p as int, q as int));
            }
            cycle.push(t);
            proof {
                let c = positions(cycle@);
                assert(cycle@ =~= path@.subrange(p as int, path.len() as int).push(t));
                assert forall|k: int| 0 <= k < c.len() - 1 implies #[trigger] edge(ts, c[k], c[k + 1]) by {
                    if k < c.len() - 2 {
                        assert(edge(ts, path@[p + k] as int, path@[p + k + 1] as int));
                    } else {
                        assert(c[k] == cur as int);
                    }
                }
            }
            return Some(cycle);
        }
        let ghost before = positions(path@);
        path.push(t);
        proof {
            let np = positions(path@);
            assert(np =~= before.push(t as int));
            assert forall|a: int, b: int| 0 <= a < np.len() && 0 <= b < np.len() && a != b implies np[a] != np[b] by {
                if a < before.len() && b < before.len() {
                    assert(before[a] != before[b]);
                }
            }
            assert forall|k: int| 0 <= k < np.len() implies 0 <= #[trigger] np[k] < n by {
                assert(path@[k] < n);
            }
            lemma_distinct_below(np, n as int);
        }
    }
}

/// Check a merged taskfile before anything runs: every dependency names a
/// task and passes it exactly as many arguments as it takes, and no task
/// depends on itself. The problems found are reported in task order; a cycle
/// is reported only once every dependency resolves, as one message naming the
/// tasks around it.
pub fn validate(tf: &Taskfile) -> (r: Result<(), Vec<String>>)
    requires
        tf.wf(),
    ensures
        r is Ok == (problems_from(tf@.tasks, 0).len() == 0 && acyclic(tf@.tasks)),
        r matches Err(es) ==> if problems_from(tf@.tasks, 0).len() > 0 {
            es.deep_view() == problems_from(tf@.tasks, 0)
        } else {
            exists|c: Seq<int>| is_cycle(tf@.tasks, c) && es.deep_view() == seq![cycle_message(tf@.tasks, c)]
        },
{
    let ghost ts = tf@.tasks;
    let found = problems(tf);
    if found.len() > 0 {
        return Err(found);
    }
    match rank_or_cycle(tf) {
        None => Ok(()),
        Some(c) => {
            let ghost cv = positions(c@);
            proof { law_cycle_is_not_acyclic(ts, cv); }
            let mut names: Vec<String> = Vec::new();
            let mut k: usize = 0;
            while k < c.len()
                invariant
                    tf.wf(),
                    ts == tf@.tasks,
                    cv == positions(c@),
                    forall|m: int| 0 <= m < c.len() ==> #[trigger] c@[m] < ts.len(),
                    k <= c.len(),
                    names@.len() == k,
                    forall|m: int| 0 <= m < k ==> (#[trigger] names@[m])@ == name_of(ts[cv[m]].path),
                decreases c.len() - k,
            {
                let t = &tf.tasks[c[k]];
                assert(t@ == ts[cv[k as int]]);
                names.push(join(t.path.as_slice(), "::"));
                k = k + 1;
            }
            let mut m = String::from_str("dependency cycle: ");
            assert(names.deep_view() =~= Seq::new(cv.len(), |k: int| name_of(ts[cv[k]].path)));
            let chain = join(names.as_slice(), " -> ");
            m.append(chain.as_str());
            let mut es: Vec<String> = Vec::new();
            es.push(m);
            assert(es.deep_view() =~= seq![cycle_message(ts, cv)]);
            Err(es)
        },
    }
}

} // verus!
