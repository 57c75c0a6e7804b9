//! The command line around the taskfile: the leading `--taskfile <path>`,
//! which mode an invocation asks for, and the task listing.
use vstd::prelude::*;
use crate::model::{self, Taskfile};
use crate::text::{self, clone_strings, join};

verus! {

/// Split a leading `--taskfile <path>` off the arguments.
///
/// The flag is recognized in first position only. Everything after the task
/// name belongs to the task (a `--taskfile` there is one of its arguments),
/// which keeps the resolver's rule intact: once a task is selected, the
/// remaining words are its arguments.
pub fn take_taskfile(args: &[String]) -> (r: Result<(Option<String>, &[String]), String>)
    ensures
        args.len() >= 1 && args[0]@ == "--taskfile"@ ==> (if args.len() >= 2 {
            r matches Ok((Some(p), rest)) && p@ == args[1]@ && rest@ == args@.skip(2)
        } else {
            r matches Err(m) && m@ == "--taskfile needs a path"@
        }),
        !(args.len() >= 1 && args[0]@ == "--taskfile"@) ==> (r matches Ok((None, rest)) && rest@ == args@),
{
    let flag = String::from_str("--taskfile");
    if args.len() >= 1 && args[0] == flag {
        if args.len() >= 2 {
            let rest = vstd::slice::slice_subrange(args, 2, args.len());
            assert(rest@ =~= args@.skip(2));
            Ok((Some(args[1].clone()), rest))
        } else {
            Err(String::from_str("--taskfile needs a path"))
        }
    } else {
        let rest = vstd::slice::slice_subrange(args, 0, args.len());
        assert(rest@ =~= args@);
        Ok((None, rest))
    }
}

/// What an invocation asks for, once a leading `--taskfile <path>` is off.
#[derive(Debug)]
pub enum Mode {
    /// `--version`: print the version.
    Version,
    /// `--completion-script [shell]`: print a completion script.
    CompletionScript(Option<String>),
    /// `--help-ai`: usage notes for AI agents.
    HelpAi,
    /// `--help`: usage, plus the task listing when a taskfile loads.
    Help,
    /// `--complete words...`: completion candidates for `words`, against the
    /// taskfile a leading `--taskfile` among them names, if any.
    Complete { words: Vec<String>, pointed_at: Option<String> },
    /// No words at all: list the tasks.
    List,
    /// Run the task these words resolve to.
    Run(Vec<String>),
}

pub enum ModeView {
    Version,
    CompletionScript(Option<Seq<char>>),
    HelpAi,
    Help,
    Complete { words: Seq<Seq<char>>, pointed_at: Option<Seq<char>> },
    List,
    Run(Seq<Seq<char>>),
}

impl View for Mode {
    type V = ModeView;

    open spec fn view(&self) -> ModeView {
        match self {
            Mode::Version => ModeView::Version,
            Mode::CompletionScript(s) => ModeView::CompletionScript(
                match s {
                    Some(x) => Some(x@),
                    None => None,
                },
            ),
            Mode::HelpAi => ModeView::HelpAi,
            Mode::Help => ModeView::Help,
            Mode::Complete { words, pointed_at } => ModeView::Complete {
                words: words.deep_view(),
                pointed_at: match pointed_at {
                    Some(x) => Some(x@),
                    None => None,
                },
            },
            Mode::List => ModeView::List,
            Mode::Run(w) => ModeView::Run(w.deep_view()),
        }
    }
}

/// The mode for the words after a leading `--taskfile <path>`: the version,
/// the completion script, help and completion never need a taskfile; no
/// words lists the tasks; anything else is a task to run.
pub open spec fn mode_of(args: Seq<Seq<char>>) -> ModeView {
    let first = if args.len() > 0 { Some(args[0]) } else { None };
    if first == Some("--version"@) {
        ModeView::Version
    } else if first == Some("--completion-script"@) {
        ModeView::CompletionScript(if args.len() > 1 { Some(args[1]) } else { None })
    } else if first == Some("--help-ai"@) {
        ModeView::HelpAi
    } else if first == Some("--help"@) {
        ModeView::Help
    } else if first == Some("--complete"@) {
        let words = args.skip(1);
        ModeView::Complete {
            words,
            pointed_at: if words.len() >= 2 && words[0] == "--taskfile"@ { Some(words[1]) } else { None },
        }
    } else if args.len() == 0 {
        ModeView::List
    } else {
        ModeView::Run(args)
    }
}

fn is_word(s: &String, t: &str) -> (r: bool)
    ensures
        r == (s@ == t@),
{
    let other = String::from_str(t);
    *s == other
}

/// The mode the words after a leading `--taskfile <path>` ask for.
pub fn mode(args: &[String]) -> (r: Mode)
    ensures
        r@ == mode_of(args.deep_view()),
{
    let ghost a = args.deep_view();
    if args.len() > 0 {
        assert(a[0] == args[0]@);
        if is_word(&args[0], "--version") {
            return Mode::Version;
        }
        if is_word(&args[0], "--completion-script") {
            if args.len() > 1 {
                assert(a[1] == args[1]@);
                return Mode::CompletionScript(Some(args[1].clone()));
            }
            return Mode::CompletionScript(None);
        }
        if is_word(&args[0], "--help-ai") {
            return Mode::HelpAi;
        }
        if is_word(&args[0], "--help") {
            return Mode::Help;
        }
        if is_word(&args[0], "--complete") {
            let words = clone_strings(vstd::slice::slice_subrange(args, 1, args.len()));
            assert(words.deep_view() =~= a.skip(1));
            let pointed_at = match take_taskfile(words.as_slice()) {
                Ok((Some(p), _)) => Some(p),
                _ => None,
            };
            return Mode::Complete { words, pointed_at };
        }
        assert(a.len() > 0);
        return Mode::Run(clone_strings(args));
    }
    Mode::List
}

/// The lines `alors` prints with no task named: every top-level name, marked
/// when it is a namespace, with a task's parameters after it.
pub open spec fn listing_lines(ts: Seq<model::TaskView>) -> Seq<Seq<char>> {
    let top = model::children_of(ts, Seq::empty());
    if top.len() == 0 {
        seq!["tasks.alors has no tasks."@]
    } else {
        seq!["Available commands:"@] + Seq::new(top.len(), |i: int| listing_entry(ts, top[i]))
    }
}

/// One line of the listing.
pub open spec fn listing_entry(ts: Seq<model::TaskView>, name: Seq<char>) -> Seq<char> {
    let path = seq![name];
    let is_task = model::has_task(ts, path);
    let ns = model::is_ns(ts, path);
    let marker = if is_task && ns {
        name + " (+ subcommands)"@
    } else if !is_task && ns {
        name + " <subcommand>"@
    } else {
        name
    };
    if is_task && model::task_at(ts, path)->Some_0.params.len() > 0 {
        "  "@ + marker + "  "@ + text::seq_join(model::task_at(ts, path)->Some_0.params, " "@)
    } else {
        "  "@ + marker
    }
}

/// The task listing, one line per element.
pub fn listing(taskfile: &Taskfile) -> (r: Vec<String>)
    requires
        taskfile.wf(),
    ensures
        r.deep_view() == listing_lines(taskfile@.tasks),
{
    let ghost ts = taskfile@.tasks;
    let root: Vec<String> = Vec::new();
    assert(root.deep_view() =~= Seq::<Seq<char>>::empty());
    let top = taskfile.children(root.as_slice());
    let mut out: Vec<String> = Vec::new();
    if top.len() == 0 {
        out.push(String::from_str("tasks.alors has no tasks."));
        assert(out.deep_view() =~= listing_lines(ts));
        return out;
    }
    out.push(String::from_str("Available commands:"));
    let mut i: usize = 0;
    while i < top.len()
        invariant
            taskfile.wf(),
            ts == taskfile@.tasks,
            top.deep_view() == model::children_of(ts, Seq::empty()),
            i <= top.len(),
            out@.len() == i + 1,
            out@[0]@ == "Available commands:"@,
            forall|k: int| 0 <= k < i ==> (#[trigger] out@[k + 1])@ == listing_entry(ts, top.deep_view()[k]),
        decreases top.len() - i,
    {
        let name = &top[i];
        let mut path: Vec<String> = Vec::new();
        path.push(name.clone());
        assert(path.deep_view() =~= seq![name@]);
        let task = taskfile.get(path.as_slice());
        let is_ns = taskfile.is_namespace(path.as_slice());
        let mut marker = name.clone();
        if task.is_some() && is_ns {
            marker.append(" (+ subcommands)");
        } else if task.is_none() && is_ns {
            marker.append(" <subcommand>");
        }
        let mut line = String::from_str("  ");
        line.append(marker.as_str());
        match task {
            Some(t) => {
                if t.params.len() > 0 {
                    line.append("  ");
                    let ps = join(t.params.as_slice(), " ");
                    line.append(ps.as_str());
                }
            },
            None => {},
        }
        assert(line@ == listing_entry(ts, top.deep_view()[i as int]));
        out.push(line);
        i = i + 1;
    }
    proof {
        let tv = top.deep_view();
        let expected = seq!["Available commands:"@] + Seq::new(tv.len(), |k: int| listing_entry(ts, tv[k]));
        assert forall|k: int| 0 <= k < out@.len() implies out.deep_view()[k] == expected[k] by {
            if k > 0 {
                assert(out@[(k - 1) + 1]@ == listing_entry(ts, tv[k - 1]));
            }
        }
        assert(out.deep_view() =~= expected);
    }
    out
}


/// The listing: with no tasks, one line saying so; otherwise a heading, then
/// one line per top-level name (in the order of the names), starting with two
/// spaces and the name. A task with parameters has its line end with two
/// spaces and its parameters separated by single spaces; any other line is
/// the name followed by nothing, ` (+ subcommands)` or ` <subcommand>`.
pub proof fn law_listing_shows_parameters(ts: Seq<model::TaskView>)
    ensures
        ({
            let top = model::children_of(ts, Seq::empty());
            let ls = listing_lines(ts);
            &&& top.len() == 0 ==> ls == seq!["tasks.alors has no tasks."@]
            &&& top.len() > 0 ==> ls.len() == top.len() + 1 && ls[0] == "Available commands:"@
            &&& top.len() > 0 ==> forall|i: int|
                0 <= i < top.len() ==> (#[trigger] ls[i + 1]).len() >= 2 + top[i].len() && ls[i + 1].take(
                    2 + top[i].len() as int,
                ) == "  "@ + top[i]
            &&& top.len() > 0 ==> forall|i: int|
                0 <= i < top.len() && model::has_task(ts, seq![top[i]]) && model::task_at(ts, seq![top[i]])->Some_0.params.len()
                    > 0 ==> ({
                    let tail = "  "@ + text::seq_join(model::task_at(ts, seq![top[i]])->Some_0.params, " "@);
                    (#[trigger] ls[i + 1]).len() >= tail.len() && ls[i + 1].skip(ls[i + 1].len() - tail.len()) == tail
                })
            &&& top.len() > 0 ==> forall|i: int|
                0 <= i < top.len() && !(model::has_task(ts, seq![top[i]]) && model::task_at(ts, seq![top[i]])->Some_0.params.len()
                    > 0) ==> {
                    ||| #[trigger] ls[i + 1] == "  "@ + top[i]
                    ||| ls[i + 1] == "  "@ + top[i] + " (+ subcommands)"@
                    ||| ls[i + 1] == "  "@ + top[i] + " <subcommand>"@
                }
        }),
{
    let top = model::children_of(ts, Seq::empty());
    let ls = listing_lines(ts);
    reveal_strlit("  ");
    assert forall|i: int| 0 <= i < top.len() implies (#[trigger] ls[i + 1]).len() >= 2 + top[i].len() && ls[i + 1].take(
        2 + top[i].len() as int,
    ) == "  "@ + top[i] by {
        let name = top[i];
        assert(ls[i + 1] == listing_entry(ts, name));
        let path = seq![name];
        let is_task = model::has_task(ts, path);
        let ns = model::is_ns(ts, path);
        let marker = if is_task && ns {
            name + " (+ subcommands)"@
        } else if !is_task && ns {
            name + " <subcommand>"@
        } else {
            name
        };
        assert(marker.take(name.len() as int) =~= name);
        let l = ls[i + 1];
        if is_task && model::task_at(ts, path)->Some_0.params.len() > 0 {
            let j = text::seq_join(model::task_at(ts, path)->Some_0.params, " "@);
            assert(l =~= "  "@ + marker + ("  "@ + j));
        }
        assert(l.take(2 + name.len() as int) =~= "  "@ + name);
    }
    assert forall|i: int|
        0 <= i < top.len() && model::has_task(ts, seq![top[i]]) && model::task_at(ts, seq![top[i]])->Some_0.params.len()
            > 0 implies ({
            let tail = "  "@ + text::seq_join(model::task_at(ts, seq![top[i]])->Some_0.params, " "@);
            (#[trigger] ls[i + 1]).len() >= tail.len() && ls[i + 1].skip(ls[i + 1].len() - tail.len()) == tail
        }) by {
        let name = top[i];
        let path = seq![name];
        assert(ls[i + 1] == listing_entry(ts, name));
        let is_task = model::has_task(ts, path);
        let ns = model::is_ns(ts, path);
        let marker = if is_task && ns {
            name + " (+ subcommands)"@
        } else if !is_task && ns {
            name + " <subcommand>"@
        } else {
            name
        };
        let tail = "  "@ + text::seq_join(model::task_at(ts, path)->Some_0.params, " "@);
        let l = ls[i + 1];
        assert(l =~= ("  "@ + marker) + tail);
        assert(l.skip(l.len() - tail.len()) =~= tail);
    }
    assert forall|i: int|
        0 <= i < top.len() && !(model::has_task(ts, seq![top[i]]) && model::task_at(ts, seq![top[i]])->Some_0.params.len()
            > 0) implies {
            ||| #[trigger] ls[i + 1] == "  "@ + top[i]
            ||| ls[i + 1] == "  "@ + top[i] + " (+ subcommands)"@
            ||| ls[i + 1] == "  "@ + top[i] + " <subcommand>"@
        } by {
        assert(ls[i + 1] == listing_entry(ts, top[i]));
        assert(("  "@ + top[i] + " (+ subcommands)"@) =~= "  "@ + (top[i] + " (+ subcommands)"@));
        assert(("  "@ + top[i] + " <subcommand>"@) =~= "  "@ + (top[i] + " <subcommand>"@));
    }
}

} // verus!
