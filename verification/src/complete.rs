//! Shell completion: the script alors ships, and the candidate lookup it calls
//! back into (`alors --complete`).
//!
//! The script is a dumb pipe. Rather than teaching the shell the task model,
//! it collects the words typed so far and asks the binary what fits next, so a
//! new flag or a task added a second ago needs no regenerating.
use vstd::prelude::*;
use crate::model::{self, Taskfile};
use crate::text::chars_of;

verus! {

/// The shells `--completion-script` can emit a script for.
pub const SHELLS: [&'static str; 1] = ["zsh"];

/// The zsh completion script: it hands the words typed after `alors` to
/// `alors --complete` and offers back each line printed; when nothing is
/// printed it falls back to file names.
pub const ZSH_SCRIPT: &'static str = r#"#compdef alors
# zsh completion for alors.
# Every <TAB> asks `alors --complete` what fits after the words typed so far;
# when it has nothing to offer, the word is completed as a file name.
_alors() {
  local -a candidates
  candidates=("${(@f)$(alors --complete "${(@)words[2,CURRENT]}" 2>/dev/null)}")
  candidates=(${candidates:#})
  if (( ${#candidates} )); then
    compadd -- "${candidates[@]}"
  else
    _files
  fi
}
_alors "$@"
"#;

/// The flags offered when the first word starts with `-`, in help order.
pub open spec fn flags() -> Seq<Seq<char>> {
    seq![
        "--help"@,
        "--help-ai"@,
        "--version"@,
        "--completion-script"@,
        "--complete"@,
    ]
}

pub open spec fn shells() -> Seq<Seq<char>> {
    seq!["zsh"@]
}

/// `p` is a prefix of `s`.
pub open spec fn starts_with(s: Seq<char>, p: Seq<char>) -> bool {
    p.len() <= s.len() && s.take(p.len() as int) == p
}

/// The items that start with `prefix`, in order.
pub open spec fn fitting(items: Seq<Seq<char>>, prefix: Seq<char>) -> Seq<Seq<char>>
    decreases items.len(),
{
    if items.len() == 0 {
        Seq::empty()
    } else {
        let rest = fitting(items.drop_last(), prefix);
        if starts_with(items.last(), prefix) {
            rest.push(items.last())
        } else {
            rest
        }
    }
}

/// What completion offers for `words` (everything typed after `alors`, the
/// word under the cursor last), given the taskfile's tasks if there is one.
pub open spec fn completion(tasks: Option<Seq<model::TaskView>>, words: Seq<Seq<char>>) -> Seq<Seq<char>> {
    let cur = if words.len() == 0 { Seq::empty() } else { words.last() };
    let typed = if words.len() == 0 { Seq::empty() } else { words.drop_last() };
    if typed.len() == 0 && cur.len() > 0 && cur[0] == '-' {
        // flags, only in first position and once a `-` is typed
        fitting(flags(), cur)
    } else if typed == seq!["--taskfile"@] {
        // a path: left to the shell's own file completion
        Seq::empty()
    } else {
        let typed = if typed.len() >= 2 && typed[0] == "--taskfile"@ { typed.skip(2) } else { typed };
        if typed.len() > 0 && typed[0] == "--completion-script"@ {
            if typed.len() == 1 {
                fitting(shells(), cur)
            } else {
                Seq::empty()
            }
        } else if typed.len() > 0 && typed[0].len() > 0 && typed[0][0] == '-' {
            // every other flag stands alone
            Seq::empty()
        } else {
            match tasks {
                Some(ts) => fitting(model::children_of(ts, typed), cur),
                None => Seq::empty(),
            }
        }
    }
}

/// Whether `s` starts with `p`.
fn has_prefix(s: &String, p: &String) -> (r: bool)
    ensures
        r == starts_with(s@, p@),
{
    let sc = chars_of(s.as_str());
    let pc = chars_of(p.as_str());
    if pc.len() > sc.len() {
        return false;
    }
    let mut i: usize = 0;
    while i < pc.len()
        invariant
            sc@ == s@,
            pc@ == p@,
            pc.len() <= sc.len(),
            i <= pc.len(),
            forall|k: int| 0 <= k < i ==> sc@[k] == pc@[k],
        decreases pc.len() - i,
    {
        if sc[i] != pc[i] {
            assert(s@.take(p@.len() as int)[i as int] != p@[i as int]);
            return false;
        }
        i = i + 1;
    }
    assert(s@.take(p@.len() as int) =~= p@);
    true
}

/// The items that start with `prefix`, in order.
fn matching(items: &[String], prefix: &String) -> (r: Vec<String>)
    ensures
        r.deep_view() == fitting(items.deep_view(), prefix@),
{
    let mut out: Vec<String> = Vec::new();
    let mut i: usize = 0;
    while i < items.len()
        invariant
            i <= items.len(),
            out.deep_view() == fitting(items.deep_view().take(i as int), prefix@),
        decreases items.len() - i,
    {
        assert(items.deep_view().take(i + 1).drop_last() =~= items.deep_view().take(i as int));
        if has_prefix(&items[i], prefix) {
            let ghost before = out.deep_view();
            out.push(items[i].clone());
            assert(out.deep_view() =~= before.push(items.deep_view()[i as int]));
        }
        i = i + 1;
    }
    assert(items.deep_view().take(items.len() as int) =~= items.deep_view());
    out
}

fn flag_list() -> (r: Vec<String>)
    ensures
        r.deep_view() == flags(),
{
    let mut v: Vec<String> = Vec::new();
    v.push(String::from_str("--help"));
    v.push(String::from_str("--help-ai"));
    v.push(String::from_str("--version"));
    v.push(String::from_str("--completion-script"));
    v.push(String::from_str("--complete"));
    assert(v.deep_view() =~= flags());
    v
}

fn shell_list() -> (r: Vec<String>)
    ensures
        r.deep_view() == shells(),
{
    let mut v: Vec<String> = Vec::new();
    v.push(String::from_str("zsh"));
    assert(v.deep_view() =~= shells());
    v
}

/// Whether `s` is the text `t`.
fn is_text(s: &String, t: &str) -> (r: bool)
    ensures
        r == (s@ == t@),
{
    let other = String::from_str(t);
    *s == other
}

/// The completion script for `shell`, or `None` if it isn't one alors ships.
pub fn script(shell: &str) -> (r: Option<&'static str>)
    ensures
        r == (if shell@ == "zsh"@ { Some(ZSH_SCRIPT) } else { None::<&'static str> }),
{
    let s = String::from_str(shell);
    if is_text(&s, "zsh") {
        Some(ZSH_SCRIPT)
    } else {
        None
    }
}

/// Candidates for the word currently being completed.
///
/// `words` is everything typed after `alors`, the word under the cursor last
/// (empty when the cursor sits after a space). The result is already filtered
/// by that word. An empty result means "nothing to suggest here", which the
/// script turns into file completion: past a task's name the remaining words
/// are its arguments, and those are usually paths.
///
/// `taskfile` is whichever file those words point at: the one in the current
/// directory, or the one named by a leading `--taskfile`, which the caller
/// loads before calling.
pub fn candidates(taskfile: Option<&Taskfile>, words: &[String]) -> (r: Vec<String>)
    ensures
        r.deep_view() == completion(
            match taskfile {
                Some(t) => Some(t@.tasks),
                None => None,
            },
            words.deep_view(),
        ),
{
    let ghost ws = words.deep_view();
    let n = words.len();
    let cur = if n == 0 { String::new() } else { words[n - 1].clone() };
    let mut typed: Vec<String> = Vec::new();
    let mut i: usize = 0;
    while i + 1 < n
        invariant
            n == words.len(),
            ws == words.deep_view(),
            i <= n,
            n > 0 ==> i < n,
            typed@.len() == i,
            forall|k: int| 0 <= k < i ==> (#[trigger] typed@[k])@ == ws[k],
        decreases n - i,
    {
        typed.push(words[i].clone());
        i = i + 1;
    }
    proof {
        if n == 0 {
            assert(typed.deep_view() =~= Seq::<Seq<char>>::empty());
            assert(cur@ =~= Seq::<char>::empty());
        } else {
            assert(typed.deep_view() =~= ws.drop_last());
        }
    }
    let cur_chars = chars_of(cur.as_str());

    // Flags only make sense in first position, once a `-` is typed.
    if typed.len() == 0 && cur_chars.len() > 0 && cur_chars[0] == '-' {
        return matching(flag_list().as_slice(), &cur);
    }

    // `--taskfile` takes a path: the shell completes paths better.
    if typed.len() == 1 && is_text(&typed[0], "--taskfile") {
        assert(typed.deep_view() =~= seq!["--taskfile"@]);
        return Vec::new();
    }
    assert(typed.deep_view() != seq!["--taskfile"@] ==> !(typed.len() == 1 && typed.deep_view()[0] == "--taskfile"@));

    // Past that path, the words read as a task path in the file it names.
    let rest: Vec<String> = if typed.len() >= 2 && is_text(&typed[0], "--taskfile") {
        let mut r: Vec<String> = Vec::new();
        let mut k: usize = 2;
        while k < typed.len()
            invariant
                2 <= k <= typed.len(),
                r@.len() == k - 2,
                forall|m: int| 0 <= m < k - 2 ==> (#[trigger] r@[m])@ == typed@[m + 2]@,
            decreases typed.len() - k,
        {
            r.push(typed[k].clone());
            k = k + 1;
        }
        assert(r.deep_view() =~= typed.deep_view().skip(2));
        r
    } else {
        typed
    };

    // `--completion-script` takes a shell name.
    if rest.len() > 0 && is_text(&rest[0], "--completion-script") {
        if rest.len() == 1 {
            return matching(shell_list().as_slice(), &cur);
        }
        return Vec::new();
    }

    // Every other flag stands alone.
    if rest.len() > 0 {
        let first = chars_of(rest[0].as_str());
        if first.len() > 0 && first[0] == '-' {
            return Vec::new();
        }
    }

    // Otherwise the words typed so far are a task path; what fits next is
    // whatever sits directly under it.
    match taskfile {
        Some(tf) => {
            let kids = tf.children(rest.as_slice());
            matching(kids.as_slice(), &cur)
        },
        None => Vec::new(),
    }
}

} // verus!

verus! {

proof fn lemma_fitting(items: Seq<Seq<char>>, prefix: Seq<char>)
    ensures
        forall|x: Seq<char>| #[trigger] fitting(items, prefix).contains(x) ==> starts_with(x, prefix) && items.contains(x),
    decreases items.len(),
{
    if items.len() > 0 {
        let rest = items.drop_last();
        lemma_fitting(rest, prefix);
        assert forall|x: Seq<char>| #[trigger] fitting(items, prefix).contains(x) implies starts_with(x, prefix)
            && items.contains(x) by {
            let m = fitting(items, prefix);
            let k = choose|k: int| 0 <= k < m.len() && m[k] == x;
            if starts_with(items.last(), prefix) && k == m.len() - 1 {
                assert(items[items.len() - 1] == x);
            } else {
                assert(fitting(rest, prefix)[k] == x);
                assert(fitting(rest, prefix).contains(x));
                let j = choose|j: int| 0 <= j < rest.len() && rest[j] == x;
                assert(items[j] == x);
            }
        }
    }
}

/// Every candidate starts with the word being completed.
pub proof fn law_candidates_fit_the_word(tasks: Option<Seq<model::TaskView>>, words: Seq<Seq<char>>)
    ensures
        forall|c: Seq<char>| #[trigger] completion(tasks, words).contains(c) ==> starts_with(
            c,
            if words.len() == 0 { Seq::empty() } else { words.last() },
        ),
{
    let cur = if words.len() == 0 { Seq::<char>::empty() } else { words.last() };
    let typed = if words.len() == 0 { Seq::<Seq<char>>::empty() } else { words.drop_last() };
    let t2 = if typed.len() >= 2 && typed[0] == "--taskfile"@ { typed.skip(2) } else { typed };
    lemma_fitting(flags(), cur);
    lemma_fitting(shells(), cur);
    if let Some(ts) = tasks {
        lemma_fitting(model::children_of(ts, t2), cur);
    }
}

/// With no flag among the words, the candidates are exactly the names under
/// the path typed so far that fit the current word: each extends that path
/// to a task or namespace, and past a task with nothing under it there is
/// nothing to offer.
pub proof fn law_candidates_extend_the_path(ts: Seq<model::TaskView>, words: Seq<Seq<char>>)
    requires
        words.len() > 0,
        forall|k: int| 0 <= k < words.len() ==> !((#[trigger] words[k]).len() > 0 && words[k][0] == '-'),
    ensures
        completion(Some(ts), words) == fitting(model::children_of(ts, words.drop_last()), words.last()),
        forall|c: Seq<char>| #[trigger] completion(Some(ts), words).contains(c) ==> model::is_node(
            ts,
            words.drop_last().push(c),
        ),
        !model::is_ns(ts, words.drop_last()) ==> completion(Some(ts), words).len() == 0,
{
    let typed = words.drop_last();
    let cur = words.last();
    assert(cur == words[words.len() - 1]);
    if typed.len() > 0 {
        assert(typed[0] == words[0]);
        if typed[0] == "--taskfile"@ || typed[0] == "--completion-script"@ {
            reveal_strlit("--taskfile");
            reveal_strlit("--completion-script");
            assert(words[0][0] == '-');
        }
        if typed =~= seq!["--taskfile"@] {
            reveal_strlit("--taskfile");
            assert(words[0] == "--taskfile"@);
            assert(words[0][0] == '-');
        }
    }
    let kids = model::children_of(ts, typed);
    lemma_fitting(kids, cur);
    model::law_children_listing(ts, typed);
    assert forall|c: Seq<char>| #[trigger] completion(Some(ts), words).contains(c) implies model::is_node(
        ts,
        typed.push(c),
    ) by {
        assert(kids.contains(c));
        let i = choose|i: int| 0 <= i < ts.len() && model::strict_prefix(typed, (#[trigger] ts[i]).path) && ts[i].path[typed.len() as int] == c;
        let q = typed.push(c);
        assert(ts[i].path.take(q.len() as int) =~= q);
        if q.len() < ts[i].path.len() {
            assert(model::strict_prefix(q, ts[i].path));
        } else {
            assert(ts[i].path =~= q);
        }
    }
    if !model::is_ns(ts, typed) {
        if kids.len() > 0 {
            assert(kids.contains(kids[0]));
            let i = choose|i: int| 0 <= i < ts.len() && model::strict_prefix(typed, (#[trigger] ts[i]).path) && ts[i].path[typed.len() as int] == kids[0];
        }
        assert(fitting(kids, cur).len() == 0) by {
            if fitting(kids, cur).len() > 0 {
                assert(fitting(kids, cur).contains(fitting(kids, cur)[0]));
            }
        }
    }
}


/// Every name that is in `items` and starts with `prefix` is kept.
proof fn lemma_fitting_keeps(items: Seq<Seq<char>>, prefix: Seq<char>)
    ensures
        forall|x: Seq<char>| items.contains(x) && starts_with(x, prefix) ==> #[trigger] fitting(items, prefix).contains(x),
    decreases items.len(),
{
    if items.len() > 0 {
        let rest = items.drop_last();
        lemma_fitting_keeps(rest, prefix);
        assert forall|x: Seq<char>| items.contains(x) && starts_with(x, prefix) implies #[trigger] fitting(items, prefix).contains(x) by {
            let k = choose|k: int| 0 <= k < items.len() && items[k] == x;
            let m = fitting(items, prefix);
            if k == items.len() - 1 {
                assert(m[m.len() - 1] == x);
            } else {
                assert(rest[k] == x);
                assert(rest.contains(x));
                let r = fitting(rest, prefix);
                assert(r.contains(x));
                let q = choose|q: int| 0 <= q < r.len() && r[q] == x;
                if starts_with(items.last(), prefix) {
                    assert(m == r.push(items.last()));
                } else {
                    assert(m == r);
                }
                assert(m[q] == x);
            }
        }
    }
}

/// `words` after a leading `--taskfile <path>`.
pub open spec fn with_taskfile(path: Seq<char>, words: Seq<Seq<char>>) -> Seq<Seq<char>> {
    seq!["--taskfile"@, path] + words
}

/// A leading `--taskfile <path>` only says which taskfile to complete
/// against: the words after it are a task path exactly as they would be
/// without it. So, with no flag after the path, the candidates are exactly
/// the names directly under the path typed after it that start with the
/// current word, and there are none when that path is not a namespace.
pub proof fn law_taskfile_prefix_is_transparent(
    ts: Seq<model::TaskView>,
    p: Seq<char>,
    ws: Seq<Seq<char>>,
    cur: Seq<char>,
)
    requires
        forall|k: int| 0 <= k < ws.len() ==> !((#[trigger] ws[k]).len() > 0 && ws[k][0] == '-'),
        !(cur.len() > 0 && cur[0] == '-'),
    ensures
        completion(Some(ts), with_taskfile(p, ws.push(cur))) == completion(Some(ts), ws.push(cur)),
        forall|c: Seq<char>| #[trigger] completion(Some(ts), with_taskfile(p, ws.push(cur))).contains(c) <==> (
        model::has_child(ts, ws, c) && starts_with(c, cur)),
        !model::is_ns(ts, ws) ==> completion(Some(ts), with_taskfile(p, ws.push(cur))).len() == 0,
{
    let words = seq!["--taskfile"@, p] + ws.push(cur);
    let typed = words.drop_last();
    assert(typed =~= seq!["--taskfile"@, p] + ws);
    assert(words.last() == cur);
    assert(typed.skip(2) =~= ws);
    assert(typed[0] == "--taskfile"@);
    assert(typed != seq!["--taskfile"@]) by {
        assert(typed.len() != 1);
    }
    if ws.len() > 0 {
        assert(ws[0] == typed.skip(2)[0]);
        if ws[0] == "--completion-script"@ {
            reveal_strlit("--completion-script");
            assert(ws[0][0] == '-');
        }
    }
    let w2 = ws.push(cur);
    assert forall|k: int| 0 <= k < w2.len() implies !((#[trigger] w2[k]).len() > 0 && w2[k][0] == '-') by {
        if k < ws.len() {
            assert(w2[k] == ws[k]);
        }
    }
    law_candidates_extend_the_path(ts, w2);
    assert(w2.drop_last() =~= ws);
    let kids = model::children_of(ts, ws);
    lemma_fitting(kids, cur);
    lemma_fitting_keeps(kids, cur);
    model::law_children_listing(ts, ws);
}

} // verus!
