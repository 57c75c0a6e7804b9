//! The taskfile grammar: a taskfile's text to its tasks, imports and
//! constants.
//!
//! Lines are separated by `\n` (a trailing `\r` is dropped) and numbered from
//! 1. Each line is one of:
//!
//! - blank (only spaces and tabs), or a comment (`#` in the first column):
//!   ignored;
//! - indented (starting with a space or tab): a body line of the task above,
//!   kept without its leading whitespace;
//! - `import "path"` or `import "path" as ns`: an import directive (the word
//!   `import`, whitespace, then a quoted path);
//! - `name := value`: a constant, whose value is a non-empty literal (no
//!   `{{`) and whose name is used once per file;
//! - `name params...: deps`: a task header. `name` is a `::`-separated path of
//!   identifiers, each parameter an identifier used once. The dependencies
//!   are comma-separated; each is a task path followed by its arguments,
//!   separated by whitespace, where `"..."` quotes a value holding spaces or
//!   commas.
//!
//! The header's `:` is the first colon that is not part of a `::`; if the
//! character after it is `=`, the line is a constant.
//!
//! After the whole file is read, every `{{name}}` in a body line or a
//! dependency argument, where `name` is a constant that the task does not
//! also declare as a parameter, is replaced by the constant's value. Other
//! `{{...}}` are left as written.
use vstd::prelude::*;
use crate::model::{self, Dep, DepView, Import, ImportView, Task, TaskView, Taskfile};
use crate::text::{self, string_from_chars};

verus! {

pub open spec fn is_ws(c: char) -> bool {
    c == ' ' || c == '\t'
}

pub open spec fn is_alnum(c: char) -> bool {
    ('a' <= c && c <= 'z') || ('A' <= c && c <= 'Z') || ('0' <= c && c <= '9')
}

/// Identifiers: a letter, digit or `_`, then letters, digits, `_`, `-`, `.`.
pub open spec fn is_ident(s: Seq<char>) -> bool {
    &&& s.len() > 0
    &&& (is_alnum(s[0]) || s[0] == '_')
    &&& forall|i: int| 0 <= i < s.len() ==> is_alnum(#[trigger] s[i]) || s[i] == '_' || s[i] == '-' || s[i] == '.'
}

pub open spec fn trim_start(s: Seq<char>) -> Seq<char>
    decreases s.len(),
{
    if s.len() > 0 && is_ws(s[0]) {
        trim_start(s.drop_first())
    } else {
        s
    }
}

pub open spec fn trim_end(s: Seq<char>) -> Seq<char>
    decreases s.len(),
{
    if s.len() > 0 && is_ws(s.last()) {
        trim_end(s.drop_last())
    } else {
        s
    }
}

pub open spec fn trim(s: Seq<char>) -> Seq<char> {
    trim_end(trim_start(s))
}

/// `s` cut at every `c`.
pub open spec fn split_char(s: Seq<char>, c: char) -> Seq<Seq<char>>
    decreases s.len(),
{
    if s.len() == 0 {
        seq![Seq::empty()]
    } else {
        let p = split_char(s.drop_last(), c);
        if s.last() == c {
            p.push(Seq::empty())
        } else {
            p.update(p.len() - 1, p.last().push(s.last()))
        }
    }
}

/// Splitting always yields at least one piece.
pub proof fn lemma_split_char_nonempty(s: Seq<char>, c: char)
    ensures
        split_char(s, c).len() >= 1,
    decreases s.len(),
{
    if s.len() > 0 {
        lemma_split_char_nonempty(s.drop_last(), c);
    }
}

fn is_ws_exec(c: char) -> (r: bool)
    ensures
        r == is_ws(c),
{
    c == ' ' || c == '\t'
}

fn is_alnum_exec(c: char) -> (r: bool)
    ensures
        r == is_alnum(c),
{
    ('a' <= c && c <= 'z') || ('A' <= c && c <= 'Z') || ('0' <= c && c <= '9')
}

fn is_ident_exec(s: &[char]) -> (r: bool)
    ensures
        r == is_ident(s@),
{
    if s.len() == 0 {
        return false;
    }
    if !(is_alnum_exec(s[0]) || s[0] == '_') {
        return false;
    }
    let mut i: usize = 0;
    while i < s.len()
        invariant
            i <= s.len(),
            forall|k: int| 0 <= k < i ==> is_alnum(#[trigger] s@[k]) || s@[k] == '_' || s@[k] == '-' || s@[k] == '.',
        decreases s.len() - i,
    {
        let c = s[i];
        if !(is_alnum_exec(c) || c == '_' || c == '-' || c == '.') {
            return false;
        }
        i = i + 1;
    }
    true
}

/// The characters `s[a..b]`.
fn slice_chars(s: &[char], a: usize, b: usize) -> (r: Vec<char>)
    requires
        a <= b <= s.len(),
    ensures
        r@ == s@.subrange(a as int, b as int),
{
    let mut r: Vec<char> = Vec::new();
    let mut i = a;
    while i < b
        invariant
            a <= i <= b,
            b <= s.len(),
            r@ == s@.subrange(a as int, i as int),
        decreases b - i,
    {
        r.push(s[i]);
        i = i + 1;
        assert(r@ =~= s@.subrange(a as int, i as int));
    }
    r
}

/// `s` without leading and trailing spaces and tabs.
fn trim_exec(s: &[char]) -> (r: Vec<char>)
    ensures
        r@ == trim(s@),
{
    let mut a: usize = 0;
    assert(s@.subrange(0, s@.len() as int) =~= s@);
    while a < s.len() && is_ws_exec(s[a])
        invariant
            a <= s.len(),
            trim_start(s@) == trim_start(s@.subrange(a as int, s@.len() as int)),
        decreases s.len() - a,
    {
        assert(s@.subrange(a as int, s@.len() as int).drop_first() =~= s@.subrange(a + 1, s@.len() as int));
        a = a + 1;
    }
    let ghost ts = s@.subrange(a as int, s@.len() as int);
    assert(trim_start(s@) == ts);
    let mut b: usize = s.len();
    while b > a && is_ws_exec(s[b - 1])
        invariant
            a <= b <= s.len(),
            trim_end(ts) == trim_end(s@.subrange(a as int, b as int)),
        decreases b,
    {
        assert(s@.subrange(a as int, b as int).drop_last() =~= s@.subrange(a as int, b - 1));
        b = b - 1;
    }
    slice_chars(s, a, b)
}

/// The character sequences held by `v`.
pub open spec fn lines_view(v: Seq<Vec<char>>) -> Seq<Seq<char>> {
    Seq::new(v.len(), |i: int| v[i]@)
}

/// `s` cut at every `c`.
fn split_char_exec(s: &[char], c: char) -> (r: Vec<Vec<char>>)
    ensures
        lines_view(r@) == split_char(s@, c),
{
    let mut parts: Vec<Vec<char>> = Vec::new();
    let mut cur: Vec<char> = Vec::new();
    let mut i: usize = 0;
    assert(s@.take(0) =~= Seq::<char>::empty());
    while i < s.len()
        invariant
            i <= s.len(),
            lines_view(parts@).push(cur@) == split_char(s@.take(i as int), c),
        decreases s.len() - i,
    {
        let ghost pre = s@.take(i as int);
        assert(s@.take(i + 1).drop_last() =~= pre);
        let x = s[i];
        if x == c {
            let done = cur;
            let ghost pv = lines_view(parts@);
            parts.push(done);
            assert(lines_view(parts@) =~= pv.push(done@));
            cur = Vec::new();
            assert(lines_view(parts@).push(cur@) =~= split_char(s@.take(i + 1), c));
        } else {
            let ghost pv = lines_view(parts@);
            cur.push(x);
            assert(pv.push(cur@) =~= split_char(pre, c).update(pv.len() as int, split_char(pre, c).last().push(x)));
        }
        i = i + 1;
    }
    assert(s@.take(s.len() as int) =~= s@);
    let ghost pv = lines_view(parts@);
    parts.push(cur);
    assert(lines_view(parts@) =~= pv.push(cur@));
    parts
}

} // verus!

verus! {

/// A `::`-separated path of identifiers, or `None` if `s` is not one.
pub open spec fn parse_path(s: Seq<char>) -> Option<Seq<Seq<char>>> {
    let parts = split_char(s, ':');
    if parts.len() % 2 == 1 && (forall|k: int| 0 <= k < parts.len() && k % 2 == 1 ==> (#[trigger] parts[k]).len() == 0)
        && (forall|k: int| 0 <= k < parts.len() && k % 2 == 0 ==> is_ident(#[trigger] parts[k])) {
        Some(Seq::new(((parts.len() + 1) / 2) as nat, |k: int| parts[2 * k]))
    } else {
        None
    }
}

/// The strings held by `v`.
pub open spec fn strings_view(v: Seq<String>) -> Seq<Seq<char>> {
    Seq::new(v.len(), |i: int| v[i]@)
}

fn parse_path_exec(s: &[char]) -> (r: Option<Vec<String>>)
    ensures
        match r {
            Some(v) => parse_path(s@) == Some(v.deep_view()),
            None => parse_path(s@) is None,
        },
{
    let parts = split_char_exec(s, ':');
    let ghost pv = lines_view(parts@);
    proof { lemma_split_char_nonempty(s@, ':'); }
    if parts.len() % 2 != 1 {
        return None;
    }
    let mut k: usize = 0;
    while k < parts.len()
        invariant
            pv == lines_view(parts@),
            pv == split_char(s@, ':'),
            pv.len() % 2 == 1,
            k <= parts.len(),
            forall|j: int| 0 <= j < k && j % 2 == 1 ==> (#[trigger] pv[j]).len() == 0,
            forall|j: int| 0 <= j < k && j % 2 == 0 ==> is_ident(#[trigger] pv[j]),
        decreases parts.len() - k,
    {
        if k % 2 == 1 {
            if parts[k].len() != 0 {
                assert(pv[k as int].len() != 0);
                assert(!(forall|j: int| 0 <= j < pv.len() && j % 2 == 1 ==> (#[trigger] pv[j]).len() == 0));
                return None;
            }
        } else {
            if !is_ident_exec(parts[k].as_slice()) {
                assert(!is_ident(pv[k as int]));
                assert(!(forall|j: int| 0 <= j < pv.len() && j % 2 == 0 ==> is_ident(#[trigger] pv[j])));
                return None;
            }
        }
        k = k + 1;
    }
    let mut out: Vec<String> = Vec::new();
    let half = parts.len() / 2 + 1;
    let mut j: usize = 0;
    while j < half
        invariant
            pv == lines_view(parts@),
            pv.len() % 2 == 1,
            half == (pv.len() + 1) / 2,
            half == parts.len() / 2 + 1,
            j <= half,
            out@.len() == j,
            forall|m: int| 0 <= m < j ==> (#[trigger] out@[m])@ == pv[2 * m],
        decreases half - j,
    {
        assert(2 * j < parts.len()) by (nonlinear_arith)
            requires j < half, half == parts.len() / 2 + 1, parts.len() % 2 == 1;
        out.push(string_from_chars(parts[2 * j].as_slice()));
        j = j + 1;
    }
    assert(out.deep_view() =~= Seq::new(((pv.len() + 1) / 2) as nat, |m: int| pv[2 * m]));
    Some(out)
}

/// The state of the word splitter: finished comma-separated items (each a
/// list of words), the words of the current item, the current word, and
/// whether a word or a quoted run is open.
pub struct Tok {
    pub items: Seq<Seq<Seq<char>>>,
    pub words: Seq<Seq<char>>,
    pub cur: Seq<char>,
    pub in_word: bool,
    pub in_quote: bool,
}

pub open spec fn tok_init() -> Tok {
    Tok { items: Seq::empty(), words: Seq::empty(), cur: Seq::empty(), in_word: false, in_quote: false }
}

/// Ends the current word, if one is open.
pub open spec fn tok_flush(t: Tok) -> Tok {
    if t.in_word {
        Tok { items: t.items, words: t.words.push(t.cur), cur: Seq::empty(), in_word: false, in_quote: t.in_quote }
    } else {
        t
    }
}

pub open spec fn tok_step(t: Tok, c: char) -> Tok {
    if t.in_quote {
        if c == '"' {
            Tok { in_quote: false, ..t }
        } else {
            Tok { cur: t.cur.push(c), ..t }
        }
    } else if c == '"' {
        Tok { in_quote: true, in_word: true, ..t }
    } else if c == ',' {
        let f = tok_flush(t);
        Tok { items: f.items.push(f.words), words: Seq::empty(), ..f }
    } else if is_ws(c) {
        tok_flush(t)
    } else {
        Tok { cur: t.cur.push(c), in_word: true, ..t }
    }
}

pub open spec fn tok_fold(s: Seq<char>) -> Tok
    decreases s.len(),
{
    if s.len() == 0 {
        tok_init()
    } else {
        tok_step(tok_fold(s.drop_last()), s.last())
    }
}

/// `s` split into comma-separated items of whitespace-separated words, where
/// `"..."` quotes spaces and commas; `None` if a quote is left open.
pub open spec fn tokenize(s: Seq<char>) -> Option<Seq<Seq<Seq<char>>>> {
    let t = tok_fold(s);
    if t.in_quote {
        None
    } else {
        let f = tok_flush(t);
        Some(f.items.push(f.words))
    }
}

pub open spec fn items_view(v: Seq<Vec<Vec<char>>>) -> Seq<Seq<Seq<char>>> {
    Seq::new(v.len(), |i: int| lines_view(v[i]@))
}

fn tokenize_exec(s: &[char]) -> (r: Option<Vec<Vec<Vec<char>>>>)
    ensures
        match r {
            Some(v) => tokenize(s@) == Some(items_view(v@)),
            None => tokenize(s@) is None,
        },
{
    let mut items: Vec<Vec<Vec<char>>> = Vec::new();
    let mut words: Vec<Vec<char>> = Vec::new();
    let mut cur: Vec<char> = Vec::new();
    let mut in_word = false;
    let mut in_quote = false;
    let mut i: usize = 0;
    assert(s@.take(0) =~= Seq::<char>::empty());
    assert(items_view(items@) =~= Seq::<Seq<Seq<char>>>::empty());
    assert(lines_view(words@) =~= Seq::<Seq<char>>::empty());
    while i < s.len()
        invariant
            i <= s.len(),
            tok_fold(s@.take(i as int)) == (Tok {
                items: items_view(items@),
                words: lines_view(words@),
                cur: cur@,
                in_word,
                in_quote,
            }),
        decreases s.len() - i,
    {
        assert(s@.take(i + 1).drop_last() =~= s@.take(i as int));
        let c = s[i];
        let ghost iv = items_view(items@);
        let ghost wv = lines_view(words@);
        if in_quote {
            if c == '"' {
                in_quote = false;
            } else {
                cur.push(c);
            }
        } else if c == '"' {
            in_quote = true;
            in_word = true;
        } else if c == ',' {
            if in_word {
                let w = cur;
                words.push(w);
                assert(lines_view(words@) =~= wv.push(w@));
                cur = Vec::new();
                in_word = false;
            }
            let item = words;
            let ghost wv2 = lines_view(item@);
            items.push(item);
            assert(items_view(items@) =~= iv.push(wv2));
            words = Vec::new();
            assert(lines_view(words@) =~= Seq::<Seq<char>>::empty());
        } else if is_ws_exec(c) {
            if in_word {
                let w = cur;
                words.push(w);
                assert(lines_view(words@) =~= wv.push(w@));
                cur = Vec::new();
                in_word = false;
            }
        } else {
            cur.push(c);
            in_word = true;
        }
        i = i + 1;
    }
    assert(s@.take(s.len() as int) =~= s@);
    if in_quote {
        return None;
    }
    if in_word {
        let ghost wv = lines_view(words@);
        let w = cur;
        words.push(w);
        assert(lines_view(words@) =~= wv.push(w@));
    }
    let ghost iv = items_view(items@);
    let ghost wv2 = lines_view(words@);
    items.push(words);
    assert(items_view(items@) =~= iv.push(wv2));
    Some(items)
}

/// Whether position `i` holds a `:` that is not part of a `::`.
pub open spec fn single_colon_at(s: Seq<char>, i: int) -> bool {
    &&& s[i] == ':'
    &&& !(i + 1 < s.len() && s[i + 1] == ':')
    &&& !(i > 0 && s[i - 1] == ':')
}

/// The first single `:` at or after `i`.
pub open spec fn find_colon(s: Seq<char>, i: nat) -> Option<nat>
    decreases s.len() - i,
{
    if i >= s.len() {
        None
    } else if single_colon_at(s, i as int) {
        Some(i)
    } else {
        find_colon(s, i + 1)
    }
}

fn find_colon_exec(s: &[char]) -> (r: Option<usize>)
    ensures
        match r {
            Some(i) => find_colon(s@, 0) == Some(i as nat) && i < s.len(),
            None => find_colon(s@, 0) is None,
        },
{
    let mut i: usize = 0;
    while i < s.len()
        invariant
            i <= s.len(),
            find_colon(s@, 0) == find_colon(s@, i as nat),
        decreases s.len() - i,
    {
        if s[i] == ':' && !(i + 1 < s.len() && s[i + 1] == ':') && !(i > 0 && s[i - 1] == ':') {
            return Some(i);
        }
        i = i + 1;
    }
    None
}

} // verus!

verus! {

/// The first `c` at or after `i`.
pub open spec fn find_char(s: Seq<char>, c: char, i: nat) -> Option<nat>
    decreases s.len() - i,
{
    if i >= s.len() {
        None
    } else if s[i as int] == c {
        Some(i)
    } else {
        find_char(s, c, i + 1)
    }
}

fn find_char_exec(s: &[char], c: char) -> (r: Option<usize>)
    ensures
        match r {
            Some(i) => find_char(s@, c, 0) == Some(i as nat) && i < s.len(),
            None => find_char(s@, c, 0) is None,
        },
{
    let mut i: usize = 0;
    while i < s.len()
        invariant
            i <= s.len(),
            find_char(s@, c, 0) == find_char(s@, c, i as nat),
        decreases s.len() - i,
    {
        if s[i] == c {
            return Some(i);
        }
        i = i + 1;
    }
    None
}

/// `s` holds `{{` somewhere.
pub open spec fn has_open_braces(s: Seq<char>) -> bool {
    exists|k: int| 0 <= k && k + 1 < s.len() && s[k] == '{' && #[trigger] s[k + 1] == '{'
}

fn has_open_braces_exec(s: &[char]) -> (r: bool)
    ensures
        r == has_open_braces(s@),
{
    let mut k: usize = 0;
    while k < s.len() && k + 1 < s.len()
        invariant
            k <= s.len(),
            forall|j: int| 0 <= j < k && j + 1 < s@.len() ==> !(s@[j] == '{' && #[trigger] s@[j + 1] == '{'),
        decreases s.len() - k,
    {
        if s[k] == '{' && s[k + 1] == '{' {
            return true;
        }
        k = k + 1;
    }
    false
}

/// What one line of a taskfile is.
pub enum Line {
    Blank,
    Comment,
    Body(Seq<char>),
    Import(Seq<char>, Option<Seq<Seq<char>>>),
    Const(Seq<char>, Seq<char>),
    Header(Seq<Seq<char>>, Seq<Seq<char>>, Seq<DepView>),
    Bad(Seq<char>),
}

pub open spec fn all_ws(s: Seq<char>) -> bool {
    forall|i: int| 0 <= i < s.len() ==> is_ws(#[trigger] s[i])
}

pub open spec fn strip_cr(s: Seq<char>) -> Seq<char> {
    if s.len() > 0 && s.last() == '\r' {
        s.drop_last()
    } else {
        s
    }
}

pub open spec fn import_word() -> Seq<char> {
    seq!['i', 'm', 'p', 'o', 'r', 't']
}

/// The word `import`, whitespace, then a `"`.
pub open spec fn is_import_line(l: Seq<char>) -> bool {
    &&& l.len() > 6
    &&& l.take(6) == import_word()
    &&& is_ws(l[6])
    &&& trim_start(l.skip(6)).len() > 0
    &&& trim_start(l.skip(6))[0] == '"'
}

pub open spec fn parse_import(l: Seq<char>) -> Line {
    let r = trim_start(l.skip(6)).drop_first();
    match find_char(r, '"', 0) {
        None => Line::Bad("unterminated import path"@),
        Some(q) => {
            let path = r.take(q as int);
            let after = trim(r.skip(q + 1int));
            if path.len() == 0 {
                Line::Bad("empty import path"@)
            } else if after.len() == 0 {
                Line::Import(path, None)
            } else if after.len() > 2 && after[0] == 'a' && after[1] == 's' && is_ws(after[2]) {
                let name = trim(after.skip(2));
                match parse_path(name) {
                    Some(ns) => Line::Import(path, Some(ns)),
                    None => Line::Bad("invalid namespace `"@ + name + "`"@),
                }
            } else {
                Line::Bad("expected `as <namespace>` after the import path"@)
            }
        },
    }
}

pub open spec fn parse_const(name_text: Seq<char>, value_text: Seq<char>) -> Line {
    let name = trim(name_text);
    let value = trim(value_text);
    if !is_ident(name) {
        Line::Bad("invalid constant name `"@ + name + "`"@)
    } else if value.len() == 0 {
        Line::Bad("constant `"@ + name + "` has no value"@)
    } else if has_open_braces(value) {
        Line::Bad("constant `"@ + name + "` must be a literal value, without `{{`"@)
    } else {
        Line::Const(name, value)
    }
}

/// The first problem with the parameter list from `k` on, if any.
pub open spec fn params_error(ps: Seq<Seq<char>>, k: nat) -> Option<Seq<char>>
    decreases ps.len() - k,
{
    if k >= ps.len() {
        None
    } else if !is_ident(ps[k as int]) {
        Some("invalid parameter name `"@ + ps[k as int] + "`"@)
    } else if ps.take(k as int).contains(ps[k as int]) {
        Some("parameter `"@ + ps[k as int] + "` is declared twice"@)
    } else {
        params_error(ps, k + 1)
    }
}

/// The dependency items from `k` on, as dependencies.
pub open spec fn parse_deps(items: Seq<Seq<Seq<char>>>, k: nat) -> Result<Seq<DepView>, Seq<char>>
    decreases items.len() - k,
{
    if k >= items.len() {
        Ok(Seq::empty())
    } else {
        let item = items[k as int];
        if item.len() == 0 {
            Err("empty dependency"@)
        } else {
            match parse_path(item[0]) {
                None => Err("invalid dependency name `"@ + item[0] + "`"@),
                Some(p) => match parse_deps(items, k + 1) {
                    Ok(rest) => Ok(seq![DepView { path: p, args: item.drop_first() }] + rest),
                    Err(e) => Err(e),
                },
            }
        }
    }
}

pub open spec fn parse_header(head: Seq<char>, deps_text: Seq<char>) -> Line {
    match tokenize(head) {
        None => Line::Bad("unterminated quote"@),
        Some(items) => if items.len() != 1 {
            Line::Bad("unexpected `,` before the task's `:`"@)
        } else if items[0].len() == 0 {
            Line::Bad("missing task name before `:`"@)
        } else {
            let words = items[0];
            match parse_path(words[0]) {
                None => Line::Bad("invalid task name `"@ + words[0] + "`"@),
                Some(path) => {
                    let params = words.drop_first();
                    match params_error(params, 0) {
                        Some(m) => Line::Bad(m),
                        None => if trim(deps_text).len() == 0 {
                            Line::Header(path, params, Seq::empty())
                        } else {
                            match tokenize(deps_text) {
                                None => Line::Bad("unterminated quote"@),
                                Some(ditems) => match parse_deps(ditems, 0) {
                                    Ok(deps) => Line::Header(path, params, deps),
                                    Err(m) => Line::Bad(m),
                                },
                            }
                        },
                    }
                },
            }
        },
    }
}

/// What the line `raw` (without its `\n`) is.
pub open spec fn classify(raw: Seq<char>) -> Line {
    let l = strip_cr(raw);
    if all_ws(l) {
        Line::Blank
    } else if is_ws(l[0]) {
        Line::Body(trim_start(l))
    } else if l[0] == '#' {
        Line::Comment
    } else if is_import_line(l) {
        parse_import(l)
    } else {
        match find_colon(l, 0) {
            None => Line::Bad("expected a task (`name:`), a constant (`name := value`) or an import (`import \"file\"`)"@),
            Some(i) => if i + 1 < l.len() && l[i + 1int] == '=' {
                parse_const(l.take(i as int), l.skip(i + 2int))
            } else {
                parse_header(l.take(i as int), l.skip(i + 1int))
            },
        }
    }
}

} // verus!

verus! {

/// A line, as found.
enum LineItem {
    Blank,
    Comment,
    Body(String),
    Import(String, Option<Vec<String>>),
    Const(String, String),
    Header(Vec<String>, Vec<String>, Vec<Dep>),
    Bad(String),
}

impl View for LineItem {
    type V = Line;

    closed spec fn view(&self) -> Line {
        match self {
            LineItem::Blank => Line::Blank,
            LineItem::Comment => Line::Comment,
            LineItem::Body(s) => Line::Body(s@),
            LineItem::Import(p, a) => Line::Import(p@, model::alias_view(*a)),
            LineItem::Const(n, v) => Line::Const(n@, v@),
            LineItem::Header(p, ps, ds) => Line::Header(p.deep_view(), ps.deep_view(), model::deps_view(ds@)),
            LineItem::Bad(m) => Line::Bad(m@),
        }
    }
}

fn chars_eq(a: &[char], b: &[char]) -> (r: bool)
    ensures
        r == (a@ == b@),
{
    if a.len() != b.len() {
        return false;
    }
    let mut i: usize = 0;
    while i < a.len()
        invariant
            a.len() == b.len(),
            i <= a.len(),
            forall|k: int| 0 <= k < i ==> a@[k] == b@[k],
        decreases a.len() - i,
    {
        if a[i] != b[i] {
            return false;
        }
        i = i + 1;
    }
    assert(a@ =~= b@);
    true
}

/// `a`, then the characters `mid`, then `b`.
fn message3(a: &str, mid: &[char], b: &str) -> (r: String)
    ensures
        r@ == a@ + mid@ + b@,
{
    let mut r = String::from_str(a);
    let m = string_from_chars(mid);
    r.append(m.as_str());
    r.append(b);
    r
}

fn words_to_strings(ws: &[Vec<char>]) -> (r: Vec<String>)
    ensures
        r.deep_view() == lines_view(ws@),
{
    let mut out: Vec<String> = Vec::new();
    let mut i: usize = 0;
    while i < ws.len()
        invariant
            i <= ws.len(),
            out@.len() == i,
            forall|k: int| 0 <= k < i ==> (#[trigger] out@[k])@ == ws@[k]@,
        decreases ws.len() - i,
    {
        out.push(string_from_chars(ws[i].as_slice()));
        i = i + 1;
    }
    assert(out.deep_view() =~= lines_view(ws@));
    out
}

fn parse_import_exec(l: &[char]) -> (r: LineItem)
    requires
        is_import_line(l@),
    ensures
        r@ == parse_import(l@),
{
    // Skip `import` and the whitespace after it, then the opening quote.
    let mut a: usize = 6;
    assert(l@.skip(6) =~= l@.subrange(6, l@.len() as int));
    while a < l.len() && is_ws_exec(l[a])
        invariant
            6 <= a <= l.len(),
            trim_start(l@.skip(6)) == trim_start(l@.subrange(a as int, l@.len() as int)),
        decreases l.len() - a,
    {
        assert(l@.subrange(a as int, l@.len() as int).drop_first() =~= l@.subrange(a + 1, l@.len() as int));
        a = a + 1;
    }
    assert(trim_start(l@.skip(6)) == l@.subrange(a as int, l@.len() as int));
    let r = slice_chars(l, a + 1, l.len());
    assert(r@ =~= trim_start(l@.skip(6)).drop_first());
    match find_char_exec(r.as_slice(), '"') {
        None => LineItem::Bad(String::from_str("unterminated import path")),
        Some(q) => {
            let path = slice_chars(r.as_slice(), 0, q);
            let rest = slice_chars(r.as_slice(), q + 1, r.len());
            let after = trim_exec(rest.as_slice());
            assert(path@ =~= r@.take(q as int));
            assert(rest@ =~= r@.skip(q + 1));
            if path.len() == 0 {
                LineItem::Bad(String::from_str("empty import path"))
            } else if after.len() == 0 {
                LineItem::Import(string_from_chars(path.as_slice()), None)
            } else if after.len() > 2 && after[0] == 'a' && after[1] == 's' && is_ws_exec(after[2]) {
                let tail = slice_chars(after.as_slice(), 2, after.len());
                assert(tail@ =~= after@.skip(2));
                let name = trim_exec(tail.as_slice());
                match parse_path_exec(name.as_slice()) {
                    Some(ns) => LineItem::Import(string_from_chars(path.as_slice()), Some(ns)),
                    None => LineItem::Bad(message3("invalid namespace `", name.as_slice(), "`")),
                }
            } else {
                LineItem::Bad(String::from_str("expected `as <namespace>` after the import path"))
            }
        },
    }
}

fn parse_const_exec(name_text: &[char], value_text: &[char]) -> (r: LineItem)
    ensures
        r@ == parse_const(name_text@, value_text@),
{
    let name = trim_exec(name_text);
    let value = trim_exec(value_text);
    if !is_ident_exec(name.as_slice()) {
        LineItem::Bad(message3("invalid constant name `", name.as_slice(), "`"))
    } else if value.len() == 0 {
        LineItem::Bad(message3("constant `", name.as_slice(), "` has no value"))
    } else if has_open_braces_exec(value.as_slice()) {
        LineItem::Bad(message3("constant `", name.as_slice(), "` must be a literal value, without `{{`"))
    } else {
        LineItem::Const(string_from_chars(name.as_slice()), string_from_chars(value.as_slice()))
    }
}

fn params_error_exec(ps: &[Vec<char>]) -> (r: Option<String>)
    ensures
        match r {
            Some(m) => params_error(lines_view(ps@), 0) == Some(m@),
            None => params_error(lines_view(ps@), 0) is None,
        },
{
    let ghost pv = lines_view(ps@);
    let mut k: usize = 0;
    while k < ps.len()
        invariant
            pv == lines_view(ps@),
            k <= ps.len(),
            params_error(pv, 0) == params_error(pv, k as nat),
        decreases ps.len() - k,
    {
        assert(pv[k as int] == ps@[k as int]@);
        if !is_ident_exec(ps[k].as_slice()) {
            return Some(message3("invalid parameter name `", ps[k].as_slice(), "`"));
        }
        let mut j: usize = 0;
        while j < k
            invariant
                pv == lines_view(ps@),
                j <= k < ps.len(),
                params_error(pv, 0) == params_error(pv, k as nat),
                is_ident(pv[k as int]),
                forall|m: int| 0 <= m < j ==> pv[m] != pv[k as int],
            decreases k - j,
        {
            if chars_eq(ps[j].as_slice(), ps[k].as_slice()) {
                assert(pv.take(k as int)[j as int] == pv[k as int]);
                return Some(message3("parameter `", ps[k].as_slice(), "` is declared twice"));
            }
            j = j + 1;
        }
        assert(!pv.take(k as int).contains(pv[k as int]));
        k = k + 1;
    }
    None
}

fn parse_deps_exec(items: &[Vec<Vec<char>>]) -> (r: Result<Vec<Dep>, String>)
    ensures
        match r {
            Ok(ds) => parse_deps(items_view(items@), 0) == Ok::<Seq<DepView>, Seq<char>>(model::deps_view(ds@)),
            Err(m) => parse_deps(items_view(items@), 0) == Err::<Seq<DepView>, Seq<char>>(m@),
        },
{
    let ghost iv = items_view(items@);
    let mut out: Vec<Dep> = Vec::new();
    let mut k: usize = 0;
    assert(model::deps_view(out@) =~= Seq::<DepView>::empty());
    while k < items.len()
        invariant
            iv == items_view(items@),
            k <= items.len(),
            parse_deps(iv, 0) == match parse_deps(iv, k as nat) {
                Ok(rest) => Ok(model::deps_view(out@) + rest),
                Err(e) => Err(e),
            },
        decreases items.len() - k,
    {
        let item = &items[k];
        assert(iv[k as int] == lines_view(item@));
        if item.len() == 0 {
            return Err(String::from_str("empty dependency"));
        }
        match parse_path_exec(item[0].as_slice()) {
            None => {
                return Err(message3("invalid dependency name `", item[0].as_slice(), "`"));
            },
            Some(p) => {
                let mut args: Vec<String> = Vec::new();
                let mut j: usize = 1;
                while j < item.len()
                    invariant
                        1 <= j <= item.len(),
                        args@.len() == j - 1,
                        forall|m: int| 0 <= m < j - 1 ==> (#[trigger] args@[m])@ == item@[m + 1]@,
                    decreases item.len() - j,
                {
                    args.push(string_from_chars(item[j].as_slice()));
                    j = j + 1;
                }
                assert(args.deep_view() =~= lines_view(item@).drop_first());
                let dep = Dep { path: p, args };
                let ghost before = model::deps_view(out@);
                out.push(dep);
                assert(model::deps_view(out@) =~= before.push(dep@));
                proof {
                    match parse_deps(iv, (k + 1) as nat) {
                        Ok(rest) => {
                            assert(before + (seq![dep@] + rest) =~= before.push(dep@) + rest);
                        },
                        Err(e) => {},
                    }
                }
            },
        }
        k = k + 1;
    }
    Ok(out)
}

fn parse_header_exec(head: &[char], deps_text: &[char]) -> (r: LineItem)
    ensures
        r@ == parse_header(head@, deps_text@),
{
    let items = match tokenize_exec(head) {
        None => {
            return LineItem::Bad(String::from_str("unterminated quote"));
        },
        Some(items) => items,
    };
    if items.len() != 1 {
        return LineItem::Bad(String::from_str("unexpected `,` before the task's `:`"));
    }
    let words = &items[0];
    assert(items_view(items@)[0] == lines_view(words@));
    if words.len() == 0 {
        return LineItem::Bad(String::from_str("missing task name before `:`"));
    }
    let path = match parse_path_exec(words[0].as_slice()) {
        None => {
            return LineItem::Bad(message3("invalid task name `", words[0].as_slice(), "`"));
        },
        Some(p) => p,
    };
    let param_words = slice_words(words.as_slice(), 1);
    assert(lines_view(param_words@) =~= lines_view(words@).drop_first());
    match params_error_exec(param_words.as_slice()) {
        Some(m) => {
            return LineItem::Bad(m);
        },
        None => {},
    }
    let params = words_to_strings(param_words.as_slice());
    let trimmed = trim_exec(deps_text);
    if trimmed.len() == 0 {
        let deps: Vec<Dep> = Vec::new();
        assert(model::deps_view(deps@) =~= Seq::<DepView>::empty());
        return LineItem::Header(path, params, deps);
    }
    match tokenize_exec(deps_text) {
        None => LineItem::Bad(String::from_str("unterminated quote")),
        Some(ditems) => match parse_deps_exec(ditems.as_slice()) {
            Ok(deps) => LineItem::Header(path, params, deps),
            Err(m) => LineItem::Bad(m),
        },
    }
}

/// `ws[from..]`, copied.
fn slice_words(ws: &[Vec<char>], from: usize) -> (r: Vec<Vec<char>>)
    requires
        from <= ws.len(),
    ensures
        lines_view(r@) == lines_view(ws@).skip(from as int),
{
    let mut out: Vec<Vec<char>> = Vec::new();
    let mut i = from;
    while i < ws.len()
        invariant
            from <= i <= ws.len(),
            out@.len() == i - from,
            forall|k: int| 0 <= k < i - from ==> (#[trigger] out@[k])@ == ws@[k + from]@,
        decreases ws.len() - i,
    {
        out.push(slice_chars(ws[i].as_slice(), 0, ws[i].len()));
        assert(ws@[i as int]@.subrange(0, ws@[i as int]@.len() as int) =~= ws@[i as int]@);
        i = i + 1;
    }
    assert(lines_view(out@) =~= lines_view(ws@).skip(from as int));
    out
}

fn classify_exec(raw: &[char]) -> (r: LineItem)
    ensures
        r@ == classify(raw@),
{
    let n = if raw.len() > 0 && raw[raw.len() - 1] == '\r' { raw.len() - 1 } else { raw.len() };
    let l = slice_chars(raw, 0, n);
    assert(l@ =~= strip_cr(raw@));
    let mut i: usize = 0;
    while i < l.len() && is_ws_exec(l[i])
        invariant
            i <= l.len(),
            forall|k: int| 0 <= k < i ==> is_ws(#[trigger] l@[k]),
        decreases l.len() - i,
    {
        i = i + 1;
    }
    if i == l.len() {
        return LineItem::Blank;
    }
    assert(!all_ws(l@));
    if is_ws_exec(l[0]) {
        let t = trim_start_exec(l.as_slice());
        return LineItem::Body(string_from_chars(t.as_slice()));
    }
    if l[0] == '#' {
        return LineItem::Comment;
    }
    if is_import_line_exec(l.as_slice()) {
        return parse_import_exec(l.as_slice());
    }
    match find_colon_exec(l.as_slice()) {
        None => LineItem::Bad(String::from_str(
            "expected a task (`name:`), a constant (`name := value`) or an import (`import \"file\"`)",
        )),
        Some(c) => {
            let head = slice_chars(l.as_slice(), 0, c);
            assert(head@ =~= l@.take(c as int));
            if c + 1 < l.len() && l[c + 1] == '=' {
                let value = slice_chars(l.as_slice(), c + 2, l.len());
                assert(value@ =~= l@.skip(c + 2));
                parse_const_exec(head.as_slice(), value.as_slice())
            } else {
                let deps = slice_chars(l.as_slice(), c + 1, l.len());
                assert(deps@ =~= l@.skip(c + 1));
                parse_header_exec(head.as_slice(), deps.as_slice())
            }
        },
    }
}

fn trim_start_exec(s: &[char]) -> (r: Vec<char>)
    ensures
        r@ == trim_start(s@),
{
    let mut a: usize = 0;
    assert(s@.subrange(0, s@.len() as int) =~= s@);
    while a < s.len() && is_ws_exec(s[a])
        invariant
            a <= s.len(),
            trim_start(s@) == trim_start(s@.subrange(a as int, s@.len() as int)),
        decreases s.len() - a,
    {
        assert(s@.subrange(a as int, s@.len() as int).drop_first() =~= s@.subrange(a + 1, s@.len() as int));
        a = a + 1;
    }
    slice_chars(s, a, s.len())
}

fn is_import_line_exec(l: &[char]) -> (r: bool)
    ensures
        r == is_import_line(l@),
{
    if l.len() <= 6 {
        return false;
    }
    if !(l[0] == 'i' && l[1] == 'm' && l[2] == 'p' && l[3] == 'o' && l[4] == 'r' && l[5] == 't') {
        assert(l@.take(6) != import_word()) by {
            if l@.take(6) == import_word() {
                assert(l@.take(6)[0] == 'i' && l@.take(6)[1] == 'm' && l@.take(6)[2] == 'p');
                assert(l@.take(6)[3] == 'o' && l@.take(6)[4] == 'r' && l@.take(6)[5] == 't');
            }
        }
        return false;
    }
    assert(l@.take(6) =~= import_word());
    if !is_ws_exec(l[6]) {
        return false;
    }
    let rest = slice_chars(l, 6, l.len());
    assert(rest@ =~= l@.skip(6));
    let t = trim_start_exec(rest.as_slice());
    t.len() > 0 && t[0] == '"'
}

} // verus!

verus! {

/// The reading state: tasks and imports so far, the constants, whether the
/// last task is still taking body lines, and the first error.
pub struct PState {
    pub tasks: Seq<TaskView>,
    pub imports: Seq<ImportView>,
    pub consts: Seq<(Seq<char>, Seq<char>)>,
    pub open: bool,
    pub err: Option<(nat, Seq<char>)>,
}

pub open spec fn pstate_init() -> PState {
    PState { tasks: Seq::empty(), imports: Seq::empty(), consts: Seq::empty(), open: false, err: None }
}

pub open spec fn has_const(cs: Seq<(Seq<char>, Seq<char>)>, name: Seq<char>) -> bool {
    exists|i: int| 0 <= i < cs.len() && (#[trigger] cs[i]).0 == name
}

/// Reading line number `n`.
pub open spec fn pstep(st: PState, line: Line, n: nat) -> PState {
    if st.err is Some {
        st
    } else {
        match line {
            Line::Blank => st,
            Line::Comment => st,
            Line::Body(t) => if st.open {
                let last = st.tasks.last();
                PState {
                    tasks: st.tasks.update(
                        st.tasks.len() - 1,
                        TaskView { body: last.body.push(t), ..last },
                    ),
                    ..st
                }
            } else {
                PState { err: Some((n, "indented line outside a task"@)), ..st }
            },
            Line::Import(p, a) => PState {
                imports: st.imports.push(ImportView { path: p, alias: a, line: n }),
                open: false,
                ..st
            },
            Line::Const(name, value) => if has_const(st.consts, name) {
                PState { err: Some((n, "constant `"@ + name + "` is already defined"@)), ..st }
            } else {
                PState { consts: st.consts.push((name, value)), open: false, ..st }
            },
            Line::Header(path, params, deps) => if model::has_task(st.tasks, path) {
                PState { err: Some((n, "task `"@ + text::seq_join(path, "::"@) + "` is already defined"@)), ..st }
            } else {
                PState {
                    tasks: st.tasks.push(
                        TaskView { path, params, deps, body: Seq::empty(), source: Seq::empty(), line: n },
                    ),
                    open: true,
                    ..st
                }
            },
            Line::Bad(m) => PState { err: Some((n, m)), ..st },
        }
    }
}

/// Reading the lines from index `k` on.
pub open spec fn run(lines: Seq<Seq<char>>, k: nat, st: PState) -> PState
    decreases lines.len() - k,
{
    if k >= lines.len() {
        st
    } else {
        run(lines, k + 1, pstep(st, classify(lines[k as int]), k + 1))
    }
}

/// The value of the first constant named `name`, from index `k` on.
pub open spec fn lookup(cs: Seq<(Seq<char>, Seq<char>)>, name: Seq<char>, k: nat) -> Option<Seq<char>>
    decreases cs.len() - k,
{
    if k >= cs.len() {
        None
    } else if cs[k as int].0 == name {
        Some(cs[k as int].1)
    } else {
        lookup(cs, name, k + 1)
    }
}

/// The first `}}` at or after `i`.
pub open spec fn find_close(s: Seq<char>, i: nat) -> Option<nat>
    decreases s.len() - i,
{
    if i + 1 >= s.len() {
        None
    } else if s[i as int] == '}' && s[i + 1int] == '}' {
        Some(i)
    } else {
        find_close(s, i + 1)
    }
}

/// A closing `}}` found from `i` on lies at or after `i`, inside the text.
pub proof fn lemma_find_close(s: Seq<char>, i: nat)
    ensures
        find_close(s, i) matches Some(j) ==> i <= j && j + 1 < s.len() && s[j as int] == '}' && s[j + 1int] == '}',
    decreases s.len() - i,
{
    if i + 1 < s.len() && !(s[i as int] == '}' && s[i + 1int] == '}') {
        lemma_find_close(s, i + 1);
    }
}

/// `s` from `i` on, with each `{{name}}` naming a constant that is not one
/// of `params` replaced by the constant's value.
pub open spec fn subst_from(s: Seq<char>, i: nat, cs: Seq<(Seq<char>, Seq<char>)>, params: Seq<Seq<char>>) -> Seq<char>
    decreases s.len() - i,
{
    if i >= s.len() {
        Seq::empty()
    } else if i + 1 < s.len() && s[i as int] == '{' && s[i + 1int] == '{' {
        match find_close(s, i + 2) {
            None => s.skip(i as int),
            Some(j) => {
                proof {
                    lemma_find_close(s, i + 2);
                }
                let name = s.subrange(i + 2int, j as int);
                if !params.contains(name) && lookup(cs, name, 0) is Some {
                    lookup(cs, name, 0)->Some_0 + subst_from(s, j + 2, cs, params)
                } else {
                    s.subrange(i as int, i + 2int) + subst_from(s, i + 2, cs, params)
                }
            },
        }
    } else {
        seq![s[i as int]] + subst_from(s, i + 1, cs, params)
    }
}

pub open spec fn subst(s: Seq<char>, cs: Seq<(Seq<char>, Seq<char>)>, params: Seq<Seq<char>>) -> Seq<char> {
    subst_from(s, 0, cs, params)
}

/// A task with the constants substituted into its body and dependency
/// arguments.
pub open spec fn subst_task(t: TaskView, cs: Seq<(Seq<char>, Seq<char>)>) -> TaskView {
    TaskView {
        body: Seq::new(t.body.len(), |i: int| subst(t.body[i], cs, t.params)),
        deps: Seq::new(
            t.deps.len(),
            |j: int| DepView {
                path: t.deps[j].path,
                args: Seq::new(t.deps[j].args.len(), |a: int| subst(t.deps[j].args[a], cs, t.params)),
            },
        ),
        ..t
    }
}

/// What the text `src` parses to: a taskfile, or the first error's line and
/// message.
pub open spec fn parse_spec(src: Seq<char>) -> Result<model::TaskfileView, (nat, Seq<char>)> {
    let st = run(split_char(src, '\n'), 0, pstate_init());
    match st.err {
        Some(e) => Err(e),
        None => Ok(model::TaskfileView {
            tasks: Seq::new(st.tasks.len(), |i: int| subst_task(st.tasks[i], st.consts)),
            imports: st.imports,
        }),
    }
}

} // verus!

verus! {

/// Where and why a taskfile's text does not parse.
#[derive(Debug)]
pub struct ParseError {
    pub line: usize,
    pub message: String,
}

pub open spec fn consts_view(cs: Seq<(String, String)>) -> Seq<(Seq<char>, Seq<char>)> {
    Seq::new(cs.len(), |i: int| (cs[i].0@, cs[i].1@))
}

/// Once a line has failed, the remaining lines change nothing.
pub proof fn lemma_run_after_error(lines: Seq<Seq<char>>, k: nat, st: PState)
    requires
        st.err is Some,
    ensures
        run(lines, k, st) == st,
    decreases lines.len() - k,
{
    if k < lines.len() {
        lemma_run_after_error(lines, k + 1, st);
    }
}

fn lookup_exec(cs: &[(String, String)], name: &String) -> (r: Option<String>)
    ensures
        match r {
            Some(v) => lookup(consts_view(cs@), name@, 0) == Some(v@),
            None => lookup(consts_view(cs@), name@, 0) is None,
        },
{
    let ghost cv = consts_view(cs@);
    let mut k: usize = 0;
    while k < cs.len()
        invariant
            cv == consts_view(cs@),
            k <= cs.len(),
            lookup(cv, name@, 0) == lookup(cv, name@, k as nat),
        decreases cs.len() - k,
    {
        if cs[k].0 == *name {
            return Some(cs[k].1.clone());
        }
        k = k + 1;
    }
    None
}

fn contains_string(v: &[String], x: &String) -> (r: bool)
    ensures
        r == v.deep_view().contains(x@),
{
    let mut k: usize = 0;
    while k < v.len()
        invariant
            k <= v.len(),
            forall|m: int| 0 <= m < k ==> v.deep_view()[m] != x@,
        decreases v.len() - k,
    {
        if v[k] == *x {
            assert(v.deep_view()[k as int] == x@);
            return true;
        }
        k = k + 1;
    }
    false
}

fn find_close_exec(s: &[char], i: usize) -> (r: Option<usize>)
    ensures
        match r {
            Some(j) => find_close(s@, i as nat) == Some(j as nat),
            None => find_close(s@, i as nat) is None,
        },
{
    let mut j = i;
    while j < s.len() && j + 1 < s.len()
        invariant
            i <= j,
            find_close(s@, i as nat) == find_close(s@, j as nat),
        decreases s.len() - j,
    {
        if s[j] == '}' && s[j + 1] == '}' {
            return Some(j);
        }
        j = j + 1;
    }
    None
}

/// `out` followed by `v`.
fn push_all(out: &mut Vec<char>, v: &[char])
    ensures
        final(out)@ == old(out)@ + v@,
{
    let mut k: usize = 0;
    while k < v.len()
        invariant
            k <= v.len(),
            out@ == old(out)@ + v@.take(k as int),
        decreases v.len() - k,
    {
        out.push(v[k]);
        k = k + 1;
        assert(out@ =~= old(out)@ + v@.take(k as int));
    }
    assert(v@.take(v.len() as int) =~= v@);
}

pub(crate) fn subst_exec(s: &[char], cs: &[(String, String)], params: &[String]) -> (r: String)
    ensures
        r@ == subst(s@, consts_view(cs@), params.deep_view()),
{
    let ghost cv = consts_view(cs@);
    let ghost pv = params.deep_view();
    let mut out: Vec<char> = Vec::new();
    let mut i: usize = 0;
    while i < s.len()
        invariant
            cv == consts_view(cs@),
            pv == params.deep_view(),
            i <= s.len(),
            subst(s@, cv, pv) == out@ + subst_from(s@, i as nat, cv, pv),
        decreases s.len() - i,
    {
        let ghost before = out@;
        if i + 1 < s.len() && s[i] == '{' && s[i + 1] == '{' {
            match find_close_exec(s, i + 2) {
                None => {
                    let rest = slice_chars(s, i, s.len());
                    push_all(&mut out, rest.as_slice());
                    assert(rest@ =~= s@.skip(i as int));
                    assert(subst_from(s@, s.len() as nat, cv, pv) =~= Seq::<char>::empty());
                    assert(out@ =~= before + subst_from(s@, i as nat, cv, pv));
                    i = s.len();
                    assert(subst(s@, cv, pv) == out@ + subst_from(s@, i as nat, cv, pv));
                },
                Some(j) => {
                    proof { lemma_find_close(s@, (i + 2) as nat); }
                    let name_chars = slice_chars(s, i + 2, j);
                    let name = string_from_chars(name_chars.as_slice());
                    let hit = if contains_string(params, &name) { None } else { lookup_exec(cs, &name) };
                    match hit {
                        Some(v) => {
                            let vc = text::chars_of(v.as_str());
                            push_all(&mut out, vc.as_slice());
                            i = j + 2;
                        },
                        None => {
                            out.push('{');
                            out.push('{');
                            assert(s@.subrange(i as int, i + 2) =~= seq!['{', '{']);
                            assert(out@ =~= before + s@.subrange(i as int, i + 2));
                            i = i + 2;
                        },
                    }
                },
            }
        } else {
            out.push(s[i]);
            i = i + 1;
        }
    }
    string_from_chars(out.as_slice())
}

} // verus!

verus! {

fn subst_task_exec(t: Task, cs: &[(String, String)]) -> (r: Task)
    ensures
        r@ == subst_task(t@, consts_view(cs@)),
{
    let ghost cv = consts_view(cs@);
    let mut body: Vec<String> = Vec::new();
    let mut i: usize = 0;
    while i < t.body.len()
        invariant
            cv == consts_view(cs@),
            i <= t.body.len(),
            body@.len() == i,
            forall|k: int| 0 <= k < i ==> (#[trigger] body@[k])@ == subst(t.body@[k]@, cv, t.params.deep_view()),
        decreases t.body.len() - i,
    {
        let line = text::chars_of(t.body[i].as_str());
        body.push(subst_exec(line.as_slice(), cs, t.params.as_slice()));
        i = i + 1;
    }
    let mut deps: Vec<Dep> = Vec::new();
    let mut j: usize = 0;
    while j < t.deps.len()
        invariant
            cv == consts_view(cs@),
            j <= t.deps.len(),
            deps@.len() == j,
            forall|k: int| 0 <= k < j ==> (#[trigger] deps@[k])@ == (DepView {
                path: t.deps@[k]@.path,
                args: Seq::new(t.deps@[k]@.args.len(), |a: int| subst(t.deps@[k]@.args[a], cv, t.params.deep_view())),
            }),
        decreases t.deps.len() - j,
    {
        let d = &t.deps[j];
        let mut args: Vec<String> = Vec::new();
        let mut a: usize = 0;
        while a < d.args.len()
            invariant
                cv == consts_view(cs@),
                a <= d.args.len(),
                args@.len() == a,
                forall|k: int| 0 <= k < a ==> (#[trigger] args@[k])@ == subst(d.args@[k]@, cv, t.params.deep_view()),
            decreases d.args.len() - a,
        {
            let arg = text::chars_of(d.args[a].as_str());
            args.push(subst_exec(arg.as_slice(), cs, t.params.as_slice()));
            a = a + 1;
        }
        let nd = Dep { path: text::clone_strings(d.path.as_slice()), args };
        assert(nd@.args =~= Seq::new(d@.args.len(), |x: int| subst(d@.args[x], cv, t.params.deep_view())));
        deps.push(nd);
        j = j + 1;
    }
    let r = Task { path: t.path, params: t.params, deps, body, source: t.source, line: t.line };
    assert(r@.body =~= subst_task(t@, cv).body);
    assert(r@.deps =~= subst_task(t@, cv).deps);
    r
}

proof fn lemma_parse_path_nonempty(s: Seq<char>)
    ensures
        parse_path(s) matches Some(p) ==> p.len() > 0,
{
    lemma_split_char_nonempty(s, ':');
}

proof fn lemma_header_path_nonempty(raw: Seq<char>)
    ensures
        classify(raw) matches Line::Header(p, _, _) ==> p.len() > 0,
{
    let l = strip_cr(raw);
    if let Some(i) = find_colon(l, 0) {
        let head = l.take(i as int);
        if let Some(items) = tokenize(head) {
            if items.len() == 1 && items[0].len() > 0 {
                lemma_parse_path_nonempty(items[0][0]);
            }
        }
    }
}

pub open spec fn pstate_view(
    tasks: Seq<Task>,
    imports: Seq<Import>,
    consts: Seq<(String, String)>,
    open: bool,
) -> PState {
    PState {
        tasks: model::tasks_view(tasks),
        imports: model::imports_view(imports),
        consts: consts_view(consts),
        open,
        err: None,
    }
}

/// Parse a taskfile's text.
pub fn parse(src: &str) -> (r: Result<Taskfile, ParseError>)
    ensures
        match r {
            Ok(tf) => parse_spec(src@) == Ok::<model::TaskfileView, (nat, Seq<char>)>(tf@) && tf.wf(),
            Err(e) => parse_spec(src@) == Err::<model::TaskfileView, (nat, Seq<char>)>((e.line as nat, e.message@)),
        },
{
    let sc = text::chars_of(src);
    let lines = split_char_exec(sc.as_slice(), '\n');
    let ghost lv = lines_view(lines@);
    let mut tasks: Vec<Task> = Vec::new();
    let mut imports: Vec<Import> = Vec::new();
    let mut consts: Vec<(String, String)> = Vec::new();
    let mut open = false;
    let mut k: usize = 0;
    assert(model::tasks_view(tasks@) =~= Seq::<TaskView>::empty());
    assert(model::imports_view(imports@) =~= Seq::<ImportView>::empty());
    assert(consts_view(consts@) =~= Seq::<(Seq<char>, Seq<char>)>::empty());
    assert(pstate_view(tasks@, imports@, consts@, open) == pstate_init());
    while k < lines.len()
        invariant
            lv == lines_view(lines@),
            lv == split_char(src@, '\n'),
            k <= lines.len(),
            run(lv, 0, pstate_init()) == run(lv, k as nat, pstate_view(tasks@, imports@, consts@, open)),
            model::tasks_wf(model::tasks_view(tasks@)),
            open ==> tasks@.len() > 0,
        decreases lines.len() - k,
    {
        let ghost st = pstate_view(tasks@, imports@, consts@, open);
        let n = k + 1;
        let item = classify_exec(lines[k].as_slice());
        assert(lv[k as int] == lines@[k as int]@);
        let ghost next = pstep(st, item@, n as nat);
        match item {
            LineItem::Blank => {},
            LineItem::Comment => {},
            LineItem::Body(t) => {
                if open {
                    let mut last = tasks.pop().unwrap();
                    let ghost lt = last@;
                    last.body.push(t);
                    assert(last@.body =~= lt.body.push(t@));
                    tasks.push(last);
                    assert(model::tasks_view(tasks@) =~= next.tasks);
                    proof {
                        let ts = model::tasks_view(tasks@);
                        assert forall|i: int, j: int|
                            0 <= i < ts.len() && 0 <= j < ts.len() && i != j implies (#[trigger] ts[i]).path != (#[trigger] ts[j]).path by {
                            assert(st.tasks[i].path == ts[i].path);
                            assert(st.tasks[j].path == ts[j].path);
                        }
                    }
                } else {
                    let e = ParseError { line: n, message: String::from_str("indented line outside a task") };
                    proof { lemma_run_after_error(lv, (k + 1) as nat, next); }
                    return Err(e);
                }
            },
            LineItem::Import(p, a) => {
                let ghost iv = model::imports_view(imports@);
                imports.push(Import { path: p, alias: a, line: n });
                assert(model::imports_view(imports@) =~= next.imports);
                open = false;
            },
            LineItem::Const(name, value) => {
                let mut dup = false;
                let mut c: usize = 0;
                while c < consts.len()
                    invariant
                        c <= consts.len(),
                        dup == (exists|m: int| 0 <= m < c && (#[trigger] consts_view(consts@)[m]).0 == name@),
                    decreases consts.len() - c,
                {
                    if consts[c].0 == name {
                        assert(consts_view(consts@)[c as int].0 == name@);
                        dup = true;
                    }
                    c = c + 1;
                }
                if dup {
                    let e = ParseError { line: n, message: message3("constant `", text::chars_of(name.as_str()).as_slice(), "` is already defined") };
                    proof { lemma_run_after_error(lv, (k + 1) as nat, next); }
                    return Err(e);
                }
                let ghost cv = consts_view(consts@);
                consts.push((name, value));
                assert(consts_view(consts@) =~= next.consts);
                open = false;
            },
            LineItem::Header(path, params, deps) => {
                let tf = Taskfile { tasks, imports: Vec::new() };
                let found = tf.get(path.as_slice()).is_some();
                tasks = tf.tasks;
                if found {
                    let key = text::join(path.as_slice(), "::");
                    let mut m = String::from_str("task `");
                    m.append(key.as_str());
                    m.append("` is already defined");
                    let e = ParseError { line: n, message: m };
                    proof { lemma_run_after_error(lv, (k + 1) as nat, next); }
                    return Err(e);
                }
                let ghost before = model::tasks_view(tasks@);
                let task = Task { path, params, deps, body: Vec::new(), source: String::new(), line: n };
                proof {
                    assert(task@.body =~= Seq::<Seq<char>>::empty());
                    lemma_header_path_nonempty(lines@[k as int]@);
                }
                tasks.push(task);
                assert(model::tasks_view(tasks@) =~= next.tasks);
                proof {
                    let ts = model::tasks_view(tasks@);
                    assert forall|i: int, j: int|
                        0 <= i < ts.len() && 0 <= j < ts.len() && i != j implies (#[trigger] ts[i]).path != (#[trigger] ts[j]).path by {
                        if i == before.len() {
                            assert(!(0 <= j < before.len() && before[j].path == task@.path));
                        }
                        if j == before.len() {
                            assert(!(0 <= i < before.len() && before[i].path == task@.path));
                        }
                    }
                }
                open = true;
            },
            LineItem::Bad(m) => {
                let e = ParseError { line: n, message: m };
                proof { lemma_run_after_error(lv, (k + 1) as nat, next); }
                return Err(e);
            },
        }
        assert(pstate_view(tasks@, imports@, consts@, open) == next);
        k = k + 1;
    }
    let ghost st = pstate_view(tasks@, imports@, consts@, open);
    let ghost cv = consts_view(consts@);
    let mut out: Vec<Task> = Vec::new();
    let ghost tv = model::tasks_view(tasks@);
    for t in it: tasks
        invariant
            it.seq() == tasks@,
            tv == model::tasks_view(tasks@),
            cv == consts_view(consts@),
            model::tasks_wf(tv),
            out@.len() == it.index(),
            forall|m: int| 0 <= m < it.index() ==> (#[trigger] out@[m])@ == subst_task(tv[m], cv),
    {
        out.push(subst_task_exec(t, consts.as_slice()));
    }
    let tf = Taskfile { tasks: out, imports };
    assert(tf@.tasks =~= Seq::new(tv.len(), |i: int| subst_task(tv[i], cv)));
    proof {
        let ts = tf@.tasks;
        assert forall|i: int, j: int|
            0 <= i < ts.len() && 0 <= j < ts.len() && i != j implies (#[trigger] ts[i]).path != (#[trigger] ts[j]).path by {
            assert(ts[i].path == tv[i].path);
            assert(ts[j].path == tv[j].path);
        }
        assert forall|i: int| 0 <= i < ts.len() implies (#[trigger] ts[i]).path.len() > 0 by {
            assert(ts[i].path == tv[i].path);
        }
    }
    Ok(tf)
}

} // verus!

verus! {

proof fn lemma_subst_plain_from(s: Seq<char>, i: nat, cs: Seq<(Seq<char>, Seq<char>)>, ps: Seq<Seq<char>>)
    requires
        !has_open_braces(s),
        i <= s.len(),
    ensures
        subst_from(s, i, cs, ps) == s.skip(i as int),
    decreases s.len() - i,
{
    if i < s.len() {
        if i + 1 < s.len() && s[i as int] == '{' && s[i + 1int] == '{' {
            assert(s[(i as int) + 1] == '{');
        }
        lemma_subst_plain_from(s, i + 1, cs, ps);
        assert(s.skip(i as int) =~= seq![s[i as int]] + s.skip(i + 1int));
    } else {
        assert(s.skip(i as int) =~= Seq::<char>::empty());
    }
}

/// Text without `{{` comes out of substitution unchanged.
pub proof fn law_subst_plain(s: Seq<char>, cs: Seq<(Seq<char>, Seq<char>)>, ps: Seq<Seq<char>>)
    requires
        !has_open_braces(s),
    ensures
        subst(s, cs, ps) == s,
{
    lemma_subst_plain_from(s, 0, cs, ps);
    assert(s.skip(0) =~= s);
}

proof fn lemma_find_close_after_ident(name: Seq<char>, i: nat)
    requires
        is_ident(name),
        2 <= i <= name.len() + 2,
    ensures
        find_close(seq!['{', '{'] + name + seq!['}', '}'], i) == Some(name.len() + 2),
    decreases name.len() + 2 - i,
{
    let s = seq!['{', '{'] + name + seq!['}', '}'];
    if i < name.len() + 2 {
        assert(s[i as int] == name[i - 2]);
        assert(name[i - 2] != '}');
        lemma_find_close_after_ident(name, i + 1);
    } else {
        assert(s[i as int] == '}' && s[i + 1int] == '}');
    }
}

/// `{{name}}` where `name` is a constant and not one of the task's own
/// parameters becomes the constant's value.
pub proof fn law_constant_substitutes(
    name: Seq<char>,
    cs: Seq<(Seq<char>, Seq<char>)>,
    ps: Seq<Seq<char>>,
)
    requires
        is_ident(name),
        !ps.contains(name),
        lookup(cs, name, 0) is Some,
    ensures
        subst(seq!['{', '{'] + name + seq!['}', '}'], cs, ps) == lookup(cs, name, 0)->Some_0,
{
    let s = seq!['{', '{'] + name + seq!['}', '}'];
    lemma_find_close_after_ident(name, 2);
    assert(s.subrange(2, name.len() + 2int) =~= name);
    assert(subst_from(s, s.len(), cs, ps) =~= Seq::<char>::empty());
    assert(lookup(cs, name, 0)->Some_0 + Seq::<char>::empty() =~= lookup(cs, name, 0)->Some_0);
}

/// `{{name}}` stays as written when `name` is one of the task's parameters
/// (bound when the task runs) or names no constant.
pub proof fn law_param_or_unknown_is_kept(
    name: Seq<char>,
    cs: Seq<(Seq<char>, Seq<char>)>,
    ps: Seq<Seq<char>>,
)
    requires
        is_ident(name),
        ps.contains(name) || lookup(cs, name, 0) is None,
    ensures
        subst(seq!['{', '{'] + name + seq!['}', '}'], cs, ps) == seq!['{', '{'] + name + seq!['}', '}'],
{
    let s = seq!['{', '{'] + name + seq!['}', '}'];
    lemma_find_close_after_ident(name, 2);
    assert(s.subrange(2, name.len() + 2int) =~= name);
    let t = s.skip(2);
    assert(!has_open_braces(s.skip(2))) by {
        if has_open_braces(t) {
            let k = choose|k: int| 0 <= k && k + 1 < t.len() && t[k] == '{' && #[trigger] t[k + 1] == '{';
            if k < name.len() {
                assert(t[k] == name[k]);
            } else {
                assert(t[k] == '}');
            }
        }
    }
    lemma_subst_plain_skip(s, 2, cs, ps);
    assert(s.subrange(0, 2) + s.skip(2) =~= s);
}

proof fn lemma_subst_plain_skip(s: Seq<char>, i: nat, cs: Seq<(Seq<char>, Seq<char>)>, ps: Seq<Seq<char>>)
    requires
        i <= s.len(),
        !has_open_braces(s.skip(i as int)),
    ensures
        subst_from(s, i, cs, ps) == s.skip(i as int),
    decreases s.len() - i,
{
    if i < s.len() {
        let t = s.skip(i as int);
        if i + 1 < s.len() && s[i as int] == '{' && s[i + 1int] == '{' {
            assert(t[0] == '{' && t[1] == '{');
        }
        assert(s.skip(i + 1int) =~= t.skip(1));
        assert(!has_open_braces(s.skip(i + 1int))) by {
            if has_open_braces(s.skip(i + 1int)) {
                let u = s.skip(i + 1int);
                let k = choose|k: int| 0 <= k && k + 1 < u.len() && u[k] == '{' && #[trigger] u[k + 1] == '{';
                assert(t[k + 1] == u[k] && t[k + 2] == u[k + 1]);
            }
        }
        lemma_subst_plain_skip(s, i + 1, cs, ps);
        assert(t =~= seq![s[i as int]] + s.skip(i + 1int));
    } else {
        assert(s.skip(i as int) =~= Seq::<char>::empty());
    }
}

/// A line is an import only when the word `import` is followed by
/// whitespace and a quoted path, so a task named `import` (written
/// `import:`) is read as a task header.
pub proof fn law_import_needs_a_quoted_path(rest: Seq<char>)
    ensures
        !(classify(import_word() + seq![':'] + rest) is Import),
{
    let l = import_word() + seq![':'] + rest;
    assert(l[6] == ':');
    if l.len() > 0 && l.last() == '\r' {
        let d = l.drop_last();
        if d.len() > 6 {
            assert(d[6] == ':');
        }
    }
}

} // verus!

verus! {

/// How many `\n` `s` holds.
pub open spec fn newlines(s: Seq<char>) -> nat
    decreases s.len(),
{
    if s.len() == 0 {
        0
    } else {
        newlines(s.drop_last()) + if s.last() == '\n' {
            1nat
        } else {
            0nat
        }
    }
}

/// Line number `n` once a line is inserted after line `k`.
pub open spec fn bumped(n: nat, k: nat) -> nat {
    if n > k {
        n + 1
    } else {
        n
    }
}

pub open spec fn bump_tasks(ts: Seq<TaskView>, k: nat) -> Seq<TaskView> {
    Seq::new(ts.len(), |i: int| TaskView { line: bumped(ts[i].line, k), ..ts[i] })
}

pub open spec fn bump_imports(is: Seq<ImportView>, k: nat) -> Seq<ImportView> {
    Seq::new(is.len(), |i: int| ImportView { line: bumped(is[i].line, k), ..is[i] })
}

/// A parse result with every line number after line `k` one further on.
pub open spec fn bump_result(r: Result<model::TaskfileView, (nat, Seq<char>)>, k: nat) -> Result<
    model::TaskfileView,
    (nat, Seq<char>),
> {
    match r {
        Ok(tf) => Ok(model::TaskfileView { tasks: bump_tasks(tf.tasks, k), imports: bump_imports(tf.imports, k) }),
        Err((n, m)) => Err((bumped(n, k), m)),
    }
}

spec fn bump_state(st: PState, k: nat) -> PState {
    PState {
        tasks: bump_tasks(st.tasks, k),
        imports: bump_imports(st.imports, k),
        consts: st.consts,
        open: st.open,
        err: match st.err {
            Some((n, m)) => Some((bumped(n, k), m)),
            None => None,
        },
    }
}

/// Every line number the state holds is at most `j`.
spec fn lines_upto(st: PState, j: nat) -> bool {
    &&& forall|i: int| 0 <= i < st.tasks.len() ==> (#[trigger] st.tasks[i]).line <= j
    &&& forall|i: int| 0 <= i < st.imports.len() ==> (#[trigger] st.imports[i]).line <= j
    &&& st.err matches Some((n, m)) ==> n <= j
    &&& sane(st)
}

/// A task is open only once there is one.
spec fn sane(st: PState) -> bool {
    st.open ==> st.tasks.len() > 0
}

proof fn lemma_split_plain(s: Seq<char>, c: char)
    requires
        forall|i: int| 0 <= i < s.len() ==> s[i] != c,
    ensures
        split_char(s, c) == seq![s],
    decreases s.len(),
{
    if s.len() > 0 {
        lemma_split_plain(s.drop_last(), c);
        let p = split_char(s.drop_last(), c);
        assert(s.last() == s[s.len() - 1]);
        assert(s.last() != c);
        assert(p.last() == s.drop_last());
        assert(s.drop_last().push(s.last()) =~= s);
        assert(p.update(p.len() - 1, p.last().push(s.last())) =~= seq![s]);
    } else {
        assert(s =~= Seq::<char>::empty());
    }
}

/// Splitting text that follows a complete line.
proof fn lemma_split_after_line(a: Seq<char>, b: Seq<char>)
    requires
        a.len() == 0 || a.last() == '\n',
    ensures
        split_char(a + b, '\n') == split_char(a, '\n').drop_last() + split_char(b, '\n'),
    decreases b.len(),
{
    lemma_split_char_nonempty(a, '\n');
    lemma_split_char_nonempty(b, '\n');
    if b.len() == 0 {
        assert(a + b =~= a);
        if a.len() == 0 {
            assert(split_char(a, '\n').drop_last() + split_char(b, '\n') =~= seq![Seq::<char>::empty()]);
        } else {
            assert(a.drop_last().push(a.last()) =~= a);
            assert(split_char(a, '\n') == split_char(a.drop_last(), '\n').push(Seq::empty()));
            assert(split_char(a, '\n').drop_last() + split_char(b, '\n') =~= split_char(a, '\n'));
        }
    } else {
        let b2 = b.drop_last();
        lemma_split_after_line(a, b2);
        lemma_split_char_nonempty(b2, '\n');
        assert((a + b).drop_last() =~= a + b2);
        assert((a + b).last() == b.last());
        let pa = split_char(a, '\n').drop_last();
        let pb = split_char(b2, '\n');
        if b.last() == '\n' {
            assert(split_char(b, '\n') == pb.push(Seq::empty()));
            assert((pa + pb).push(Seq::empty()) =~= pa + pb.push(Seq::empty()));
        } else {
            let q = pa + pb;
            assert(q.update(q.len() - 1, q.last().push(b.last())) =~= pa + pb.update(
                pb.len() - 1,
                pb.last().push(b.last()),
            ));
        }
    }
}

proof fn lemma_split_len(s: Seq<char>)
    ensures
        split_char(s, '\n').len() == newlines(s) + 1,
    decreases s.len(),
{
    if s.len() > 0 {
        lemma_split_len(s.drop_last());
        lemma_split_char_nonempty(s.drop_last(), '\n');
    }
}

proof fn lemma_bump_identity(st: PState, k: nat)
    requires
        lines_upto(st, k),
    ensures
        bump_state(st, k) == st,
{
    assert(bump_tasks(st.tasks, k) =~= st.tasks);
    assert(bump_imports(st.imports, k) =~= st.imports);
}

proof fn lemma_pstep_lines(st: PState, line: Line, j: nat)
    requires
        lines_upto(st, j),
    ensures
        lines_upto(pstep(st, line, j + 1), j + 1),
{
    let r = pstep(st, line, j + 1);
    assert forall|i: int| 0 <= i < r.tasks.len() implies (#[trigger] r.tasks[i]).line <= j + 1 by {
        if i < st.tasks.len() {
            assert(st.tasks[i].line <= j);
        }
    }
    assert forall|i: int| 0 <= i < r.imports.len() implies (#[trigger] r.imports[i]).line <= j + 1 by {
        if i < st.imports.len() {
            assert(st.imports[i].line <= j);
        }
    }
}

/// Reading a line after line `k` commutes with moving the later line numbers on.
proof fn lemma_pstep_bump(st: PState, line: Line, n: nat, k: nat)
    requires
        n > k,
        sane(st),
    ensures
        pstep(bump_state(st, k), line, n + 1) == bump_state(pstep(st, line, n), k),
        sane(pstep(st, line, n)),
{
    let bs = bump_state(st, k);
    assert forall|p: Seq<Seq<char>>| model::has_task(bs.tasks, p) == model::has_task(st.tasks, p) by {
        if model::has_task(st.tasks, p) {
            let i = choose|i: int| 0 <= i < st.tasks.len() && (#[trigger] st.tasks[i]).path == p;
            assert(bs.tasks[i].path == p);
        }
        if model::has_task(bs.tasks, p) {
            let i = choose|i: int| 0 <= i < bs.tasks.len() && (#[trigger] bs.tasks[i]).path == p;
            assert(st.tasks[i].path == p);
        }
    }
    if st.err is None {
        match line {
            Line::Body(t) => {
                if st.open {
                    let last = st.tasks.last();
                    let nt = st.tasks.update(st.tasks.len() - 1, TaskView { body: last.body.push(t), ..last });
                    assert(bump_tasks(nt, k) =~= bs.tasks.update(
                        bs.tasks.len() - 1,
                        TaskView { body: bs.tasks.last().body.push(t), ..bs.tasks.last() },
                    ));
                }
            },
            Line::Import(p, a) => {
                assert(bump_imports(st.imports.push(ImportView { path: p, alias: a, line: n }), k) =~= bs.imports.push(
                    ImportView { path: p, alias: a, line: n + 1 },
                ));
            },
            Line::Header(path, params, deps) => {
                assert(bump_tasks(
                    st.tasks.push(TaskView { path, params, deps, body: Seq::empty(), source: Seq::empty(), line: n }),
                    k,
                ) =~= bs.tasks.push(
                    TaskView { path, params, deps, body: Seq::empty(), source: Seq::empty(), line: n + 1 },
                ));
            },
            _ => {},
        }
    }
}

/// The lines after an inserted line, read with later line numbers one on.
proof fn lemma_run_after_blank(ls1: Seq<Seq<char>>, ls2: Seq<Seq<char>>, k: nat, j: nat, st: PState)
    requires
        sane(st),
        ls1.len() == ls2.len() + 1,
        k <= j <= ls2.len(),
        forall|i: int| k <= i < ls2.len() ==> ls1[i + 1] == ls2[i],
    ensures
        run(ls1, j + 1, bump_state(st, k)) == bump_state(run(ls2, j, st), k),
    decreases ls2.len() - j,
{
    if j < ls2.len() {
        let line = classify(ls2[j as int]);
        assert(ls1[j + 1int] == ls2[j as int]);
        lemma_pstep_bump(st, line, j + 1, k);
        lemma_run_after_blank(ls1, ls2, k, j + 1, pstep(st, line, j + 1));
    }
}

/// Reading up to an inserted blank line, and past it.
proof fn lemma_run_with_blank(ls1: Seq<Seq<char>>, ls2: Seq<Seq<char>>, k: nat, j: nat, st: PState)
    requires
        ls1.len() == ls2.len() + 1,
        j <= k <= ls2.len(),
        forall|i: int| 0 <= i < k ==> ls1[i] == ls2[i],
        classify(ls1[k as int]) == Line::Blank,
        forall|i: int| k <= i < ls2.len() ==> ls1[i + 1] == ls2[i],
        lines_upto(st, j),
    ensures
        run(ls1, j, st) == bump_state(run(ls2, j, st), k),
    decreases k - j,
{
    if j < k {
        let line = classify(ls2[j as int]);
        assert(ls1[j as int] == ls2[j as int]);
        lemma_pstep_lines(st, line, j);
        lemma_run_with_blank(ls1, ls2, k, j + 1, pstep(st, line, j + 1));
    } else {
        assert(pstep(st, Line::Blank, k + 1) == st);
        lemma_bump_identity(st, k);
        lemma_run_after_blank(ls1, ls2, k, k, st);
    }
}

/// The lines of a text with a blank line inserted after `x`.
proof fn lemma_split_with_blank(x: Seq<char>, w: Seq<char>, y: Seq<char>)
    requires
        x.len() == 0 || x.last() == '\n',
        forall|i: int| 0 <= i < w.len() ==> w[i] == ' ' || w[i] == '\t',
    ensures
        ({
            let xs = split_char(x, '\n').drop_last();
            let ys = split_char(y, '\n');
            &&& split_char(x + w + "\n"@ + y, '\n') == xs + seq![w] + ys
            &&& split_char(x + y, '\n') == xs + ys
            &&& xs.len() == newlines(x)
        }),
{
    reveal_strlit("\n");
    let wn = w + seq!['\n'];
    assert(x + w + "\n"@ + y =~= x + (wn + y));
    lemma_split_after_line(x, wn + y);
    lemma_split_after_line(wn, y);
    lemma_split_after_line(x, y);
    assert forall|i: int| 0 <= i < w.len() implies w[i] != '\n' by {}
    lemma_split_plain(w, '\n');
    assert(wn.drop_last() =~= w);
    assert(split_char(wn, '\n') == split_char(w, '\n').push(Seq::empty()));
    let xs = split_char(x, '\n').drop_last();
    let ys = split_char(y, '\n');
    assert(split_char(wn, '\n').drop_last() + ys =~= seq![w] + ys);
    assert(xs + (seq![w] + ys) =~= xs + seq![w] + ys);
    lemma_split_len(x);
}

/// A blank line changes nothing: inserting a line of spaces and tabs
/// between two lines of a taskfile (or at its start or end) leaves what it
/// parses to as it was, but for the line numbers after the inserted line,
/// each one further on. In particular a blank line inside a task's body
/// does not end the body.
pub proof fn law_blank_lines_change_nothing(x: Seq<char>, w: Seq<char>, y: Seq<char>)
    requires
        x.len() == 0 || x.last() == '\n',
        forall|i: int| 0 <= i < w.len() ==> w[i] == ' ' || w[i] == '\t',
    ensures
        parse_spec(x + w + "\n"@ + y) == bump_result(parse_spec(x + y), newlines(x)),
{
    lemma_split_with_blank(x, w, y);
    let xs = split_char(x, '\n').drop_last();
    let ys = split_char(y, '\n');
    let ls1 = split_char(x + w + "\n"@ + y, '\n');
    let ls2 = split_char(x + y, '\n');
    let k = newlines(x);
    assert(all_ws(strip_cr(w))) by {
        if w.len() > 0 {
            assert(w.last() == w[w.len() - 1]);
        }
    }
    assert(ls1[k as int] == w);
    assert forall|i: int| 0 <= i < k implies ls1[i] == ls2[i] by {
        assert(ls1[i] == xs[i] && ls2[i] == xs[i]);
    }
    assert forall|i: int| k <= i < ls2.len() implies ls1[i + 1] == ls2[i] by {
        assert(ls1[i + 1] == ys[i - k] && ls2[i] == ys[i - k]);
    }
    assert(lines_upto(pstate_init(), 0));
    lemma_run_with_blank(ls1, ls2, k, 0, pstate_init());
    let s1 = run(ls1, 0, pstate_init());
    let s2 = run(ls2, 0, pstate_init());
    if s2.err is None {
        assert(Seq::new(s1.tasks.len(), |i: int| subst_task(s1.tasks[i], s1.consts)) =~= bump_tasks(
            Seq::new(s2.tasks.len(), |i: int| subst_task(s2.tasks[i], s2.consts)),
            k,
        ));
    }
}

} // verus!
