//! The workspace boundary.
//!
//! The programs a task spawns are not confined. What is confined are the file
//! operations done in-process, and the directories a config points at: a path
//! that resolves outside the workspace is refused. `[security] allow_paths`
//! widens the boundary.
//!
//! Resolution is physical: the longest prefix of a path that exists is taken for
//! what it really is, links followed; only the rest is joined as text. A `..` in
//! that rest may lead back to where there are links, so the path that comes out is
//! resolved once more. The file system answers for the prefixes ([`candidates`],
//! then [`candidates_again`]), the rest is decided here.

use vstd::prelude::*;

use crate::config::{Config, ConfigView, TaskView};
use crate::env;
use crate::error::{ErrorView, TsrError};
use crate::path;
use crate::shell;
use crate::text;

verus! {

/// The directories a run may touch, physically resolved.
#[derive(Debug)]
pub struct Bounds {
    root: String,
    allowed: Vec<String>,
}

// ---------------------------------------------------------------------------
// Resolution
// ---------------------------------------------------------------------------
/// Whether a component names something: neither `.` nor `..`.
pub open spec fn is_normal(part: Seq<char>) -> bool {
    part != seq!['.'] && part != seq!['.', '.']
}

/// The components of a path after one more: `.` stays, `..` goes up, a name goes
/// down.
pub open spec fn step(parts: Seq<Seq<char>>, part: Seq<char>) -> Seq<Seq<char>> {
    if part == seq!['.', '.'] {
        if parts.len() > 0 {
            parts.drop_last()
        } else {
            parts
        }
    } else if part == seq!['.'] {
        parts
    } else {
        parts.push(part)
    }
}

/// The components reached from `base` along the first `n` of `parts`.
pub open spec fn walked(base: Seq<Seq<char>>, parts: Seq<Seq<char>>, n: int) -> Seq<Seq<char>>
    decreases n,
{
    if n <= 0 {
        base
    } else {
        step(walked(base, parts, n - 1), parts[n - 1])
    }
}

/// A path made plain as text alone.
pub open spec fn lexical(absolute: bool, parts: Seq<Seq<char>>) -> Seq<char> {
    path::rendered(absolute, walked(Seq::empty(), parts, parts.len() as int))
}

/// A path behind one that exists.
pub open spec fn appended(found: Seq<char>, tail: Seq<Seq<char>>) -> Seq<char> {
    path::rendered(
        path::is_absolute(found),
        walked(path::components(found), tail, tail.len() as int),
    )
}

/// Whether the search for an existing prefix ends with the first `n` components:
/// nothing is left, or nothing is above them.
pub open spec fn search_ends(absolute: bool, n: int) -> bool {
    n <= 0 || (!absolute && n == 1)
}

/// The prefixes from the first `n` components down, each of which may exist.
pub open spec fn prefixes(absolute: bool, parts: Seq<Seq<char>>, n: int) -> Seq<Seq<char>>
    decreases n,
{
    let here = path::rendered(absolute, parts.take(n));
    if search_ends(absolute, n) {
        seq![here]
    } else {
        seq![here] + prefixes(absolute, parts, n - 1)
    }
}

/// The path that the first `n` components and what follows them resolve to: the
/// longest prefix that exists, for what it really is, and the rest behind it as
/// text. Where no prefix exists, all of it is text. `facts[k]` is what the prefix
/// with `k` components less really is.
pub open spec fn resolved_from(
    absolute: bool,
    parts: Seq<Seq<char>>,
    n: int,
    facts: Seq<Option<String>>,
) -> Seq<char>
    decreases n,
{
    let k = parts.len() - n;
    if 0 <= k < facts.len() && facts[k] is Some {
        appended(facts[k]->0@, parts.skip(n))
    } else if search_ends(absolute, n) {
        lexical(absolute, parts)
    } else {
        resolved_from(absolute, parts, n - 1, facts)
    }
}

/// A path, resolved as far as `facts` answers for its prefixes.
pub open spec fn resolved_path(p: Seq<char>, facts: Seq<Option<String>>) -> Seq<char> {
    let parts = path::components(p);
    resolved_from(path::is_absolute(p), parts, parts.len() as int, facts)
}

/// The prefixes of a path, longest first.
pub open spec fn path_prefixes(p: Seq<char>) -> Seq<Seq<char>> {
    let parts = path::components(p);
    prefixes(path::is_absolute(p), parts, parts.len() as int)
}

/// The prefixes of `arg`, seen from `base`, that the file system is asked for,
/// longest first.
pub open spec fn candidate_paths(base: Seq<char>, arg: Seq<char>) -> Seq<Seq<char>> {
    path_prefixes(path::joined_path(base, arg))
}

/// The path that `arg`, seen from `base`, is with its longest existing prefix
/// taken for what it really is.
pub open spec fn resolved_once(
    base: Seq<char>,
    arg: Seq<char>,
    facts: Seq<Option<String>>,
) -> Seq<char> {
    resolved_path(path::joined_path(base, arg), facts)
}

/// The answers behind the first `n`.
pub open spec fn later(facts: Seq<Option<String>>, n: int) -> Seq<Option<String>> {
    if 0 <= n <= facts.len() {
        facts.skip(n)
    } else {
        Seq::empty()
    }
}

/// The path that `arg`, seen from `base`, resolves to. `facts` answers for the
/// [`candidate_paths`], and behind them for the prefixes of what comes out.
pub open spec fn resolved(base: Seq<char>, arg: Seq<char>, facts: Seq<Option<String>>) -> Seq<char> {
    resolved_path(
        resolved_once(base, arg, facts),
        later(facts, candidate_paths(base, arg).len() as int),
    )
}

/// Walk along components from where `at` is.
fn walk(at: &mut Vec<String>, parts: &Vec<String>)
    ensures
        text::texts(final(at)@) == walked(
            text::texts(old(at)@),
            text::texts(parts@),
            parts.len() as int,
        ),
{
    let ghost start = text::texts(at@);
    let ghost all = text::texts(parts@);
    let mut i: usize = 0;
    while i < parts.len()
        invariant
            i <= parts.len(),
            all == text::texts(parts@),
            text::texts(at@) == walked(start, all, i as int),
        decreases parts.len() - i,
    {
        let ghost before = text::texts(at@);
        let cs = text::chars(parts[i].as_str());
        assert(all[i as int] == cs@);
        let dot = cs.len() == 1 && cs[0] == '.';
        let dots = cs.len() == 2 && cs[0] == '.' && cs[1] == '.';
        assert(dot == (cs@ =~= seq!['.']));
        assert(dots == (cs@ =~= seq!['.', '.']));
        if dots {
            if at.len() > 0 {
                at.pop();
                assert(text::texts(at@) =~= before.drop_last());
            }
        } else if !dot {
            at.push(parts[i].clone());
            assert(text::texts(at@) =~= before.push(cs@));
        }
        i += 1;
    }
}

/// The first `n` strings.
fn take(parts: &Vec<String>, n: usize) -> (r: Vec<String>)
    requires
        n <= parts.len(),
    ensures
        text::texts(r@) == text::texts(parts@).take(n as int),
{
    let mut out: Vec<String> = Vec::new();
    let mut i: usize = 0;
    assert(text::texts(out@) =~= text::texts(parts@).take(0));
    while i < n
        invariant
            i <= n <= parts.len(),
            text::texts(out@) == text::texts(parts@).take(i as int),
        decreases n - i,
    {
        let ghost before = text::texts(out@);
        out.push(parts[i].clone());
        assert(text::texts(out@) =~= before.push(parts@[i as int]@));
        assert(text::texts(out@) =~= text::texts(parts@).take(i + 1));
        i += 1;
    }
    out
}

/// The prefixes of a path, longest first.
fn prefixes_of(p: &str) -> (r: Vec<String>)
    ensures
        text::texts(r@) == path_prefixes(p@),
{
    let absolute = path::absolute(p);
    let parts = path::parts(p);
    let ghost all = text::texts(parts@);
    let mut out: Vec<String> = Vec::new();
    let mut n: usize = parts.len();
    assert(text::texts(out@) + prefixes(absolute, all, n as int) =~= path_prefixes(p@));
    loop
        invariant
            n <= parts.len(),
            all == text::texts(parts@),
            text::texts(out@) + prefixes(absolute, all, n as int) == path_prefixes(p@),
        decreases n,
    {
        let ghost before = text::texts(out@);
        let here = path::render(absolute, &take(&parts, n));
        out.push(here);
        assert(text::texts(out@) =~= before.push(here@));
        if n == 0 || (!absolute && n == 1) {
            assert(text::texts(out@) =~= before + prefixes(absolute, all, n as int));
            return out;
        }
        assert(text::texts(out@) + prefixes(absolute, all, n - 1) =~= before + prefixes(
            absolute,
            all,
            n as int,
        ));
        n -= 1;
    }
}

/// Resolve a path. `facts[from + k]` is what the `k`-th of its prefixes really is.
fn resolve_path(p: &str, facts: &Vec<Option<String>>, from: usize) -> (r: String)
    ensures
        r@ == resolved_path(p@, later(facts@, from as int)),
{
    let absolute = path::absolute(p);
    let parts = path::parts(p);
    let ghost all = text::texts(parts@);
    let ghost known = later(facts@, from as int);
    let mut n: usize = parts.len();
    loop
        invariant
            n <= parts.len(),
            all == text::texts(parts@),
            known == later(facts@, from as int),
            resolved_path(p@, known) == resolved_from(absolute, all, n as int, known),
        decreases n,
    {
        let k = parts.len() - n;
        if from <= facts.len() && k < facts.len() - from {
            assert(known[k as int] == facts@[from + k]);
            if let Some(found) = &facts[from + k] {
                let mut at = path::parts(found.as_str());
                let tail = path::skip(&parts, n);
                walk(&mut at, &tail);
                return path::render(path::absolute(found.as_str()), &at);
            }
        }
        if n == 0 || (!absolute && n == 1) {
            let mut at: Vec<String> = Vec::new();
            assert(text::texts(at@) =~= Seq::<Seq<char>>::empty());
            walk(&mut at, &parts);
            return path::render(absolute, &at);
        }
        n -= 1;
    }
}

/// The prefixes of `arg`, seen from `base`, to ask the file system for, longest
/// first.
pub fn candidates(base: &str, arg: &str) -> (r: Vec<String>)
    ensures
        text::texts(r@) == candidate_paths(base@, arg@),
{
    prefixes_of(path::join(base, arg).as_str())
}

/// The prefixes to ask for next, given what the [`candidates`] really are.
pub fn candidates_again(base: &str, arg: &str, facts: &Vec<Option<String>>) -> (r: Vec<String>)
    ensures
        text::texts(r@) == path_prefixes(resolved_once(base@, arg@, facts@)),
{
    let p = path::join(base, arg);
    let once = resolve_path(p.as_str(), facts, 0);
    assert(later(facts@, 0) =~= facts@);
    prefixes_of(once.as_str())
}

/// Resolve `arg` against `base`. `facts` holds what the [`candidates`] really are,
/// where they exist, and behind that what [`candidates_again`] are.
pub fn resolve(base: &str, arg: &str, facts: &Vec<Option<String>>) -> (r: String)
    ensures
        r@ == resolved(base@, arg@, facts@),
{
    let p = path::join(base, arg);
    let once = resolve_path(p.as_str(), facts, 0);
    assert(later(facts@, 0) =~= facts@);
    let asked = candidates(base, arg);
    assert(text::texts(asked@).len() == asked.len());
    resolve_path(once.as_str(), facts, asked.len())
}

// ---------------------------------------------------------------------------
// The boundary
// ---------------------------------------------------------------------------
/// Whether a resolved path is inside: under the root, or under an allowed path.
/// An empty root is no boundary at all.
pub open spec fn inside(root: Seq<char>, allowed: Seq<Seq<char>>, p: Seq<char>) -> bool {
    ||| root.len() == 0
    ||| path::is_under(root, p)
    ||| exists|i: int|
        0 <= i < allowed.len() && ((#[trigger] allowed[i]).len() == 0 || path::is_under(
            allowed[i],
            p,
        ))
}

/// What is said of a path outside.
pub open spec fn outside_error(
    what: Seq<char>,
    arg: Seq<char>,
    p: Seq<char>,
    root: Seq<char>,
) -> ErrorView {
    ErrorView::Config(
        what + ": '"@ + arg + "' resolves to '"@ + p + "', outside the workspace at '"@ + root
            + "' — add it to `[security] allow_paths` if that is intended"@,
    )
}

impl Bounds {
    /// The workspace root.
    pub closed spec fn root_text(&self) -> Seq<char> {
        self.root@
    }

    /// The allowed paths besides it.
    pub closed spec fn allowed_texts(&self) -> Seq<Seq<char>> {
        text::texts(self.allowed@)
    }

    /// Whether a resolved path is inside.
    pub open spec fn spec_permits(&self, p: Seq<char>) -> bool {
        inside(self.root_text(), self.allowed_texts(), p)
    }

    /// The boundary of a workspace, from the root and the `allow_paths` entries
    /// as they were resolved.
    pub fn new(root: &str, allowed: Vec<String>) -> (b: Bounds)
        ensures
            b.root_text() == root@,
            b.allowed_texts() == text::texts(allowed@),
    {
        Bounds { root: root.to_string(), allowed }
    }

    /// A boundary that permits everything.
    pub fn unbounded() -> (b: Bounds)
        ensures
            forall|p: Seq<char>| #[trigger] b.spec_permits(p),
    {
        Bounds { root: String::new(), allowed: Vec::new() }
    }

    /// Whether a resolved path is inside.
    pub fn permits(&self, p: &str) -> (r: bool)
        ensures
            r == self.spec_permits(p@),
    {
        if text::chars(self.root.as_str()).len() == 0 || path::under(self.root.as_str(), p) {
            return true;
        }
        let ghost all = text::texts(self.allowed@);
        let mut i: usize = 0;
        while i < self.allowed.len()
            invariant
                i <= self.allowed.len(),
                all == text::texts(self.allowed@),
                self.root@.len() > 0,
                !path::is_under(self.root@, p@),
                forall|j: int|
                    0 <= j < i ==> (#[trigger] all[j]).len() > 0 && !path::is_under(all[j], p@),
            decreases self.allowed.len() - i,
        {
            assert(all[i as int] == self.allowed@[i as int]@);
            let base = self.allowed[i].as_str();
            if text::chars(base).len() == 0 || path::under(base, p) {
                return true;
            }
            i += 1;
        }
        false
    }

    /// Resolve `arg` against `base`, and refuse it when it leaves the boundary.
    /// `what` names the thing that is checked. `facts` answers for the
    /// [`candidates`], and behind that for [`candidates_again`].
    pub fn check(&self, what: &str, base: &str, arg: &str, facts: &Vec<Option<String>>) -> (r:
        Result<String, TsrError>)
        ensures
            ({
                let p = resolved(base@, arg@, facts@);
                match r {
                    Ok(s) => self.spec_permits(p) && s@ == p,
                    Err(e) => !self.spec_permits(p) && e@ == outside_error(
                        what@,
                        arg@,
                        p,
                        self.root_text(),
                    ),
                }
            }),
    {
        let p = resolve(base, arg, facts);
        if self.permits(p.as_str()) {
            return Ok(p);
        }
        let mut m = what.to_string();
        m.append(": '");
        m.append(arg);
        m.append("' resolves to '");
        m.append(p.as_str());
        m.append("', outside the workspace at '");
        m.append(self.root.as_str());
        m.append("' — add it to `[security] allow_paths` if that is intended");
        Err(TsrError::Config(m))
    }

    /// Whether an operand of a builtin stays inside.
    pub fn permits_operand(&self, base: &str, arg: &str, facts: &Vec<Option<String>>) -> (r: bool)
        ensures
            r == self.spec_permits(resolved(base@, arg@, facts@)),
    {
        let p = resolve(base, arg, facts);
        self.permits(p.as_str())
    }

    /// The workspace root, physically resolved.
    pub fn root(&self) -> (r: &String)
        ensures
            r@ == self.root_text(),
    {
        &self.root
    }
}

// ---------------------------------------------------------------------------
// What a config points at
// ---------------------------------------------------------------------------
/// A path of a config that must stay inside: what it is, where it is seen from,
/// and the path.
#[derive(Debug)]
pub struct PathCheck {
    pub what: String,
    pub base: String,
    pub arg: String,
}

/// A path to check.
pub struct CheckView {
    pub what: Seq<char>,
    pub base: Seq<char>,
    pub arg: Seq<char>,
}

impl View for PathCheck {
    type V = CheckView;

    open spec fn view(&self) -> CheckView {
        CheckView { what: self.what@, base: self.base@, arg: self.arg@ }
    }
}

/// The views of a list of checks.
pub open spec fn check_views(v: Seq<PathCheck>) -> Seq<CheckView> {
    Seq::new(v.len(), |i: int| v[i]@)
}

/// The number of components, among the first `n`, in front of the first that is
/// a glob.
pub open spec fn literal_count(parts: Seq<Seq<char>>, n: int) -> int
    decreases n,
{
    if n <= 0 {
        0
    } else {
        let front = literal_count(parts, n - 1);
        if front == n - 1 && !shell::has_glob_meta(parts[n - 1]) {
            n
        } else {
            front
        }
    }
}

/// The part of a glob that is fixed: its components in front of the first that
/// is a pattern. `apps/*` cannot leave `apps`, `../*` has left already.
pub open spec fn literal_prefix(pattern: Seq<char>) -> Seq<char> {
    let parts = path::components(pattern);
    path::rendered(
        path::is_absolute(pattern),
        parts.take(literal_count(parts, parts.len() as int)),
    )
}

/// The checks for globs that are seen from `base`.
pub open spec fn glob_checks(what: Seq<char>, base: Seq<char>, globs: Seq<Seq<char>>) -> Seq<
    CheckView,
> {
    Seq::new(globs.len(), |i: int| CheckView { what, base, arg: literal_prefix(globs[i]) })
}

/// The checks for paths that are seen from `base`.
pub open spec fn file_checks(what: Seq<char>, base: Seq<char>, files: Seq<Seq<char>>) -> Seq<
    CheckView,
> {
    Seq::new(files.len(), |i: int| CheckView { what, base, arg: files[i] })
}

/// The checks for one task: its directory, its `env_file`s and its packages.
pub open spec fn task_checks(root: Seq<char>, t: TaskView) -> Seq<CheckView> {
    let name = "task '"@ + t.key + "': "@;
    (match t.dir {
        Some(d) => seq![CheckView { what: name + "dir"@, base: root, arg: d }],
        None => Seq::empty(),
    }) + file_checks(name + "env_file"@, env::base_dir(root, t), t.env_files) + match t.packages {
        Some(p) => glob_checks(name + "packages"@, root, p),
        None => Seq::empty(),
    }
}

/// The checks for the first `n` tasks.
pub open spec fn tasks_checks(root: Seq<char>, tasks: Seq<TaskView>, n: int) -> Seq<CheckView>
    decreases n,
{
    if n <= 0 {
        Seq::empty()
    } else {
        tasks_checks(root, tasks, n - 1) + task_checks(root, tasks[n - 1])
    }
}

/// Every path that a config points at.
pub open spec fn config_checks(c: ConfigView) -> Seq<CheckView> {
    glob_checks("workspace.members"@, c.root, c.members) + tasks_checks(
        c.root,
        c.tasks,
        c.tasks.len() as int,
    )
}

/// The fixed part of a glob.
pub fn glob_prefix(pattern: &str) -> (r: String)
    ensures
        r@ == literal_prefix(pattern@),
{
    let parts = path::parts(pattern);
    let ghost all = text::texts(parts@);
    let mut n: usize = 0;
    while n < parts.len() && !shell::glob_meta(parts[n].as_str())
        invariant
            n <= parts.len(),
            all == text::texts(parts@),
            literal_count(all, n as int) == n,
        decreases parts.len() - n,
    {
        n += 1;
    }
    proof {
        lemma_literal_count(all, n as int, all.len() as int);
    }
    path::render(path::absolute(pattern), &take(&parts, n))
}

proof fn lemma_literal_count(parts: Seq<Seq<char>>, at: int, n: int)
    requires
        0 <= at <= n <= parts.len(),
        literal_count(parts, at) == at,
        at < parts.len() ==> shell::has_glob_meta(parts[at]),
    ensures
        literal_count(parts, n) == at,
    decreases n,
{
    if at < n {
        lemma_literal_count(parts, at, n - 1);
    }
}

/// Append the checks for globs.
fn push_globs(what: &str, base: &str, globs: &Vec<String>, out: &mut Vec<PathCheck>)
    ensures
        check_views(final(out)@) == check_views(old(out)@) + glob_checks(
            what@,
            base@,
            text::texts(globs@),
        ),
{
    let ghost start = check_views(out@);
    let ghost all = glob_checks(what@, base@, text::texts(globs@));
    let mut i: usize = 0;
    assert(start + all.take(0) =~= start);
    while i < globs.len()
        invariant
            i <= globs.len(),
            all == glob_checks(what@, base@, text::texts(globs@)),
            check_views(out@) == start + all.take(i as int),
        decreases globs.len() - i,
    {
        let ghost before = check_views(out@);
        let c = PathCheck {
            what: what.to_string(),
            base: base.to_string(),
            arg: glob_prefix(globs[i].as_str()),
        };
        assert(c@ == all[i as int]);
        out.push(c);
        assert(check_views(out@) =~= before.push(all[i as int]));
        assert(check_views(out@) =~= start + all.take(i + 1));
        i += 1;
    }
    assert(all.take(i as int) =~= all);
}

/// Append the checks for files.
fn push_files(what: &str, base: &str, files: &Vec<String>, out: &mut Vec<PathCheck>)
    ensures
        check_views(final(out)@) == check_views(old(out)@) + file_checks(
            what@,
            base@,
            text::texts(files@),
        ),
{
    let ghost start = check_views(out@);
    let ghost all = file_checks(what@, base@, text::texts(files@));
    let mut i: usize = 0;
    assert(start + all.take(0) =~= start);
    while i < files.len()
        invariant
            i <= files.len(),
            all == file_checks(what@, base@, text::texts(files@)),
            check_views(out@) == start + all.take(i as int),
        decreases files.len() - i,
    {
        let ghost before = check_views(out@);
        let c = PathCheck {
            what: what.to_string(),
            base: base.to_string(),
            arg: files[i].clone(),
        };
        assert(c@ == all[i as int]);
        out.push(c);
        assert(check_views(out@) =~= before.push(all[i as int]));
        assert(check_views(out@) =~= start + all.take(i + 1));
        i += 1;
    }
    assert(all.take(i as int) =~= all);
}

/// Every path that a config points at, to be checked when it is loaded.
pub fn config_paths(cfg: &Config) -> (r: Vec<PathCheck>)
    ensures
        check_views(r@) == config_checks(cfg@),
{
    let ghost c = cfg@;
    let root = cfg.root.as_str();
    let mut out: Vec<PathCheck> = Vec::new();
    push_globs("workspace.members", root, &cfg.members, &mut out);
    let ghost first = glob_checks("workspace.members"@, c.root, c.members);
    assert(check_views(out@) =~= first);
    let mut i: usize = 0;
    assert(check_views(out@) =~= first + tasks_checks(c.root, c.tasks, 0));
    while i < cfg.tasks.len()
        invariant
            i <= cfg.tasks.len(),
            c == cfg@,
            root@ == c.root,
            check_views(out@) == first + tasks_checks(c.root, c.tasks, i as int),
        decreases cfg.tasks.len() - i,
    {
        let ghost before = check_views(out@);
        let t = &cfg.tasks[i];
        assert(c.tasks[i as int] == t@);
        let name = text::join3("task '", t.key.as_str(), "': ");
        if let Some(d) = &t.dir {
            let check = PathCheck {
                what: text::join2(name.as_str(), "dir"),
                base: root.to_string(),
                arg: d.clone(),
            };
            out.push(check);
            assert(check_views(out@) =~= before + seq![check@]);
        } else {
            assert(check_views(out@) =~= before + Seq::<CheckView>::empty());
        }
        let base = env::task_base_dir(root, t);
        let what = text::join2(name.as_str(), "env_file");
        push_files(what.as_str(), base.as_str(), &t.env_files, &mut out);
        if let Some(p) = &t.packages {
            let what = text::join2(name.as_str(), "packages");
            push_globs(what.as_str(), root, p, &mut out);
        }
        assert(check_views(out@) =~= before + task_checks(c.root, t@));
        assert(check_views(out@) =~= first + tasks_checks(c.root, c.tasks, i + 1));
        i += 1;
    }
    out
}

// ---------------------------------------------------------------------------
// Laws
// ---------------------------------------------------------------------------
proof fn lemma_walked_is_plain(base: Seq<Seq<char>>, parts: Seq<Seq<char>>, n: int)
    requires
        0 <= n <= parts.len(),
        forall|i: int| 0 <= i < base.len() ==> is_normal(#[trigger] base[i]),
    ensures
        forall|i: int|
            0 <= i < walked(base, parts, n).len() ==> is_normal(
                #[trigger] walked(base, parts, n)[i],
            ),
    decreases n,
{
    if n > 0 {
        lemma_walked_is_plain(base, parts, n - 1);
        let before = walked(base, parts, n - 1);
        let after = walked(base, parts, n);
        assert forall|i: int| 0 <= i < after.len() implies is_normal(#[trigger] after[i]) by {
            if i < before.len() {
                assert(is_normal(before[i]));
            }
        }
    }
}

/// No `..` and no `.` survives: whatever the operand, what comes out of the walk
/// from plain components is plain, so a path cannot leave a directory it seems to
/// be under.
pub proof fn law_resolved_paths_are_plain(base: Seq<Seq<char>>, parts: Seq<Seq<char>>)
    requires
        forall|i: int| 0 <= i < base.len() ==> is_normal(#[trigger] base[i]),
    ensures
        forall|i: int|
            0 <= i < walked(base, parts, parts.len() as int).len() ==> is_normal(
                #[trigger] walked(base, parts, parts.len() as int)[i],
            ),
{
    lemma_walked_is_plain(base, parts, parts.len() as int);
}

proof fn lemma_longest_prefix(
    absolute: bool,
    parts: Seq<Seq<char>>,
    n: int,
    facts: Seq<Option<String>>,
    m: int,
)
    requires
        0 <= m <= n <= parts.len(),
        !absolute ==> m > 0,
        parts.len() - m < facts.len(),
        facts[parts.len() - m] is Some,
        forall|k: int| parts.len() - n <= k < parts.len() - m ==> facts[k] is None,
    ensures
        resolved_from(absolute, parts, n, facts) == appended(
            facts[parts.len() - m]->0@,
            parts.skip(m),
        ),
    decreases n,
{
    if m < n {
        assert(facts[parts.len() - n] is None);
        lemma_longest_prefix(absolute, parts, n - 1, facts, m);
    }
}

/// With `m` components the longest prefix of a path that exists, whatever stands
/// behind it, the path is taken for what that prefix really is, followed by the
/// rest as text.
pub proof fn law_links_are_followed(
    base: Seq<char>,
    arg: Seq<char>,
    facts: Seq<Option<String>>,
    m: int,
)
    requires
        ({
            let p = path::joined_path(base, arg);
            let parts = path::components(p);
            &&& 0 <= m <= parts.len()
            &&& !path::is_absolute(p) ==> m > 0
            &&& parts.len() - m < facts.len()
            &&& facts[parts.len() - m] is Some
            &&& forall|k: int| 0 <= k < parts.len() - m ==> facts[k] is None
        }),
    ensures
        ({
            let parts = path::components(path::joined_path(base, arg));
            resolved_once(base, arg, facts) == appended(
                facts[parts.len() - m]->0@,
                parts.skip(m),
            )
        }),
{
    let p = path::joined_path(base, arg);
    let parts = path::components(p);
    lemma_longest_prefix(path::is_absolute(p), parts, parts.len() as int, facts, m);
}

/// What a file system says of absolute paths: what each really is, where it
/// exists.
pub type Files = spec_fn(Seq<char>) -> Option<Seq<char>>;

/// The first `n` components of an absolute path.
pub open spec fn cut(p: Seq<char>, n: int) -> Seq<char> {
    path::rendered(true, path::components(p).take(n))
}

/// Whether a component can be the name of a file.
pub open spec fn is_name(part: Seq<char>) -> bool {
    is_normal(part) && part.len() > 0 && !part.contains('/')
}

/// Whether these are the answers of a file system. What a path really is is an
/// absolute path of names, and all of it is what it really is. Below what does not
/// exist there is nothing. What is below a path is what is below that which the
/// path really is.
pub open spec fn are_files(fs: Files) -> bool {
    &&& forall|p: Seq<char>, r: Seq<char>|
        #![trigger fs(p), path::components(r)]
        fs(p) == Some(r) ==> {
            &&& path::is_absolute(r)
            &&& forall|i: int|
                0 <= i < path::components(r).len() ==> is_name(#[trigger] path::components(r)[i])
            &&& forall|n: int|
                0 <= n <= path::components(r).len() ==> fs(#[trigger] cut(r, n)) == Some(
                    cut(r, n),
                )
        }
    &&& forall|parts: Seq<Seq<char>>, name: Seq<char>|
        is_name(name) ==> match fs(path::rendered(true, parts)) {
            None => fs(#[trigger] path::rendered(true, parts.push(name))) is None,
            Some(r) => fs(path::rendered(true, parts.push(name))) == fs(
                path::rendered(true, path::components(r).push(name)),
            ),
        }
}

/// Whether `facts` holds what these paths really are.
pub open spec fn are_answers(
    fs: Files,
    paths: Seq<Seq<char>>,
    facts: Seq<Option<String>>,
) -> bool {
    &&& paths.len() <= facts.len()
    &&& forall|i: int|
        0 <= i < paths.len() ==> crate::config::opt_text(#[trigger] facts[i]) == fs(paths[i])
}

proof fn lemma_prefixes(parts: Seq<Seq<char>>, n: int)
    requires
        0 <= n <= parts.len(),
    ensures
        prefixes(true, parts, n).len() == n + 1,
        forall|k: int|
            0 <= k <= n ==> #[trigger] prefixes(true, parts, n)[k] == path::rendered(
                true,
                parts.take(n - k),
            ),
    decreases n,
{
    if n > 0 {
        lemma_prefixes(parts, n - 1);
        assert forall|k: int| 0 <= k <= n implies #[trigger] prefixes(true, parts, n)[k]
            == path::rendered(true, parts.take(n - k)) by {
            if k > 0 {
                assert(prefixes(true, parts, n)[k] == prefixes(true, parts, n - 1)[k - 1]);
            }
        }
    }
}

/// A walk that starts among names ends among names.
proof fn lemma_walked_names(base: Seq<Seq<char>>, parts: Seq<Seq<char>>, n: int)
    requires
        0 <= n <= parts.len(),
        forall|i: int| 0 <= i < base.len() ==> is_name(#[trigger] base[i]),
        forall|i: int|
            0 <= i < parts.len() ==> (#[trigger] parts[i]).len() > 0 && !parts[i].contains('/'),
    ensures
        forall|i: int|
            0 <= i < walked(base, parts, n).len() ==> is_name(#[trigger] walked(base, parts, n)[i]),
    decreases n,
{
    if n > 0 {
        lemma_walked_names(base, parts, n - 1);
        let before = walked(base, parts, n - 1);
        let after = walked(base, parts, n);
        assert(parts[n - 1].len() > 0);
        assert forall|i: int| 0 <= i < after.len() implies is_name(#[trigger] after[i]) by {
            if i < before.len() {
                assert(is_name(before[i]));
            }
        }
    }
}

/// A walk along names goes down all of them.
proof fn lemma_walked_down(base: Seq<Seq<char>>, parts: Seq<Seq<char>>, n: int)
    requires
        0 <= n <= parts.len(),
        forall|i: int| 0 <= i < parts.len() ==> is_normal(#[trigger] parts[i]),
    ensures
        walked(base, parts, n) == base + parts.take(n),
    decreases n,
{
    if n > 0 {
        lemma_walked_down(base, parts, n - 1);
        assert(is_normal(parts[n - 1]));
        assert(base + parts.take(n) =~= (base + parts.take(n - 1)).push(parts[n - 1]));
    } else {
        assert(base + parts.take(0) =~= base);
    }
}

proof fn lemma_names_are_components(parts: Seq<Seq<char>>)
    requires
        forall|i: int| 0 <= i < parts.len() ==> is_name(#[trigger] parts[i]),
    ensures
        path::components(path::rendered(true, parts)) == parts,
        path::is_absolute(path::rendered(true, parts)),
{
    assert forall|i: int| 0 <= i < parts.len() implies (#[trigger] parts[i]).len() > 0
        && !parts[i].contains('/') && parts[i] != seq!['.'] by {
        assert(is_name(parts[i]));
    }
    path::law_rendering_keeps_components(true, parts);
}

/// What a path resolves to has names for components.
proof fn lemma_resolved_names(fs: Files, p: Seq<char>, facts: Seq<Option<String>>, n: int)
    requires
        are_files(fs),
        path::is_absolute(p),
        are_answers(fs, path_prefixes(p), facts),
        0 <= n <= path::components(p).len(),
    ensures
        ({
            let r = resolved_from(true, path::components(p), n, facts);
            &&& path::is_absolute(r)
            &&& forall|i: int|
                0 <= i < path::components(r).len() ==> is_name(#[trigger] path::components(r)[i])
            &&& r == path::rendered(true, path::components(r))
        }),
    decreases n,
{
    let parts = path::components(p);
    let k = parts.len() - n;
    path::lemma_components_of(p);
    lemma_prefixes(parts, parts.len() as int);
    assert forall|i: int| 0 <= i < parts.len() implies (#[trigger] parts[i]).len() > 0
        && !parts[i].contains('/') by {}
    if facts[k] is Some {
        let found = facts[k]->0@;
        assert(crate::config::opt_text(facts[k]) == Some(found));
        let base = path::components(found);
        assert(fs(path_prefixes(p)[k]) == Some(found));
        let tail = parts.skip(n);
        assert forall|i: int| 0 <= i < tail.len() implies (#[trigger] tail[i]).len() > 0
            && !tail[i].contains('/') by {
            assert(tail[i] == parts[n + i]);
        }
        lemma_walked_names(base, tail, tail.len() as int);
        lemma_names_are_components(walked(base, tail, tail.len() as int));
    } else if n == 0 {
        let none = Seq::<Seq<char>>::empty();
        lemma_walked_names(none, parts, parts.len() as int);
        lemma_names_are_components(walked(none, parts, parts.len() as int));
    } else {
        lemma_resolved_names(fs, p, facts, n - 1);
    }
}

/// Below what does not exist nothing exists, at any depth.
proof fn lemma_nothing_below(fs: Files, parts: Seq<Seq<char>>, n: int, m: int)
    requires
        are_files(fs),
        0 <= n <= m <= parts.len(),
        forall|i: int| 0 <= i < parts.len() ==> is_name(#[trigger] parts[i]),
        fs(path::rendered(true, parts.take(n))) is None,
    ensures
        fs(path::rendered(true, parts.take(m))) is None,
    decreases m - n,
{
    if n < m {
        lemma_nothing_below(fs, parts, n, m - 1);
        assert(is_name(parts[m - 1]));
        assert(parts.take(m) =~= parts.take(m - 1).push(parts[m - 1]));
        assert(fs(path::rendered(true, parts.take(m - 1).push(parts[m - 1]))) is None);
    }
}

/// A path of names, resolved: whatever of it exists is what it really is.
proof fn lemma_names_resolve(
    fs: Files,
    p: Seq<char>,
    facts: Seq<Option<String>>,
    n: int,
    at: int,
)
    requires
        are_files(fs),
        path::is_absolute(p),
        forall|i: int|
            0 <= i < path::components(p).len() ==> is_name(#[trigger] path::components(p)[i]),
        are_answers(fs, path_prefixes(p), facts),
        0 <= n <= path::components(p).len(),
        n < path::components(p).len() ==> fs(cut(p, n + 1)) is None,
        ({
            let r = resolved_from(true, path::components(p), n, facts);
            0 <= at <= path::components(r).len()
        }),
    ensures
        ({
            let r = resolved_from(true, path::components(p), n, facts);
            fs(cut(r, at)) matches Some(q) ==> q == cut(r, at)
        }),
    decreases n,
{
    let parts = path::components(p);
    let r = resolved_from(true, parts, n, facts);
    let k = parts.len() - n;
    lemma_prefixes(parts, parts.len() as int);
    assert(path_prefixes(p)[k] == cut(p, n));
    assert(crate::config::opt_text(facts[k]) == fs(cut(p, n)));
    if facts[k] is Some {
        let found = facts[k]->0@;
        let base = path::components(found);
        let tail = parts.skip(n);
        assert(fs(cut(p, n)) == Some(found));
        assert forall|i: int| 0 <= i < tail.len() implies is_normal(#[trigger] tail[i]) by {
            assert(is_name(parts[n + i]));
        }
        lemma_walked_down(base, tail, tail.len() as int);
        assert(tail.take(tail.len() as int) =~= tail);
        let all = base + tail;
        assert forall|i: int| 0 <= i < all.len() implies is_name(#[trigger] all[i]) by {
            if i < base.len() {
                assert(is_name(base[i]));
            } else {
                assert(is_name(parts[n + i - base.len()]));
            }
        }
        lemma_names_are_components(all);
        assert(path::components(r) == all);
        if at <= base.len() {
            assert(all.take(at) =~= base.take(at));
            assert(cut(r, at) == cut(found, at));
            assert(fs(cut(found, at)) == Some(cut(found, at)));
        } else {
            assert(is_name(parts[n]));
            assert(parts.take(n + 1) =~= parts.take(n).push(parts[n]));
            assert(all.take(base.len() as int + 1) =~= base.push(parts[n]));
            assert(fs(path::rendered(true, parts.take(n).push(parts[n]))) == fs(
                path::rendered(true, base.push(parts[n])),
            ));
            lemma_nothing_below(fs, all, base.len() as int + 1, at);
        }
    } else if n == 0 {
        let none = Seq::<Seq<char>>::empty();
        assert forall|i: int| 0 <= i < parts.len() implies is_normal(#[trigger] parts[i]) by {
            assert(is_name(parts[i]));
        }
        lemma_walked_down(none, parts, parts.len() as int);
        assert(none + parts.take(parts.len() as int) =~= parts);
        lemma_names_are_components(parts);
        assert(path::components(r) == parts);
        lemma_nothing_below(fs, parts, 0, at);
    } else {
        lemma_names_resolve(fs, p, facts, n - 1, at);
    }
}

/// Resolution is physical: in what a path resolves to there is neither a `..` nor
/// a link. Its components are names, and whatever of it exists is what it really
/// is; so where it is refused or permitted is where it leads.
pub proof fn law_resolution_is_physical(
    fs: Files,
    base: Seq<char>,
    arg: Seq<char>,
    facts: Seq<Option<String>>,
    at: int,
)
    requires
        are_files(fs),
        path::is_absolute(path::joined_path(base, arg)),
        are_answers(fs, candidate_paths(base, arg), facts),
        are_answers(
            fs,
            path_prefixes(resolved_once(base, arg, facts)),
            later(facts, candidate_paths(base, arg).len() as int),
        ),
    ensures
        ({
            let p = resolved(base, arg, facts);
            &&& path::is_absolute(p)
            &&& forall|i: int|
                0 <= i < path::components(p).len() ==> is_name(#[trigger] path::components(p)[i])
            &&& 0 <= at <= path::components(p).len() ==> (fs(cut(p, at)) matches Some(q)
                ==> q == cut(p, at))
        }),
{
    let p = path::joined_path(base, arg);
    let once = resolved_once(base, arg, facts);
    let more = later(facts, candidate_paths(base, arg).len() as int);
    lemma_resolved_names(fs, p, facts, path::components(p).len() as int);
    lemma_resolved_names(fs, once, more, path::components(once).len() as int);
    if 0 <= at <= path::components(resolved(base, arg, facts)).len() {
        lemma_names_resolve(fs, once, more, path::components(once).len() as int, at);
    }
}

/// More allowed paths never make the boundary narrower.
pub proof fn law_allow_paths_widen(
    root: Seq<char>,
    allowed: Seq<Seq<char>>,
    more: Seq<Seq<char>>,
    p: Seq<char>,
)
    requires
        inside(root, allowed, p),
    ensures
        inside(root, allowed + more, p),
{
    if root.len() != 0 && !path::is_under(root, p) {
        let i = choose|i: int|
            0 <= i < allowed.len() && ((#[trigger] allowed[i]).len() == 0 || path::is_under(
                allowed[i],
                p,
            ));
        assert((allowed + more)[i] == allowed[i]);
    }
}

proof fn lemma_walked_push(base: Seq<Seq<char>>, parts: Seq<Seq<char>>, part: Seq<char>, n: int)
    requires
        0 <= n <= parts.len(),
    ensures
        walked(base, parts.push(part), n) == walked(base, parts, n),
    decreases n,
{
    if n > 0 {
        lemma_walked_push(base, parts, part, n - 1);
        assert(parts.push(part)[n - 1] == parts[n - 1]);
    }
}

/// A walk goes down by a name, up by `..` and nowhere by `.`; at the top `..` leads
/// nowhere either.
pub proof fn law_walks(base: Seq<Seq<char>>, parts: Seq<Seq<char>>, part: Seq<char>)
    ensures
        ({
            let here = walked(base, parts, parts.len() as int);
            let next = walked(base, parts.push(part), parts.len() as int + 1);
            &&& part != seq!['.'] && part != seq!['.', '.'] ==> next == here.push(part)
            &&& part == seq!['.'] ==> next == here
            &&& part == seq!['.', '.'] && here.len() > 0 ==> next == here.take(here.len() - 1)
            &&& part == seq!['.', '.'] && here.len() == 0 ==> next == here
        }),
        walked(base, Seq::empty(), 0) == base,
{
    lemma_walked_push(base, parts, part, parts.len() as int);
    assert(parts.push(part)[parts.len() as int] == part);
    let here = walked(base, parts, parts.len() as int);
    if here.len() > 0 {
        assert(here.drop_last() =~= here.take(here.len() - 1));
    }
}

/// A path is inside the workspace exactly if the names of the root, or of a path that is
/// allowed, are the first of its own: a directory whose name merely begins alike is
/// another one.
pub proof fn law_inside(root: Seq<Seq<char>>, allowed: Seq<Seq<Seq<char>>>, p: Seq<Seq<char>>)
    requires
        path::are_components(true, root),
        path::are_components(true, p),
        forall|i: int| 0 <= i < allowed.len() ==> path::are_components(true, #[trigger] allowed[i]),
    ensures
        inside(
            path::rendered(true, root),
            Seq::new(allowed.len(), |i: int| path::rendered(true, allowed[i])),
            path::rendered(true, p),
        ) <==> (root.len() <= p.len() && p.take(root.len() as int) == root) || exists|i: int|
            0 <= i < allowed.len() && (#[trigger] allowed[i]).len() <= p.len() && p.take(
                allowed[i].len() as int,
            ) == allowed[i],
{
    path::law_rendering_keeps_components(true, root);
    path::law_rendering_keeps_components(true, p);
    let texts = Seq::new(allowed.len(), |i: int| path::rendered(true, allowed[i]));
    let q = path::rendered(true, p);
    assert forall|i: int| 0 <= i < allowed.len() implies (path::is_under(#[trigger] texts[i], q)
        <==> allowed[i].len() <= p.len() && p.take(allowed[i].len() as int) == allowed[i])
        && texts[i].len() > 0 by {
        assert(path::are_components(true, allowed[i]));
        path::law_rendering_keeps_components(true, allowed[i]);
    }
    if exists|i: int|
        0 <= i < allowed.len() && (#[trigger] allowed[i]).len() <= p.len() && p.take(
            allowed[i].len() as int,
        ) == allowed[i] {
        let i = choose|i: int|
            0 <= i < allowed.len() && (#[trigger] allowed[i]).len() <= p.len() && p.take(
                allowed[i].len() as int,
            ) == allowed[i];
        assert(path::is_under(texts[i], q));
    }
}

/// Without a root there is no boundary.
pub proof fn law_no_root_no_boundary(allowed: Seq<Seq<char>>, p: Seq<char>)
    ensures
        inside(Seq::empty(), allowed, p),
{
}

proof fn lemma_fixed_count(parts: Seq<Seq<char>>, n: int, m: int)
    requires
        0 <= m <= parts.len(),
        0 <= n <= parts.len(),
        forall|i: int| 0 <= i < m ==> !shell::has_glob_meta(#[trigger] parts[i]),
        m < parts.len() ==> shell::has_glob_meta(parts[m]),
    ensures
        literal_count(parts, n) == if n <= m {
            n
        } else {
            m
        },
    decreases n,
{
    if n > 0 {
        lemma_fixed_count(parts, n - 1, m);
        if n - 1 < m {
            assert(!shell::has_glob_meta(parts[n - 1]));
        }
    }
}

/// What is fixed of a glob is what stands in front of its first component with a `*`,
/// `?` or `[`.
pub proof fn law_fixed_parts(fixed: Seq<Seq<char>>, glob: Seq<char>, rest: Seq<Seq<char>>, absolute: bool)
    requires
        path::are_components(absolute, fixed.push(glob) + rest),
        glob.contains('*') || glob.contains('?') || glob.contains('['),
        forall|i: int|
            0 <= i < fixed.len() ==> !(#[trigger] fixed[i]).contains('*') && !fixed[i].contains('?')
                && !fixed[i].contains('['),
    ensures
        literal_prefix(path::rendered(absolute, fixed.push(glob) + rest)) == path::rendered(
            absolute,
            fixed,
        ),
        path::are_components(absolute, fixed) ==> literal_prefix(path::rendered(absolute, fixed))
            == path::rendered(absolute, fixed),
{
    let parts = fixed.push(glob) + rest;
    path::law_rendering_keeps_components(absolute, parts);
    assert forall|i: int| 0 <= i < fixed.len() implies !shell::has_glob_meta(
        #[trigger] parts[i],
    ) by {
        assert(parts[i] == fixed[i]);
        shell::law_glob_characters(fixed[i]);
    }
    shell::law_glob_characters(glob);
    assert(parts[fixed.len() as int] == glob);
    lemma_fixed_count(parts, parts.len() as int, fixed.len() as int);
    assert(parts.take(fixed.len() as int) =~= fixed);
    if path::are_components(absolute, fixed) {
        path::law_rendering_keeps_components(absolute, fixed);
        assert forall|i: int| 0 <= i < fixed.len() implies !shell::has_glob_meta(
            #[trigger] fixed[i],
        ) by {
            shell::law_glob_characters(fixed[i]);
        }
        lemma_fixed_count(fixed, fixed.len() as int, fixed.len() as int);
        assert(fixed.take(fixed.len() as int) =~= fixed);
    }
}

proof fn lemma_tasks_checks(root: Seq<char>, tasks: Seq<TaskView>, n: int, i: int, c: CheckView)
    requires
        0 <= i < n <= tasks.len(),
        task_checks(root, tasks[i]).contains(c),
    ensures
        tasks_checks(root, tasks, n).contains(c),
    decreases n,
{
    let front = tasks_checks(root, tasks, n - 1);
    let last = task_checks(root, tasks[n - 1]);
    if i == n - 1 {
        let k = choose|k: int| 0 <= k < last.len() && last[k] == c;
        assert((front + last)[front.len() + k] == c);
    } else {
        lemma_tasks_checks(root, tasks, n - 1, i, c);
        let k = choose|k: int| 0 <= k < front.len() && front[k] == c;
        assert((front + last)[k] == c);
    }
}

/// Every path that a config points at is checked: the members of the workspace and the
/// packages of each task as far as they are fixed, its directory, and its `env_file`s
/// seen from there.
pub proof fn law_every_path_is_checked(c: ConfigView, i: int, k: int)
    ensures
        0 <= k < c.members.len() ==> config_checks(c).contains(
            CheckView {
                what: "workspace.members"@,
                base: c.root,
                arg: literal_prefix(c.members[k]),
            },
        ),
        0 <= i < c.tasks.len() ==> {
            let t = c.tasks[i];
            let name = "task '"@ + t.key + "': "@;
            &&& t.dir is Some ==> config_checks(c).contains(
                CheckView { what: name + "dir"@, base: c.root, arg: t.dir->0 },
            )
            &&& 0 <= k < t.env_files.len() ==> config_checks(c).contains(
                CheckView {
                    what: name + "env_file"@,
                    base: if t.dir is Some {
                        path::joined_path(c.root, t.dir->0)
                    } else {
                        c.root
                    },
                    arg: t.env_files[k],
                },
            )
            &&& t.packages is Some && 0 <= k < t.packages->0.len() ==> config_checks(c).contains(
                CheckView {
                    what: name + "packages"@,
                    base: c.root,
                    arg: literal_prefix(t.packages->0[k]),
                },
            )
        },
{
    let front = glob_checks("workspace.members"@, c.root, c.members);
    let n = c.tasks.len() as int;
    let back = tasks_checks(c.root, c.tasks, n);
    let all = config_checks(c);
    if 0 <= k < c.members.len() {
        assert(all[k] == front[k]);
    }
    if 0 <= i < c.tasks.len() {
        let t = c.tasks[i];
        let name = "task '"@ + t.key + "': "@;
        let dirs = match t.dir {
            Some(d) => seq![CheckView { what: name + "dir"@, base: c.root, arg: d }],
            None => Seq::empty(),
        };
        let files = file_checks(name + "env_file"@, env::base_dir(c.root, t), t.env_files);
        let globs = match t.packages {
            Some(p) => glob_checks(name + "packages"@, c.root, p),
            None => Seq::empty(),
        };
        let own = task_checks(c.root, t);
        assert(own == dirs + files + globs);
        assert forall|x: CheckView| #[trigger] own.contains(x) implies all.contains(x) by {
            lemma_tasks_checks(c.root, c.tasks, n, i, x);
            let j = choose|j: int| 0 <= j < back.len() && back[j] == x;
            assert(all[front.len() + j] == x);
        }
        if t.dir is Some {
            assert(own[0] == dirs[0]);
            assert(own.contains(dirs[0]));
        }
        if 0 <= k < t.env_files.len() {
            assert(own[dirs.len() + k] == files[k]);
            assert(own.contains(files[k]));
        }
        if t.packages is Some && 0 <= k < t.packages->0.len() {
            assert(own[dirs.len() as int + files.len() + k] == globs[k]);
            assert(own.contains(globs[k]));
        }
    }
}

} // verus!
