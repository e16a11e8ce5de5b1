//! Affected packages: the `--since <ref>` filter.
//!
//! git says which files changed; those map onto packages, and the set widens
//! downstream, because those are the packages whose result could differ.

use vstd::prelude::*;

use crate::error::{ErrorView, TsrError};
use crate::pkggraph;
use crate::pkggraph::PackageGraph;
use crate::text;
use crate::workspace;
use crate::workspace::PackageView;

verus! {

/// How a run of git ended.
#[derive(Debug)]
pub enum GitOutput {
    /// It could not be run, for this reason.
    NotRun(String),
    /// It failed, with this on stderr.
    Failed(String),
    /// It succeeded, with this on stdout.
    Done(String),
}

/// A run of git.
pub enum GitView {
    NotRun(Seq<char>),
    Failed(Seq<char>),
    Done(Seq<char>),
}

impl View for GitOutput {
    type V = GitView;

    open spec fn view(&self) -> GitView {
        match self {
            GitOutput::NotRun(s) => GitView::NotRun(s@),
            GitOutput::Failed(s) => GitView::Failed(s@),
            GitOutput::Done(s) => GitView::Done(s@),
        }
    }
}

/// The git arguments that list what changed since a ref, relative to the root.
pub open spec fn diff_words(since: Seq<char>) -> Seq<Seq<char>> {
    seq!["diff"@, "--name-only"@, "--relative"@, since]
}

/// The git arguments that list the untracked files.
pub open spec fn untracked_words() -> Seq<Seq<char>> {
    seq!["ls-files"@, "--others"@, "--exclude-standard"@]
}

/// The git arguments that list what changed since a ref.
pub fn diff_args(since: &str) -> (r: Vec<String>)
    ensures
        text::texts(r@) == diff_words(since@),
{
    let mut v: Vec<String> = Vec::new();
    v.push("diff".to_string());
    v.push("--name-only".to_string());
    v.push("--relative".to_string());
    v.push(since.to_string());
    assert(text::texts(v@) =~= diff_words(since@));
    v
}

/// The git arguments that list the untracked files: a brand-new package exists
/// only as such.
pub fn untracked_args() -> (r: Vec<String>)
    ensures
        text::texts(r@) == untracked_words(),
{
    let mut v: Vec<String> = Vec::new();
    v.push("ls-files".to_string());
    v.push("--others".to_string());
    v.push("--exclude-standard".to_string());
    assert(text::texts(v@) =~= untracked_words());
    v
}

/// The text with `/` for every `\`.
pub open spec fn slashes(s: Seq<char>) -> Seq<char> {
    Seq::new(
        s.len(),
        |i: int|
            if s[i] == '\\' {
                '/'
            } else {
                s[i]
            },
    )
}

/// The files that the first `n` lines of an output name.
pub open spec fn line_files(lines: Seq<Seq<char>>, n: int) -> Seq<Seq<char>>
    decreases n,
{
    if n <= 0 {
        Seq::empty()
    } else {
        let front = line_files(lines, n - 1);
        let line = text::trimmed(lines[n - 1]);
        if line.len() == 0 {
            front
        } else {
            front.push(slashes(line))
        }
    }
}

/// The files that a run of git names. Any failure is an error: the alternative
/// would be to run the wrong subset in silence.
pub open spec fn git_files(args: Seq<Seq<char>>, out: GitView) -> Result<
    Seq<Seq<char>>,
    ErrorView,
> {
    match out {
        GitView::NotRun(e) => Err(
            ErrorView::Runtime("'--since' needs git on PATH, but it could not be run: "@ + e),
        ),
        GitView::Failed(stderr) => Err(
            ErrorView::Runtime(
                "git "@ + text::joined(args, " "@) + " failed: "@ + text::trimmed(stderr),
            ),
        ),
        GitView::Done(stdout) => {
            let lines = text::split(stdout, '\n');
            Ok(line_files(lines, lines.len() as int))
        },
    }
}

/// The files that a run of git names.
fn git(args: &Vec<String>, out: &GitOutput) -> (r: Result<Vec<String>, TsrError>)
    ensures
        match r {
            Ok(v) => git_files(text::texts(args@), out@) == Ok::<Seq<Seq<char>>, ErrorView>(
                text::texts(v@),
            ),
            Err(e) => git_files(text::texts(args@), out@) == Err::<Seq<Seq<char>>, ErrorView>(e@),
        },
{
    let stdout = match out {
        GitOutput::NotRun(e) => return Err(
            TsrError::Runtime(
                text::join2(
                    "'--since' needs git on PATH, but it could not be run: ",
                    e.as_str(),
                ),
            ),
        ),
        GitOutput::Failed(stderr) => {
            let mut m = "git ".to_string();
            m.append(text::join(args, " ").as_str());
            m.append(" failed: ");
            m.append(text::trim_str(stderr.as_str()).as_str());
            return Err(TsrError::Runtime(m));
        },
        GitOutput::Done(s) => s,
    };
    let lines = text::split_at_char(&text::chars(stdout.as_str()), '\n');
    let ghost all = text::texts(lines@);
    let mut files: Vec<String> = Vec::new();
    let mut i: usize = 0;
    assert(text::texts(files@) =~= Seq::<Seq<char>>::empty());
    while i < lines.len()
        invariant
            i <= lines.len(),
            all == text::texts(lines@),
            text::texts(files@) == line_files(all, i as int),
        decreases lines.len() - i,
    {
        let ghost before = text::texts(files@);
        assert(all[i as int] == lines@[i as int]@);
        let line = text::trim(&text::chars(lines[i].as_str()));
        if line.len() > 0 {
            let mut file = String::new();
            let mut k: usize = 0;
            assert(file@ =~= slashes(line@).take(0));
            while k < line.len()
                invariant
                    k <= line.len(),
                    file@ == slashes(line@).take(k as int),
                decreases line.len() - k,
            {
                let ghost so_far = file@;
                let c = line[k];
                file.push(
                    if c == '\\' {
                        '/'
                    } else {
                        c
                    },
                );
                assert(file@ =~= slashes(line@).take(k + 1));
                k += 1;
            }
            assert(slashes(line@).take(k as int) =~= slashes(line@));
            files.push(file);
            assert(text::texts(files@) =~= before.push(slashes(line@)));
        }
        i += 1;
    }
    Ok(files)
}

/// The files that changed since a ref: committed changes and unstaged edits, then
/// untracked files.
pub open spec fn changed(since: Seq<char>, diff: GitView, untracked: GitView) -> Result<
    Seq<Seq<char>>,
    ErrorView,
> {
    match git_files(diff_words(since), diff) {
        Err(e) => Err(e),
        Ok(a) => match git_files(untracked_words(), untracked) {
            Err(e) => Err(e),
            Ok(b) => Ok(a + b),
        },
    }
}

/// The files that changed since a ref, given how git ran with [`diff_args`] and
/// with [`untracked_args`].
pub fn changed_files(since: &str, diff: &GitOutput, untracked: &GitOutput) -> (r: Result<
    Vec<String>,
    TsrError,
>)
    ensures
        match r {
            Ok(v) => changed(since@, diff@, untracked@) == Ok::<Seq<Seq<char>>, ErrorView>(
                text::texts(v@),
            ),
            Err(e) => changed(since@, diff@, untracked@) == Err::<Seq<Seq<char>>, ErrorView>(e@),
        },
{
    let mut files = match git(&diff_args(since), diff) {
        Ok(v) => v,
        Err(e) => return Err(e),
    };
    match git(&untracked_args(), untracked) {
        Ok(more) => {
            text::extend(&mut files, &more);
            Ok(files)
        },
        Err(e) => Err(e),
    }
}

// ---------------------------------------------------------------------------
// From files to packages
// ---------------------------------------------------------------------------
/// Whether a file lies in a package.
pub open spec fn lies_in(file: Seq<char>, rel: Seq<char>) -> bool {
    text::has_prefix(file, rel + seq!['/'])
}

/// Among the first `n` packages, the most specific one that a file lies in: a
/// nested package wins over the one that contains it.
pub open spec fn owner(pkgs: Seq<PackageView>, file: Seq<char>, n: int) -> Option<int>
    decreases n,
{
    if n <= 0 {
        None
    } else {
        let front = owner(pkgs, file, n - 1);
        if lies_in(file, pkgs[n - 1].rel) && (front is None || pkgs[front->0].rel.len()
            < pkgs[n - 1].rel.len()) {
            Some(n - 1)
        } else {
            front
        }
    }
}

/// The package that a file lies in.
pub open spec fn owner_of(pkgs: Seq<PackageView>, file: Seq<char>) -> Option<int> {
    owner(pkgs, file, pkgs.len() as int)
}

/// Whether every file lies in some package.
pub open spec fn all_owned(pkgs: Seq<PackageView>, files: Seq<Seq<char>>) -> bool {
    forall|i: int| 0 <= i < files.len() ==> owner_of(pkgs, #[trigger] files[i]) is Some
}

/// Whether a package holds one of the files.
pub open spec fn is_touched(pkgs: Seq<PackageView>, files: Seq<Seq<char>>, p: int) -> bool {
    exists|i: int| 0 <= i < files.len() && owner_of(pkgs, #[trigger] files[i]) == Some(p)
}

/// Whether a change to the files affects a package: it holds one of them, or
/// depends, directly or not, on a package that does.
pub open spec fn is_affected(pkgs: Seq<PackageView>, files: Seq<Seq<char>>, p: int) -> bool {
    is_touched(pkgs, files, p) || exists|q: int|
        is_touched(pkgs, files, q) && #[trigger] pkggraph::reaches(
            pkggraph::downstream_edges(pkgs),
            seq![q],
            p,
        )
}

proof fn lemma_owner_range(pkgs: Seq<PackageView>, file: Seq<char>, n: int)
    requires
        n <= pkgs.len(),
    ensures
        owner(pkgs, file, n) matches Some(p) ==> 0 <= p < n && lies_in(file, pkgs[p].rel),
        owner(pkgs, file, n) is None ==> forall|i: int|
            0 <= i < n ==> !lies_in(file, (#[trigger] pkgs[i]).rel),
        owner(pkgs, file, n) matches Some(p) ==> forall|i: int|
            0 <= i < n && lies_in(file, (#[trigger] pkgs[i]).rel) ==> pkgs[i].rel.len()
                <= pkgs[p].rel.len(),
    decreases n,
{
    if n > 0 {
        lemma_owner_range(pkgs, file, n - 1);
    }
}

/// The package that a file lies in.
fn owning_package(graph: &PackageGraph, file: &str) -> (r: Option<usize>)
    ensures
        match r {
            Some(p) => p < graph@.len() && owner_of(graph@, file@) == Some(p as int),
            None => owner_of(graph@, file@) is None,
        },
{
    let ghost pkgs = graph@;
    let packages = graph.packages();
    let cs = text::chars(file);
    let mut best: Option<usize> = None;
    let mut best_len: usize = 0;
    let mut i: usize = 0;
    while i < packages.len()
        invariant
            i <= packages.len(),
            pkgs == workspace::package_views(packages@),
            cs@ == file@,
            match best {
                Some(p) => p < i && owner(pkgs, file@, i as int) == Some(p as int) && best_len
                    == pkgs[p as int].rel.len(),
                None => owner(pkgs, file@, i as int) is None,
            },
        decreases packages.len() - i,
    {
        let rel = packages[i].rel.as_str();
        assert(pkgs[i as int].rel == rel@);
        let sep = text::unit('/');
        let prefix = text::join2(rel, sep.as_str());
        let len = text::chars(rel).len();
        if text::starts_with(&cs, prefix.as_str()) && (best.is_none() || best_len < len) {
            best = Some(i);
            best_len = len;
        }
        i += 1;
    }
    best
}

/// The packages that a change to `files` affects, by position and in order.
///
/// `None` means: do not narrow at all. A changed file that lies in no package (a
/// root config, a lockfile, a CI workflow) could affect any of them, and skipping
/// work that should have run is worse than running too much.
pub fn affected(graph: &PackageGraph, files: &Vec<String>) -> (r: Option<Vec<usize>>)
    ensures
        match r {
            None => !all_owned(graph@, text::texts(files@)),
            Some(v) => {
                &&& all_owned(graph@, text::texts(files@))
                &&& forall|k: int| 0 <= k < v.len() ==> (#[trigger] v@[k]) < graph@.len()
                &&& forall|k: int, l: int|
                    0 <= k < l < v.len() ==> (#[trigger] v@[k]) < (#[trigger] v@[l])
                &&& forall|p: usize| #[trigger]
                    v@.contains(p) <==> is_affected(graph@, text::texts(files@), p as int)
            },
        },
{
    let ghost pkgs = graph@;
    let ghost fs = text::texts(files@);
    let mut roots: Vec<usize> = Vec::new();
    let mut i: usize = 0;
    while i < files.len()
        invariant
            i <= files.len(),
            pkgs == graph@,
            fs == text::texts(files@),
            roots@.no_duplicates(),
            forall|k: int| 0 <= k < roots.len() ==> (#[trigger] roots@[k]) < pkgs.len(),
            forall|j: int| 0 <= j < i ==> owner_of(pkgs, #[trigger] fs[j]) is Some,
            forall|p: usize| #[trigger]
                roots@.contains(p) <==> exists|j: int|
                    0 <= j < i && owner_of(pkgs, #[trigger] fs[j]) == Some(p as int),
        decreases files.len() - i,
    {
        assert(fs[i as int] == files@[i as int]@);
        let ghost before = roots@;
        match owning_package(graph, files[i].as_str()) {
            None => {
                assert(owner_of(pkgs, fs[i as int]) is None);
                return None;
            },
            Some(p) => {
                if !pkggraph::listed(&roots, p) {
                    roots.push(p);
                }
                proof {
                    assert forall|x: usize| #[trigger] roots@.contains(x) <==> exists|j: int|
                        0 <= j < i + 1 && owner_of(pkgs, #[trigger] fs[j]) == Some(x as int) by {
                        if roots@.contains(x) {
                            if before.contains(x) {
                                let j = choose|j: int|
                                    0 <= j < i && owner_of(pkgs, #[trigger] fs[j]) == Some(
                                        x as int,
                                    );
                                assert(owner_of(pkgs, fs[j]) == Some(x as int));
                            } else {
                                assert(x == p);
                                assert(owner_of(pkgs, fs[i as int]) == Some(x as int));
                            }
                        }
                        if exists|j: int|
                            0 <= j < i + 1 && owner_of(pkgs, #[trigger] fs[j]) == Some(x as int) {
                            let j = choose|j: int|
                                0 <= j < i + 1 && owner_of(pkgs, #[trigger] fs[j]) == Some(
                                    x as int,
                                );
                            if j < i {
                                assert(before.contains(x));
                                let m = choose|m: int| 0 <= m < before.len() && before[m] == x;
                                assert(roots@[m] == x);
                            } else if !before.contains(p) {
                                assert(roots@[before.len() as int] == p);
                            }
                        }
                    }
                }
            },
        }
        i += 1;
    }
    let count = graph.packages().len();
    assert(pkgs.len() == count);
    let downstream = graph.downstream_closure(&roots);
    let ghost rs = workspace::positions(roots@);
    let ghost ds = workspace::positions(downstream@);
    let mut all: Vec<usize> = Vec::new();
    let mut k: usize = 0;
    while k < roots.len()
        invariant
            k <= roots.len(),
            all@ == roots@.take(k as int),
        decreases roots.len() - k,
    {
        all.push(roots[k]);
        k += 1;
    }
    assert(all@ =~= roots@);
    k = 0;
    assert(roots@ + downstream@.take(0) =~= roots@);
    while k < downstream.len()
        invariant
            k <= downstream.len(),
            all@ == roots@ + downstream@.take(k as int),
        decreases downstream.len() - k,
    {
        all.push(downstream[k]);
        assert(all@ =~= roots@ + downstream@.take(k + 1));
        k += 1;
    }
    assert(downstream@.take(k as int) =~= downstream@);
    let ghost both = all@;
    proof {
        assert(both =~= roots@ + downstream@);
        assert forall|a: int, b: int|
            0 <= a < both.len() && 0 <= b < both.len() && a != b implies both[a] != both[b] by {
            let n = roots@.len() as int;
            if a >= n && b >= n {
                assert(ds[a - n] == downstream@[a - n] && ds[b - n] == downstream@[b - n]);
                if a < b {
                    assert(ds[a - n] < ds[b - n]);
                } else {
                    assert(ds[b - n] < ds[a - n]);
                }
            } else if a < n && b >= n {
                assert(rs[a] == roots@[a] && ds[b - n] == downstream@[b - n]);
                assert(ds.contains(ds[b - n]));
                if both[a] == both[b] {
                    assert(rs.contains(rs[a]));
                }
            } else if b < n && a >= n {
                assert(rs[b] == roots@[b] && ds[a - n] == downstream@[a - n]);
                assert(ds.contains(ds[a - n]));
                if both[a] == both[b] {
                    assert(rs.contains(rs[b]));
                }
            }
        }
    }
    let r = pkggraph::sort_positions(all);
    proof {
        assert forall|p: usize| #[trigger] r@.contains(p) <==> is_affected(pkgs, fs, p as int) by {
            lemma_affected(pkgs, fs, roots@, downstream@, p);
            assert(r@.contains(p) <==> both.contains(p));
            if both.contains(p) {
                let m = choose|m: int| 0 <= m < both.len() && both[m] == p;
                if m < roots@.len() {
                    assert(roots@[m] == p);
                } else {
                    assert(downstream@[m - roots@.len()] == p);
                }
            }
            if roots@.contains(p) {
                let m = choose|m: int| 0 <= m < roots@.len() && roots@[m] == p;
                assert(both[m] == p);
            }
            if downstream@.contains(p) {
                let m = choose|m: int| 0 <= m < downstream@.len() && downstream@[m] == p;
                assert(both[roots@.len() + m] == p);
            }
        }
        assert forall|k: int| 0 <= k < r.len() implies (#[trigger] r@[k]) < graph@.len() by {
            assert(r@.contains(r@[k]));
            let m = choose|m: int| 0 <= m < both.len() && both[m] == r@[k];
            if m < roots@.len() {
                assert(roots@[m] == r@[k]);
            } else {
                assert(downstream@[m - roots@.len()] == r@[k]);
            }
        }
    }
    Some(r)
}

/// The touched packages with what lies downstream of them are the affected ones.
proof fn lemma_affected(
    pkgs: Seq<PackageView>,
    fs: Seq<Seq<char>>,
    roots: Seq<usize>,
    downstream: Seq<usize>,
    p: usize,
)
    requires
        forall|x: usize| #[trigger]
            roots.contains(x) <==> exists|j: int|
                0 <= j < fs.len() && owner_of(pkgs, #[trigger] fs[j]) == Some(x as int),
        pkggraph::is_closure(
            pkggraph::downstream_edges(pkgs),
            workspace::positions(roots),
            workspace::positions(downstream),
        ),
        pkgs.len() <= usize::MAX,
    ensures
        roots.contains(p) || downstream.contains(p) <==> is_affected(pkgs, fs, p as int),
{
    let e = pkggraph::downstream_edges(pkgs);
    let rs = workspace::positions(roots);
    let ds = workspace::positions(downstream);
    assert(roots.contains(p) <==> is_touched(pkgs, fs, p as int));
    if downstream.contains(p) {
        let m = choose|m: int| 0 <= m < downstream.len() && downstream[m] == p;
        assert(ds[m] == p);
        assert(ds.contains(p as int));
        let way = choose|way: Seq<int>| #[trigger]
            pkggraph::is_way(e, way) && rs.contains(way[0]) && way.last() == p as int;
        let w = choose|w: int| 0 <= w < rs.len() && rs[w] == way[0];
        assert(roots[w] == way[0] as usize);
        assert(roots.contains(way[0] as usize));
        assert(is_touched(pkgs, fs, way[0]));
        assert(seq![way[0]].contains(way[0])) by {
            assert(seq![way[0]][0] == way[0]);
        }
        assert(pkggraph::reaches(e, seq![way[0]], p as int));
    }
    if is_affected(pkgs, fs, p as int) && !is_touched(pkgs, fs, p as int) {
        let q = choose|q: int|
            is_touched(pkgs, fs, q) && #[trigger] pkggraph::reaches(e, seq![q], p as int);
        let j = choose|j: int| 0 <= j < fs.len() && owner_of(pkgs, #[trigger] fs[j]) == Some(q);
        lemma_owner_range(pkgs, fs[j], pkgs.len() as int);
        assert(owner_of(pkgs, fs[j]) == Some((q as usize) as int));
        assert(roots.contains(q as usize));
        let w = choose|w: int| 0 <= w < roots.len() && roots[w] == q as usize;
        assert(rs[w] == q);
        assert(rs.contains(q));
        let way = choose|way: Seq<int>| #[trigger]
            pkggraph::is_way(e, way) && seq![q].contains(way[0]) && way.last() == p as int;
        assert(way[0] == q);
        assert(pkggraph::reaches(e, rs, p as int));
        if rs.contains(p as int) {
            let m = choose|m: int| 0 <= m < rs.len() && rs[m] == p as int;
            assert(roots[m] == p);
        }
        assert(ds.contains(p as int));
        let m = choose|m: int| 0 <= m < ds.len() && ds[m] == p as int;
        assert(downstream[m] == p);
    }
}

// ---------------------------------------------------------------------------
// Laws
// ---------------------------------------------------------------------------
/// A file belongs to the most specific package it lies in, and to none exactly
/// when it lies in none.
pub proof fn law_nested_package_owns(pkgs: Seq<PackageView>, file: Seq<char>)
    ensures
        match owner_of(pkgs, file) {
            Some(p) => 0 <= p < pkgs.len() && lies_in(file, pkgs[p].rel) && forall|i: int|
                0 <= i < pkgs.len() && lies_in(file, (#[trigger] pkgs[i]).rel)
                    ==> pkgs[i].rel.len() <= pkgs[p].rel.len(),
            None => forall|i: int|
                0 <= i < pkgs.len() ==> !lies_in(file, (#[trigger] pkgs[i]).rel),
        },
{
    lemma_owner_range(pkgs, file, pkgs.len() as int);
}

/// More changed files affect at least as many packages.
pub proof fn law_more_changes_affect_more(
    pkgs: Seq<PackageView>,
    files: Seq<Seq<char>>,
    more: Seq<Seq<char>>,
    p: int,
)
    requires
        is_affected(pkgs, files, p),
    ensures
        is_affected(pkgs, files + more, p),
{
    let all = files + more;
    assert forall|q: int| is_touched(pkgs, files, q) implies is_touched(pkgs, all, q) by {
        let i = choose|i: int| 0 <= i < files.len() && owner_of(pkgs, #[trigger] files[i]) == Some(q);
        assert(owner_of(pkgs, all[i]) == Some(q));
    }
    if !is_touched(pkgs, files, p) {
        let q = choose|q: int|
            is_touched(pkgs, files, q) && #[trigger] pkggraph::reaches(
                pkggraph::downstream_edges(pkgs),
                seq![q],
                p,
            );
        assert(is_touched(pkgs, all, q));
    }
}

proof fn lemma_blank(line: Seq<char>)
    ensures
        text::trimmed(line).len() == 0 <==> forall|i: int|
            0 <= i < line.len() ==> text::is_space(#[trigger] line[i]),
{
    let (a, b) = text::law_trimming_finds_the_middle(line);
    let t = text::trimmed(line);
    if t.len() == 0 {
        assert(line =~= a + b);
        assert forall|i: int| 0 <= i < line.len() implies text::is_space(#[trigger] line[i]) by {
            if i < a.len() {
                assert(line[i] == a[i]);
            } else {
                assert(line[i] == b[i - a.len()]);
            }
        }
    } else {
        assert(line[a.len() as int] == t[0]);
    }
}

proof fn lemma_line_files(lines: Seq<Seq<char>>, n: int)
    requires
        0 <= n <= lines.len(),
    ensures
        ({
            let named = lines.take(n).filter(
                |l: Seq<char>| exists|i: int| 0 <= i < l.len() && !text::is_space(#[trigger] l[i]),
            );
            let files = line_files(lines, n);
            &&& files.len() == named.len()
            &&& forall|k: int| 0 <= k < files.len() ==> #[trigger] files[k] == slashes(text::trimmed(named[k]))
        }),
    decreases n,
{
    reveal(Seq::filter);
    if n > 0 {
        lemma_line_files(lines, n - 1);
        lemma_blank(lines[n - 1]);
        assert(lines.take(n).drop_last() =~= lines.take(n - 1));
        assert(lines.take(n).last() == lines[n - 1]);
    } else {
        assert(lines.take(0) =~= Seq::empty());
    }
}

/// Every line of git's output that is not blank names a changed file, whatever it
/// begins with: for each such line there is, in order, one file, the line without the
/// white space around it and with `/` for `\`. There is no other file.
pub proof fn law_every_line_is_a_changed_file(args: Seq<Seq<char>>, lines: Seq<Seq<char>>)
    requires
        lines.len() > 0,
        forall|i: int| 0 <= i < lines.len() ==> !(#[trigger] lines[i]).contains('\n'),
    ensures
        ({
            let named = lines.filter(
                |l: Seq<char>| exists|i: int| 0 <= i < l.len() && !text::is_space(#[trigger] l[i]),
            );
            let r = git_files(args, GitView::Done(text::joined(lines, seq!['\n'])));
            &&& r is Ok
            &&& (r->Ok_0).len() == named.len()
            &&& forall|k: int|
                0 <= k < named.len() ==> (#[trigger] (r->Ok_0)[k]).len() == text::trimmed(
                    named[k],
                ).len()
            &&& forall|k: int, i: int|
                0 <= k < named.len() && 0 <= i < text::trimmed(named[k]).len() ==> (
                #[trigger] (r->Ok_0)[k][i]) == if text::trimmed(named[k])[i] == '\\' {
                    '/'
                } else {
                    text::trimmed(named[k])[i]
                }
        }),
{
    text::law_splitting(Seq::empty(), lines, '\n');
    lemma_line_files(lines, lines.len() as int);
    assert(lines.take(lines.len() as int) =~= lines);
}

/// A line that is not blank is among the changed files, wherever it stands.
pub proof fn law_no_changed_file_is_lost(args: Seq<Seq<char>>, lines: Seq<Seq<char>>, k: int)
    requires
        0 <= k < lines.len(),
        forall|i: int| 0 <= i < lines.len() ==> !(#[trigger] lines[i]).contains('\n'),
        exists|i: int| 0 <= i < lines[k].len() && !text::is_space(#[trigger] lines[k][i]),
    ensures
        ({
            let r = git_files(args, GitView::Done(text::joined(lines, seq!['\n'])));
            r is Ok && exists|j: int|
                0 <= j < (r->Ok_0).len() && (#[trigger] (r->Ok_0)[j]) == Seq::new(
                    text::trimmed(lines[k]).len(),
                    |i: int|
                        if text::trimmed(lines[k])[i] == '\\' {
                            '/'
                        } else {
                            text::trimmed(lines[k])[i]
                        },
                )
        }),
{
    let pred = |l: Seq<char>| exists|i: int| 0 <= i < l.len() && !text::is_space(#[trigger] l[i]);
    law_every_line_is_a_changed_file(args, lines);
    let named = lines.filter(pred);
    let r = git_files(args, GitView::Done(text::joined(lines, seq!['\n'])));
    lines.lemma_filter_contains(pred, k);
    let j = choose|j: int| 0 <= j < named.len() && named[j] == lines[k];
    let file = Seq::new(
        text::trimmed(lines[k]).len(),
        |i: int|
            if text::trimmed(lines[k])[i] == '\\' {
                '/'
            } else {
                text::trimmed(lines[k])[i]
            },
    );
    assert((r->Ok_0)[j].len() == text::trimmed(named[j]).len());
    assert((r->Ok_0)[j] =~= file);
}

/// What changed is what git says of tracked files and then what it says of untracked
/// ones. If git cannot be run, or fails, either time, that is an error, and never an
/// empty change.
pub proof fn law_both_questions_count(since: Seq<char>, diff: GitView, untracked: GitView)
    ensures
        changed(since, diff, untracked) is Ok <==> diff is Done && untracked is Done,
        changed(since, diff, untracked) is Ok ==> {
            let a = git_files(diff_words(since), diff)->Ok_0;
            let b = git_files(untracked_words(), untracked)->Ok_0;
            changed(since, diff, untracked)->Ok_0 == a + b
        },
        diff_words(since).len() == 4 && diff_words(since)[3] == since,
        diff_words(since).take(3) == seq!["diff"@, "--name-only"@, "--relative"@],
        untracked_words() == seq!["ls-files"@, "--others"@, "--exclude-standard"@],
{
    assert(diff_words(since).take(3) =~= seq!["diff"@, "--name-only"@, "--relative"@]);
}

/// A file lies in a package exactly if its path is the package's, a `/` and
/// something behind it.
pub proof fn law_files_lie_below_their_package(file: Seq<char>, rel: Seq<char>, rest: Seq<char>)
    ensures
        lies_in(rel + seq!['/'] + rest, rel),
        lies_in(file, rel) ==> exists|r: Seq<char>| file == #[trigger] (rel + seq!['/'] + r),
{
    let dir = rel + seq!['/'];
    text::law_prefixes(dir + rest, dir, rest);
    text::law_prefixes(file, dir, file.skip(dir.len() as int));
    if lies_in(file, rel) {
        let r = text::after_prefix(file, dir)->0;
        assert(file == dir + r);
    }
}

/// A run is narrowed only if every changed file lies in some package.
pub proof fn law_files_outside_widen(pkgs: Seq<PackageView>, files: Seq<Seq<char>>, f: int)
    requires
        0 <= f < files.len(),
    ensures
        all_owned(pkgs, files) ==> exists|i: int|
            0 <= i < pkgs.len() && #[trigger] lies_in(files[f], pkgs[i].rel),
        files.len() == 1 && (exists|i: int|
            0 <= i < pkgs.len() && #[trigger] lies_in(files[f], pkgs[i].rel)) ==> all_owned(
            pkgs,
            files,
        ),
{
    law_nested_package_owns(pkgs, files[f]);
    if all_owned(pkgs, files) {
        let p = owner_of(pkgs, files[f])->0;
        assert(lies_in(files[f], pkgs[p].rel));
    }
    if files.len() == 1 && (exists|i: int|
        0 <= i < pkgs.len() && #[trigger] lies_in(files[f], pkgs[i].rel)) {
        let i = choose|i: int| 0 <= i < pkgs.len() && #[trigger] lies_in(files[f], pkgs[i].rel);
        assert(lies_in(files[f], pkgs[i].rel));
        assert(owner_of(pkgs, files[0]) is Some);
    }
}

/// Nothing changed narrows the run, and changes that narrow it do so together.
pub proof fn law_owned_files_add_up(pkgs: Seq<PackageView>, a: Seq<Seq<char>>, b: Seq<Seq<char>>)
    ensures
        all_owned(pkgs, Seq::empty()),
        all_owned(pkgs, a + b) <==> all_owned(pkgs, a) && all_owned(pkgs, b),
{
    if all_owned(pkgs, a + b) {
        assert forall|i: int| 0 <= i < a.len() implies owner_of(pkgs, #[trigger] a[i]) is Some by {
            assert((a + b)[i] == a[i]);
        }
        assert forall|i: int| 0 <= i < b.len() implies owner_of(pkgs, #[trigger] b[i]) is Some by {
            assert((a + b)[a.len() + i] == b[i]);
        }
    }
}

/// A change affects the packages that its files belong to and whatever depends on an
/// affected package, and nothing else.
pub proof fn law_what_is_affected(pkgs: Seq<PackageView>, files: Seq<Seq<char>>, p: int, q: int)
    requires
        0 <= p < pkgs.len(),
        0 <= q < pkgs.len(),
    ensures
        (exists|f: int| 0 <= f < files.len() && owner_of(pkgs, #[trigger] files[f]) == Some(p))
            ==> is_affected(pkgs, files, p),
        is_affected(pkgs, files, p) && pkggraph::deps(pkgs, q).contains(p) ==> is_affected(
            pkgs,
            files,
            q,
        ),
        is_affected(pkgs, files, q) ==> (exists|f: int|
            0 <= f < files.len() && owner_of(pkgs, #[trigger] files[f]) == Some(q)) || exists|d: int|
            #[trigger] pkggraph::deps(pkgs, q).contains(d) && is_affected(pkgs, files, d),
{
    let down = pkggraph::downstream_edges(pkgs);
    if is_affected(pkgs, files, p) && pkggraph::deps(pkgs, q).contains(p) {
        pkggraph::law_edges_are_mutual(pkgs, q, p);
        assert(down[p].contains(q));
        if is_touched(pkgs, files, p) {
            let way = seq![p, q];
            assert(pkggraph::is_way(down, way)) by {
                assert(down[way[0]].contains(way[1]));
            }
            assert(seq![p].contains(way[0])) by {
                assert(seq![p][0] == p);
            }
            assert(pkggraph::reaches(down, seq![p], q));
        } else {
            let r = choose|r: int|
                is_touched(pkgs, files, r) && #[trigger] pkggraph::reaches(down, seq![r], p);
            pkggraph::lemma_way_extends(down, seq![r], p, q);
        }
    }
    if is_affected(pkgs, files, q) && !is_touched(pkgs, files, q) {
        let r = choose|r: int|
            is_touched(pkgs, files, r) && #[trigger] pkggraph::reaches(down, seq![r], q);
        let way = choose|way: Seq<int>| #[trigger]
            pkggraph::is_way(down, way) && seq![r].contains(way[0]) && way.last() == q;
        assert(way[0] == r);
        assert(way.len() > 1);
        let front = way.drop_last();
        let d = front.last();
        assert forall|k: int| 0 <= k < front.len() - 1 implies down[#[trigger] front[k]].contains(
            front[k + 1],
        ) by {
            assert(down[way[k]].contains(way[k + 1]));
        }
        assert(pkggraph::is_way(down, front) && front[0] == r);
        assert(pkggraph::reaches(down, seq![r], d));
        assert(down[way[way.len() - 2]].contains(way[way.len() - 2 + 1]));
        assert(down[d].contains(q));
        lemma_way_in_range(pkgs, files, way, way.len() - 2);
        pkggraph::law_edges_are_mutual(pkgs, q, d);
        assert(is_affected(pkgs, files, d));
    }
}

proof fn lemma_way_in_range(
    pkgs: Seq<PackageView>,
    files: Seq<Seq<char>>,
    way: Seq<int>,
    n: int,
)
    requires
        pkggraph::is_way(pkggraph::downstream_edges(pkgs), way),
        is_touched(pkgs, files, way[0]),
        0 <= n < way.len(),
    ensures
        0 <= way[n] < pkgs.len(),
    decreases n,
{
    if n == 0 {
        let f = choose|f: int|
            0 <= f < files.len() && owner_of(pkgs, #[trigger] files[f]) == Some(way[0]);
        law_nested_package_owns(pkgs, files[f]);
    } else {
        lemma_way_in_range(pkgs, files, way, n - 1);
        let down = pkggraph::downstream_edges(pkgs);
        let a = way[n - 1];
        assert(down[way[n - 1]].contains(way[n - 1 + 1]));
        let v = pkggraph::dependents(pkgs, a, pkgs.len() as int);
        pkggraph::law_dependents_are_in_order(pkgs, a, pkgs.len() as int);
        let k = choose|k: int| 0 <= k < v.len() && v[k] == way[n];
        assert(0 <= v[k] < pkgs.len());
    }
}

/// Where git could not be run, or failed, that is the answer: the error says so, and what
/// was asked.
pub proof fn law_git_failures(args: Seq<Seq<char>>, m: Seq<char>)
    ensures
        git_files(args, GitView::NotRun(m)) == Err::<Seq<Seq<char>>, ErrorView>(
            ErrorView::Runtime("'--since' needs git on PATH, but it could not be run: "@ + m),
        ),
        git_files(args, GitView::Failed(m)) == Err::<Seq<Seq<char>>, ErrorView>(
            ErrorView::Runtime(
                "git "@ + text::joined(args, " "@) + " failed: "@ + text::trimmed(m),
            ),
        ),
{
}

/// A file belongs to the deepest package that it lies in.
pub proof fn law_the_deepest_package_owns(pkgs: Seq<PackageView>, file: Seq<char>, i: int)
    requires
        0 <= i < pkgs.len(),
        lies_in(file, pkgs[i].rel),
    ensures
        owner_of(pkgs, file) matches Some(o) && 0 <= o < pkgs.len() && lies_in(file, pkgs[o].rel)
            && pkgs[i].rel.len() <= pkgs[o].rel.len(),
{
    lemma_owner_range(pkgs, file, pkgs.len() as int);
}

} // verus!
