//! Workspace packages, and how `packages` entries match them.
//!
//! Packages are the directories matched by `[workspace] members` that carry an
//! ecosystem marker. A `packages` entry matches a package by a path glob
//! (`apps/*`), or by its exact path or manifest name (`@scope/pkg`).

use vstd::prelude::*;

use crate::config::Config;
use crate::detect;
use crate::detect::{Ecosystem, Markers};
use crate::error::{ErrorView, TsrError};
use crate::path;
use crate::shell;
use crate::text;

verus! {

/// A workspace package.
#[derive(Debug)]
pub struct Package {
    /// The package's directory.
    pub path: String,
    /// The directory relative to the workspace root (`apps/web`).
    pub rel: String,
    /// The name its manifest declares (`@scope/web`).
    pub name: Option<String>,
    /// Its ecosystem.
    pub eco: Ecosystem,
    /// The dependency names that its manifest declares.
    pub declared: Vec<String>,
}

/// A package.
pub struct PackageView {
    pub path: Seq<char>,
    pub rel: Seq<char>,
    pub name: Option<Seq<char>>,
    pub eco: Ecosystem,
    pub declared: Seq<Seq<char>>,
}

/// A path that a `members` glob matched, and what is there.
#[derive(Debug)]
pub struct Found {
    pub path: String,
    pub is_dir: bool,
    pub markers: Markers,
    /// The text of its manifest; empty when it cannot be read.
    pub manifest: String,
    /// The texts of the `Cargo.toml` files in the directories above it, nearest
    /// first.
    pub above: Vec<String>,
}

/// A matched path.
pub struct FoundView {
    pub path: Seq<char>,
    pub is_dir: bool,
    pub markers: Markers,
    pub manifest: Seq<char>,
    pub above: Seq<Seq<char>>,
}

impl View for Package {
    type V = PackageView;

    open spec fn view(&self) -> PackageView {
        PackageView {
            path: self.path@,
            rel: self.rel@,
            name: crate::config::opt_text(self.name),
            eco: self.eco,
            declared: text::texts(self.declared@),
        }
    }
}

impl View for Found {
    type V = FoundView;

    open spec fn view(&self) -> FoundView {
        FoundView {
            path: self.path@,
            is_dir: self.is_dir,
            markers: self.markers,
            manifest: self.manifest@,
            above: text::texts(self.above@),
        }
    }
}

impl Clone for Package {
    fn clone(&self) -> (r: Self)
        ensures
            r@ == self@,
    {
        Package {
            path: self.path.clone(),
            rel: self.rel.clone(),
            name: match &self.name {
                Some(n) => Some(n.clone()),
                None => None,
            },
            eco: self.eco,
            declared: text::copy_strings(&self.declared),
        }
    }
}

/// The views of a list of packages.
pub open spec fn package_views(v: Seq<Package>) -> Seq<PackageView> {
    Seq::new(v.len(), |i: int| v[i]@)
}

/// The views of a list of matched paths.
pub open spec fn found_views(v: Seq<Found>) -> Seq<FoundView> {
    Seq::new(v.len(), |i: int| v[i]@)
}

// ---------------------------------------------------------------------------
// Discovery
// ---------------------------------------------------------------------------
/// The package that a matched path is: a directory with an ecosystem marker.
pub open spec fn package_of(root: Seq<char>, f: FoundView) -> Option<PackageView> {
    if !f.is_dir {
        None
    } else {
        match detect::ecosystem_of(f.markers) {
            None => None,
            Some(eco) => Some(
                PackageView {
                    path: f.path,
                    rel: path::relative(root, f.path),
                    name: detect::declared_name(f.manifest, eco),
                    eco,
                    declared: detect::declared_deps(f.manifest, eco, f.above),
                },
            ),
        }
    }
}

/// The packages with one more, ordered by relative path; a package that is
/// already there stays.
pub open spec fn put_package(pkgs: Seq<PackageView>, p: PackageView) -> Seq<PackageView>
    decreases pkgs.len(),
{
    if pkgs.len() == 0 {
        seq![p]
    } else if pkgs.last().rel == p.rel {
        pkgs
    } else if text::le(pkgs.last().rel, p.rel) {
        pkgs.push(p)
    } else {
        put_package(pkgs.drop_last(), p).push(pkgs.last())
    }
}

/// The packages among the first `n` matched paths.
pub open spec fn packages_of(root: Seq<char>, found: Seq<FoundView>, n: int) -> Seq<PackageView>
    decreases n,
{
    if n <= 0 {
        Seq::empty()
    } else {
        let front = packages_of(root, found, n - 1);
        match package_of(root, found[n - 1]) {
            Some(p) => put_package(front, p),
            None => front,
        }
    }
}

/// What to ask the file system for the workspace's members: one glob each.
pub fn member_queries(cfg: &Config) -> (r: Vec<String>)
    ensures
        r.len() == cfg@.members.len(),
        forall|i: int|
            0 <= i < r.len() ==> (#[trigger] r@[i])@ == path::joined_path(
                cfg@.root,
                cfg@.members[i],
            ),
{
    let mut out: Vec<String> = Vec::new();
    let mut i: usize = 0;
    while i < cfg.members.len()
        invariant
            i <= cfg.members.len(),
            out.len() == i,
            forall|j: int|
                0 <= j < i ==> (#[trigger] out@[j])@ == path::joined_path(
                    cfg@.root,
                    cfg@.members[j],
                ),
        decreases cfg.members.len() - i,
    {
        out.push(path::join(cfg.root.as_str(), cfg.members[i].as_str()));
        i += 1;
    }
    out
}

/// Put a package in its place by relative path, unless it is there.
fn insert_package(pkgs: &mut Vec<Package>, p: Package)
    ensures
        package_views(final(pkgs)@) == put_package(package_views(old(pkgs)@), p@),
{
    let ghost all = package_views(pkgs@);
    let mut at: usize = pkgs.len();
    let ghost mut tail: Seq<PackageView> = Seq::empty();
    assert(all.take(at as int) =~= all);
    assert(put_package(all, p@) =~= put_package(all.take(at as int), p@) + tail);
    while at > 0 && !text::not_after(pkgs[at - 1].rel.as_str(), p.rel.as_str())
        invariant
            at <= pkgs.len(),
            all == package_views(pkgs@),
            tail == all.skip(at as int),
            put_package(all, p@) == put_package(all.take(at as int), p@) + tail,
        decreases at,
    {
        proof {
            text::lemma_le_total(p.rel@, p.rel@);
            let front = all.take(at as int);
            assert(front.last() == pkgs@[at - 1]@);
            assert(front.drop_last() =~= all.take(at - 1));
            assert(put_package(front, p@) == put_package(front.drop_last(), p@).push(front.last()));
            assert(put_package(all.take(at - 1), p@).push(front.last()) + tail =~= put_package(
                all.take(at - 1),
                p@,
            ) + all.skip(at - 1));
            tail = all.skip(at - 1);
        }
        at -= 1;
    }
    if at > 0 && text::same(pkgs[at - 1].rel.as_str(), p.rel.as_str()) {
        assert(put_package(all.take(at as int), p@) =~= all.take(at as int));
        assert(all.take(at as int) + tail =~= all);
        return ;
    }
    let ghost pv = p@;
    pkgs.insert(at, p);
    proof {
        let front = all.take(at as int);
        if at > 0 {
            assert(put_package(front, pv) =~= front.push(pv));
        } else {
            assert(put_package(front, pv) =~= seq![pv]);
        }
        assert(package_views(pkgs@) =~= front.push(pv) + tail);
    }
}

/// The workspace's packages, given the paths that the `members` globs matched.
/// They are ordered by relative path, and none occurs twice.
pub fn packages(root: &str, found: &Vec<Found>) -> (r: Vec<Package>)
    ensures
        package_views(r@) == packages_of(root@, found_views(found@), found.len() as int),
{
    let ghost fv = found_views(found@);
    let mut out: Vec<Package> = Vec::new();
    let mut i: usize = 0;
    assert(package_views(out@) =~= Seq::<PackageView>::empty());
    while i < found.len()
        invariant
            i <= found.len(),
            fv == found_views(found@),
            package_views(out@) == packages_of(root@, fv, i as int),
        decreases found.len() - i,
    {
        let f = &found[i];
        assert(fv[i as int] == f@);
        if f.is_dir {
            if let Some(eco) = detect::detect(&f.markers) {
                let p = Package {
                    path: f.path.clone(),
                    rel: path::rel_to_slash(root, f.path.as_str()),
                    name: detect::manifest_name(f.manifest.as_str(), eco),
                    eco,
                    declared: detect::manifest_deps(f.manifest.as_str(), eco, &f.above),
                };
                assert(p@ == package_of(root@, fv[i as int])->0);
                insert_package(&mut out, p);
            }
        }
        i += 1;
    }
    out
}

// ---------------------------------------------------------------------------
// Matching
// ---------------------------------------------------------------------------
/// Whether a glob matches a text, as `glob` answers it; a pattern that it cannot
/// read matches nothing.
pub uninterp spec fn glob_matches(pattern: Seq<char>, text: Seq<char>) -> bool;

/// Whether a text holds no backslash, which separates directories on some
/// platforms only.
pub open spec fn is_portable(s: Seq<char>) -> bool {
    !s.contains('\\')
}

/// Whether this can be what the glob matcher says of a text: without a
/// backslash it is what it says on every platform.
pub open spec fn is_answer(pattern: Seq<char>, text: Seq<char>, answer: bool) -> bool {
    is_portable(pattern) && is_portable(text) ==> answer == glob_matches(pattern, text)
}

/// `glob::Pattern::new` compiles the pattern and `glob::Pattern::matches` applies
/// it with the default options. The contract names the answer. Whether a
/// backslash separates directories is the platform's, so that nothing is said of
/// a pattern or a text that holds one.
#[verifier::external_body]
fn glob_match(pattern: &str, text: &str) -> (r: bool)
    ensures
        is_portable(pattern@) && is_portable(text@) ==> r == glob_matches(pattern@, text@),
{
    glob::Pattern::new(pattern).map(|p| p.matches(text)).unwrap_or(false)
}

/// Whether a `packages` entry matches a package, given what the glob matcher
/// says of the package's path.
pub open spec fn matches_package(pattern: Seq<char>, p: PackageView, by_glob: bool) -> bool {
    if shell::has_glob_meta(pattern) {
        by_glob
    } else {
        p.rel == pattern || p.name == Some(pattern)
    }
}

/// Whether a `packages` entry matches a package, given what the glob matcher
/// says of the package's path.
pub fn pattern_matches(pattern: &str, pkg: &Package, by_glob: bool) -> (r: bool)
    ensures
        r == matches_package(pattern@, pkg@, by_glob),
{
    if shell::glob_meta(pattern) {
        return by_glob;
    }
    if text::same(pkg.rel.as_str(), pattern) {
        return true;
    }
    match &pkg.name {
        Some(n) => text::same(n.as_str(), pattern),
        None => false,
    }
}

/// What the glob matcher says: of each entry, for each package.
pub open spec fn answer_views(v: Seq<Vec<bool>>) -> Seq<Seq<bool>> {
    Seq::new(v.len(), |i: int| v[i]@)
}

/// Whether there is an answer to each entry, for each package.
pub open spec fn are_complete(answers: Seq<Seq<bool>>, entries: nat, packages: nat) -> bool {
    &&& answers.len() == entries
    &&& forall|i: int| 0 <= i < entries ==> (#[trigger] answers[i]).len() == packages
}

/// Whether these can be what the glob matcher says.
pub open spec fn are_answers(
    all: Seq<PackageView>,
    patterns: Seq<Seq<char>>,
    answers: Seq<Seq<bool>>,
) -> bool {
    &&& are_complete(answers, patterns.len(), all.len())
    &&& forall|i: int, j: int|
        0 <= i < patterns.len() && 0 <= j < all.len() ==> is_answer(
            patterns[i],
            all[j].rel,
            #[trigger] answers[i][j],
        )
}

/// Ask the glob matcher about one entry, for each package.
fn answers_to(all: &Vec<Package>, pattern: &str) -> (r: Vec<bool>)
    ensures
        r.len() == all.len(),
        forall|j: int| 0 <= j < all.len() ==> is_answer(pattern@, all@[j].rel@, #[trigger] r@[j]),
{
    let mut out: Vec<bool> = Vec::new();
    let mut j: usize = 0;
    while j < all.len()
        invariant
            j <= all.len(),
            out.len() == j,
            forall|k: int|
                0 <= k < j ==> is_answer(pattern@, all@[k].rel@, #[trigger] out@[k]),
        decreases all.len() - j,
    {
        out.push(glob_match(pattern, all[j].rel.as_str()));
        j += 1;
    }
    out
}

/// Ask the glob matcher about each entry, for each package.
pub fn glob_answers(all: &Vec<Package>, patterns: &Vec<String>) -> (r: Vec<Vec<bool>>)
    ensures
        are_answers(package_views(all@), text::texts(patterns@), answer_views(r@)),
{
    let mut out: Vec<Vec<bool>> = Vec::new();
    let mut i: usize = 0;
    while i < patterns.len()
        invariant
            i <= patterns.len(),
            out.len() == i,
            forall|k: int| 0 <= k < i ==> (#[trigger] out@[k]).len() == all.len(),
            forall|k: int, j: int|
                0 <= k < i && 0 <= j < all.len() ==> is_answer(
                    patterns@[k]@,
                    all@[j].rel@,
                    #[trigger] out@[k]@[j],
                ),
        decreases patterns.len() - i,
    {
        out.push(answers_to(all, patterns[i].as_str()));
        i += 1;
    }
    let ghost views = package_views(all@);
    let ghost pats = text::texts(patterns@);
    let ghost seen = answer_views(out@);
    assert forall|i: int| 0 <= i < pats.len() implies (#[trigger] seen[i]).len() == views.len() by {
        assert(out@[i].len() == all.len());
    }
    assert forall|i: int, j: int| 0 <= i < pats.len() && 0 <= j < views.len() implies is_answer(
        pats[i],
        views[j].rel,
        #[trigger] seen[i][j],
    ) by {
        assert(seen[i][j] == out@[i]@[j]);
    }
    out
}

/// Whether a package with this path is among the chosen ones.
pub open spec fn has_rel(all: Seq<PackageView>, chosen: Seq<int>, rel: Seq<char>) -> bool {
    exists|k: int| 0 <= k < chosen.len() && all[#[trigger] chosen[k]].rel == rel
}

/// The chosen packages after the first `n` were held against one entry.
pub open spec fn chosen_by(
    all: Seq<PackageView>,
    pattern: Seq<char>,
    answers: Seq<bool>,
    n: int,
    chosen: Seq<int>,
) -> Seq<int>
    decreases n,
{
    if n <= 0 {
        chosen
    } else {
        let front = chosen_by(all, pattern, answers, n - 1, chosen);
        if matches_package(pattern, all[n - 1], answers[n - 1]) && !has_rel(
            all,
            front,
            all[n - 1].rel,
        ) {
            front.push(n - 1)
        } else {
            front
        }
    }
}

/// Whether an entry matches some package.
pub open spec fn matches_any(
    all: Seq<PackageView>,
    pattern: Seq<char>,
    answers: Seq<bool>,
) -> bool {
    exists|i: int| 0 <= i < all.len() && matches_package(pattern, #[trigger] all[i], answers[i])
}

/// The packages that the first `n` entries choose, in order and each once. An
/// entry that matches nothing is an error.
pub open spec fn chosen(
    all: Seq<PackageView>,
    patterns: Seq<Seq<char>>,
    answers: Seq<Seq<bool>>,
    n: int,
    task: Seq<char>,
) -> Result<Seq<int>, ErrorView>
    decreases n,
{
    if n <= 0 {
        Ok(Seq::empty())
    } else {
        match chosen(all, patterns, answers, n - 1, task) {
            Err(e) => Err(e),
            Ok(front) => if matches_any(all, patterns[n - 1], answers[n - 1]) {
                Ok(chosen_by(all, patterns[n - 1], answers[n - 1], all.len() as int, front))
            } else {
                Err(
                    ErrorView::Runtime(
                        "task '"@ + task + "': packages pattern '"@ + patterns[n - 1]
                            + "' matched no workspace package"@,
                    ),
                )
            },
        }
    }
}

/// An error among the first entries is the error of all.
proof fn lemma_chosen_err(
    all: Seq<PackageView>,
    patterns: Seq<Seq<char>>,
    answers: Seq<Seq<bool>>,
    n: int,
    task: Seq<char>,
)
    requires
        0 <= n <= patterns.len(),
        chosen(all, patterns, answers, n, task) is Err,
    ensures
        chosen(all, patterns, answers, patterns.len() as int, task) == chosen(
            all,
            patterns,
            answers,
            n,
            task,
        ),
    decreases patterns.len() - n,
{
    if n < patterns.len() {
        lemma_chosen_err(all, patterns, answers, n + 1, task);
    }
}

/// The positions, as model values.
pub open spec fn positions(v: Seq<usize>) -> Seq<int> {
    Seq::new(v.len(), |i: int| v[i] as int)
}

/// Whether a package with this path is among the chosen ones.
fn chosen_has(all: &Vec<Package>, picked: &Vec<usize>, rel: &str) -> (r: bool)
    requires
        forall|k: int| 0 <= k < picked.len() ==> (#[trigger] picked@[k]) < all.len(),
    ensures
        r == has_rel(package_views(all@), positions(picked@), rel@),
{
    let mut k: usize = 0;
    while k < picked.len()
        invariant
            k <= picked.len(),
            forall|j: int| 0 <= j < picked.len() ==> (#[trigger] picked@[j]) < all.len(),
            forall|j: int|
                0 <= j < k ==> package_views(all@)[#[trigger] positions(picked@)[j]].rel != rel@,
        decreases picked.len() - k,
    {
        if text::same(all[picked[k]].rel.as_str(), rel) {
            assert(package_views(all@)[positions(picked@)[k as int]].rel == rel@);
            return true;
        }
        k += 1;
    }
    false
}

/// The packages that `packages` entries choose, by their positions in `all`: in
/// order and each once. `answers` is what the glob matcher says of each entry,
/// for each package. An entry that matches nothing is an error: almost always a
/// typo.
pub fn choose_packages(
    all: &Vec<Package>,
    patterns: &Vec<String>,
    answers: &Vec<Vec<bool>>,
    task: &str,
) -> (r: Result<Vec<usize>, TsrError>)
    requires
        are_complete(answer_views(answers@), patterns.len() as nat, all.len() as nat),
    ensures
        result_view(r) == chosen(
            package_views(all@),
            text::texts(patterns@),
            answer_views(answers@),
            patterns.len() as int,
            task@,
        ),
        r matches Ok(v) ==> forall|k: int| 0 <= k < v.len() ==> (#[trigger] v@[k]) < all.len(),
{
    let ghost views = package_views(all@);
    let ghost pats = text::texts(patterns@);
    let ghost given = answer_views(answers@);
    let mut picked: Vec<usize> = Vec::new();
    let mut i: usize = 0;
    assert(positions(picked@) =~= Seq::<int>::empty());
    while i < patterns.len()
        invariant
            i <= patterns.len(),
            views == package_views(all@),
            pats == text::texts(patterns@),
            given == answer_views(answers@),
            are_complete(given, patterns.len() as nat, all.len() as nat),
            chosen(views, pats, given, i as int, task@) == Ok::<Seq<int>, ErrorView>(
                positions(picked@),
            ),
            forall|k: int| 0 <= k < picked.len() ==> (#[trigger] picked@[k]) < all.len(),
        decreases patterns.len() - i,
    {
        let ghost before = positions(picked@);
        let mut matched_any = false;
        let mut j: usize = 0;
        assert(pats[i as int] == patterns@[i as int]@);
        assert(given[i as int] == answers@[i as int]@);
        while j < all.len()
            invariant
                i < patterns.len(),
                j <= all.len(),
                views == package_views(all@),
                pats == text::texts(patterns@),
                given == answer_views(answers@),
                are_complete(given, patterns.len() as nat, all.len() as nat),
                pats[i as int] == patterns@[i as int]@,
                given[i as int] == answers@[i as int]@,
                matched_any == exists|k: int|
                    0 <= k < j && matches_package(
                        pats[i as int],
                        #[trigger] views[k],
                        given[i as int][k],
                    ),
                positions(picked@) == chosen_by(
                    views,
                    pats[i as int],
                    given[i as int],
                    j as int,
                    before,
                ),
                forall|k: int| 0 <= k < picked.len() ==> (#[trigger] picked@[k]) < all.len(),
            decreases all.len() - j,
        {
            assert(views[j as int] == all@[j as int]@);
            let ghost so_far = positions(picked@);
            if pattern_matches(patterns[i].as_str(), &all[j], answers[i][j]) {
                matched_any = true;
                if !chosen_has(all, &picked, all[j].rel.as_str()) {
                    picked.push(j);
                    assert(positions(picked@) =~= so_far.push(j as int));
                }
            }
            j += 1;
        }
        if !matched_any {
            proof {
                lemma_chosen_err(views, pats, given, i + 1, task@);
            }
            let mut m = "task '".to_string();
            m.append(task);
            m.append("': packages pattern '");
            m.append(patterns[i].as_str());
            m.append("' matched no workspace package");
            return Err(TsrError::Runtime(m));
        }
        i += 1;
    }
    Ok(picked)
}

/// The positions in a result, as model values.
pub open spec fn result_view(r: Result<Vec<usize>, TsrError>) -> Result<Seq<int>, ErrorView> {
    match r {
        Ok(v) => Ok(positions(v@)),
        Err(e) => Err(e@),
    }
}

/// Whether this is what `packages` entries choose: with a backslash in none of
/// the entries and paths, there is one such result.
pub open spec fn is_choice(
    all: Seq<PackageView>,
    patterns: Seq<Seq<char>>,
    task: Seq<char>,
    r: Result<Seq<int>, ErrorView>,
) -> bool {
    exists|answers: Seq<Seq<bool>>|
        are_answers(all, patterns, answers) && r == #[trigger] chosen(
            all,
            patterns,
            answers,
            patterns.len() as int,
            task,
        )
}

/// Resolve `packages` entries to packages, by their positions in `all`: those
/// that [`choose_packages`] gives for the glob matcher's answers.
pub fn match_packages(all: &Vec<Package>, patterns: &Vec<String>, task: &str) -> (r: Result<
    Vec<usize>,
    TsrError,
>)
    ensures
        is_choice(package_views(all@), text::texts(patterns@), task@, result_view(r)),
        r matches Ok(v) ==> forall|k: int| 0 <= k < v.len() ==> (#[trigger] v@[k]) < all.len(),
{
    let answers = glob_answers(all, patterns);
    assert(text::texts(patterns@).len() == patterns.len());
    assert(package_views(all@).len() == all.len());
    choose_packages(all, patterns, &answers, task)
}

// ---------------------------------------------------------------------------
// Laws
// ---------------------------------------------------------------------------
/// Whether the packages are ordered by path, none twice.
pub open spec fn ordered(pkgs: Seq<PackageView>) -> bool {
    forall|i: int, j: int|
        0 <= i < j < pkgs.len() ==> text::le((#[trigger] pkgs[i]).rel, (#[trigger] pkgs[j]).rel)
            && pkgs[i].rel != pkgs[j].rel
}

proof fn lemma_put_keeps_order(pkgs: Seq<PackageView>, p: PackageView)
    requires
        ordered(pkgs),
    ensures
        ordered(put_package(pkgs, p)),
        forall|i: int|
            0 <= i < put_package(pkgs, p).len() ==> (#[trigger] put_package(pkgs, p)[i]).rel
                == p.rel || exists|j: int| 0 <= j < pkgs.len() && pkgs[j] == put_package(pkgs, p)[i],
    decreases pkgs.len(),
{
    let r = put_package(pkgs, p);
    if pkgs.len() > 0 {
        let last = pkgs.last();
        let front = pkgs.drop_last();
        assert(ordered(front));
        if last.rel == p.rel {
            assert forall|i: int| 0 <= i < r.len() implies (#[trigger] r[i]).rel == p.rel || exists|
                j: int,
            |
                0 <= j < pkgs.len() && pkgs[j] == r[i] by {
                assert(pkgs[i] == r[i]);
            }
        } else if text::le(last.rel, p.rel) {
            assert forall|i: int, j: int| 0 <= i < j < r.len() implies text::le(
                (#[trigger] r[i]).rel,
                (#[trigger] r[j]).rel,
            ) && r[i].rel != r[j].rel by {
                if j < pkgs.len() {
                    assert(pkgs[i] == r[i] && pkgs[j] == r[j]);
                } else if i < front.len() {
                    assert(text::le(pkgs[i].rel, pkgs[pkgs.len() - 1].rel));
                    text::lemma_le_transitive(pkgs[i].rel, last.rel, p.rel);
                    if pkgs[i].rel == p.rel {
                        text::lemma_le_total(pkgs[i].rel, last.rel);
                    }
                }
            }
            assert forall|i: int| 0 <= i < r.len() implies (#[trigger] r[i]).rel == p.rel || exists|
                j: int,
            |
                0 <= j < pkgs.len() && pkgs[j] == r[i] by {
                if i < pkgs.len() {
                    assert(pkgs[i] == r[i]);
                }
            }
        } else {
            let q = put_package(front, p);
            lemma_put_keeps_order(front, p);
            text::lemma_le_total(last.rel, p.rel);
            assert forall|i: int| 0 <= i < q.len() implies text::le((#[trigger] q[i]).rel, last.rel)
                && q[i].rel != last.rel by {
                if q[i].rel != p.rel {
                    let j = choose|j: int| 0 <= j < front.len() && front[j] == q[i];
                    assert(pkgs[j] == q[i]);
                    assert(text::le(pkgs[j].rel, pkgs[pkgs.len() - 1].rel));
                }
            }
            assert forall|i: int, j: int| 0 <= i < j < r.len() implies text::le(
                (#[trigger] r[i]).rel,
                (#[trigger] r[j]).rel,
            ) && r[i].rel != r[j].rel by {
                if j < q.len() {
                    assert(q[i] == r[i] && q[j] == r[j]);
                } else {
                    assert(q[i] == r[i]);
                }
            }
            assert forall|i: int| 0 <= i < r.len() implies (#[trigger] r[i]).rel == p.rel || exists|
                j: int,
            |
                0 <= j < pkgs.len() && pkgs[j] == r[i] by {
                if i < q.len() {
                    assert(q[i] == r[i]);
                    if q[i].rel != p.rel {
                        let j = choose|j: int| 0 <= j < front.len() && front[j] == q[i];
                        assert(pkgs[j] == r[i]);
                    }
                } else {
                    assert(pkgs[pkgs.len() - 1] == r[i]);
                }
            }
        }
    }
}

/// The workspace's packages are ordered by path, and no path occurs twice.
pub proof fn law_packages_are_in_path_order(
    root: Seq<char>,
    found: Seq<FoundView>,
    n: int,
)
    ensures
        ordered(packages_of(root, found, n)),
    decreases n,
{
    if n > 0 {
        law_packages_are_in_path_order(root, found, n - 1);
        if let Some(p) = package_of(root, found[n - 1]) {
            lemma_put_keeps_order(packages_of(root, found, n - 1), p);
        }
    }
}

spec fn chosen_ok(all: Seq<PackageView>, v: Seq<int>) -> bool {
    &&& forall|k: int| 0 <= k < v.len() ==> 0 <= #[trigger] v[k] < all.len()
    &&& forall|k: int, l: int|
        0 <= k < l < v.len() ==> all[#[trigger] v[k]].rel != all[#[trigger] v[l]].rel
}

proof fn lemma_chosen_by(
    all: Seq<PackageView>,
    pattern: Seq<char>,
    answers: Seq<bool>,
    n: int,
    before: Seq<int>,
)
    requires
        0 <= n <= all.len(),
        chosen_ok(all, before),
    ensures
        ({
            let r = chosen_by(all, pattern, answers, n, before);
            &&& chosen_ok(all, r)
            &&& before.len() <= r.len()
            &&& r.take(before.len() as int) == before
            &&& forall|k: int|
                before.len() <= k < r.len() ==> matches_package(
                    pattern,
                    all[#[trigger] r[k]],
                    answers[r[k]],
                )
            &&& forall|i: int|
                0 <= i < n && matches_package(pattern, #[trigger] all[i], answers[i]) ==> has_rel(
                    all,
                    r,
                    all[i].rel,
                )
        }),
    decreases n,
{
    if n > 0 {
        let front = chosen_by(all, pattern, answers, n - 1, before);
        lemma_chosen_by(all, pattern, answers, n - 1, before);
        let r = chosen_by(all, pattern, answers, n, before);
        let p = all[n - 1];
        if matches_package(pattern, p, answers[n - 1]) && !has_rel(all, front, p.rel) {
            assert(r.take(before.len() as int) =~= front.take(before.len() as int));
            assert forall|k: int, l: int| 0 <= k < l < r.len() implies all[#[trigger] r[k]].rel
                != all[#[trigger] r[l]].rel by {
                if l < front.len() {
                    assert(all[front[k]].rel != all[front[l]].rel);
                } else {
                    assert(all[front[k]].rel != p.rel);
                }
            }
            assert forall|k: int| 0 <= k < r.len() implies 0 <= #[trigger] r[k] < all.len() by {
                if k < front.len() {
                    assert(0 <= front[k] < all.len());
                }
            }
            assert forall|k: int| before.len() <= k < r.len() implies matches_package(
                pattern,
                all[#[trigger] r[k]],
                answers[r[k]],
            ) by {
                if k < front.len() {
                    assert(matches_package(pattern, all[front[k]], answers[front[k]]));
                }
            }
            assert(all[r[front.len() as int]].rel == p.rel);
            assert forall|i: int|
                0 <= i < n && matches_package(pattern, #[trigger] all[i], answers[i]) implies has_rel(
                all,
                r,
                all[i].rel,
            ) by {
                if i < n - 1 {
                    assert(has_rel(all, front, all[i].rel));
                    let k = choose|k: int|
                        0 <= k < front.len() && all[#[trigger] front[k]].rel == all[i].rel;
                    assert(all[r[k]].rel == all[i].rel);
                }
            }
        }
    } else {
        assert(before.take(before.len() as int) =~= before);
    }
}

/// What `packages` entries choose: each package at most once, exactly those that
/// some entry matches; and every entry matches something, or it is an error.
pub proof fn law_chosen_packages(
    all: Seq<PackageView>,
    patterns: Seq<Seq<char>>,
    answers: Seq<Seq<bool>>,
    n: int,
    task: Seq<char>,
)
    requires
        0 <= n <= patterns.len(),
    ensures
        chosen(all, patterns, answers, n, task) is Ok <==> forall|i: int|
            0 <= i < n ==> matches_any(all, #[trigger] patterns[i], answers[i]),
        chosen(all, patterns, answers, n, task) matches Ok(v) ==> {
            &&& forall|k: int| 0 <= k < v.len() ==> 0 <= #[trigger] v[k] < all.len()
            &&& forall|k: int, l: int|
                0 <= k < l < v.len() ==> all[#[trigger] v[k]].rel != all[#[trigger] v[l]].rel
            &&& forall|k: int|
                0 <= k < v.len() ==> exists|i: int|
                    0 <= i < n && matches_package(
                        #[trigger] patterns[i],
                        all[#[trigger] v[k]],
                        answers[i][v[k]],
                    )
            &&& forall|i: int, p: int|
                0 <= i < n && 0 <= p < all.len() && matches_package(
                    #[trigger] patterns[i],
                    #[trigger] all[p],
                    answers[i][p],
                ) ==> has_rel(all, v, all[p].rel)
        },
    decreases n,
{
    if n > 0 {
        law_chosen_packages(all, patterns, answers, n - 1, task);
        let pattern = patterns[n - 1];
        if let Ok(front) = chosen(all, patterns, answers, n - 1, task) {
            if matches_any(all, pattern, answers[n - 1]) {
                lemma_chosen_by(all, pattern, answers[n - 1], all.len() as int, front);
                let r = chosen_by(all, pattern, answers[n - 1], all.len() as int, front);
                assert forall|k: int| 0 <= k < r.len() implies exists|i: int|
                    0 <= i < n && matches_package(
                        #[trigger] patterns[i],
                        all[#[trigger] r[k]],
                        answers[i][r[k]],
                    ) by {
                    if k < front.len() {
                        assert(r.take(front.len() as int)[k] == r[k]);
                        let i = choose|i: int|
                            0 <= i < n - 1 && matches_package(
                                #[trigger] patterns[i],
                                all[front[k]],
                                answers[i][front[k]],
                            );
                        assert(matches_package(patterns[i], all[r[k]], answers[i][r[k]]));
                    } else {
                        assert(matches_package(patterns[n - 1], all[r[k]], answers[n - 1][r[k]]));
                    }
                }
                assert forall|i: int, p: int|
                    0 <= i < n && 0 <= p < all.len() && matches_package(
                        #[trigger] patterns[i],
                        #[trigger] all[p],
                        answers[i][p],
                    ) implies has_rel(all, r, all[p].rel) by {
                    if i < n - 1 {
                        assert(has_rel(all, front, all[p].rel));
                        let k = choose|k: int|
                            0 <= k < front.len() && all[#[trigger] front[k]].rel == all[p].rel;
                        assert(r.take(front.len() as int)[k] == r[k]);
                        assert(all[r[k]].rel == all[p].rel);
                    }
                }
            }
        }
    }
}

/// Without a backslash in an entry or in a path, what `packages` entries choose
/// is the same on every platform.
pub proof fn law_choices_are_portable(
    all: Seq<PackageView>,
    patterns: Seq<Seq<char>>,
    task: Seq<char>,
    r: Result<Seq<int>, ErrorView>,
    s: Result<Seq<int>, ErrorView>,
)
    requires
        forall|i: int| 0 <= i < patterns.len() ==> is_portable(#[trigger] patterns[i]),
        forall|j: int| 0 <= j < all.len() ==> is_portable((#[trigger] all[j]).rel),
        is_choice(all, patterns, task, r),
        is_choice(all, patterns, task, s),
    ensures
        r == s,
{
    let n = patterns.len() as int;
    let a = choose|a: Seq<Seq<bool>>|
        are_answers(all, patterns, a) && r == #[trigger] chosen(all, patterns, a, n, task);
    let b = choose|b: Seq<Seq<bool>>|
        are_answers(all, patterns, b) && s == #[trigger] chosen(all, patterns, b, n, task);
    assert forall|i: int| 0 <= i < n implies #[trigger] a[i] =~= b[i] by {
        assert(a[i].len() == all.len() && b[i].len() == all.len());
        assert forall|j: int| 0 <= j < all.len() implies a[i][j] == b[i][j] by {
            assert(is_answer(patterns[i], all[j].rel, a[i][j]));
            assert(is_answer(patterns[i], all[j].rel, b[i][j]));
        }
    }
    assert(a =~= b);
}

/// A directory with a manifest is a package and nothing else is: it has the directory's
/// path, its path from the root, the ecosystem of its manifest, and what that declares.
pub proof fn law_what_a_package_is(
    root: Seq<Seq<char>>,
    rest: Seq<Seq<char>>,
    f: FoundView,
)
    requires
        path::are_components(true, root + rest),
        path::are_components(true, root),
        f.path == path::rendered(true, root + rest),
    ensures
        ({
            let m = f.markers;
            package_of(path::rendered(true, root), f) is Some <==> f.is_dir && (m.package_json
                || m.cargo_toml || m.go_mod || m.pyproject_toml)
        }),
        package_of(path::rendered(true, root), f) matches Some(p) ==> {
            &&& p.path == f.path
            &&& p.rel == text::joined(rest, seq!['/'])
            &&& detect::ecosystem_of(f.markers) == Some(p.eco)
            &&& p.name == detect::declared_name(f.manifest, p.eco)
            &&& p.declared == detect::declared_deps(f.manifest, p.eco, f.above)
        },
{
    path::law_relative_paths(true, root, rest, f.path);
    detect::law_ecosystems(f.markers);
}

proof fn lemma_put_holds(pkgs: Seq<PackageView>, p: PackageView, u: PackageView)
    requires
        ordered(pkgs),
    ensures
        pkgs.contains(u) ==> put_package(pkgs, p).contains(u),
        put_package(pkgs, p).contains(u) ==> u == p || pkgs.contains(u),
        (forall|i: int| 0 <= i < pkgs.len() ==> (#[trigger] pkgs[i]).rel != p.rel) ==> put_package(
            pkgs,
            p,
        ).contains(p),
        (exists|i: int| 0 <= i < pkgs.len() && (#[trigger] pkgs[i]).rel == p.rel) ==> put_package(
            pkgs,
            p,
        ) == pkgs,
    decreases pkgs.len(),
{
    let r = put_package(pkgs, p);
    if pkgs.len() == 0 {
        assert(r[0] == p);
    } else {
        let front = pkgs.drop_last();
        let last = pkgs.last();
        assert(ordered(front));
        if last.rel == p.rel {
            assert(pkgs[pkgs.len() - 1].rel == p.rel);
        } else if text::le(last.rel, p.rel) {
            assert(r[r.len() - 1] == p);
            if pkgs.contains(u) {
                let i = choose|i: int| 0 <= i < pkgs.len() && pkgs[i] == u;
                assert(r[i] == u);
            }
            if r.contains(u) && u != p {
                let i = choose|i: int| 0 <= i < r.len() && r[i] == u;
                assert(pkgs[i] == u);
            }
            if exists|i: int| 0 <= i < pkgs.len() && (#[trigger] pkgs[i]).rel == p.rel {
                let i = choose|i: int| 0 <= i < pkgs.len() && (#[trigger] pkgs[i]).rel == p.rel;
                assert(i < pkgs.len() - 1);
                assert(text::le(pkgs[i].rel, pkgs[pkgs.len() - 1].rel));
                text::lemma_le_total(p.rel, last.rel);
            }
        } else {
            let q = put_package(front, p);
            lemma_put_holds(front, p, u);
            if pkgs.contains(u) {
                let i = choose|i: int| 0 <= i < pkgs.len() && pkgs[i] == u;
                if i < front.len() {
                    assert(front[i] == u);
                    let j = choose|j: int| 0 <= j < q.len() && q[j] == u;
                    assert(r[j] == u);
                } else {
                    assert(r[r.len() - 1] == u);
                }
            }
            if r.contains(u) && u != p {
                let i = choose|i: int| 0 <= i < r.len() && r[i] == u;
                if i < q.len() {
                    assert(q[i] == u);
                    let j = choose|j: int| 0 <= j < front.len() && front[j] == u;
                    assert(pkgs[j] == u);
                } else {
                    assert(pkgs[pkgs.len() - 1] == u);
                }
            }
            if forall|i: int| 0 <= i < pkgs.len() ==> (#[trigger] pkgs[i]).rel != p.rel {
                assert forall|i: int| 0 <= i < front.len() implies (#[trigger] front[i]).rel
                    != p.rel by {
                    assert(pkgs[i] == front[i]);
                }
                let j = choose|j: int| 0 <= j < q.len() && q[j] == p;
                assert(r[j] == p);
            }
            if exists|i: int| 0 <= i < pkgs.len() && (#[trigger] pkgs[i]).rel == p.rel {
                let i = choose|i: int| 0 <= i < pkgs.len() && (#[trigger] pkgs[i]).rel == p.rel;
                assert(front[i].rel == p.rel);
                assert(r =~= pkgs);
            }
        }
    }
}

/// Every directory that is a package is one of the workspace's packages, the first one
/// where two have the same path, and there is no other package.
pub proof fn law_every_package_is_found(root: Seq<char>, found: Seq<FoundView>, n: int, i: int, u: PackageView)
    requires
        0 <= n <= found.len(),
    ensures
        0 <= i < n && package_of(root, found[i]) == Some(u) && (forall|j: int|
            0 <= j < i ==> (package_of(root, #[trigger] found[j]) is None || package_of(
                root,
                found[j],
            )->0.rel != u.rel)) ==> packages_of(root, found, n).contains(u),
        packages_of(root, found, n).contains(u) ==> exists|j: int|
            0 <= j < n && package_of(root, #[trigger] found[j]) == Some(u),
    decreases n,
{
    if n > 0 {
        law_every_package_is_found(root, found, n - 1, i, u);
        law_packages_are_in_path_order(root, found, n - 1);
        let front = packages_of(root, found, n - 1);
        if let Some(p) = package_of(root, found[n - 1]) {
            lemma_put_holds(front, p, u);
            if i == n - 1 && package_of(root, found[i]) == Some(u) && (forall|j: int|
                0 <= j < i ==> (package_of(root, #[trigger] found[j]) is None || package_of(
                    root,
                    found[j],
                )->0.rel != u.rel)) {
                assert forall|k: int| 0 <= k < front.len() implies (#[trigger] front[k]).rel
                    != p.rel by {
                    law_every_package_is_found(root, found, n - 1, i, front[k]);
                    assert(front.contains(front[k]));
                    let j = choose|j: int|
                        0 <= j < n - 1 && package_of(root, #[trigger] found[j]) == Some(front[k]);
                }
            }
            if packages_of(root, found, n).contains(u) && u == p {
                assert(package_of(root, found[n - 1]) == Some(u));
            }
        }
    }
}

/// An entry with a `*`, `?` or `[` in it is a glob over the paths of packages. Any other
/// names a package by its path or by its name.
pub proof fn law_what_an_entry_matches(pattern: Seq<char>, p: PackageView, by_glob: bool)
    ensures
        pattern.contains('*') || pattern.contains('?') || pattern.contains('[') ==> matches_package(
            pattern,
            p,
            by_glob,
        ) == by_glob,
        !pattern.contains('*') && !pattern.contains('?') && !pattern.contains('[') ==> (
        matches_package(pattern, p, by_glob) <==> pattern == p.rel || (p.name is Some && pattern
            == p.name->0)),
{
    shell::law_glob_characters(pattern);
}

proof fn lemma_ascending(
    all: Seq<PackageView>,
    pattern: Seq<char>,
    answers: Seq<bool>,
    n: int,
    before: Seq<int>,
)
    requires
        0 <= n <= all.len(),
    ensures
        ({
            let r = chosen_by(all, pattern, answers, n, before);
            &&& before.len() <= r.len()
            &&& r.take(before.len() as int) == before
            &&& forall|k: int| before.len() <= k < r.len() ==> #[trigger] r[k] < n
            &&& forall|k: int, l: int|
                before.len() <= k < l < r.len() ==> #[trigger] r[k] < #[trigger] r[l]
        }),
    decreases n,
{
    if n > 0 {
        lemma_ascending(all, pattern, answers, n - 1, before);
        let front = chosen_by(all, pattern, answers, n - 1, before);
        assert(front.push(n - 1).take(before.len() as int) =~= front.take(before.len() as int));
    } else {
        assert(before.take(before.len() as int) =~= before);
    }
}

/// The chosen packages come entry by entry, and for each entry in the order of the
/// workspace.
pub proof fn law_choices_follow_the_entries(
    all: Seq<PackageView>,
    patterns: Seq<Seq<char>>,
    answers: Seq<Seq<bool>>,
    n: int,
    task: Seq<char>,
)
    requires
        0 < n <= patterns.len(),
        chosen(all, patterns, answers, n, task) is Ok,
    ensures
        chosen(all, patterns, answers, n - 1, task) is Ok,
        ({
            let front = chosen(all, patterns, answers, n - 1, task)->Ok_0;
            let r = chosen(all, patterns, answers, n, task)->Ok_0;
            &&& front.len() <= r.len()
            &&& r.take(front.len() as int) == front
            &&& forall|k: int, l: int|
                front.len() <= k < l < r.len() ==> #[trigger] r[k] < #[trigger] r[l]
        }),
        chosen(all, patterns, answers, 0, task) == Ok::<Seq<int>, ErrorView>(Seq::empty()),
{
    let front = chosen(all, patterns, answers, n - 1, task)->Ok_0;
    lemma_ascending(all, patterns[n - 1], answers[n - 1], all.len() as int, front);
}

/// The first entry that matches nothing is the one that is reported.
pub proof fn law_unmatched_entries_are_reported(
    all: Seq<PackageView>,
    patterns: Seq<Seq<char>>,
    answers: Seq<Seq<bool>>,
    i: int,
    n: int,
    task: Seq<char>,
)
    requires
        0 <= i < n <= patterns.len(),
        forall|j: int| 0 <= j < i ==> matches_any(all, #[trigger] patterns[j], answers[j]),
        forall|p: int|
            0 <= p < all.len() ==> !matches_package(patterns[i], #[trigger] all[p], answers[i][p]),
    ensures
        chosen(all, patterns, answers, n, task) == Err::<Seq<int>, ErrorView>(
            ErrorView::Runtime(
                "task '"@ + task + "': packages pattern '"@ + patterns[i]
                    + "' matched no workspace package"@,
            ),
        ),
    decreases n,
{
    if n - 1 > i {
        law_unmatched_entries_are_reported(all, patterns, answers, i, n - 1, task);
    } else {
        law_chosen_packages(all, patterns, answers, i, task);
    }
}

} // verus!
