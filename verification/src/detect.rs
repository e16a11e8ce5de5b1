//! Ecosystems: how one is recognised, the native command a bare task name maps
//! to, and what a manifest says of its package's name and dependencies.

use vstd::prelude::*;

use crate::json;
use crate::json::{JsonField, JsonFieldView};
use crate::text;
use crate::toml;
use crate::toml::{Toml, TomlView};

verus! {

/// A package ecosystem, recognised by its manifest file.
#[derive(Debug, Clone, Copy, PartialEq, Eq, Structural)]
pub enum Ecosystem {
    /// `package.json`, and no bun lockfile.
    Npm,
    /// `package.json` next to a bun lockfile.
    Bun,
    /// `Cargo.toml`.
    Cargo,
    /// `go.mod`.
    Go,
    /// `pyproject.toml`.
    Python,
}

/// The marker files that a directory holds.
#[derive(Debug, Clone, Copy, PartialEq, Eq, Structural)]
pub struct Markers {
    pub package_json: bool,
    /// `bun.lockb` or `bun.lock`.
    pub bun_lock: bool,
    pub cargo_toml: bool,
    pub go_mod: bool,
    pub pyproject_toml: bool,
}

/// The native command for a task: `(program, args)`.
pub open spec fn native(eco: Ecosystem, task: Seq<char>) -> (Seq<char>, Seq<Seq<char>>) {
    match eco {
        Ecosystem::Npm => ("npm"@, seq!["run"@, task]),
        Ecosystem::Bun => ("bun"@, seq!["run"@, task]),
        Ecosystem::Cargo => ("cargo"@, seq![task]),
        Ecosystem::Go => ("go"@, seq![task]),
        Ecosystem::Python => ("uv"@, seq!["run"@, task]),
    }
}

impl Ecosystem {
    /// Map a bare task name to `(program, args)` of the native runner.
    pub fn native_command(self, task: &str) -> (r: (String, Vec<String>))
        ensures
            (r.0@, text::texts(r.1@)) == native(self, task@),
    {
        let mut args: Vec<String> = Vec::new();
        let runs = match self {
            Ecosystem::Npm => true,
            Ecosystem::Bun => true,
            Ecosystem::Python => true,
            Ecosystem::Cargo => false,
            Ecosystem::Go => false,
        };
        if runs {
            args.push("run".to_string());
        }
        args.push(task.to_string());
        let program = match self {
            Ecosystem::Npm => "npm",
            Ecosystem::Bun => "bun",
            Ecosystem::Cargo => "cargo",
            Ecosystem::Go => "go",
            Ecosystem::Python => "uv",
        };
        assert(text::texts(args@) =~= native(self, task@).1);
        (program.to_string(), args)
    }

    /// The file that holds the package's name and dependencies.
    pub fn manifest_file(self) -> (r: &'static str)
        ensures
            r@ == match self {
                Ecosystem::Npm => "package.json"@,
                Ecosystem::Bun => "package.json"@,
                Ecosystem::Cargo => "Cargo.toml"@,
                Ecosystem::Go => "go.mod"@,
                Ecosystem::Python => "pyproject.toml"@,
            },
    {
        match self {
            Ecosystem::Npm => "package.json",
            Ecosystem::Bun => "package.json",
            Ecosystem::Cargo => "Cargo.toml",
            Ecosystem::Go => "go.mod",
            Ecosystem::Python => "pyproject.toml",
        }
    }
}

/// The ecosystem that the marker files show. Node comes first, npm or bun by
/// lockfile.
pub open spec fn ecosystem_of(m: Markers) -> Option<Ecosystem> {
    if m.package_json {
        if m.bun_lock {
            Some(Ecosystem::Bun)
        } else {
            Some(Ecosystem::Npm)
        }
    } else if m.cargo_toml {
        Some(Ecosystem::Cargo)
    } else if m.go_mod {
        Some(Ecosystem::Go)
    } else if m.pyproject_toml {
        Some(Ecosystem::Python)
    } else {
        None
    }
}

/// Detect the ecosystem of a package by its marker files.
pub fn detect(m: &Markers) -> (r: Option<Ecosystem>)
    ensures
        r == ecosystem_of(*m),
{
    if m.package_json {
        if m.bun_lock {
            return Some(Ecosystem::Bun);
        }
        return Some(Ecosystem::Npm);
    }
    if m.cargo_toml {
        return Some(Ecosystem::Cargo);
    }
    if m.go_mod {
        return Some(Ecosystem::Go);
    }
    if m.pyproject_toml {
        return Some(Ecosystem::Python);
    }
    None
}

// ---------------------------------------------------------------------------
// Names
// ---------------------------------------------------------------------------
/// `[table] name`.
pub open spec fn table_name(e: toml::Entries, table: Seq<char>) -> Option<Seq<char>> {
    match toml::table_at(e, table) {
        Some(t) => toml::str_at(t, "name"@),
        None => None,
    }
}

/// The name that a `pyproject.toml` declares: `[project]`, then `[tool.poetry]`.
pub open spec fn python_name(e: toml::Entries) -> Option<Seq<char>> {
    match table_name(e, "project"@) {
        Some(n) => Some(n),
        None => match toml::table_at(e, "tool"@) {
            Some(tool) => table_name(tool, "poetry"@),
            None => None,
        },
    }
}

/// The name that a `package.json` declares.
pub open spec fn json_name(e: Seq<(Seq<char>, JsonFieldView)>) -> Option<Seq<char>> {
    match json::lookup(e, "name"@) {
        Some(JsonFieldView::Str(s)) => Some(s),
        _ => None,
    }
}

/// The module that a `go.mod` declares, from its line `from` on.
pub open spec fn go_module_from(lines: Seq<Seq<char>>, from: int) -> Option<Seq<char>>
    decreases lines.len() - from,
{
    if from >= lines.len() {
        None
    } else {
        match text::after_prefix(text::trimmed(lines[from]), "module "@) {
            Some(rest) => Some(text::trimmed(rest)),
            None => go_module_from(lines, from + 1),
        }
    }
}

/// The module that a `go.mod` declares.
pub open spec fn go_module(s: Seq<char>) -> Option<Seq<char>> {
    go_module_from(text::split(s, '\n'), 0)
}

/// The name that a manifest declares.
pub open spec fn declared_name(s: Seq<char>, eco: Ecosystem) -> Option<Seq<char>> {
    match eco {
        Ecosystem::Npm | Ecosystem::Bun => match json::json_fields(s) {
            Some(e) => json_name(e),
            None => None,
        },
        Ecosystem::Cargo => match toml::toml_entries(s) {
            Ok(e) => table_name(e, "package"@),
            Err(_) => None,
        },
        Ecosystem::Python => match toml::toml_entries(s) {
            Ok(e) => python_name(e),
            Err(_) => None,
        },
        Ecosystem::Go => go_module(s),
    }
}

/// `[table] name`.
pub fn toml_name(entries: &Vec<(String, Toml)>, table: &str) -> (r: Option<String>)
    ensures
        match r {
            Some(n) => table_name(toml::entry_views(entries@), table@) == Some(n@),
            None => table_name(toml::entry_views(entries@), table@) is None,
        },
{
    match toml::get_table(entries, table) {
        Some(t) => match toml::get_str(t, "name") {
            Some(s) => Some(s.clone()),
            None => None,
        },
        None => None,
    }
}

/// The name that a `pyproject.toml` declares.
pub fn pyproject_name(entries: &Vec<(String, Toml)>) -> (r: Option<String>)
    ensures
        match r {
            Some(n) => python_name(toml::entry_views(entries@)) == Some(n@),
            None => python_name(toml::entry_views(entries@)) is None,
        },
{
    match toml_name(entries, "project") {
        Some(n) => Some(n),
        None => match toml::get_table(entries, "tool") {
            Some(tool) => toml_name(tool, "poetry"),
            None => None,
        },
    }
}

/// The name that a `package.json` declares.
pub fn package_json_name(fields: &Vec<(String, JsonField)>) -> (r: Option<String>)
    ensures
        match r {
            Some(n) => json_name(json::field_views(fields@)) == Some(n@),
            None => json_name(json::field_views(fields@)) is None,
        },
{
    match json::get(fields, "name") {
        Some(JsonField::Str(s)) => Some(s.clone()),
        _ => None,
    }
}

/// The module that a `go.mod` declares.
pub fn go_mod_module(s: &str) -> (r: Option<String>)
    ensures
        match r {
            Some(n) => go_module(s@) == Some(n@),
            None => go_module(s@) is None,
        },
{
    let lines = text::split_at_char(&text::chars(s), '\n');
    let ghost all = text::texts(lines@);
    let mut i: usize = 0;
    while i < lines.len()
        invariant
            i <= lines.len(),
            all == text::texts(lines@),
            go_module_from(all, 0) == go_module_from(all, i as int),
            go_module(s@) == go_module_from(all, 0),
        decreases lines.len() - i,
    {
        assert(all[i as int] == lines@[i as int]@);
        let line = text::trim(&text::chars(lines[i].as_str()));
        if let Some(rest) = text::strip_prefix(&line, "module ") {
            return Some(text::string(&text::trim(&rest)));
        }
        i += 1;
    }
    None
}

/// The name that a manifest declares, so `packages` can match it. A manifest
/// that cannot be read declares none.
pub fn manifest_name(s: &str, eco: Ecosystem) -> (r: Option<String>)
    ensures
        match r {
            Some(n) => declared_name(s@, eco) == Some(n@),
            None => declared_name(s@, eco) is None,
        },
{
    match eco {
        Ecosystem::Npm | Ecosystem::Bun => match json::read(s) {
            Some(fields) => package_json_name(&fields),
            None => None,
        },
        Ecosystem::Cargo => match toml::read(s) {
            Ok(entries) => toml_name(&entries, "package"),
            Err(_) => None,
        },
        Ecosystem::Python => match toml::read(s) {
            Ok(entries) => pyproject_name(&entries),
            Err(_) => None,
        },
        Ecosystem::Go => go_mod_module(s),
    }
}

// ---------------------------------------------------------------------------
// Dependencies: package.json
// ---------------------------------------------------------------------------
/// The dependency names under one field of a `package.json`, in order.
pub open spec fn json_kind(e: Seq<(Seq<char>, JsonFieldView)>, kind: Seq<char>) -> Seq<Seq<char>> {
    match json::lookup(e, kind) {
        Some(JsonFieldView::Object(keys)) => text::in_order(keys),
        _ => Seq::empty(),
    }
}

/// The dependency names of a `package.json`, kind by kind.
pub open spec fn json_deps(e: Seq<(Seq<char>, JsonFieldView)>) -> Seq<Seq<char>> {
    json_kind(e, "dependencies"@) + json_kind(e, "devDependencies"@) + json_kind(
        e,
        "peerDependencies"@,
    ) + json_kind(e, "optionalDependencies"@)
}

/// Append the dependency names under one field.
fn push_json_kind(fields: &Vec<(String, JsonField)>, kind: &str, out: &mut Vec<String>)
    ensures
        text::texts(final(out)@) == text::texts(old(out)@) + json_kind(
            json::field_views(fields@),
            kind@,
        ),
{
    let ghost before = text::texts(out@);
    match json::get(fields, kind) {
        Some(JsonField::Object(keys)) => {
            let sorted = text::sort(text::copy_strings(keys));
            text::extend(out, &sorted);
        },
        _ => {
            assert(before + Seq::<Seq<char>>::empty() =~= before);
        },
    }
}

/// The dependency names of a `package.json`: kind by kind, alphabetical within
/// each.
pub fn package_json_deps(fields: &Vec<(String, JsonField)>) -> (r: Vec<String>)
    ensures
        text::texts(r@) == json_deps(json::field_views(fields@)),
{
    let mut out: Vec<String> = Vec::new();
    push_json_kind(fields, "dependencies", &mut out);
    push_json_kind(fields, "devDependencies", &mut out);
    push_json_kind(fields, "peerDependencies", &mut out);
    push_json_kind(fields, "optionalDependencies", &mut out);
    assert(text::texts(out@) =~= json_deps(json::field_views(fields@)));
    out
}

// ---------------------------------------------------------------------------
// Dependencies: Cargo.toml
// ---------------------------------------------------------------------------
/// The crate that a dependency's value renames it to.
pub open spec fn renamed(item: TomlView, key: Seq<char>) -> Seq<char> {
    match toml::field(item, "package"@) {
        Some(TomlView::Str(s)) => s,
        _ => key,
    }
}

/// The crate that a dependency inherited from the workspace root names.
pub open spec fn inherited(root: Option<toml::Entries>, key: Seq<char>) -> Seq<char> {
    match root {
        None => key,
        Some(r) => match toml::table_at(r, "workspace"@) {
            None => key,
            Some(w) => match toml::table_at(w, "dependencies"@) {
                None => key,
                Some(d) => match toml::lookup(d, key) {
                    None => key,
                    Some(item) => renamed(item, key),
                },
            },
        },
    }
}

/// The crate that a dependency names: a rename counts, here or, for
/// `{ workspace = true }`, at the workspace root.
pub open spec fn crate_name(
    item: TomlView,
    key: Seq<char>,
    root: Option<toml::Entries>,
) -> Seq<char> {
    if toml::field(item, "workspace"@) == Some(TomlView::Bool(true)) {
        inherited(root, key)
    } else {
        renamed(item, key)
    }
}

/// The crates that a dependency table names, in order.
pub open spec fn crate_names(e: toml::Entries, root: Option<toml::Entries>) -> Seq<Seq<char>> {
    Seq::new(e.len(), |i: int| crate_name(e[i].1, e[i].0, root))
}

/// The crates that the dependency table of one kind names.
pub open spec fn cargo_kind(
    e: toml::Entries,
    kind: Seq<char>,
    root: Option<toml::Entries>,
) -> Seq<Seq<char>> {
    match toml::table_at(e, kind) {
        Some(t) => crate_names(t, root),
        None => Seq::empty(),
    }
}

/// The crates that the three dependency tables name.
pub open spec fn cargo_kinds(e: toml::Entries, root: Option<toml::Entries>) -> Seq<Seq<char>> {
    cargo_kind(e, "dependencies"@, root) + cargo_kind(e, "dev-dependencies"@, root) + cargo_kind(
        e,
        "build-dependencies"@,
        root,
    )
}

/// The crates that the tables of the first `n` targets name.
pub open spec fn cargo_targets(
    e: toml::Entries,
    n: int,
    root: Option<toml::Entries>,
) -> Seq<Seq<char>>
    decreases n,
{
    if n <= 0 {
        Seq::empty()
    } else {
        cargo_targets(e, n - 1, root) + match toml::fields(e[n - 1].1) {
            Some(t) => cargo_kinds(t, root),
            None => Seq::empty(),
        }
    }
}

/// The crates that a `Cargo.toml` depends on: its three tables, then those of
/// each target.
pub open spec fn cargo_deps(e: toml::Entries, root: Option<toml::Entries>) -> Seq<Seq<char>> {
    cargo_kinds(e, root) + match toml::table_at(e, "target"@) {
        Some(t) => cargo_targets(t, t.len() as int, root),
        None => Seq::empty(),
    }
}

/// The entries of an optional manifest.
pub open spec fn opt_entries(root: Option<&Vec<(String, Toml)>>) -> Option<toml::Entries> {
    match root {
        Some(r) => Some(toml::entry_views(r@)),
        None => None,
    }
}

/// The crate that a dependency's value renames it to.
fn rename_of(item: &Toml, key: &str) -> (r: String)
    ensures
        r@ == renamed(item@, key@),
{
    match item.get("package") {
        Some(Toml::Str(s)) => s.clone(),
        _ => key.to_string(),
    }
}

/// The crate that a dependency names.
fn crate_of(item: &Toml, key: &str, root: Option<&Vec<(String, Toml)>>) -> (r: String)
    ensures
        r@ == crate_name(item@, key@, opt_entries(root)),
{
    let from_root = match item.get("workspace") {
        Some(Toml::Bool(b)) => *b,
        _ => false,
    };
    if !from_root {
        return rename_of(item, key);
    }
    if let Some(r) = root {
        if let Some(w) = toml::get_table(r, "workspace") {
            if let Some(d) = toml::get_table(w, "dependencies") {
                if let Some(at_root) = toml::get(d, key) {
                    return rename_of(at_root, key);
                }
            }
        }
    }
    key.to_string()
}

/// Append the crates that the dependency table of one kind names.
fn push_cargo_kind(
    entries: &Vec<(String, Toml)>,
    kind: &str,
    root: Option<&Vec<(String, Toml)>>,
    out: &mut Vec<String>,
)
    ensures
        text::texts(final(out)@) == text::texts(old(out)@) + cargo_kind(
            toml::entry_views(entries@),
            kind@,
            opt_entries(root),
        ),
{
    let ghost before = text::texts(out@);
    let table = match toml::get_table(entries, kind) {
        Some(t) => t,
        None => {
            assert(before + Seq::<Seq<char>>::empty() =~= before);
            return ;
        },
    };
    let ghost e = toml::entry_views(table@);
    let ghost names = crate_names(e, opt_entries(root));
    let mut i: usize = 0;
    assert(before + names.take(0) =~= before);
    while i < table.len()
        invariant
            i <= table.len(),
            e == toml::entry_views(table@),
            names == crate_names(e, opt_entries(root)),
            text::texts(out@) == before + names.take(i as int),
        decreases table.len() - i,
    {
        let ghost so_far = text::texts(out@);
        out.push(crate_of(&table[i].1, table[i].0.as_str(), root));
        assert(e[i as int] == (table@[i as int].0@, table@[i as int].1@));
        assert(text::texts(out@) =~= so_far.push(names[i as int]));
        assert(text::texts(out@) =~= before + names.take(i + 1));
        i += 1;
    }
    assert(names.take(i as int) =~= names);
}

/// Append the crates that the three dependency tables name.
fn push_cargo_kinds(
    entries: &Vec<(String, Toml)>,
    root: Option<&Vec<(String, Toml)>>,
    out: &mut Vec<String>,
)
    ensures
        text::texts(final(out)@) == text::texts(old(out)@) + cargo_kinds(
            toml::entry_views(entries@),
            opt_entries(root),
        ),
{
    let ghost before = text::texts(out@);
    push_cargo_kind(entries, "dependencies", root, out);
    push_cargo_kind(entries, "dev-dependencies", root, out);
    push_cargo_kind(entries, "build-dependencies", root, out);
    assert(text::texts(out@) =~= before + cargo_kinds(
        toml::entry_views(entries@),
        opt_entries(root),
    ));
}

/// The crates that a `Cargo.toml` depends on. `root` is the manifest of the Cargo
/// workspace, where `{ workspace = true }` dependencies are declared.
pub fn cargo_toml_deps(entries: &Vec<(String, Toml)>, root: Option<&Vec<(String, Toml)>>) -> (r:
    Vec<String>)
    ensures
        text::texts(r@) == cargo_deps(toml::entry_views(entries@), opt_entries(root)),
{
    let mut out: Vec<String> = Vec::new();
    let ghost e = toml::entry_views(entries@);
    let ghost rt = opt_entries(root);
    push_cargo_kinds(entries, root, &mut out);
    let ghost kinds = cargo_kinds(e, rt);
    assert(text::texts(out@) =~= kinds);
    if let Some(targets) = toml::get_table(entries, "target") {
        let ghost te = toml::entry_views(targets@);
        let mut i: usize = 0;
        assert(text::texts(out@) =~= kinds + cargo_targets(te, 0, rt));
        while i < targets.len()
            invariant
                i <= targets.len(),
                te == toml::entry_views(targets@),
                rt == opt_entries(root),
                text::texts(out@) == kinds + cargo_targets(te, i as int, rt),
            decreases targets.len() - i,
        {
            let ghost before = text::texts(out@);
            assert(te[i as int] == (targets@[i as int].0@, targets@[i as int].1@));
            if let Some(t) = targets[i].1.as_table_like() {
                push_cargo_kinds(t, root, &mut out);
            }
            assert(text::texts(out@) =~= kinds + cargo_targets(te, i + 1, rt));
            i += 1;
        }
    } else {
        assert(kinds + Seq::<Seq<char>>::empty() =~= kinds);
    }
    out
}

// ---------------------------------------------------------------------------
// Dependencies: pyproject.toml
// ---------------------------------------------------------------------------
/// The characters of a distribution name.
pub open spec fn is_dist_char(c: char) -> bool {
    text::is_letter(c) || text::is_digit(c) || c == '-' || c == '_' || c == '.'
}

/// The first position at or after `from` that ends a distribution name.
pub open spec fn dist_end(s: Seq<char>, from: int) -> int
    decreases s.len() - from,
{
    if from >= s.len() || !is_dist_char(s[from]) {
        from
    } else {
        dist_end(s, from + 1)
    }
}

/// The distribution name of a requirement: the leading run before any extras,
/// version, marker or URL.
pub open spec fn pep508_name(req: Seq<char>) -> Seq<char> {
    text::trimmed(req).take(dist_end(text::trimmed(req), 0))
}

/// The distributions that the first `n` items of an array require. What is no
/// string, or names nothing, is left out.
pub open spec fn pep508_names(items: Seq<TomlView>, n: int) -> Seq<Seq<char>>
    decreases n,
{
    if n <= 0 {
        Seq::empty()
    } else {
        let front = pep508_names(items, n - 1);
        match items[n - 1] {
            TomlView::Str(s) => if pep508_name(s).len() > 0 {
                front.push(pep508_name(s))
            } else {
                front
            },
            _ => front,
        }
    }
}

/// The distributions that an array of requirements names.
pub open spec fn requirements(v: Option<TomlView>) -> Seq<Seq<char>> {
    match v {
        Some(TomlView::Array(items)) => pep508_names(items, items.len() as int),
        _ => Seq::empty(),
    }
}

/// The distributions that the first `n` groups of requirements name.
pub open spec fn group_requirements(e: toml::Entries, n: int) -> Seq<Seq<char>>
    decreases n,
{
    if n <= 0 {
        Seq::empty()
    } else {
        group_requirements(e, n - 1) + requirements(Some(e[n - 1].1))
    }
}

/// The distributions that the groups under a key name.
pub open spec fn groups_at(e: toml::Entries, key: Seq<char>) -> Seq<Seq<char>> {
    match toml::table_at(e, key) {
        Some(g) => group_requirements(g, g.len() as int),
        None => Seq::empty(),
    }
}

/// The keys of a dependency table.
pub open spec fn table_keys(v: Option<TomlView>) -> Seq<Seq<char>> {
    match v {
        None => Seq::empty(),
        Some(t) => match toml::fields(t) {
            Some(e) => Seq::new(e.len(), |i: int| e[i].0),
            None => Seq::empty(),
        },
    }
}

/// The dependencies of the first `n` Poetry groups.
pub open spec fn poetry_groups(e: toml::Entries, n: int) -> Seq<Seq<char>>
    decreases n,
{
    if n <= 0 {
        Seq::empty()
    } else {
        poetry_groups(e, n - 1) + table_keys(toml::field(e[n - 1].1, "dependencies"@))
    }
}

/// The dependencies of `[project]` and its optional groups.
pub open spec fn project_deps(e: toml::Entries) -> Seq<Seq<char>> {
    match toml::table_at(e, "project"@) {
        Some(p) => requirements(toml::lookup(p, "dependencies"@)) + groups_at(
            p,
            "optional-dependencies"@,
        ),
        None => Seq::empty(),
    }
}

/// The dependencies of `[tool.poetry]` and its groups.
pub open spec fn poetry_deps(e: toml::Entries) -> Seq<Seq<char>> {
    match toml::table_at(e, "tool"@) {
        None => Seq::empty(),
        Some(tool) => match toml::table_at(tool, "poetry"@) {
            None => Seq::empty(),
            Some(p) => table_keys(toml::lookup(p, "dependencies"@)) + match toml::table_at(
                p,
                "group"@,
            ) {
                Some(g) => poetry_groups(g, g.len() as int),
                None => Seq::empty(),
            },
        },
    }
}

/// The distributions that a `pyproject.toml` depends on: `[project]`, then
/// `[dependency-groups]`, then Poetry's tables.
pub open spec fn python_deps(e: toml::Entries) -> Seq<Seq<char>> {
    project_deps(e) + groups_at(e, "dependency-groups"@) + poetry_deps(e)
}

/// The distribution name of a requirement.
fn dist_name(req: &str) -> (r: String)
    ensures
        r@ == pep508_name(req@),
{
    let cs = text::trim(&text::chars(req));
    let mut end: usize = 0;
    while end < cs.len() && (text::letter(cs[end]) || text::digit(cs[end]) || cs[end] == '-'
        || cs[end] == '_' || cs[end] == '.')
        invariant
            end <= cs.len(),
            dist_end(cs@, 0) == dist_end(cs@, end as int),
        decreases cs.len() - end,
    {
        end += 1;
    }
    assert(cs@.subrange(0, end as int) =~= cs@.take(end as int));
    text::slice(&cs, 0, end)
}

/// Append the distributions that an array of requirements names.
fn push_pep508(v: Option<&Toml>, out: &mut Vec<String>)
    ensures
        text::texts(final(out)@) == text::texts(old(out)@) + requirements(
            match v {
                Some(t) => Some(t@),
                None => None,
            },
        ),
{
    let ghost before = text::texts(out@);
    assert(before + Seq::<Seq<char>>::empty() =~= before);
    let t = match v {
        Some(t) => t,
        None => return ,
    };
    let items = match t.as_array() {
        Some(items) => items,
        None => return ,
    };
    let ghost views = toml::value_views(items@);
    let mut i: usize = 0;
    assert(before + pep508_names(views, 0) =~= before);
    while i < items.len()
        invariant
            i <= items.len(),
            views == toml::value_views(items@),
            text::texts(out@) == before + pep508_names(views, i as int),
        decreases items.len() - i,
    {
        let ghost so_far = text::texts(out@);
        assert(views[i as int] == items@[i as int]@);
        if let Some(s) = items[i].as_str() {
            let name = dist_name(s.as_str());
            if text::chars(name.as_str()).len() > 0 {
                out.push(name);
                assert(text::texts(out@) =~= so_far.push(name@));
            }
        }
        assert(text::texts(out@) =~= before + pep508_names(views, i + 1));
        i += 1;
    }
}

/// Append the distributions that the groups under a key name.
fn push_groups(entries: &Vec<(String, Toml)>, key: &str, out: &mut Vec<String>)
    ensures
        text::texts(final(out)@) == text::texts(old(out)@) + groups_at(
            toml::entry_views(entries@),
            key@,
        ),
{
    let ghost before = text::texts(out@);
    assert(before + Seq::<Seq<char>>::empty() =~= before);
    let groups = match toml::get_table(entries, key) {
        Some(g) => g,
        None => return ,
    };
    let ghost e = toml::entry_views(groups@);
    let mut i: usize = 0;
    assert(before + group_requirements(e, 0) =~= before);
    while i < groups.len()
        invariant
            i <= groups.len(),
            e == toml::entry_views(groups@),
            text::texts(out@) == before + group_requirements(e, i as int),
        decreases groups.len() - i,
    {
        assert(e[i as int] == (groups@[i as int].0@, groups@[i as int].1@));
        push_pep508(Some(&groups[i].1), out);
        assert(text::texts(out@) =~= before + group_requirements(e, i + 1));
        i += 1;
    }
}

/// Append the keys of a dependency table.
fn push_table_keys(v: Option<&Toml>, out: &mut Vec<String>)
    ensures
        text::texts(final(out)@) == text::texts(old(out)@) + table_keys(
            match v {
                Some(t) => Some(t@),
                None => None,
            },
        ),
{
    let ghost before = text::texts(out@);
    assert(before + Seq::<Seq<char>>::empty() =~= before);
    let t = match v {
        Some(t) => t,
        None => return ,
    };
    let entries = match t.as_table_like() {
        Some(entries) => entries,
        None => return ,
    };
    let ghost e = toml::entry_views(entries@);
    let ghost keys = Seq::new(e.len(), |i: int| e[i].0);
    let mut i: usize = 0;
    assert(before + keys.take(0) =~= before);
    while i < entries.len()
        invariant
            i <= entries.len(),
            e == toml::entry_views(entries@),
            keys == Seq::new(e.len(), |i: int| e[i].0),
            text::texts(out@) == before + keys.take(i as int),
        decreases entries.len() - i,
    {
        let ghost so_far = text::texts(out@);
        out.push(entries[i].0.clone());
        assert(text::texts(out@) =~= so_far.push(keys[i as int]));
        assert(text::texts(out@) =~= before + keys.take(i + 1));
        i += 1;
    }
    assert(keys.take(i as int) =~= keys);
}

/// Append the dependencies of `[tool.poetry]` and its groups.
fn push_poetry(entries: &Vec<(String, Toml)>, out: &mut Vec<String>)
    ensures
        text::texts(final(out)@) == text::texts(old(out)@) + poetry_deps(
            toml::entry_views(entries@),
        ),
{
    let ghost before = text::texts(out@);
    assert(before + Seq::<Seq<char>>::empty() =~= before);
    let tool = match toml::get_table(entries, "tool") {
        Some(t) => t,
        None => return ,
    };
    let poetry = match toml::get_table(tool, "poetry") {
        Some(p) => p,
        None => return ,
    };
    push_table_keys(toml::get(poetry, "dependencies"), out);
    let ghost middle = text::texts(out@);
    assert(middle + Seq::<Seq<char>>::empty() =~= middle);
    let groups = match toml::get_table(poetry, "group") {
        Some(g) => g,
        None => return ,
    };
    let ghost e = toml::entry_views(groups@);
    let mut i: usize = 0;
    assert(middle + poetry_groups(e, 0) =~= middle);
    while i < groups.len()
        invariant
            i <= groups.len(),
            e == toml::entry_views(groups@),
            text::texts(out@) == middle + poetry_groups(e, i as int),
        decreases groups.len() - i,
    {
        assert(e[i as int] == (groups@[i as int].0@, groups@[i as int].1@));
        push_table_keys(groups[i].1.get("dependencies"), out);
        assert(text::texts(out@) =~= middle + poetry_groups(e, i + 1));
        i += 1;
    }
    assert(text::texts(out@) =~= before + poetry_deps(toml::entry_views(entries@)));
}

/// The distributions that a `pyproject.toml` depends on.
pub fn pyproject_deps(entries: &Vec<(String, Toml)>) -> (r: Vec<String>)
    ensures
        text::texts(r@) == python_deps(toml::entry_views(entries@)),
{
    let ghost e = toml::entry_views(entries@);
    let mut out: Vec<String> = Vec::new();
    if let Some(project) = toml::get_table(entries, "project") {
        push_pep508(toml::get(project, "dependencies"), &mut out);
        push_groups(project, "optional-dependencies", &mut out);
    }
    assert(text::texts(out@) =~= project_deps(e));
    push_groups(entries, "dependency-groups", &mut out);
    push_poetry(entries, &mut out);
    assert(text::texts(out@) =~= python_deps(e));
    out
}

// ---------------------------------------------------------------------------
// Dependencies: go.mod
// ---------------------------------------------------------------------------
/// The first position at or after `from` where a `//` comment starts, or the end.
pub open spec fn comment_at(s: Seq<char>, from: int) -> int
    decreases s.len() - from,
{
    if from >= s.len() {
        s.len() as int
    } else if s[from] == '/' && from + 1 < s.len() && s[from + 1] == '/' {
        from
    } else {
        comment_at(s, from + 1)
    }
}

/// A line without its comment and the white space around it.
pub open spec fn go_line(raw: Seq<char>) -> Seq<char> {
    text::trimmed(raw.take(comment_at(raw, 0)))
}

/// What follows a directive, where the line really opens with it.
pub open spec fn directive_body(line: Seq<char>, directive: Seq<char>) -> Option<Seq<char>> {
    match text::after_prefix(line, directive) {
        Some(rest) => if rest.len() > 0 && (text::is_space(rest[0]) || rest[0] == '(') {
            Some(text::trimmed(rest))
        } else {
            None
        },
        None => None,
    }
}

/// The names with the first word of a line.
pub open spec fn with_first_word(names: Seq<Seq<char>>, line: Seq<char>) -> Seq<Seq<char>> {
    if text::words(line).len() > 0 {
        names.push(text::words(line)[0])
    } else {
        names
    }
}

/// What a line that opens a directive adds: a name, or a block that is open.
pub open spec fn go_directive(names: Seq<Seq<char>>, body: Seq<char>) -> (bool, Seq<Seq<char>>) {
    if body == seq!['('] {
        (true, names)
    } else {
        (false, with_first_word(names, body))
    }
}

/// What a line adds to the names found so far, and whether a block is open
/// behind it.
pub open spec fn go_step(state: (bool, Seq<Seq<char>>), line: Seq<char>) -> (bool, Seq<Seq<char>>) {
    let (in_block, names) = state;
    if line.len() == 0 {
        state
    } else if in_block {
        if line == seq![')'] {
            (false, names)
        } else {
            (true, with_first_word(names, line))
        }
    } else {
        match directive_body(line, "require"@) {
            Some(body) => go_directive(names, body),
            None => match directive_body(line, "replace"@) {
                Some(body) => go_directive(names, body),
                None => state,
            },
        }
    }
}

/// What the first `n` lines add up to.
pub open spec fn go_lines(lines: Seq<Seq<char>>, n: int) -> (bool, Seq<Seq<char>>)
    decreases n,
{
    if n <= 0 {
        (false, Seq::empty())
    } else {
        go_step(go_lines(lines, n - 1), go_line(lines[n - 1]))
    }
}

/// The modules that a `go.mod` requires or replaces.
pub open spec fn go_deps(s: Seq<char>) -> Seq<Seq<char>> {
    let lines = text::split(s, '\n');
    go_lines(lines, lines.len() as int).1
}

/// A line without its comment and the white space around it.
fn strip_comment(raw: &str) -> (r: Vec<char>)
    ensures
        r@ == go_line(raw@),
{
    let cs = text::chars(raw);
    let mut end: usize = 0;
    while end < cs.len() && !(cs[end] == '/' && end + 1 < cs.len() && cs[end + 1] == '/')
        invariant
            end <= cs.len(),
            comment_at(cs@, 0) == comment_at(cs@, end as int),
        decreases cs.len() - end,
    {
        end += 1;
    }
    assert(cs@.subrange(0, end as int) =~= cs@.take(end as int));
    text::trim(&text::cut(&cs, 0, end))
}

/// What follows a directive, where the line really opens with it.
fn body_of(line: &Vec<char>, directive: &str) -> (r: Option<Vec<char>>)
    ensures
        match r {
            Some(b) => directive_body(line@, directive@) == Some(b@),
            None => directive_body(line@, directive@) is None,
        },
{
    match text::strip_prefix(line, directive) {
        Some(rest) => {
            if rest.len() > 0 && (text::space(rest[0]) || rest[0] == '(') {
                Some(text::trim(&rest))
            } else {
                None
            }
        },
        None => None,
    }
}

/// Append the first word of a line.
fn push_first_word(line: &Vec<char>, out: &mut Vec<String>)
    ensures
        text::texts(final(out)@) == with_first_word(text::texts(old(out)@), line@),
{
    let ghost before = text::texts(out@);
    let words = text::split_words(line);
    if words.len() > 0 {
        assert(text::texts(words@)[0] == words@[0]@);
        out.push(words[0].clone());
        assert(text::texts(out@) =~= before.push(words@[0]@));
    }
}

/// Whether the line is this one character.
fn is_char(line: &Vec<char>, c: char) -> (r: bool)
    ensures
        r == (line@ == seq![c]),
{
    let r = line.len() == 1 && line[0] == c;
    assert(r == (line@ =~= seq![c]));
    r
}

/// The modules that a `go.mod` requires or replaces, single-line and block form.
pub fn go_mod_deps(s: &str) -> (r: Vec<String>)
    ensures
        text::texts(r@) == go_deps(s@),
{
    let lines = text::split_at_char(&text::chars(s), '\n');
    let ghost all = text::texts(lines@);
    let mut out: Vec<String> = Vec::new();
    let mut in_block = false;
    let mut i: usize = 0;
    assert(text::texts(out@) =~= Seq::<Seq<char>>::empty());
    while i < lines.len()
        invariant
            i <= lines.len(),
            all == text::texts(lines@),
            (in_block, text::texts(out@)) == go_lines(all, i as int),
        decreases lines.len() - i,
    {
        assert(all[i as int] == lines@[i as int]@);
        let line = strip_comment(lines[i].as_str());
        if line.len() > 0 {
            if in_block {
                if is_char(&line, ')') {
                    in_block = false;
                } else {
                    push_first_word(&line, &mut out);
                }
            } else {
                let body = match body_of(&line, "require") {
                    Some(b) => Some(b),
                    None => body_of(&line, "replace"),
                };
                if let Some(b) = body {
                    if is_char(&b, '(') {
                        in_block = true;
                    } else {
                        push_first_word(&b, &mut out);
                    }
                }
            }
        }
        i += 1;
    }
    out
}

// ---------------------------------------------------------------------------
// Dependencies of any manifest
// ---------------------------------------------------------------------------
/// The first of the `Cargo.toml` texts from `from` on that has a `[workspace]`
/// table. One that cannot be read has none.
pub open spec fn workspace_root(texts: Seq<Seq<char>>, from: int) -> Option<toml::Entries>
    decreases texts.len() - from,
{
    if from < 0 || from >= texts.len() {
        None
    } else {
        match toml::toml_entries(texts[from]) {
            Ok(e) => if toml::table_at(e, "workspace"@) is Some {
                Some(e)
            } else {
                workspace_root(texts, from + 1)
            },
            Err(_) => workspace_root(texts, from + 1),
        }
    }
}

/// The names of the dependencies that a manifest declares. `above` holds the
/// `Cargo.toml` texts of the directories above it, nearest first.
pub open spec fn declared_deps(
    s: Seq<char>,
    eco: Ecosystem,
    above: Seq<Seq<char>>,
) -> Seq<Seq<char>> {
    match eco {
        Ecosystem::Npm | Ecosystem::Bun => match json::json_fields(s) {
            Some(e) => json_deps(e),
            None => Seq::empty(),
        },
        Ecosystem::Cargo => match toml::toml_entries(s) {
            Ok(e) => cargo_deps(e, workspace_root(seq![s] + above, 0)),
            Err(_) => Seq::empty(),
        },
        Ecosystem::Python => match toml::toml_entries(s) {
            Ok(e) => python_deps(e),
            Err(_) => Seq::empty(),
        },
        Ecosystem::Go => go_deps(s),
    }
}

/// The Cargo workspace that a package belongs to: see [`workspace_root`].
fn find_workspace(texts: &Vec<String>) -> (r: Option<Vec<(String, Toml)>>)
    ensures
        match r {
            Some(e) => workspace_root(text::texts(texts@), 0) == Some(toml::entry_views(e@)),
            None => workspace_root(text::texts(texts@), 0) is None,
        },
{
    let ghost all = text::texts(texts@);
    let mut i: usize = 0;
    while i < texts.len()
        invariant
            i <= texts.len(),
            all == text::texts(texts@),
            workspace_root(all, 0) == workspace_root(all, i as int),
        decreases texts.len() - i,
    {
        assert(all[i as int] == texts@[i as int]@);
        if let Ok(entries) = toml::read(texts[i].as_str()) {
            if toml::get_table(&entries, "workspace").is_some() {
                return Some(entries);
            }
        }
        i += 1;
    }
    assert(all.len() == texts@.len());
    None
}

/// The names of the dependencies that a manifest declares. Versions, ranges and
/// protocols do not matter: an edge exists when a name is that of another
/// package. A manifest that cannot be read declares none. `above` holds the texts
/// of the `Cargo.toml` files in the directories above it, nearest first: a crate
/// belongs to the workspace of the nearest one, its own among them, that has a
/// `[workspace]` table.
pub fn manifest_deps(s: &str, eco: Ecosystem, above: &Vec<String>) -> (r: Vec<String>)
    ensures
        text::texts(r@) == declared_deps(s@, eco, text::texts(above@)),
{
    let none: Vec<String> = Vec::new();
    assert(text::texts(none@) =~= Seq::<Seq<char>>::empty());
    match eco {
        Ecosystem::Npm | Ecosystem::Bun => match json::read(s) {
            Some(fields) => package_json_deps(&fields),
            None => none,
        },
        Ecosystem::Cargo => match toml::read(s) {
            Ok(entries) => {
                let mut texts = text::copy_strings(above);
                let ghost before = text::texts(texts@);
                texts.insert(0, s.to_string());
                assert(text::texts(texts@) =~= seq![s@] + before);
                match find_workspace(&texts) {
                    Some(root) => cargo_toml_deps(&entries, Some(&root)),
                    None => cargo_toml_deps(&entries, None),
                }
            },
            Err(_) => none,
        },
        Ecosystem::Python => match toml::read(s) {
            Ok(entries) => pyproject_deps(&entries),
            Err(_) => none,
        },
        Ecosystem::Go => go_mod_deps(s),
    }
}

// ---------------------------------------------------------------------------
// Laws
// ---------------------------------------------------------------------------
/// The nearest manifest with a `[workspace]` table decides what an inherited
/// dependency names, whatever stands further out.
pub proof fn law_the_nearest_workspace_counts(
    s: Seq<char>,
    above: Seq<Seq<char>>,
    further: Seq<Seq<char>>,
)
    requires
        workspace_root(seq![s] + above, 0) is Some,
    ensures
        declared_deps(s, Ecosystem::Cargo, above + further) == declared_deps(
            s,
            Ecosystem::Cargo,
            above,
        ),
{
    assert(seq![s] + (above + further) =~= (seq![s] + above) + further);
    lemma_nearest_workspace(seq![s] + above, further, 0);
}

proof fn lemma_nearest_workspace(near: Seq<Seq<char>>, further: Seq<Seq<char>>, from: int)
    requires
        0 <= from <= near.len(),
        workspace_root(near, from) is Some,
    ensures
        workspace_root(near + further, from) == workspace_root(near, from),
    decreases near.len() - from,
{
    if from < near.len() {
        assert((near + further)[from] == near[from]);
        if workspace_root(near, from) == workspace_root(near, from + 1) {
            lemma_nearest_workspace(near, further, from + 1);
        }
    }
}

proof fn lemma_dist_end(s: Seq<char>, from: int, n: int)
    requires
        0 <= from <= n <= s.len(),
        forall|i: int| from <= i < n ==> is_dist_char(#[trigger] s[i]),
        n < s.len() ==> !is_dist_char(s[n]),
    ensures
        dist_end(s, from) == n,
    decreases n - from,
{
    if from < n {
        assert(is_dist_char(s[from]));
        lemma_dist_end(s, from + 1, n);
    }
}

/// A requirement names the whole run of letters, digits, `-`, `_` and `.` that it
/// begins with, whatever comes behind it and whatever white space is in front.
#[verifier::spinoff_prover]
#[verifier::rlimit(80)]
pub proof fn law_requirement_names(front: Seq<char>, name: Seq<char>, rest: Seq<char>)
    requires
        forall|i: int| 0 <= i < front.len() ==> text::is_space(#[trigger] front[i]),
        name.len() > 0,
        forall|i: int|
            0 <= i < name.len() ==> {
                let c = #[trigger] name[i];
                ('a' <= c && c <= 'z') || ('A' <= c && c <= 'Z') || ('0' <= c && c <= '9') || c == '-'
                    || c == '_' || c == '.'
            },
        rest.len() > 0 ==> {
            let c = rest[0];
            !('a' <= c && c <= 'z') && !('A' <= c && c <= 'Z') && !('0' <= c && c <= '9') && c
                != '-' && c != '_' && c != '.'
        },
    ensures
        pep508_name(front + name + rest) == name,
{
    let s = name + rest;
    let t = text::trimmed(s);
    assert(name[0] == s[0]);
    let (a, b) = text::law_trimming_finds_the_middle(s);
    if a.len() > 0 {
        assert(a[0] == s[0]);
        assert(text::is_space(a[0]));
    }
    let last = name.len() - 1;
    assert(s[last] == name[last]);
    if t.len() < name.len() {
        assert(s[last] == b[last - t.len()]);
        assert(text::is_space(b[last - t.len()]));
    }
    assert forall|i: int| 0 <= i < t.len() implies #[trigger] t[i] == s[i] by {}
    assert forall|i: int| 0 <= i < name.len() implies is_dist_char(#[trigger] t[i]) by {
        assert(t[i] == name[i]);
    }
    if name.len() < t.len() {
        assert(t[name.len() as int] == rest[0]);
    }
    lemma_dist_end(t, 0, name.len() as int);
    assert(t.take(name.len() as int) =~= name);
    // What is in front is trimmed away.
    text::law_trimming(front, t, b);
    assert(a =~= Seq::empty());
    assert(s =~= t + b);
    assert(front + name + rest =~= front + s);
    assert(front + t + b =~= front + s);
}

/// What begins with no such character names nothing.
pub proof fn law_requirements_without_a_name(req: Seq<char>)
    requires
        text::trimmed(req).len() > 0 ==> {
            let c = text::trimmed(req)[0];
            !('a' <= c && c <= 'z') && !('A' <= c && c <= 'Z') && !('0' <= c && c <= '9') && c
                != '-' && c != '_' && c != '.'
        },
    ensures
        pep508_name(req) == Seq::<char>::empty(),
{
    assert(pep508_name(req) =~= Seq::<char>::empty());
}

/// An array of requirements names what each of its strings names, in order.
pub proof fn law_arrays_of_requirements(items: Seq<TomlView>, names: Seq<Seq<char>>, n: int)
    requires
        0 <= n <= items.len(),
        names.len() == items.len(),
        forall|i: int|
            0 <= i < items.len() ==> (#[trigger] items[i]) is Str && pep508_name(items[i]->Str_0)
                == names[i] && names[i].len() > 0,
    ensures
        pep508_names(items, n) == names.take(n),
        n == items.len() ==> requirements(Some(TomlView::Array(items))) == names,
    decreases n,
{
    if n > 0 {
        law_arrays_of_requirements(items, names, n - 1);
        assert(items[n - 1] is Str);
        assert(names.take(n) =~= names.take(n - 1).push(names[n - 1]));
    } else {
        assert(names.take(0) =~= Seq::empty());
    }
    if n == items.len() {
        assert(names.take(n) =~= names);
    }
}

proof fn lemma_requirements_contain(items: Seq<TomlView>, n: int, k: int)
    requires
        0 <= k < n <= items.len(),
        items[k] is Str,
        pep508_name(items[k]->Str_0).len() > 0,
    ensures
        pep508_names(items, n).contains(pep508_name(items[k]->Str_0)),
    decreases n,
{
    let all = pep508_names(items, n);
    let x = pep508_name(items[k]->Str_0);
    if k == n - 1 {
        assert(all.last() == x);
    } else {
        lemma_requirements_contain(items, n - 1, k);
        let front = pep508_names(items, n - 1);
        let i = choose|i: int| 0 <= i < front.len() && front[i] == x;
        assert(all[i] == x);
    }
}

/// Every string of an array of requirements that names something counts.
pub proof fn law_every_requirement_counts(items: Seq<TomlView>, k: int)
    requires
        0 <= k < items.len(),
        items[k] is Str,
        pep508_name(items[k]->Str_0).len() > 0,
    ensures
        requirements(Some(TomlView::Array(items))).contains(pep508_name(items[k]->Str_0)),
{
    lemma_requirements_contain(items, items.len() as int, k);
}

proof fn lemma_groups(e: toml::Entries, n: int, x: Seq<char>)
    requires
        0 <= n <= e.len(),
    ensures
        group_requirements(e, n).contains(x) <==> exists|g: int|
            0 <= g < n && requirements(Some((#[trigger] e[g]).1)).contains(x),
    decreases n,
{
    if n > 0 {
        lemma_groups(e, n - 1, x);
        let front = group_requirements(e, n - 1);
        let here = requirements(Some(e[n - 1].1));
        lemma_contains_sum(front, here, x);
        if exists|g: int| 0 <= g < n && requirements(Some((#[trigger] e[g]).1)).contains(x) {
            let g = choose|g: int|
                0 <= g < n && requirements(Some((#[trigger] e[g]).1)).contains(x);
            if g < n - 1 {
                assert(requirements(Some(e[g].1)).contains(x));
            }
        }
        if here.contains(x) {
            assert(requirements(Some(e[n - 1].1)).contains(x));
        }
    }
}

proof fn lemma_contains_sum(a: Seq<Seq<char>>, b: Seq<Seq<char>>, x: Seq<char>)
    ensures
        (a + b).contains(x) <==> a.contains(x) || b.contains(x),
{
    if a.contains(x) {
        let i = choose|i: int| 0 <= i < a.len() && a[i] == x;
        assert((a + b)[i] == x);
    }
    if b.contains(x) {
        let i = choose|i: int| 0 <= i < b.len() && b[i] == x;
        assert((a + b)[a.len() + i] == x);
    }
    if (a + b).contains(x) {
        let i = choose|i: int| 0 <= i < (a + b).len() && (a + b)[i] == x;
        if i < a.len() {
            assert(a[i] == x);
        } else {
            assert(b[i - a.len()] == x);
        }
    }
}

proof fn lemma_poetry_groups(e: toml::Entries, n: int, x: Seq<char>)
    requires
        0 <= n <= e.len(),
    ensures
        poetry_groups(e, n).contains(x) <==> exists|g: int|
            0 <= g < n && table_keys(toml::field((#[trigger] e[g]).1, "dependencies"@)).contains(x),
    decreases n,
{
    if n > 0 {
        lemma_poetry_groups(e, n - 1, x);
        let front = poetry_groups(e, n - 1);
        let here = table_keys(toml::field(e[n - 1].1, "dependencies"@));
        lemma_contains_sum(front, here, x);
        if exists|g: int|
            0 <= g < n && table_keys(toml::field((#[trigger] e[g]).1, "dependencies"@)).contains(
                x,
            ) {
            let g = choose|g: int|
                0 <= g < n && table_keys(
                    toml::field((#[trigger] e[g]).1, "dependencies"@),
                ).contains(x);
            if g < n - 1 {
                assert(table_keys(toml::field(e[g].1, "dependencies"@)).contains(x));
            }
        }
        if here.contains(x) {
            assert(table_keys(toml::field(e[n - 1].1, "dependencies"@)).contains(x));
        }
    }
}

/// What a `pyproject.toml` depends on: what its `project` table does, what its
/// `dependency-groups` require, and what Poetry's tables name. Nothing else counts.
pub proof fn law_python_sources(e: toml::Entries, x: Seq<char>)
    ensures
        python_deps(e).contains(x) <==> project_deps(e).contains(x) || groups_at(
            e,
            "dependency-groups"@,
        ).contains(x) || poetry_deps(e).contains(x),
        toml::table_at(e, "project"@) is None ==> !project_deps(e).contains(x),
        toml::table_at(e, "tool"@) is None ==> !poetry_deps(e).contains(x),
{
    lemma_contains_sum(project_deps(e) + groups_at(e, "dependency-groups"@), poetry_deps(e), x);
    lemma_contains_sum(project_deps(e), groups_at(e, "dependency-groups"@), x);
}

/// A table of groups requires what each of its groups does.
pub proof fn law_groups_of_requirements(
    e: toml::Entries,
    key: Seq<char>,
    groups: toml::Entries,
    x: Seq<char>,
)
    ensures
        toml::table_at(e, key) == Some(groups) ==> (groups_at(e, key).contains(x) <==> exists|g: int|
            0 <= g < groups.len() && requirements(Some((#[trigger] groups[g]).1)).contains(x)),
        toml::table_at(e, key) is None ==> !groups_at(e, key).contains(x),
{
    if toml::table_at(e, key) == Some(groups) {
        lemma_groups(groups, groups.len() as int, x);
    }
}

/// The `project` table depends on what its `dependencies` require, and on what each
/// of its `optional-dependencies` does.
pub proof fn law_project_sources(e: toml::Entries, p: toml::Entries, x: Seq<char>)
    requires
        toml::table_at(e, "project"@) == Some(p),
    ensures
        project_deps(e).contains(x) <==> requirements(toml::lookup(p, "dependencies"@)).contains(x)
            || groups_at(p, "optional-dependencies"@).contains(x),
{
    lemma_contains_sum(
        requirements(toml::lookup(p, "dependencies"@)),
        groups_at(p, "optional-dependencies"@),
        x,
    );
}

/// Poetry's tables name their own keys, and the keys of the `dependencies` of each of
/// their groups.
pub proof fn law_poetry_sources(
    e: toml::Entries,
    tool: toml::Entries,
    p: toml::Entries,
    groups: toml::Entries,
    x: Seq<char>,
)
    requires
        toml::table_at(e, "tool"@) == Some(tool),
        toml::table_at(tool, "poetry"@) == Some(p),
    ensures
        toml::table_at(p, "group"@) is None ==> (poetry_deps(e).contains(x) <==> table_keys(
            toml::lookup(p, "dependencies"@),
        ).contains(x)),
        toml::table_at(p, "group"@) == Some(groups) ==> (poetry_deps(e).contains(x) <==> table_keys(
            toml::lookup(p, "dependencies"@),
        ).contains(x) || exists|g: int|
            0 <= g < groups.len() && table_keys(
                toml::field((#[trigger] groups[g]).1, "dependencies"@),
            ).contains(x)),
{
    let more = match toml::table_at(p, "group"@) {
        Some(g) => poetry_groups(g, g.len() as int),
        None => Seq::empty(),
    };
    lemma_contains_sum(table_keys(toml::lookup(p, "dependencies"@)), more, x);
    if toml::table_at(p, "group"@) == Some(groups) {
        lemma_poetry_groups(groups, groups.len() as int, x);
    }
}

/// The keys of a table are all its keys.
pub proof fn law_table_keys(e: toml::Entries, i: int)
    requires
        0 <= i < e.len(),
    ensures
        table_keys(Some(TomlView::Table(e))).contains(e[i].0),
        table_keys(Some(TomlView::Inline(e))).contains(e[i].0),
        table_keys(Some(TomlView::Table(e))).len() == e.len(),
        table_keys(None) == Seq::<Seq<char>>::empty(),
{
    assert(table_keys(Some(TomlView::Table(e)))[i] == e[i].0);
    assert(table_keys(Some(TomlView::Inline(e)))[i] == e[i].0);
    assert(table_keys(None) =~= Seq::<Seq<char>>::empty());
}

/// What a `package.json` depends on: the names under the four kinds of dependencies,
/// and no others.
pub proof fn law_json_sources(e: Seq<(Seq<char>, JsonFieldView)>, x: Seq<char>)
    ensures
        json_deps(e).contains(x) <==> ({
            let named = |kind: Seq<char>|
                json::lookup(e, kind) matches Some(JsonFieldView::Object(keys)) && keys.contains(x);
            named("dependencies"@) || named("devDependencies"@) || named("peerDependencies"@)
                || named("optionalDependencies"@)
        }),
{
    let a = json_kind(e, "dependencies"@);
    let b = json_kind(e, "devDependencies"@);
    let c = json_kind(e, "peerDependencies"@);
    let d = json_kind(e, "optionalDependencies"@);
    lemma_contains_sum(a + b + c, d, x);
    lemma_contains_sum(a + b, c, x);
    lemma_contains_sum(a, b, x);
    lemma_json_kind(e, "dependencies"@, x);
    lemma_json_kind(e, "devDependencies"@, x);
    lemma_json_kind(e, "peerDependencies"@, x);
    lemma_json_kind(e, "optionalDependencies"@, x);
}

proof fn lemma_json_kind(e: Seq<(Seq<char>, JsonFieldView)>, kind: Seq<char>, x: Seq<char>)
    ensures
        json_kind(e, kind).contains(x) <==> (json::lookup(e, kind) matches Some(
            JsonFieldView::Object(keys),
        ) && keys.contains(x)),
{
    if let Some(JsonFieldView::Object(keys)) = json::lookup(e, kind) {
        text::lemma_le_is_total_order();
        keys.lemma_sort_by_ensures(|a: Seq<char>, b: Seq<char>| text::le(a, b));
        let sorted = text::in_order(keys);
        keys.to_multiset_ensures();
        sorted.to_multiset_ensures();
        assert(keys.to_multiset() =~= sorted.to_multiset());
        assert(keys.to_multiset().count(x) == sorted.to_multiset().count(x));
    }
}

proof fn lemma_cargo_kinds(e: toml::Entries, root: Option<toml::Entries>, x: Seq<char>)
    ensures
        cargo_kinds(e, root).contains(x) <==> cargo_kind(e, "dependencies"@, root).contains(x)
            || cargo_kind(e, "dev-dependencies"@, root).contains(x) || cargo_kind(
            e,
            "build-dependencies"@,
            root,
        ).contains(x),
{
    let a = cargo_kind(e, "dependencies"@, root);
    let b = cargo_kind(e, "dev-dependencies"@, root);
    lemma_contains_sum(a + b, cargo_kind(e, "build-dependencies"@, root), x);
    lemma_contains_sum(a, b, x);
}

proof fn lemma_cargo_targets(e: toml::Entries, n: int, root: Option<toml::Entries>, x: Seq<char>)
    requires
        0 <= n <= e.len(),
    ensures
        cargo_targets(e, n, root).contains(x) <==> exists|g: int|
            0 <= g < n && toml::fields((#[trigger] e[g]).1) is Some && cargo_kinds(
                toml::fields(e[g].1)->0,
                root,
            ).contains(x),
    decreases n,
{
    if n > 0 {
        lemma_cargo_targets(e, n - 1, root, x);
        let front = cargo_targets(e, n - 1, root);
        let here = match toml::fields(e[n - 1].1) {
            Some(t) => cargo_kinds(t, root),
            None => Seq::empty(),
        };
        lemma_contains_sum(front, here, x);
        if here.contains(x) {
            assert(toml::fields(e[n - 1].1) is Some);
        }
    }
}

/// What a `Cargo.toml` depends on: what the entries of `dependencies`,
/// `dev-dependencies` and `build-dependencies` name, at the top and under each
/// `target`. Nothing else counts.
pub proof fn law_cargo_sources(e: toml::Entries, root: Option<toml::Entries>, x: Seq<char>)
    ensures
        ({
            let under = |t: toml::Entries, kind: Seq<char>|
                toml::table_at(t, kind) matches Some(d) && exists|i: int|
                    0 <= i < d.len() && crate_name((#[trigger] d[i]).1, d[i].0, root) == x;
            let kinds = |t: toml::Entries|
                under(t, "dependencies"@) || under(t, "dev-dependencies"@) || under(
                    t,
                    "build-dependencies"@,
                );
            let targets = toml::table_at(e, "target"@);
            cargo_deps(e, root).contains(x) <==> kinds(e) || (targets is Some && exists|g: int|
                0 <= g < targets->0.len() && toml::fields((#[trigger] targets->0[g]).1) is Some
                    && kinds(toml::fields(targets->0[g].1)->0))
        }),
{
    lemma_cargo_kinds(e, root, x);
    lemma_cargo_kind(e, "dependencies"@, root, x);
    lemma_cargo_kind(e, "dev-dependencies"@, root, x);
    lemma_cargo_kind(e, "build-dependencies"@, root, x);
    let targets = toml::table_at(e, "target"@);
    let more = match targets {
        Some(t) => cargo_targets(t, t.len() as int, root),
        None => Seq::empty(),
    };
    lemma_contains_sum(cargo_kinds(e, root), more, x);
    if let Some(t) = targets {
        lemma_cargo_targets(t, t.len() as int, root, x);
        assert forall|g: int|
            0 <= g < t.len() && toml::fields((#[trigger] t[g]).1) is Some implies cargo_kinds(
            toml::fields(t[g].1)->0,
            root,
        ).contains(x) == ({
            let d = toml::fields(t[g].1)->0;
            cargo_kind(d, "dependencies"@, root).contains(x) || cargo_kind(
                d,
                "dev-dependencies"@,
                root,
            ).contains(x) || cargo_kind(d, "build-dependencies"@, root).contains(x)
        }) by {
            lemma_cargo_kinds(toml::fields(t[g].1)->0, root, x);
        }
        assert forall|d: toml::Entries, kind: Seq<char>| #[trigger]
            cargo_kind(d, kind, root).contains(x) == (toml::table_at(d, kind) matches Some(v)
                && exists|i: int|
                0 <= i < v.len() && crate_name((#[trigger] v[i]).1, v[i].0, root) == x) by {
            lemma_cargo_kind(d, kind, root, x);
        }
    }
}

proof fn lemma_cargo_kind(
    e: toml::Entries,
    kind: Seq<char>,
    root: Option<toml::Entries>,
    x: Seq<char>,
)
    ensures
        cargo_kind(e, kind, root).contains(x) <==> (toml::table_at(e, kind) matches Some(d)
            && exists|i: int|
            0 <= i < d.len() && crate_name((#[trigger] d[i]).1, d[i].0, root) == x),
{
    if let Some(d) = toml::table_at(e, kind) {
        let v = crate_names(d, root);
        if v.contains(x) {
            let i = choose|i: int| 0 <= i < v.len() && v[i] == x;
            assert(crate_name(d[i].1, d[i].0, root) == x);
        }
        if exists|i: int| 0 <= i < d.len() && crate_name((#[trigger] d[i]).1, d[i].0, root) == x {
            let i = choose|i: int|
                0 <= i < d.len() && crate_name((#[trigger] d[i]).1, d[i].0, root) == x;
            assert(v[i] == x);
        }
    }
}

/// A dependency of a `Cargo.toml` names the crate that its `package` gives, or else
/// its key. One that is inherited is looked up under its key in the workspace's own
/// `dependencies`, and named by the same rule there.
pub proof fn law_crate_names(item: TomlView, key: Seq<char>, root: Option<toml::Entries>)
    ensures
        toml::field(item, "workspace"@) != Some(TomlView::Bool(true)) ==> crate_name(
            item,
            key,
            root,
        ) == match toml::field(item, "package"@) {
            Some(TomlView::Str(s)) => s,
            _ => key,
        },
        item is Str ==> crate_name(item, key, root) == key,
        toml::field(item, "workspace"@) == Some(TomlView::Bool(true)) ==> {
            let shared = match root {
                Some(r) => match toml::table_at(r, "workspace"@) {
                    Some(w) => match toml::table_at(w, "dependencies"@) {
                        Some(d) => toml::lookup(d, key),
                        None => None,
                    },
                    None => None,
                },
                None => None,
            };
            crate_name(item, key, root) == match shared {
                Some(i) => match toml::field(i, "package"@) {
                    Some(TomlView::Str(s)) => s,
                    _ => key,
                },
                None => key,
            }
        },
{
}

/// Which ecosystem a directory belongs to: `package.json` comes before the other
/// manifests, those in the order Cargo, Go, Python, and a Bun lock file only tells
/// Bun from npm.
pub proof fn law_ecosystems(m: Markers)
    ensures
        m.package_json && m.bun_lock ==> ecosystem_of(m) == Some(Ecosystem::Bun),
        m.package_json && !m.bun_lock ==> ecosystem_of(m) == Some(Ecosystem::Npm),
        !m.package_json && m.cargo_toml ==> ecosystem_of(m) == Some(Ecosystem::Cargo),
        !m.package_json && !m.cargo_toml && m.go_mod ==> ecosystem_of(m) == Some(Ecosystem::Go),
        ecosystem_of(m) == Some(Ecosystem::Python) <==> m.pyproject_toml && !m.package_json
            && !m.cargo_toml && !m.go_mod,
        ecosystem_of(m) is None <==> !m.package_json && !m.cargo_toml && !m.go_mod
            && !m.pyproject_toml,
{
}

/// What a task without a form of its own runs: the task's name, handed to the runner
/// of its ecosystem.
pub proof fn law_native_commands(eco: Ecosystem, task: Seq<char>)
    ensures
        native(eco, task).1[native(eco, task).1.len() - 1] == task,
        eco == Ecosystem::Cargo ==> native(eco, task).0 == "cargo"@ && native(eco, task).1.len()
            == 1,
        eco == Ecosystem::Go ==> native(eco, task).0 == "go"@ && native(eco, task).1.len() == 1,
        eco == Ecosystem::Npm ==> native(eco, task).0 == "npm"@,
        eco == Ecosystem::Bun ==> native(eco, task).0 == "bun"@,
        eco == Ecosystem::Python ==> native(eco, task).0 == "uv"@,
        eco != Ecosystem::Cargo && eco != Ecosystem::Go ==> native(eco, task).1.len() == 2 && native(
            eco,
            task,
        ).1[0] == "run"@,
{
}

/// The name that a manifest declares: `package.name` of a `Cargo.toml`, `name` of a
/// `package.json`, and of a `pyproject.toml` `project.name` before Poetry's.
pub proof fn law_manifest_names(e: toml::Entries, j: Seq<(Seq<char>, JsonFieldView)>, n: Seq<char>)
    ensures
        toml::table_at(e, "package"@) matches Some(t) && toml::lookup(t, "name"@) == Some(
            TomlView::Str(n),
        ) ==> table_name(e, "package"@) == Some(n),
        toml::table_at(e, "project"@) matches Some(t) && toml::lookup(t, "name"@) == Some(
            TomlView::Str(n),
        ) ==> python_name(e) == Some(n),
        table_name(e, "project"@) is None && (toml::table_at(e, "tool"@) matches Some(tool)
            && toml::table_at(tool, "poetry"@) matches Some(p) && toml::lookup(p, "name"@) == Some(
            TomlView::Str(n),
        )) ==> python_name(e) == Some(n),
        json::lookup(j, "name"@) == Some(JsonFieldView::Str(n)) ==> json_name(j) == Some(n),
        json_name(j) matches Some(s) ==> json::lookup(j, "name"@) == Some(JsonFieldView::Str(s)),
{
}

proof fn lemma_comment_at(s: Seq<char>, from: int, n: int)
    requires
        0 <= from <= n <= s.len(),
        forall|i: int| from <= i < n ==> !((#[trigger] s[i]) == '/' && i + 1 < s.len() && s[i + 1] == '/'),
        n < s.len() ==> s[n] == '/' && n + 1 < s.len() && s[n + 1] == '/',
    ensures
        comment_at(s, from) == n,
    decreases n - from,
{
    if from < n {
        lemma_comment_at(s, from + 1, n);
    }
}

/// What stands behind `//` in a line of a `go.mod` is no part of it, nor is the white
/// space around the rest; a single `/` is.
pub proof fn law_go_comments(line: Seq<char>, comment: Seq<char>)
    requires
        forall|i: int|
            0 <= i < line.len() - 1 ==> !((#[trigger] line[i]) == '/' && line[i + 1] == '/'),
    ensures
        go_line(line) == text::trimmed(line),
        line.len() > 0 && line[line.len() - 1] == '/' || go_line(line + seq!['/', '/'] + comment)
            == text::trimmed(line),
{
    lemma_comment_at(line, 0, line.len() as int);
    assert(line.take(line.len() as int) =~= line);
    if !(line.len() > 0 && line[line.len() - 1] == '/') {
        let s = line + seq!['/', '/'] + comment;
        assert forall|i: int| 0 <= i < line.len() implies !((#[trigger] s[i]) == '/' && i + 1
            < s.len() && s[i + 1] == '/') by {
            assert(s[i] == line[i]);
            if i + 1 < line.len() {
                assert(s[i + 1] == line[i + 1]);
            }
        }
        assert(s[line.len() as int] == '/' && s[line.len() as int + 1] == '/');
        lemma_comment_at(s, 0, line.len() as int);
        assert(s.take(line.len() as int) =~= line);
    }
}

/// The lines of a `go.mod`, one after the other. `require name ...` and
/// `replace name ...` name one module, `require (` and `replace (` open a block in
/// which every line names one, and `)` closes it. Other lines name nothing.
pub proof fn law_go_directives(
    names: Seq<Seq<char>>,
    directive: Seq<char>,
    gap: Seq<char>,
    name: Seq<char>,
    rest: Seq<char>,
)
    requires
        directive == "require"@ || directive == "replace"@,
        gap.len() > 0,
        forall|i: int| 0 <= i < gap.len() ==> text::is_space(#[trigger] gap[i]),
        name.len() > 0,
        forall|i: int| 0 <= i < name.len() ==> !text::is_space(#[trigger] name[i]),
        rest.len() == 0 || text::is_space(rest[0]) && !text::is_space(rest[rest.len() - 1]),
    ensures
        name + rest != seq!['('] ==> go_step((false, names), directive + gap + name + rest) == (
            false,
            names.push(name),
        ),
        go_step((false, names), directive + gap + seq!['(']) == (true, names),
        name + rest != seq![')'] ==> go_step((true, names), name + rest) == (
            true,
            names.push(name),
        ),
        go_step((true, names), seq![')']) == (false, names),
        go_step((true, names), Seq::empty()) == (true, names),
        go_step((false, names), Seq::empty()) == (false, names),
{
    reveal_strlit("require");
    reveal_strlit("replace");
    let body = name + rest;
    let line = directive + gap + name + rest;
    text::law_prefixes(line, directive, gap + body);
    assert(line =~= directive + (gap + body));
    let none = Seq::<char>::empty();
    assert(body[0] == name[0]);
    assert(!text::is_space(name[0]));
    if rest.len() > 0 {
        assert(body[body.len() - 1] == rest[rest.len() - 1]);
    } else {
        assert(body[body.len() - 1] == name[name.len() - 1]);
    }
    text::law_trimming(gap, body, none);
    assert(gap + body + none =~= gap + body);
    assert((gap + body)[0] == gap[0]);
    assert(directive_body(line, directive) == Some(body));
    lemma_first_word(name, rest);
    lemma_other_directive(directive, gap + body);
    let open = directive + gap + seq!['('];
    assert(open =~= directive + (gap + seq!['(']));
    text::law_prefixes(open, directive, gap + seq!['(']);
    text::law_trimming(gap, seq!['('], none);
    assert(gap + seq!['('] + none =~= gap + seq!['(']);
    assert((gap + seq!['('])[0] == gap[0]);
    assert(directive_body(open, directive) == Some(seq!['(']));
    lemma_other_directive(directive, gap + seq!['(']);
}

proof fn lemma_other_directive(directive: Seq<char>, rest: Seq<char>)
    requires
        directive == "require"@ || directive == "replace"@,
    ensures
        directive == "replace"@ ==> directive_body(directive + rest, "require"@) is None,
{
    reveal_strlit("require");
    reveal_strlit("replace");
    let s = directive + rest;
    if directive == "replace"@ && text::has_prefix(s, "require"@) {
        assert(s.take(7)[2] == 'q');
        assert(s[2] == directive[2]);
    }
}

proof fn lemma_first_word(name: Seq<char>, rest: Seq<char>)
    requires
        name.len() > 0,
        forall|i: int| 0 <= i < name.len() ==> !text::is_space(#[trigger] name[i]),
        rest.len() == 0 || text::is_space(rest[0]),
    ensures
        text::words(name + rest).len() > 0,
        text::words(name + rest)[0] == name,
{
    if rest.len() == 0 {
        assert(name + rest =~= name);
        text::law_words(name, ' ', Seq::empty());
    } else {
        text::law_words(name, rest[0], rest.skip(1));
        assert(name + seq![rest[0]] + rest.skip(1) =~= name + rest);
    }
}

/// A line of a `go.mod` outside a block that begins with neither word names nothing.
pub proof fn law_other_go_lines(names: Seq<Seq<char>>, line: Seq<char>)
    requires
        forall|rest: Seq<char>| line != #[trigger] ("require"@ + rest) && line != "replace"@ + rest,
    ensures
        go_step((false, names), line) == (false, names),
{
    let r = line.skip("require"@.len() as int);
    text::law_prefixes(line, "require"@, r);
    text::law_prefixes(line, "replace"@, r);
    if text::after_prefix(line, "require"@) is Some {
        let rest = text::after_prefix(line, "require"@)->0;
        assert(line == "require"@ + rest);
    }
    if text::after_prefix(line, "replace"@) is Some {
        let rest = text::after_prefix(line, "replace"@)->0;
        let other = "require"@ + rest;
        assert(line == "replace"@ + rest);
    }
}

/// All lines of a `go.mod` are read, in order.
pub proof fn law_go_files_are_read_by_line(lines: Seq<Seq<char>>, last: Seq<char>)
    requires
        lines.len() > 0,
        forall|i: int| 0 <= i < lines.len() ==> !(#[trigger] lines[i]).contains('\n'),
        !last.contains('\n'),
    ensures
        ({
            let s = text::joined(lines, seq!['\n']);
            go_deps(s + seq!['\n'] + last) == go_step(
                go_lines(lines, lines.len() as int),
                go_line(last),
            ).1 && go_deps(s) == go_lines(lines, lines.len() as int).1
        }),
{
    let all = lines.push(last);
    let s = text::joined(lines, seq!['\n']);
    text::law_joining(lines, seq![last], seq!['\n']);
    assert(lines + seq![last] =~= all);
    text::law_splitting(s, lines, '\n');
    assert forall|i: int| 0 <= i < all.len() implies !(#[trigger] all[i]).contains('\n') by {
        if i < lines.len() {
            assert(all[i] == lines[i]);
        }
    }
    text::law_splitting(s, all, '\n');
    lemma_go_lines_prefix(lines, all, lines.len() as int);
}

proof fn lemma_go_lines_prefix(a: Seq<Seq<char>>, b: Seq<Seq<char>>, n: int)
    requires
        n <= a.len() <= b.len(),
        forall|i: int| 0 <= i < a.len() ==> #[trigger] a[i] == b[i],
    ensures
        go_lines(a, n) == go_lines(b, n),
    decreases n,
{
    if n > 0 {
        lemma_go_lines_prefix(a, b, n - 1);
        assert(a[n - 1] == b[n - 1]);
    }
}

proof fn lemma_go_module_from(lines: Seq<Seq<char>>, from: int, k: int)
    requires
        0 <= from <= k < lines.len(),
        text::has_prefix(text::trimmed(lines[k]), "module "@),
        forall|i: int|
            from <= i < k ==> !text::has_prefix(text::trimmed(#[trigger] lines[i]), "module "@),
    ensures
        go_module_from(lines, from) == go_module_from(lines, k),
    decreases k - from,
{
    if from < k {
        assert(!text::has_prefix(text::trimmed(lines[from]), "module "@));
        lemma_go_module_from(lines, from + 1, k);
    }
}

/// The name of a Go module is what stands behind `module` in the first line that
/// begins with it, without the white space around it.
pub proof fn law_go_module_names(lines: Seq<Seq<char>>, k: int, name: Seq<char>)
    requires
        0 <= k < lines.len(),
        forall|i: int| 0 <= i < lines.len() ==> !(#[trigger] lines[i]).contains('\n'),
        text::trimmed(lines[k]) == "module "@ + name,
        name.len() > 0,
        !text::is_space(name[0]),
        forall|i: int|
            0 <= i < k ==> !text::has_prefix(text::trimmed(#[trigger] lines[i]), "module "@),
    ensures
        go_module(text::joined(lines, seq!['\n'])) == Some(name),
{
    text::law_splitting(Seq::empty(), lines, '\n');
    let t = text::trimmed(lines[k]);
    text::law_prefixes(t, "module "@, name);
    lemma_go_module_from(lines, 0, k);
    text::lemma_trimmed(lines[k], ' ');
    assert(t[t.len() - 1] == name[name.len() - 1]);
    text::law_trimming(Seq::empty(), name, Seq::empty());
    assert(Seq::<char>::empty() + name + Seq::<char>::empty() =~= name);
}

/// The name that a package declares is the one in its own manifest: `name` of a
/// `package.json`, of `[package]` of a `Cargo.toml`, of `[project]` or else
/// `[tool.poetry]` of a `pyproject.toml`, and the module of a `go.mod`. A manifest that
/// cannot be read declares none.
pub proof fn law_declared_names(s: Seq<char>, e: toml::Entries, j: Seq<(Seq<char>, JsonFieldView)>, n: Seq<char>)
    ensures
        json::json_fields(s) == Some(j) && json::lookup(j, "name"@) == Some(JsonFieldView::Str(n))
            ==> declared_name(s, Ecosystem::Npm) == Some(n) && declared_name(s, Ecosystem::Bun)
            == Some(n),
        json::json_fields(s) is None ==> declared_name(s, Ecosystem::Npm) is None && declared_name(
            s,
            Ecosystem::Bun,
        ) is None,
        toml::toml_entries(s) == Ok::<toml::Entries, Seq<char>>(e) && (toml::table_at(e, "package"@)
            matches Some(t) && toml::lookup(t, "name"@) == Some(TomlView::Str(n)))
            ==> declared_name(s, Ecosystem::Cargo) == Some(n),
        toml::toml_entries(s) == Ok::<toml::Entries, Seq<char>>(e) && toml::table_at(e, "package"@)
            is None ==> declared_name(s, Ecosystem::Cargo) is None,
        toml::toml_entries(s) == Ok::<toml::Entries, Seq<char>>(e) && (toml::table_at(e, "project"@)
            matches Some(t) && toml::lookup(t, "name"@) == Some(TomlView::Str(n)))
            ==> declared_name(s, Ecosystem::Python) == Some(n),
        toml::toml_entries(s) == Ok::<toml::Entries, Seq<char>>(e) && toml::table_at(e, "project"@)
            is None && (toml::table_at(e, "tool"@) matches Some(tool) && toml::table_at(
            tool,
            "poetry"@,
        ) matches Some(p) && toml::lookup(p, "name"@) == Some(TomlView::Str(n))) ==> declared_name(
            s,
            Ecosystem::Python,
        ) == Some(n),
        toml::toml_entries(s) is Err ==> declared_name(s, Ecosystem::Cargo) is None
            && declared_name(s, Ecosystem::Python) is None,
        declared_name(s, Ecosystem::Go) == go_module(s),
{
}

/// What a package declares that it depends on is read from its own manifest, by the rules
/// of its ecosystem; a manifest that cannot be read declares nothing.
pub proof fn law_declared_dependencies(s: Seq<char>, above: Seq<Seq<char>>)
    ensures
        declared_deps(s, Ecosystem::Bun, above) == declared_deps(s, Ecosystem::Npm, above),
        json::json_fields(s) matches Some(j) ==> declared_deps(s, Ecosystem::Npm, above)
            == json_deps(j),
        json::json_fields(s) is None ==> declared_deps(s, Ecosystem::Npm, above).len() == 0,
        toml::toml_entries(s) matches Ok(e) ==> declared_deps(s, Ecosystem::Python, above)
            == python_deps(e),
        toml::toml_entries(s) matches Ok(e) ==> declared_deps(s, Ecosystem::Cargo, above)
            == cargo_deps(e, workspace_root(seq![s] + above, 0)),
        toml::toml_entries(s) is Err ==> declared_deps(s, Ecosystem::Python, above).len() == 0
            && declared_deps(s, Ecosystem::Cargo, above).len() == 0,
        declared_deps(s, Ecosystem::Go, above) == go_deps(s),
{
}

/// The workspace of a crate is the nearest manifest that has a `[workspace]`, its own
/// first.
pub proof fn law_which_workspace_is_the_root(manifests: Seq<Seq<char>>, i: int)
    requires
        0 <= i < manifests.len(),
        toml::toml_entries(manifests[i]) is Ok,
        toml::table_at(toml::toml_entries(manifests[i])->Ok_0, "workspace"@) is Some,
        forall|k: int|
            0 <= k < i ==> (toml::toml_entries(#[trigger] manifests[k]) is Err || toml::table_at(
                toml::toml_entries(manifests[k])->Ok_0,
                "workspace"@,
            ) is None),
    ensures
        workspace_root(manifests, 0) == Some(toml::toml_entries(manifests[i])->Ok_0),
{
    lemma_workspace_at(manifests, 0, i);
}

proof fn lemma_workspace_at(manifests: Seq<Seq<char>>, from: int, i: int)
    requires
        0 <= from <= i < manifests.len(),
        toml::toml_entries(manifests[i]) is Ok,
        toml::table_at(toml::toml_entries(manifests[i])->Ok_0, "workspace"@) is Some,
        forall|k: int|
            from <= k < i ==> (toml::toml_entries(#[trigger] manifests[k]) is Err || toml::table_at(
                toml::toml_entries(manifests[k])->Ok_0,
                "workspace"@,
            ) is None),
    ensures
        workspace_root(manifests, from) == Some(toml::toml_entries(manifests[i])->Ok_0),
    decreases i - from,
{
    if from < i {
        assert(toml::toml_entries(manifests[from]) is Err || toml::table_at(
            toml::toml_entries(manifests[from])->Ok_0,
            "workspace"@,
        ) is None);
        lemma_workspace_at(manifests, from + 1, i);
    }
}

/// A `go.mod` begins outside a block: its first line is read as a directive, and without
/// a line there is no dependency.
pub proof fn law_go_files_begin_outside(line: Seq<char>)
    requires
        !line.contains('\n'),
    ensures
        go_deps(line) == go_step((false, Seq::empty()), go_line(line)).1,
        go_lines(Seq::empty(), 0) == (false, Seq::<Seq<char>>::empty()),
{
    let one = seq![line];
    text::law_splitting(line, one, '\n');
    text::law_joining(one, one, seq!['\n']);
    reveal_with_fuel(go_lines, 2);
}

/// Without a `module` line there is no module.
pub proof fn law_go_files_without_a_module(lines: Seq<Seq<char>>, from: int)
    requires
        0 <= from <= lines.len(),
        forall|i: int|
            from <= i < lines.len() ==> !text::has_prefix(
                text::trimmed(#[trigger] lines[i]),
                "module "@,
            ),
    ensures
        go_module_from(lines, from) is None,
    decreases lines.len() - from,
{
    if from < lines.len() {
        text::law_prefixes(text::trimmed(lines[from]), "module "@, Seq::empty());
        law_go_files_without_a_module(lines, from + 1);
    }
}

} // verus!
